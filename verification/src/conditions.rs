//! The conditions of conditional directives: boolean expressions over symbols that
//! are defined, undefined or not known.

use vstd::prelude::*;
use crate::labels::{is_white, white};
use crate::text::{chars_of, lower_text, lowercase, same_text, text_of};

verus! {

/// A truth value, or that it is not known.
#[derive(Debug, Clone, Copy, PartialEq, Eq, Structural)]
pub enum Truth {
    True,
    False,
    Unknown,
}

impl Truth {
    /// Negation.
    pub open spec fn negated(self) -> Truth {
        match self {
            Truth::True => Truth::False,
            Truth::False => Truth::True,
            Truth::Unknown => Truth::Unknown,
        }
    }

    /// Conjunction. It is false as soon as one side is.
    pub open spec fn and_also(self, other: Truth) -> Truth {
        if self == Truth::False || other == Truth::False {
            Truth::False
        } else if self == Truth::True && other == Truth::True {
            Truth::True
        } else {
            Truth::Unknown
        }
    }

    /// Disjunction. It is true as soon as one side is.
    pub open spec fn or_else(self, other: Truth) -> Truth {
        self.negated().and_also(other.negated()).negated()
    }

    /// Whether knowing more can turn this value into the other one.
    pub open spec fn refines_to(self, other: Truth) -> bool {
        self == Truth::Unknown || self == other
    }

    fn not(self) -> (r: Truth)
        ensures
            r == self.negated(),
    {
        match self {
            Truth::True => Truth::False,
            Truth::False => Truth::True,
            Truth::Unknown => Truth::Unknown,
        }
    }

    fn and(self, other: Truth) -> (r: Truth)
        ensures
            r == self.and_also(other),
    {
        match (self, other) {
            (Truth::False, _) => Truth::False,
            (_, Truth::False) => Truth::False,
            (Truth::True, Truth::True) => Truth::True,
            _ => Truth::Unknown,
        }
    }

    fn or(self, other: Truth) -> (r: Truth)
        ensures
            r == self.or_else(other),
    {
        self.not().and(other.not()).not()
    }
}

/// A symbol that was defined or undefined, under its lower-case name.
#[derive(Debug)]
pub struct SymbolEntry {
    pub name: String,
    pub defined: bool,
}

/// The mathematical value of a [`SymbolEntry`].
#[verifier::ext_equal]
pub struct SymbolModel {
    pub name: Seq<char>,
    pub defined: bool,
}

impl View for SymbolEntry {
    type V = SymbolModel;

    open spec fn view(&self) -> SymbolModel {
        SymbolModel { name: self.name@, defined: self.defined }
    }
}

/// The models of a list of symbols.
pub open spec fn symbol_models(v: Seq<SymbolEntry>) -> Seq<SymbolModel> {
    v.map_values(|s: SymbolEntry| s@)
}

/// Whether a symbol is defined, by the latest of the first `n` entries. A symbol
/// without an entry is undefined in a complete environment and not known in any
/// other.
pub open spec fn defined(symbols: Seq<SymbolModel>, complete: bool, name: Seq<char>, n: int) -> Truth
    decreases n,
{
    if n <= 0 || n > symbols.len() {
        if complete {
            Truth::False
        } else {
            Truth::Unknown
        }
    } else if symbols[n - 1].name == name {
        if symbols[n - 1].defined {
            Truth::True
        } else {
            Truth::False
        }
    } else {
        defined(symbols, complete, name, n - 1)
    }
}

/// Whether a symbol is defined. Names are compared without case.
pub open spec fn symbol_truth(symbols: Seq<SymbolModel>, complete: bool, name: Seq<char>) -> Truth {
    defined(symbols, complete, lower_text(name), symbols.len() as int)
}

/// Whether a symbol is defined.
pub fn look_up(symbols: &Vec<SymbolEntry>, complete: bool, name: &str) -> (r: Truth)
    ensures
        r == symbol_truth(symbol_models(symbols@), complete, name@),
{
    let key = lowercase(name);
    let ghost models = symbol_models(symbols@);
    assert(models.len() == symbols@.len());
    let mut n: usize = symbols.len();
    while n > 0
        invariant
            n <= symbols@.len(),
            key@ == lower_text(name@),
            models == symbol_models(symbols@),
            models.len() == symbols@.len(),
            defined(models, complete, key@, n as int) == defined(
                models,
                complete,
                key@,
                symbols@.len() as int,
            ),
        decreases n,
    {
        let entry = &symbols[n - 1];
        assert(models[n - 1] == entry@);
        if same_text(entry.name.as_str(), key.as_str()) {
            return if entry.defined {
                Truth::True
            } else {
                Truth::False
            };
        }
        n = n - 1;
    }
    if complete {
        Truth::False
    } else {
        Truth::Unknown
    }
}

// Words -------------------------------------------------------------------------------------------

/// Whether a character can start a word.
pub open spec fn starts_word(c: char) -> bool {
    ('a' <= c && c <= 'z') || ('A' <= c && c <= 'Z') || c == '_'
}

/// Whether a character can stand in a word.
pub open spec fn in_word(c: char) -> bool {
    starts_word(c) || ('0' <= c && c <= '9')
}

fn is_word_start(c: char) -> (r: bool)
    ensures
        r == starts_word(c),
{
    ('a' <= c && c <= 'z') || ('A' <= c && c <= 'Z') || c == '_'
}

fn is_word_char(c: char) -> (r: bool)
    ensures
        r == in_word(c),
{
    is_word_start(c) || ('0' <= c && c <= '9')
}

/// The index behind the word that goes on at `i`.
pub open spec fn word_stop(s: Seq<char>, i: int) -> int
    decreases s.len() - i,
{
    if i < 0 || i >= s.len() || !in_word(s[i]) {
        i
    } else {
        word_stop(s, i + 1)
    }
}

/// A word does not end before it starts, nor behind the text.
pub broadcast proof fn lemma_word_stop(s: Seq<char>, i: int)
    requires
        0 <= i <= s.len(),
    ensures
        i <= #[trigger] word_stop(s, i) <= s.len(),
        i < s.len() && in_word(s[i]) ==> i < word_stop(s, i),
    decreases s.len() - i,
{
    if i < s.len() && in_word(s[i]) {
        lemma_word_stop(s, i + 1);
    }
}

/// The index behind the word that goes on at `i`.
pub fn find_word_stop(chars: &Vec<char>, i: usize) -> (r: usize)
    requires
        i <= chars@.len(),
    ensures
        r == word_stop(chars@, i as int),
        i <= r <= chars@.len(),
{
    let mut k: usize = i;
    while k < chars.len() && is_word_char(chars[k])
        invariant
            i <= k <= chars@.len(),
            word_stop(chars@, i as int) == word_stop(chars@, k as int),
        decreases chars@.len() - k,
    {
        k = k + 1;
    }
    k
}

/// The first index at or behind `i` whose character is not white space.
pub open spec fn solid_from(s: Seq<char>, i: int) -> int
    decreases s.len() - i,
{
    if i < 0 || i >= s.len() || !is_white(s[i]) {
        i
    } else {
        solid_from(s, i + 1)
    }
}

/// The first index at or behind `i` whose character is not white space.
pub fn find_solid(chars: &Vec<char>, i: usize) -> (r: usize)
    requires
        i <= chars@.len(),
    ensures
        r == solid_from(chars@, i as int),
        i <= r <= chars@.len(),
        r < chars@.len() ==> !is_white(chars@[r as int]),
{
    let mut k: usize = i;
    while k < chars.len() && white(chars[k])
        invariant
            i <= k <= chars@.len(),
            solid_from(chars@, i as int) == solid_from(chars@, k as int),
        decreases chars@.len() - k,
    {
        k = k + 1;
    }
    k
}

/// The one word that a text holds between white space, if it holds nothing else.
pub open spec fn only_word(s: Seq<char>) -> Option<Seq<char>> {
    let start = solid_from(s, 0);
    let stop = word_stop(s, start);
    if start < s.len() && starts_word(s[start]) && solid_from(s, stop) == s.len() {
        Some(s.subrange(start, stop))
    } else {
        None
    }
}

/// The one word that a text holds between white space.
pub fn single_word(text: &str) -> (r: Option<String>)
    ensures
        match r {
            Some(word) => only_word(text@) == Some(word@),
            None => only_word(text@) is None,
        },
{
    let chars = chars_of(text);
    let start = find_solid(&chars, 0);
    if start >= chars.len() || !is_word_start(chars[start]) {
        return None;
    }
    let stop = find_word_stop(&chars, start);
    if find_solid(&chars, stop) == chars.len() {
        Some(text_of(&chars, start, stop))
    } else {
        None
    }
}

// Tokens ------------------------------------------------------------------------------------------

/// One token of a condition.
#[derive(Debug)]
pub enum Token {
    /// An opening bracket.
    Open,
    /// A closing bracket.
    Close,
    /// A word in lower case.
    Word(String),
}

/// The mathematical value of a [`Token`].
#[verifier::ext_equal]
pub enum TokenModel {
    Open,
    Close,
    Word(Seq<char>),
}

impl View for Token {
    type V = TokenModel;

    open spec fn view(&self) -> TokenModel {
        match *self {
            Token::Open => TokenModel::Open,
            Token::Close => TokenModel::Close,
            Token::Word(word) => TokenModel::Word(word@),
        }
    }
}

/// The models of a list of tokens.
pub open spec fn token_models(v: Seq<Token>) -> Seq<TokenModel> {
    v.map_values(|t: Token| t@)
}

/// The tokens of a text from `i` on, behind those read before, or `None` where a
/// character belongs to no token.
pub open spec fn tokens_from(s: Seq<char>, i: int, before: Seq<TokenModel>) -> Option<
    Seq<TokenModel>,
>
    decreases s.len() - i,
{
    if i < 0 || i >= s.len() {
        Some(before)
    } else if is_white(s[i]) {
        tokens_from(s, i + 1, before)
    } else if s[i] == '(' {
        tokens_from(s, i + 1, before.push(TokenModel::Open))
    } else if s[i] == ')' {
        tokens_from(s, i + 1, before.push(TokenModel::Close))
    } else if starts_word(s[i]) {
        proof {
            lemma_word_stop(s, i);
        }
        tokens_from(
            s,
            word_stop(s, i),
            before.push(TokenModel::Word(lower_text(s.subrange(i, word_stop(s, i))))),
        )
    } else {
        None
    }
}

/// The tokens of a condition.
pub open spec fn tokens(s: Seq<char>) -> Option<Seq<TokenModel>> {
    tokens_from(s, 0, Seq::empty())
}

/// Splits a condition into its tokens.
pub fn tokenize(text: &str) -> (r: Option<Vec<Token>>)
    ensures
        match r {
            Some(v) => tokens(text@) == Some(token_models(v@)),
            None => tokens(text@) is None,
        },
{
    let chars = chars_of(text);
    let mut out: Vec<Token> = Vec::new();
    let mut i: usize = 0;
    assert(token_models(out@) =~= Seq::empty());
    while i < chars.len()
        invariant
            i <= chars@.len(),
            chars@ == text@,
            tokens(text@) == tokens_from(chars@, i as int, token_models(out@)),
        decreases chars@.len() - i,
    {
        let c = chars[i];
        let ghost before = out@;
        if white(c) {
            i = i + 1;
        } else if c == '(' {
            out.push(Token::Open);
            assert(token_models(out@) =~= token_models(before).push(TokenModel::Open));
            i = i + 1;
        } else if c == ')' {
            out.push(Token::Close);
            assert(token_models(out@) =~= token_models(before).push(TokenModel::Close));
            i = i + 1;
        } else if is_word_start(c) {
            let stop = find_word_stop(&chars, i);
            proof {
                lemma_word_stop(chars@, i as int);
            }
            let word = lowercase(text_of(&chars, i, stop).as_str());
            let ghost model = TokenModel::Word(word@);
            out.push(Token::Word(word));
            assert(token_models(out@) =~= token_models(before).push(model));
            i = stop;
        } else {
            return None;
        }
    }
    Some(out)
}

// Evaluation --------------------------------------------------------------------------------------

/// How far an expression between two brackets has been read.
#[derive(Debug, Clone, Copy, PartialEq, Eq, Structural)]
pub struct Level {
    /// The alternatives before the one that is being read.
    pub any: Truth,
    /// The operands so far of the alternative that is being read.
    pub all: Truth,
    /// Whether the next operand is negated.
    pub negate: bool,
}

/// What may follow.
#[derive(Debug, Clone, Copy, PartialEq, Eq, Structural)]
pub enum Expect {
    Operand,
    Operator,
    /// The opening bracket behind `Defined`.
    DefinedOpen,
    /// The symbol behind that bracket.
    DefinedName,
    /// The closing bracket behind a symbol with this value.
    DefinedClose(Truth),
}

/// An expression that has been read in part: the open brackets from the outside
/// in, and what may follow.
#[verifier::ext_equal]
pub struct Reading {
    pub levels: Seq<Level>,
    pub expect: Expect,
}

/// A level of which nothing has been read.
pub open spec fn fresh_level() -> Level {
    Level { any: Truth::False, all: Truth::True, negate: false }
}

impl Level {
    /// The level with one more operand.
    pub open spec fn with(self, value: Truth) -> Level {
        let operand = if self.negate {
            value.negated()
        } else {
            value
        };
        Level { any: self.any, all: self.all.and_also(operand), negate: false }
    }

    /// The value of what has been read.
    pub open spec fn value(self) -> Truth {
        self.any.or_else(self.all)
    }

    fn add(self, value: Truth) -> (r: Level)
        ensures
            r == self.with(value),
    {
        let operand = if self.negate {
            value.not()
        } else {
            value
        };
        Level { any: self.any, all: self.all.and(operand), negate: false }
    }
}

impl Reading {
    /// The reading with another innermost level.
    pub open spec fn at_level(self, level: Level, expect: Expect) -> Reading {
        Reading { levels: self.levels.update(self.levels.len() - 1, level), expect }
    }

    /// The reading behind an operand.
    pub open spec fn operand(self, value: Truth) -> Reading {
        self.at_level(self.levels.last().with(value), Expect::Operator)
    }

    /// The reading behind one more token, or `None` where that token may not stand
    /// there. `NOT` binds closer than `AND`, and `AND` closer than `OR`.
    pub open spec fn read(self, symbols: Seq<SymbolModel>, complete: bool, token: TokenModel) -> Option<
        Reading,
    > {
        let top = self.levels.last();
        match (self.expect, token) {
            (Expect::Operand, TokenModel::Open) => Some(
                Reading { levels: self.levels.push(fresh_level()), expect: Expect::Operand },
            ),
            (Expect::Operand, TokenModel::Word(word)) => if word == "not"@ {
                Some(
                    self.at_level(
                        Level { any: top.any, all: top.all, negate: !top.negate },
                        Expect::Operand,
                    ),
                )
            } else if word == "true"@ {
                Some(self.operand(Truth::True))
            } else if word == "false"@ {
                Some(self.operand(Truth::False))
            } else if word == "defined"@ {
                Some(Reading { levels: self.levels, expect: Expect::DefinedOpen })
            } else {
                None
            },
            (Expect::Operator, TokenModel::Close) => if self.levels.len() > 1 {
                Some(
                    Reading {
                        levels: self.levels.drop_last(),
                        expect: Expect::Operator,
                    }.operand(top.value()),
                )
            } else {
                None
            },
            (Expect::Operator, TokenModel::Word(word)) => if word == "and"@ {
                Some(Reading { levels: self.levels, expect: Expect::Operand })
            } else if word == "or"@ {
                Some(
                    self.at_level(
                        Level { any: top.value(), all: Truth::True, negate: false },
                        Expect::Operand,
                    ),
                )
            } else {
                None
            },
            (Expect::DefinedOpen, TokenModel::Open) => Some(
                Reading { levels: self.levels, expect: Expect::DefinedName },
            ),
            (Expect::DefinedName, TokenModel::Word(word)) => Some(
                Reading {
                    levels: self.levels,
                    expect: Expect::DefinedClose(symbol_truth(symbols, complete, word)),
                },
            ),
            (Expect::DefinedClose(value), TokenModel::Close) => Some(self.operand(value)),
            _ => None,
        }
    }
}

/// The reading of which nothing has been read.
pub open spec fn unread() -> Reading {
    Reading { levels: seq![fresh_level()], expect: Expect::Operand }
}

/// The value of a condition whose first `i` tokens have been read, or `None` where
/// the tokens form no expression.
pub open spec fn value_from(
    symbols: Seq<SymbolModel>,
    complete: bool,
    tokens: Seq<TokenModel>,
    i: int,
    reading: Reading,
) -> Option<Truth>
    decreases tokens.len() - i,
{
    if i < 0 || i >= tokens.len() {
        if reading.expect == Expect::Operator && reading.levels.len() == 1 {
            Some(reading.levels.last().value())
        } else {
            None
        }
    } else {
        match reading.read(symbols, complete, tokens[i]) {
            Some(next) => value_from(symbols, complete, tokens, i + 1, next),
            None => None,
        }
    }
}

/// The value of a condition, or `None` where the tokens form no expression.
pub open spec fn condition_value(
    symbols: Seq<SymbolModel>,
    complete: bool,
    tokens: Seq<TokenModel>,
) -> Option<Truth> {
    value_from(symbols, complete, tokens, 0, unread())
}

fn settle(levels: &mut Vec<Level>, value: Truth)
    requires
        old(levels)@.len() > 0,
    ensures
        final(levels)@ == old(levels)@.update(
            old(levels)@.len() - 1,
            old(levels)@.last().with(value),
        ),
{
    let last = levels.len() - 1;
    let level = levels[last].add(value);
    levels.set(last, level);
}

/// Evaluates a condition.
pub fn evaluate(symbols: &Vec<SymbolEntry>, complete: bool, tokens: &Vec<Token>) -> (r: Option<Truth>)
    ensures
        r == condition_value(symbol_models(symbols@), complete, token_models(tokens@)),
{
    let ghost known = symbol_models(symbols@);
    let ghost all = token_models(tokens@);
    let mut levels: Vec<Level> = Vec::new();
    levels.push(Level { any: Truth::False, all: Truth::True, negate: false });
    let mut expect: Expect = Expect::Operand;
    let mut i: usize = 0;
    assert(levels@ =~= seq![fresh_level()]);
    assert(all.len() == tokens@.len());
    while i < tokens.len()
        invariant
            i <= tokens@.len(),
            known == symbol_models(symbols@),
            all == token_models(tokens@),
            all.len() == tokens@.len(),
            levels@.len() > 0,
            value_from(known, complete, all, i as int, (Reading { levels: levels@, expect }))
                == condition_value(known, complete, all),
        decreases tokens@.len() - i,
    {
        let ghost reading = Reading { levels: levels@, expect };
        let token = &tokens[i];
        assert(all[i as int] == token@);
        let last = levels.len() - 1;
        let top = levels[last];
        match (expect, token) {
            (Expect::Operand, Token::Open) => {
                levels.push(Level { any: Truth::False, all: Truth::True, negate: false });
            },
            (Expect::Operand, Token::Word(word)) => {
                if same_text(word.as_str(), "not") {
                    levels.set(last, Level { any: top.any, all: top.all, negate: !top.negate });
                } else if same_text(word.as_str(), "true") {
                    settle(&mut levels, Truth::True);
                    expect = Expect::Operator;
                } else if same_text(word.as_str(), "false") {
                    settle(&mut levels, Truth::False);
                    expect = Expect::Operator;
                } else if same_text(word.as_str(), "defined") {
                    expect = Expect::DefinedOpen;
                } else {
                    return None;
                }
            },
            (Expect::Operator, Token::Close) => {
                if levels.len() < 2 {
                    return None;
                }
                levels.pop();
                assert(levels@ =~= reading.levels.drop_last());
                settle(&mut levels, top.any.or(top.all));
            },
            (Expect::Operator, Token::Word(word)) => {
                if same_text(word.as_str(), "and") {
                    expect = Expect::Operand;
                } else if same_text(word.as_str(), "or") {
                    levels.set(
                        last,
                        Level { any: top.any.or(top.all), all: Truth::True, negate: false },
                    );
                    expect = Expect::Operand;
                } else {
                    return None;
                }
            },
            (Expect::DefinedOpen, Token::Open) => {
                expect = Expect::DefinedName;
            },
            (Expect::DefinedName, Token::Word(word)) => {
                expect = Expect::DefinedClose(look_up(symbols, complete, word.as_str()));
            },
            (Expect::DefinedClose(value), Token::Close) => {
                settle(&mut levels, value);
                expect = Expect::Operator;
            },
            _ => {
                return None;
            },
        }
        assert(reading.read(known, complete, token@) == Some(Reading { levels: levels@, expect }));
        i = i + 1;
    }
    if let Expect::Operator = expect {
        if levels.len() == 1 {
            let top = levels[0];
            return Some(top.any.or(top.all));
        }
    }
    None
}

// Laws --------------------------------------------------------------------------------------------

/// Whether knowing more can turn one level into another.
spec fn level_refined(a: Level, b: Level) -> bool {
    a.any.refines_to(b.any) && a.all.refines_to(b.all) && a.negate == b.negate
}

/// Whether knowing more can turn the levels of one reading into those of another.
spec fn levels_refined(a: Seq<Level>, b: Seq<Level>) -> bool {
    a.len() == b.len() && forall|k: int|
        0 <= k < a.len() ==> #[trigger] level_refined(a[k], b[k])
}

/// Whether knowing more can turn one reading into another.
spec fn refined(a: Reading, b: Reading) -> bool {
    levels_refined(a.levels, b.levels) && match (a.expect, b.expect) {
        (Expect::DefinedClose(x), Expect::DefinedClose(y)) => x.refines_to(y),
        _ => a.expect == b.expect,
    }
}

proof fn lemma_at_level(a: Reading, b: Reading, x: Level, y: Level, expect: Expect)
    requires
        levels_refined(a.levels, b.levels),
        a.levels.len() > 0,
        level_refined(x, y),
    ensures
        levels_refined(a.at_level(x, expect).levels, b.at_level(y, expect).levels),
        a.at_level(x, expect).levels.len() == a.levels.len(),
{
    let p = a.at_level(x, expect).levels;
    let q = b.at_level(y, expect).levels;
    assert forall|k: int| 0 <= k < p.len() implies #[trigger] level_refined(p[k], q[k]) by {
        assert(level_refined(a.levels[k], b.levels[k]));
    }
}

proof fn lemma_operand(a: Reading, b: Reading, x: Truth, y: Truth)
    requires
        levels_refined(a.levels, b.levels),
        a.levels.len() > 0,
        x.refines_to(y),
    ensures
        refined(a.operand(x), b.operand(y)),
        a.operand(x).levels.len() == a.levels.len(),
{
    let n = a.levels.len() - 1;
    assert(level_refined(a.levels[n], b.levels[n]));
    lemma_at_level(
        a,
        b,
        a.levels.last().with(x),
        b.levels.last().with(y),
        Expect::Operator,
    );
}

proof fn lemma_read_refines(
    less: Seq<SymbolModel>,
    less_complete: bool,
    more: Seq<SymbolModel>,
    more_complete: bool,
    token: TokenModel,
    a: Reading,
    b: Reading,
)
    requires
        forall|name: Seq<char>|
            (#[trigger] symbol_truth(less, less_complete, name)).refines_to(
                symbol_truth(more, more_complete, name),
            ),
        refined(a, b),
        a.levels.len() > 0,
    ensures
        match (a.read(less, less_complete, token), b.read(more, more_complete, token)) {
            (Some(p), Some(q)) => refined(p, q) && p.levels.len() > 0,
            (None, None) => true,
            _ => false,
        },
{
    let n = a.levels.len() - 1;
    let x = a.levels[n];
    let y = b.levels[n];
    assert(level_refined(x, y));
    match (a.expect, token) {
        (Expect::Operand, TokenModel::Open) => {
            let p = a.levels.push(fresh_level());
            let q = b.levels.push(fresh_level());
            assert forall|k: int| 0 <= k < p.len() implies #[trigger] level_refined(p[k], q[k]) by {
                if k <= n {
                    assert(level_refined(a.levels[k], b.levels[k]));
                }
            }
        },
        (Expect::Operand, TokenModel::Word(word)) => {
            lemma_at_level(
                a,
                b,
                Level { any: x.any, all: x.all, negate: !x.negate },
                Level { any: y.any, all: y.all, negate: !y.negate },
                Expect::Operand,
            );
            lemma_operand(a, b, Truth::True, Truth::True);
            lemma_operand(a, b, Truth::False, Truth::False);
        },
        (Expect::Operator, TokenModel::Close) => {
            if n > 0 {
                let outer = Reading { levels: a.levels.drop_last(), expect: Expect::Operator };
                let other = Reading { levels: b.levels.drop_last(), expect: Expect::Operator };
                assert forall|k: int| 0 <= k < n implies #[trigger] level_refined(
                    outer.levels[k],
                    other.levels[k],
                ) by {
                    assert(level_refined(a.levels[k], b.levels[k]));
                }
                lemma_operand(outer, other, x.value(), y.value());
            }
        },
        (Expect::Operator, TokenModel::Word(word)) => {
            lemma_at_level(
                a,
                b,
                Level { any: x.value(), all: Truth::True, negate: false },
                Level { any: y.value(), all: Truth::True, negate: false },
                Expect::Operand,
            );
        },
        (Expect::DefinedName, TokenModel::Word(word)) => {
            assert(symbol_truth(less, less_complete, word).refines_to(
                symbol_truth(more, more_complete, word),
            ));
        },
        (Expect::DefinedClose(value), TokenModel::Close) => {
            if let Expect::DefinedClose(other) = b.expect {
                lemma_operand(a, b, value, other);
            }
        },
        _ => {},
    }
}

proof fn lemma_value_refines(
    less: Seq<SymbolModel>,
    less_complete: bool,
    more: Seq<SymbolModel>,
    more_complete: bool,
    tokens: Seq<TokenModel>,
    i: int,
    a: Reading,
    b: Reading,
)
    requires
        forall|name: Seq<char>|
            (#[trigger] symbol_truth(less, less_complete, name)).refines_to(
                symbol_truth(more, more_complete, name),
            ),
        refined(a, b),
        a.levels.len() > 0,
    ensures
        match (
            value_from(less, less_complete, tokens, i, a),
            value_from(more, more_complete, tokens, i, b),
        ) {
            (Some(x), Some(y)) => x.refines_to(y),
            (None, None) => true,
            _ => false,
        },
    decreases tokens.len() - i,
{
    if 0 <= i < tokens.len() {
        lemma_read_refines(less, less_complete, more, more_complete, tokens[i], a, b);
        let p = a.read(less, less_complete, tokens[i]);
        let q = b.read(more, more_complete, tokens[i]);
        if p is Some && q is Some {
            lemma_value_refines(
                less,
                less_complete,
                more,
                more_complete,
                tokens,
                i + 1,
                p->0,
                q->0,
            );
        }
    } else {
        let n = a.levels.len() - 1;
        assert(level_refined(a.levels[n], b.levels[n]));
    }
}

/// What is known of a condition stays so when more is known of the symbols: its
/// form does not depend on them, and a value other than `Unknown` is final.
pub proof fn law_known_conditions_are_final(
    less: Seq<SymbolModel>,
    less_complete: bool,
    more: Seq<SymbolModel>,
    more_complete: bool,
    tokens: Seq<TokenModel>,
)
    requires
        forall|name: Seq<char>|
            (#[trigger] symbol_truth(less, less_complete, name)).refines_to(
                symbol_truth(more, more_complete, name),
            ),
    ensures
        match (
            condition_value(less, less_complete, tokens),
            condition_value(more, more_complete, tokens),
        ) {
            (Some(x), Some(y)) => x.refines_to(y),
            (None, None) => true,
            _ => false,
        },
{
    lemma_value_refines(
        less,
        less_complete,
        more,
        more_complete,
        tokens,
        0,
        unread(),
        unread(),
    );
}

proof fn lemma_defined(symbols: Seq<SymbolModel>, name: Seq<char>, n: int)
    ensures
        defined(symbols, false, name, n).refines_to(defined(symbols, true, name, n)),
        defined(symbols, true, name, n) != Truth::Unknown,
    decreases n,
{
    if 0 < n <= symbols.len() {
        lemma_defined(symbols, name, n - 1);
    }
}

/// Taking an environment for complete only decides what was not known.
pub proof fn law_complete_environment_only_decides(symbols: Seq<SymbolModel>, name: Seq<char>)
    ensures
        symbol_truth(symbols, false, name).refines_to(symbol_truth(symbols, true, name)),
        symbol_truth(symbols, true, name) != Truth::Unknown,
{
    lemma_defined(symbols, lower_text(name), symbols.len() as int);
}

/// A condition as a tree.
pub enum Expression {
    Constant(bool),
    /// Whether a symbol is defined. The name is in lower case.
    Defined(Seq<char>),
    Not(Box<Expression>),
    And(Box<Expression>, Box<Expression>),
    Or(Box<Expression>, Box<Expression>),
}

impl Expression {
    /// The value of the condition.
    pub open spec fn value(self, symbols: Seq<SymbolModel>, complete: bool) -> Truth
        decreases self,
    {
        match self {
            Expression::Constant(true) => Truth::True,
            Expression::Constant(false) => Truth::False,
            Expression::Defined(name) => symbol_truth(symbols, complete, name),
            Expression::Not(a) => a.value(symbols, complete).negated(),
            Expression::And(a, b) => a.value(symbols, complete).and_also(b.value(symbols, complete)),
            Expression::Or(a, b) => a.value(symbols, complete).or_else(b.value(symbols, complete)),
        }
    }

    /// The tokens of the condition where an operand is wanted: alternatives and
    /// conjunctions stand in brackets.
    pub open spec fn as_operand(self) -> Seq<TokenModel>
        decreases self, 0int,
    {
        match self {
            Expression::Constant(true) => seq![TokenModel::Word("true"@)],
            Expression::Constant(false) => seq![TokenModel::Word("false"@)],
            Expression::Defined(name) => seq![
                TokenModel::Word("defined"@),
                TokenModel::Open,
                TokenModel::Word(name),
                TokenModel::Close,
            ],
            Expression::Not(a) => seq![TokenModel::Word("not"@)] + a.as_operand(),
            Expression::And(a, b) => seq![TokenModel::Open] + (a.as_conjunction() + seq![
                TokenModel::Word("and"@),
            ] + b.as_operand()) + seq![TokenModel::Close],
            Expression::Or(a, b) => seq![TokenModel::Open] + (a.as_condition() + seq![
                TokenModel::Word("or"@),
            ] + b.as_conjunction()) + seq![TokenModel::Close],
        }
    }

    /// The tokens of the condition where a conjunction is wanted: alternatives
    /// stand in brackets.
    pub open spec fn as_conjunction(self) -> Seq<TokenModel>
        decreases self, 1int,
    {
        match self {
            Expression::And(a, b) => a.as_conjunction() + seq![TokenModel::Word("and"@)]
                + b.as_operand(),
            _ => self.as_operand(),
        }
    }

    /// The tokens of the condition, with no more brackets than needed.
    pub open spec fn as_condition(self) -> Seq<TokenModel>
        decreases self, 2int,
    {
        match self {
            Expression::Or(a, b) => a.as_condition() + seq![TokenModel::Word("or"@)]
                + b.as_conjunction(),
            _ => self.as_conjunction(),
        }
    }

    /// The level that reading the condition leaves behind.
    spec fn level(self, symbols: Seq<SymbolModel>, complete: bool, before: Level) -> Level
        decreases self,
    {
        match self {
            Expression::Or(a, b) => Level {
                any: a.level(symbols, complete, before).value(),
                all: Truth::True,
                negate: false,
            }.with(b.value(symbols, complete)),
            _ => before.with(self.value(symbols, complete)),
        }
    }
}

proof fn lemma_truth_laws(a: Truth, b: Truth, c: Truth)
    ensures
        a.and_also(b).and_also(c) == a.and_also(b.and_also(c)),
        a.or_else(b).or_else(c) == a.or_else(b.or_else(c)),
        Truth::True.and_also(a) == a,
        a.and_also(Truth::True) == a,
        Truth::False.or_else(a) == a,
        a.negated().negated() == a,
{
}

proof fn lemma_level_value(e: Expression, symbols: Seq<SymbolModel>, complete: bool, before: Level)
    requires
        before.all == Truth::True,
        !before.negate,
    ensures
        e.level(symbols, complete, before).value() == before.any.or_else(e.value(symbols, complete)),
        !e.level(symbols, complete, before).negate,
    decreases e,
{
    let v = e.value(symbols, complete);
    lemma_truth_laws(v, v, v);
    if let Expression::Or(a, b) = e {
        lemma_level_value(*a, symbols, complete, before);
        let x = a.value(symbols, complete);
        let y = b.value(symbols, complete);
        lemma_truth_laws(y, y, y);
        lemma_truth_laws(before.any, x, y);
    }
}

/// Whether a sequence of tokens stands at `i`.
spec fn stands(tokens: Seq<TokenModel>, i: int, part: Seq<TokenModel>) -> bool {
    0 <= i && i + part.len() <= tokens.len() && forall|k: int|
        0 <= k < part.len() ==> #[trigger] tokens[i + k] == part[k]
}

proof fn lemma_stands(tokens: Seq<TokenModel>, i: int, a: Seq<TokenModel>, b: Seq<TokenModel>)
    requires
        stands(tokens, i, a + b),
    ensures
        stands(tokens, i, a),
        stands(tokens, i + a.len(), b),
{
    let all = a + b;
    assert forall|k: int| 0 <= k < a.len() implies #[trigger] tokens[i + k] == a[k] by {
        assert(tokens[i + k] == all[k]);
    }
    assert forall|k: int| 0 <= k < b.len() implies #[trigger] tokens[i + a.len() + k] == b[k] by {
        assert(tokens[i + (a.len() + k)] == all[a.len() + k]);
    }
}

proof fn lemma_words()
    ensures
        "true"@ != "not"@,
        "false"@ != "not"@,
        "false"@ != "true"@,
        "defined"@ != "not"@,
        "defined"@ != "true"@,
        "defined"@ != "false"@,
        "or"@ != "and"@,
{
    reveal_strlit("true");
    reveal_strlit("false");
    reveal_strlit("not");
    reveal_strlit("defined");
    reveal_strlit("and");
    reveal_strlit("or");
    assert("true"@[0] != "not"@[0]);
    assert("false"@[0] != "not"@[0]);
    assert("false"@[0] != "true"@[0]);
    assert("defined"@[0] != "not"@[0]);
    assert("defined"@[0] != "true"@[0]);
    assert("defined"@[0] != "false"@[0]);
    assert("or"@[0] != "and"@[0]);
}

/// Reading brackets around something with a known effect has the effect of one
/// operand.
proof fn lemma_brackets(
    symbols: Seq<SymbolModel>,
    complete: bool,
    tokens: Seq<TokenModel>,
    i: int,
    len: nat,
    reading: Reading,
    level: Level,
)
    requires
        0 <= i,
        i + len + 2 <= tokens.len(),
        tokens[i] == TokenModel::Open,
        tokens[i + 1 + len] == TokenModel::Close,
        reading.expect == Expect::Operand,
        reading.levels.len() > 0,
        value_from(
            symbols,
            complete,
            tokens,
            i + 1,
            Reading { levels: reading.levels.push(fresh_level()), expect: Expect::Operand },
        ) == value_from(
            symbols,
            complete,
            tokens,
            i + 1 + len,
            Reading { levels: reading.levels.push(level), expect: Expect::Operator },
        ),
    ensures
        value_from(symbols, complete, tokens, i, reading) == value_from(
            symbols,
            complete,
            tokens,
            i + len + 2,
            reading.operand(level.value()),
        ),
{
    let inside = Reading { levels: reading.levels.push(level), expect: Expect::Operator };
    assert(inside.levels.drop_last() =~= reading.levels);
    assert(inside.levels.last() == level);
}

/// Reading the tokens of an operand has the effect of its value.
proof fn lemma_reads_operand(
    symbols: Seq<SymbolModel>,
    complete: bool,
    tokens: Seq<TokenModel>,
    i: int,
    reading: Reading,
    e: Expression,
)
    requires
        stands(tokens, i, e.as_operand()),
        reading.expect == Expect::Operand,
        reading.levels.len() > 0,
    ensures
        value_from(symbols, complete, tokens, i, reading) == value_from(
            symbols,
            complete,
            tokens,
            i + e.as_operand().len(),
            reading.operand(e.value(symbols, complete)),
        ),
    decreases e, 1int,
{
    lemma_words();
    let part = e.as_operand();
    let v = e.value(symbols, complete);
    lemma_truth_laws(v, v, v);
    match e {
        Expression::Constant(value) => {
            assert(tokens[i + 0] == part[0]);
        },
        Expression::Defined(name) => {
            assert(tokens[i + 0] == part[0]);
            assert(tokens[i + 1] == part[1]);
            assert(tokens[i + 2] == part[2]);
            assert(tokens[i + 3] == part[3]);
            let r1 = Reading { levels: reading.levels, expect: Expect::DefinedOpen };
            let r2 = Reading { levels: reading.levels, expect: Expect::DefinedName };
            let r3 = Reading { levels: reading.levels, expect: Expect::DefinedClose(v) };
            assert(value_from(symbols, complete, tokens, i, reading) == value_from(
                symbols,
                complete,
                tokens,
                i + 1,
                r1,
            ));
            assert(value_from(symbols, complete, tokens, i + 1, r1) == value_from(
                symbols,
                complete,
                tokens,
                i + 2,
                r2,
            ));
            assert(value_from(symbols, complete, tokens, i + 2, r2) == value_from(
                symbols,
                complete,
                tokens,
                i + 3,
                r3,
            ));
            assert(r3.operand(v) =~= reading.operand(v));
        },
        Expression::Not(a) => {
            let top = reading.levels.last();
            let next = reading.at_level(
                Level { any: top.any, all: top.all, negate: !top.negate },
                Expect::Operand,
            );
            lemma_stands(tokens, i, seq![TokenModel::Word("not"@)], a.as_operand());
            assert(tokens[i + 0] == part[0]);
            lemma_reads_operand(symbols, complete, tokens, i + 1, next, *a);
            let w = a.value(symbols, complete);
            lemma_truth_laws(w, w, w);
            assert(next.operand(w) =~= reading.operand(v));
        },
        Expression::And(a, b) => {
            let inner = a.as_conjunction() + seq![TokenModel::Word("and"@)] + b.as_operand();
            lemma_stands(tokens, i, seq![TokenModel::Open] + inner, seq![TokenModel::Close]);
            lemma_stands(tokens, i, seq![TokenModel::Open], inner);
            assert(tokens[i + 0] == part[0]);
            assert(tokens[i + (1 + inner.len())] == part[1 + inner.len() as int]);
            let start = Reading {
                levels: reading.levels.push(fresh_level()),
                expect: Expect::Operand,
            };
            lemma_reads_pair(symbols, complete, tokens, i + 1, start, e);
            let level = fresh_level().with(v);
            assert(start.operand(v).levels =~= reading.levels.push(level));
            lemma_brackets(symbols, complete, tokens, i, inner.len(), reading, level);
        },
        Expression::Or(a, b) => {
            let inner = a.as_condition() + seq![TokenModel::Word("or"@)] + b.as_conjunction();
            lemma_stands(tokens, i, seq![TokenModel::Open] + inner, seq![TokenModel::Close]);
            lemma_stands(tokens, i, seq![TokenModel::Open], inner);
            assert(tokens[i + 0] == part[0]);
            assert(tokens[i + (1 + inner.len())] == part[1 + inner.len() as int]);
            let start = Reading {
                levels: reading.levels.push(fresh_level()),
                expect: Expect::Operand,
            };
            lemma_reads_choice(symbols, complete, tokens, i + 1, start, e);
            let level = e.level(symbols, complete, fresh_level());
            assert(start.at_level(level, Expect::Operator).levels =~= reading.levels.push(level));
            lemma_level_value(e, symbols, complete, fresh_level());
            lemma_brackets(symbols, complete, tokens, i, inner.len(), reading, level);
        },
    }
}

/// Reading two operands with `AND` between them.
proof fn lemma_reads_pair(
    symbols: Seq<SymbolModel>,
    complete: bool,
    tokens: Seq<TokenModel>,
    i: int,
    reading: Reading,
    e: Expression,
)
    requires
        e is And,
        stands(tokens, i, e.as_conjunction()),
        reading.expect == Expect::Operand,
        reading.levels.len() > 0,
        !reading.levels.last().negate,
    ensures
        value_from(symbols, complete, tokens, i, reading) == value_from(
            symbols,
            complete,
            tokens,
            i + e.as_conjunction().len(),
            reading.operand(e.value(symbols, complete)),
        ),
    decreases e, 0int,
{
    if let Expression::And(a, b) = e {
        let word = seq![TokenModel::Word("and"@)];
        let n = a.as_conjunction().len();
        let x = a.value(symbols, complete);
        let y = b.value(symbols, complete);
        lemma_stands(tokens, i, a.as_conjunction() + word, b.as_operand());
        lemma_stands(tokens, i, a.as_conjunction(), word);
        assert(tokens[i + n + 0] == word[0]);
        lemma_reads_conjunction(symbols, complete, tokens, i, reading, *a);
        let first = reading.operand(x);
        let second = Reading { levels: first.levels, expect: Expect::Operand };
        assert(first.read(symbols, complete, tokens[i + n]) == Some(second));
        lemma_reads_operand(symbols, complete, tokens, i + n + 1, second, *b);
        lemma_truth_laws(reading.levels.last().all, x, y);
        assert(second.operand(y) =~= reading.operand(x.and_also(y)));
    }
}

/// Reading two conjunctions with `OR` between them.
proof fn lemma_reads_choice(
    symbols: Seq<SymbolModel>,
    complete: bool,
    tokens: Seq<TokenModel>,
    i: int,
    reading: Reading,
    e: Expression,
)
    requires
        e is Or,
        stands(tokens, i, e.as_condition()),
        reading.expect == Expect::Operand,
        reading.levels.len() > 0,
        reading.levels.last() == fresh_level(),
    ensures
        value_from(symbols, complete, tokens, i, reading) == value_from(
            symbols,
            complete,
            tokens,
            i + e.as_condition().len(),
            reading.at_level(e.level(symbols, complete, fresh_level()), Expect::Operator),
        ),
    decreases e, 0int,
{
    lemma_words();
    if let Expression::Or(a, b) = e {
        let word = seq![TokenModel::Word("or"@)];
        let n = a.as_condition().len();
        lemma_stands(tokens, i, a.as_condition() + word, b.as_conjunction());
        lemma_stands(tokens, i, a.as_condition(), word);
        assert(tokens[i + n + 0] == word[0]);
        lemma_reads_condition(symbols, complete, tokens, i, reading, *a);
        let left = a.level(symbols, complete, fresh_level());
        let first = reading.at_level(left, Expect::Operator);
        let second = reading.at_level(
            Level { any: left.value(), all: Truth::True, negate: false },
            Expect::Operand,
        );
        assert(first.read(symbols, complete, tokens[i + n]) == Some(second)) by {
            assert(first.levels.last() == left);
            assert(first.at_level(
                Level { any: left.value(), all: Truth::True, negate: false },
                Expect::Operand,
            ) =~= second);
        }
        lemma_reads_conjunction(symbols, complete, tokens, i + n + 1, second, *b);
        assert(second.operand(b.value(symbols, complete)) =~= reading.at_level(
            e.level(symbols, complete, fresh_level()),
            Expect::Operator,
        ));
    }
}

/// Reading the tokens of a condition.
proof fn lemma_reads_condition(
    symbols: Seq<SymbolModel>,
    complete: bool,
    tokens: Seq<TokenModel>,
    i: int,
    reading: Reading,
    e: Expression,
)
    requires
        stands(tokens, i, e.as_condition()),
        reading.expect == Expect::Operand,
        reading.levels.len() > 0,
        reading.levels.last() == fresh_level(),
    ensures
        value_from(symbols, complete, tokens, i, reading) == value_from(
            symbols,
            complete,
            tokens,
            i + e.as_condition().len(),
            reading.at_level(e.level(symbols, complete, fresh_level()), Expect::Operator),
        ),
    decreases e, 3int,
{
    if e is Or {
        lemma_reads_choice(symbols, complete, tokens, i, reading, e);
    } else {
        lemma_reads_conjunction(symbols, complete, tokens, i, reading, e);
    }
}

/// Reading the tokens of a conjunction has the effect of its value.
proof fn lemma_reads_conjunction(
    symbols: Seq<SymbolModel>,
    complete: bool,
    tokens: Seq<TokenModel>,
    i: int,
    reading: Reading,
    e: Expression,
)
    requires
        stands(tokens, i, e.as_conjunction()),
        reading.expect == Expect::Operand,
        reading.levels.len() > 0,
        !reading.levels.last().negate,
    ensures
        value_from(symbols, complete, tokens, i, reading) == value_from(
            symbols,
            complete,
            tokens,
            i + e.as_conjunction().len(),
            reading.operand(e.value(symbols, complete)),
        ),
    decreases e, 2int,
{
    if e is And {
        lemma_reads_pair(symbols, complete, tokens, i, reading, e);
    } else {
        lemma_reads_operand(symbols, complete, tokens, i, reading, e);
    }
}

/// The tokens of a condition, written with no more brackets than `NOT` before `AND`
/// before `OR` needs, have the value of the condition.
pub proof fn law_conditions_are_evaluated(
    symbols: Seq<SymbolModel>,
    complete: bool,
    e: Expression,
)
    ensures
        condition_value(symbols, complete, e.as_condition()) == Some(e.value(symbols, complete)),
{
    let tokens = e.as_condition();
    let v = e.value(symbols, complete);
    lemma_reads_condition(symbols, complete, tokens, 0, unread(), e);
    lemma_level_value(e, symbols, complete, fresh_level());
    lemma_truth_laws(v, v, v);
    let level = e.level(symbols, complete, fresh_level());
    assert(unread().at_level(level, Expect::Operator).levels =~= seq![level]);
}

} // verus!
