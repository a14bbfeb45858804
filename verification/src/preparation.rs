//! Preparation of a source under a configuration: conditional directives are
//! decided, chosen includes are expanded, and everything else that a compiler would
//! not see is masked.
//!
//! Nothing is read from files and nothing is guessed: the caller supplies every
//! source, says what each include stands for and which symbols are defined. What
//! cannot be decided from that is an error.

use vstd::prelude::*;
use std::ops::Range;
use crate::expansion::{expand_source, projected, JobModel, Projection};
use crate::prepared::{
    preparation_error, PreparationFidelity, PreparationProvenance, PreparedErrorModel,
    PreparedModel, PreparedSource, PreparedSourceError,
};
use crate::project::{push_source, shown_source, ProjectSourceId};
use crate::source_map::{snapshot_models, MapModel, SourceSnapshot};
use crate::syntax::pascal_nodes;
use crate::text::{
    debug_text, decimal, push_decimal, push_range, quoted, shown_range, texts,
};

verus! {

/// Whether symbols that were not named are known to be undefined.
#[derive(Debug, Clone, Copy, PartialEq, Eq, Structural)]
pub enum PreparationEnvironment {
    /// Every symbol that is not defined is undefined.
    Complete,
    /// Nothing is known of a symbol that was not named.
    Partial,
}

/// The resources that a preparation may use.
#[derive(Debug, Clone, Copy, PartialEq, Eq, Structural)]
pub struct PreparationLimits {
    /// Bytes of all supplied sources together.
    pub max_source_bytes: usize,
    /// Bytes of the prepared text.
    pub max_output_bytes: usize,
    /// Bytes of the source texts that are gone through, once per occurrence.
    pub max_work: usize,
    /// Directives that are met.
    pub max_directives: usize,
    /// Conditional groups that are open at a time.
    pub max_conditional_depth: usize,
    /// Bytes of one condition.
    pub max_expression_bytes: usize,
    /// Tokens of one condition.
    pub max_expression_tokens: usize,
    /// Includes that are expanded.
    pub max_expanded_occurrences: usize,
    /// Includes that are open at a time.
    pub max_include_depth: usize,
}

impl Default for PreparationLimits {
    fn default() -> (r: PreparationLimits)
        ensures
            r.max_source_bytes == 16777216,
            r.max_output_bytes == 16777216,
            r.max_work == 67108864,
            r.max_directives == 100000,
            r.max_conditional_depth == 256,
            r.max_expression_bytes == 16384,
            r.max_expression_tokens == 65536,
            r.max_expanded_occurrences == 4096,
            r.max_include_depth == 64,
    {
        PreparationLimits {
            max_source_bytes: 16777216,
            max_output_bytes: 16777216,
            max_work: 67108864,
            max_directives: 100000,
            max_conditional_depth: 256,
            max_expression_bytes: 16384,
            max_expression_tokens: 65536,
            max_expanded_occurrences: 4096,
            max_include_depth: 64,
        }
    }
}

/// One of the resources that [`PreparationLimits`] bounds.
#[derive(Debug, Clone, Copy, PartialEq, Eq, Structural)]
pub enum PreparationBudget {
    SourceBytes,
    OutputBytes,
    Work,
    Directives,
    ConditionalDepth,
    ExpressionBytes,
    ExpressionTokens,
    ExpandedOccurrences,
    IncludeDepth,
}

impl PreparationBudget {
    /// The name of the variant.
    pub open spec fn name(self) -> Seq<char> {
        match self {
            PreparationBudget::SourceBytes => "SourceBytes"@,
            PreparationBudget::OutputBytes => "OutputBytes"@,
            PreparationBudget::Work => "Work"@,
            PreparationBudget::Directives => "Directives"@,
            PreparationBudget::ConditionalDepth => "ConditionalDepth"@,
            PreparationBudget::ExpressionBytes => "ExpressionBytes"@,
            PreparationBudget::ExpressionTokens => "ExpressionTokens"@,
            PreparationBudget::ExpandedOccurrences => "ExpandedOccurrences"@,
            PreparationBudget::IncludeDepth => "IncludeDepth"@,
        }
    }

    fn name_text(self) -> (r: &'static str)
        ensures
            r@ == self.name(),
    {
        match self {
            PreparationBudget::SourceBytes => "SourceBytes",
            PreparationBudget::OutputBytes => "OutputBytes",
            PreparationBudget::Work => "Work",
            PreparationBudget::Directives => "Directives",
            PreparationBudget::ConditionalDepth => "ConditionalDepth",
            PreparationBudget::ExpressionBytes => "ExpressionBytes",
            PreparationBudget::ExpressionTokens => "ExpressionTokens",
            PreparationBudget::ExpandedOccurrences => "ExpandedOccurrences",
            PreparationBudget::IncludeDepth => "IncludeDepth",
        }
    }
}

/// Under which identity and configuration a source is prepared.
#[derive(Debug)]
pub struct PrepareSourceOptions {
    /// The identity of the prepared text.
    pub prepared_source_id: ProjectSourceId,
    /// The identity of the configuration.
    pub configuration_id: String,
    /// What is known of symbols that are not named.
    pub environment: PreparationEnvironment,
    /// The symbols that are defined at the start.
    pub initial_defined_symbols: Vec<String>,
    /// The symbols that are undefined at the start.
    pub initial_undefined_symbols: Vec<String>,
    /// The resources that may be used.
    pub limits: PreparationLimits,
}

fn owned_texts(names: &[&str]) -> (r: Vec<String>)
    ensures
        texts(r@) == names@.map_values(|name: &str| name@),
{
    let mut out: Vec<String> = Vec::new();
    let mut i: usize = 0;
    while i < names.len()
        invariant
            i <= names@.len(),
            out@.len() == i,
            forall|k: int| 0 <= k < i ==> (#[trigger] out@[k])@ == names@[k]@,
        decreases names@.len() - i,
    {
        out.push(names[i].to_owned());
        i = i + 1;
    }
    assert(texts(out@) =~= names@.map_values(|name: &str| name@));
    out
}

impl PrepareSourceOptions {
    /// Options with no named symbols and the default limits.
    pub fn new(
        prepared_source_id: ProjectSourceId,
        configuration_id: &str,
        environment: PreparationEnvironment,
    ) -> (r: PrepareSourceOptions)
        ensures
            r.prepared_source_id == prepared_source_id,
            r.configuration_id@ == configuration_id@,
            r.environment == environment,
            r.initial_defined_symbols@.len() == 0,
            r.initial_undefined_symbols@.len() == 0,
            call_ensures(PreparationLimits::default, (), r.limits),
    {
        PrepareSourceOptions {
            prepared_source_id,
            configuration_id: configuration_id.to_owned(),
            environment,
            initial_defined_symbols: Vec::new(),
            initial_undefined_symbols: Vec::new(),
            limits: PreparationLimits::default(),
        }
    }

    /// The options with these symbols as those that are defined at the start.
    pub fn with_initial_defined_symbols(self, symbols: &[&str]) -> (r: PrepareSourceOptions)
        ensures
            texts(r.initial_defined_symbols@) == symbols@.map_values(|name: &str| name@),
            r == (PrepareSourceOptions {
                initial_defined_symbols: r.initial_defined_symbols,
                ..self
            }),
    {
        PrepareSourceOptions {
            prepared_source_id: self.prepared_source_id,
            configuration_id: self.configuration_id,
            environment: self.environment,
            initial_defined_symbols: owned_texts(symbols),
            initial_undefined_symbols: self.initial_undefined_symbols,
            limits: self.limits,
        }
    }

    /// The options with these symbols as those that are undefined at the start.
    pub fn with_initial_undefined_symbols(self, symbols: &[&str]) -> (r: PrepareSourceOptions)
        ensures
            texts(r.initial_undefined_symbols@) == symbols@.map_values(|name: &str| name@),
            r == (PrepareSourceOptions {
                initial_undefined_symbols: r.initial_undefined_symbols,
                ..self
            }),
    {
        PrepareSourceOptions {
            prepared_source_id: self.prepared_source_id,
            configuration_id: self.configuration_id,
            environment: self.environment,
            initial_defined_symbols: self.initial_defined_symbols,
            initial_undefined_symbols: owned_texts(symbols),
            limits: self.limits,
        }
    }

    /// The options with other limits.
    pub fn with_limits(self, limits: PreparationLimits) -> (r: PrepareSourceOptions)
        ensures
            r == (PrepareSourceOptions { limits, ..self }),
    {
        PrepareSourceOptions {
            prepared_source_id: self.prepared_source_id,
            configuration_id: self.configuration_id,
            environment: self.environment,
            initial_defined_symbols: self.initial_defined_symbols,
            initial_undefined_symbols: self.initial_undefined_symbols,
            limits,
        }
    }
}

/// What an include directive at a place stands for.
#[derive(Debug, PartialEq, Eq)]
pub struct IncludeBinding {
    source_id: ProjectSourceId,
    byte_range: Range<usize>,
    target_id: ProjectSourceId,
}

/// The mathematical value of an [`IncludeBinding`].
#[verifier::ext_equal]
pub struct IncludeModel {
    pub source_id: Seq<char>,
    pub start: usize,
    pub end: usize,
    pub target_id: Seq<char>,
}

impl View for IncludeBinding {
    type V = IncludeModel;

    closed spec fn view(&self) -> IncludeModel {
        IncludeModel {
            source_id: self.source_id@,
            start: self.byte_range.start,
            end: self.byte_range.end,
            target_id: self.target_id@,
        }
    }
}

/// The models of a list of include bindings.
pub open spec fn include_models(v: Seq<IncludeBinding>) -> Seq<IncludeModel> {
    v.map_values(|b: IncludeBinding| b@)
}

impl IncludeBinding {
    /// Says that the directive in a range of a source stands for another source.
    pub fn new(
        source_id: ProjectSourceId,
        byte_range: Range<usize>,
        target_id: ProjectSourceId,
    ) -> (r: IncludeBinding)
        ensures
            r@ == (IncludeModel {
                source_id: source_id@,
                start: byte_range.start,
                end: byte_range.end,
                target_id: target_id@,
            }),
    {
        IncludeBinding { source_id, byte_range, target_id }
    }

    /// The source that holds the directive.
    pub fn source_id(&self) -> (r: &ProjectSourceId)
        ensures
            r@ == self@.source_id,
    {
        &self.source_id
    }

    /// The range of the directive.
    pub fn byte_range(&self) -> (r: Range<usize>)
        ensures
            r.start == self@.start,
            r.end == self@.end,
    {
        self.byte_range.start..self.byte_range.end
    }

    /// The source that the directive stands for.
    pub fn target_id(&self) -> (r: &ProjectSourceId)
        ensures
            r@ == self@.target_id,
    {
        &self.target_id
    }
}

impl Clone for IncludeBinding {
    fn clone(&self) -> (r: IncludeBinding)
        ensures
            r@ == self@,
    {
        IncludeBinding {
            source_id: self.source_id.clone(),
            byte_range: self.byte_range.start..self.byte_range.end,
            target_id: self.target_id.clone(),
        }
    }
}

/// The texts of a list of source identities.
pub open spec fn source_ids(v: Seq<ProjectSourceId>) -> Seq<Seq<char>> {
    v.map_values(|id: ProjectSourceId| id@)
}

/// Why a source could not be prepared.
#[derive(Debug, PartialEq, Eq)]
pub enum PrepareSourceError {
    /// The source to prepare was not supplied.
    SourceNotLoaded { source_id: ProjectSourceId },
    /// A symbol was named both as defined and as undefined.
    ConflictingInitialSymbol { name: String },
    /// A resource was used up.
    BudgetExceeded { budget: PreparationBudget, limit: usize },
    /// An include binding named a source that was not supplied.
    IncludeBindingSourceNotLoaded { source_id: ProjectSourceId },
    /// The range of an include binding is not that of an include directive.
    IncludeBindingNotIncludeDirective { source_id: ProjectSourceId, range: Range<usize> },
    /// An include binding stands for a source that was not supplied.
    IncludeTargetNotLoaded {
        source_id: ProjectSourceId,
        range: Range<usize>,
        target_id: ProjectSourceId,
    },
    /// Two include bindings speak of the same directive.
    DuplicateIncludeBinding { source_id: ProjectSourceId, range: Range<usize> },
    /// A directive or comment is malformed.
    InvalidDirective { source_id: ProjectSourceId, range: Range<usize> },
    /// A directive that takes effect is not supported.
    UnsupportedDirective { source_id: ProjectSourceId, range: Range<usize>, keyword: String },
    /// A condition that matters cannot be decided.
    UnknownActiveCondition { source_id: ProjectSourceId, range: Range<usize> },
    /// A conditional group is not opened, continued or closed as it must be.
    MalformedNesting { source_id: ProjectSourceId, range: Range<usize> },
    /// An include that takes effect has no binding.
    UnresolvedInclude { source_id: ProjectSourceId, range: Range<usize> },
    /// A source would include itself. The chain of sources starts at the root.
    IncludeCycle { source_id: ProjectSourceId, range: Range<usize>, cycle: Vec<ProjectSourceId> },
    /// Nothing but white space is left of the source.
    NoCompleteContent { source_id: ProjectSourceId },
    /// The prepared text was refused.
    Prepared(PreparedSourceError),
}

/// The mathematical value of a [`PrepareSourceError`].
pub enum PrepareErrorModel {
    SourceNotLoaded { source_id: Seq<char> },
    ConflictingInitialSymbol { name: Seq<char> },
    BudgetExceeded { budget: PreparationBudget, limit: usize },
    IncludeBindingSourceNotLoaded { source_id: Seq<char> },
    IncludeBindingNotIncludeDirective { source_id: Seq<char>, range: Range<usize> },
    IncludeTargetNotLoaded { source_id: Seq<char>, range: Range<usize>, target_id: Seq<char> },
    DuplicateIncludeBinding { source_id: Seq<char>, range: Range<usize> },
    InvalidDirective { source_id: Seq<char>, range: Range<usize> },
    UnsupportedDirective { source_id: Seq<char>, range: Range<usize>, keyword: Seq<char> },
    UnknownActiveCondition { source_id: Seq<char>, range: Range<usize> },
    MalformedNesting { source_id: Seq<char>, range: Range<usize> },
    UnresolvedInclude { source_id: Seq<char>, range: Range<usize> },
    IncludeCycle { source_id: Seq<char>, range: Range<usize>, cycle: Seq<Seq<char>> },
    NoCompleteContent { source_id: Seq<char> },
    Prepared(PreparedErrorModel),
}

impl View for PrepareSourceError {
    type V = PrepareErrorModel;

    open spec fn view(&self) -> PrepareErrorModel {
        match *self {
            PrepareSourceError::SourceNotLoaded { source_id } => {
                PrepareErrorModel::SourceNotLoaded { source_id: source_id@ }
            },
            PrepareSourceError::ConflictingInitialSymbol { name } => {
                PrepareErrorModel::ConflictingInitialSymbol { name: name@ }
            },
            PrepareSourceError::BudgetExceeded { budget, limit } => {
                PrepareErrorModel::BudgetExceeded { budget, limit }
            },
            PrepareSourceError::IncludeBindingSourceNotLoaded { source_id } => {
                PrepareErrorModel::IncludeBindingSourceNotLoaded { source_id: source_id@ }
            },
            PrepareSourceError::IncludeBindingNotIncludeDirective { source_id, range } => {
                PrepareErrorModel::IncludeBindingNotIncludeDirective {
                    source_id: source_id@,
                    range,
                }
            },
            PrepareSourceError::IncludeTargetNotLoaded { source_id, range, target_id } => {
                PrepareErrorModel::IncludeTargetNotLoaded {
                    source_id: source_id@,
                    range,
                    target_id: target_id@,
                }
            },
            PrepareSourceError::DuplicateIncludeBinding { source_id, range } => {
                PrepareErrorModel::DuplicateIncludeBinding { source_id: source_id@, range }
            },
            PrepareSourceError::InvalidDirective { source_id, range } => {
                PrepareErrorModel::InvalidDirective { source_id: source_id@, range }
            },
            PrepareSourceError::UnsupportedDirective { source_id, range, keyword } => {
                PrepareErrorModel::UnsupportedDirective {
                    source_id: source_id@,
                    range,
                    keyword: keyword@,
                }
            },
            PrepareSourceError::UnknownActiveCondition { source_id, range } => {
                PrepareErrorModel::UnknownActiveCondition { source_id: source_id@, range }
            },
            PrepareSourceError::MalformedNesting { source_id, range } => {
                PrepareErrorModel::MalformedNesting { source_id: source_id@, range }
            },
            PrepareSourceError::UnresolvedInclude { source_id, range } => {
                PrepareErrorModel::UnresolvedInclude { source_id: source_id@, range }
            },
            PrepareSourceError::IncludeCycle { source_id, range, cycle } => {
                PrepareErrorModel::IncludeCycle {
                    source_id: source_id@,
                    range,
                    cycle: source_ids(cycle@),
                }
            },
            PrepareSourceError::NoCompleteContent { source_id } => {
                PrepareErrorModel::NoCompleteContent { source_id: source_id@ }
            },
            PrepareSourceError::Prepared(error) => {
                PrepareErrorModel::Prepared(error@)
            },
        }
    }
}

/// A chain of source identities as error messages show it.
pub open spec fn shown_chain(ids: Seq<Seq<char>>, n: int) -> Seq<char>
    decreases n,
{
    if n <= 0 || n > ids.len() {
        ""@
    } else {
        shown_chain(ids, n - 1) + " "@ + shown_source(ids[n - 1])
    }
}

fn push_chain(to: &mut String, ids: &Vec<ProjectSourceId>)
    ensures
        final(to)@ == old(to)@ + shown_chain(source_ids(ids@), ids@.len() as int),
{
    let ghost all = source_ids(ids@);
    let mut i: usize = 0;
    proof {
        reveal_strlit("");
        assert(to@ + shown_chain(all, 0) =~= to@);
    }
    while i < ids.len()
        invariant
            i <= ids@.len(),
            all == source_ids(ids@),
            to@ == old(to)@ + shown_chain(all, i as int),
        decreases ids@.len() - i,
    {
        assert(all[i as int] == ids@[i as int]@);
        to.append(" ");
        push_source(to, &ids[i]);
        assert(to@ =~= old(to)@ + shown_chain(all, i + 1));
        i = i + 1;
    }
}

impl PrepareErrorModel {
    /// The error in words.
    pub open spec fn message(self) -> Seq<char> {
        match self {
            PrepareErrorModel::SourceNotLoaded { source_id } => {
                "source to prepare "@ + shown_source(source_id) + " is not loaded"@
            },
            PrepareErrorModel::ConflictingInitialSymbol { name } => {
                "initial symbol "@ + quoted(name) + " is both defined and undefined"@
            },
            PrepareErrorModel::BudgetExceeded { budget, limit } => {
                "preparation budget "@ + budget.name() + " of "@ + decimal(limit as nat)
                    + " exceeded"@
            },
            PrepareErrorModel::IncludeBindingSourceNotLoaded { source_id } => {
                "include binding source "@ + shown_source(source_id) + " is not loaded"@
            },
            PrepareErrorModel::IncludeBindingNotIncludeDirective { source_id, range } => {
                "include binding range "@ + shown_range(range.start, range.end) + " in source "@
                    + shown_source(source_id) + " is not an include directive"@
            },
            PrepareErrorModel::IncludeTargetNotLoaded { source_id, range, target_id } => {
                "include at "@ + shown_range(range.start, range.end) + " in source "@
                    + shown_source(source_id) + " targets missing source "@
                    + shown_source(target_id)
            },
            PrepareErrorModel::DuplicateIncludeBinding { source_id, range } => {
                "duplicate include binding for "@ + shown_range(range.start, range.end)
                    + " in source "@ + shown_source(source_id)
            },
            PrepareErrorModel::InvalidDirective { source_id, range } => {
                "invalid directive at "@ + shown_range(range.start, range.end) + " in source "@
                    + shown_source(source_id)
            },
            PrepareErrorModel::UnsupportedDirective { source_id, range, keyword } => {
                "unsupported directive "@ + quoted(keyword) + " at "@
                    + shown_range(range.start, range.end) + " in source "@
                    + shown_source(source_id)
            },
            PrepareErrorModel::UnknownActiveCondition { source_id, range } => {
                "condition at "@ + shown_range(range.start, range.end) + " in source "@
                    + shown_source(source_id) + " is unknown"@
            },
            PrepareErrorModel::MalformedNesting { source_id, range } => {
                "malformed conditional nesting at "@ + shown_range(range.start, range.end)
                    + " in source "@ + shown_source(source_id)
            },
            PrepareErrorModel::UnresolvedInclude { source_id, range } => {
                "include at "@ + shown_range(range.start, range.end) + " in source "@
                    + shown_source(source_id) + " has no selected target"@
            },
            PrepareErrorModel::IncludeCycle { source_id, range, cycle } => {
                "include at "@ + shown_range(range.start, range.end) + " in source "@
                    + shown_source(source_id) + " closes a cycle:"@
                    + shown_chain(cycle, cycle.len() as int)
            },
            PrepareErrorModel::NoCompleteContent { source_id } => {
                "source "@ + shown_source(source_id) + " has no active content"@
            },
            PrepareErrorModel::Prepared(error) => {
                "prepared text was refused: "@ + error.message()
            },
        }
    }
}

impl PrepareSourceError {
    /// The error in words.
    pub fn message(&self) -> (r: String)
        ensures
            r@ == self@.message(),
    {
        match self {
            PrepareSourceError::SourceNotLoaded { source_id } => {
                let mut out = "source to prepare ".to_owned();
                push_source(&mut out, source_id);
                out.append(" is not loaded");
                out
            },
            PrepareSourceError::ConflictingInitialSymbol { name } => {
                let mut out = "initial symbol ".to_owned();
                out.append(debug_text(name.as_str()).as_str());
                out.append(" is both defined and undefined");
                out
            },
            PrepareSourceError::BudgetExceeded { budget, limit } => {
                let mut out = "preparation budget ".to_owned();
                out.append(budget.name_text());
                out.append(" of ");
                push_decimal(&mut out, *limit);
                out.append(" exceeded");
                out
            },
            PrepareSourceError::IncludeBindingSourceNotLoaded { source_id } => {
                let mut out = "include binding source ".to_owned();
                push_source(&mut out, source_id);
                out.append(" is not loaded");
                out
            },
            PrepareSourceError::IncludeBindingNotIncludeDirective { source_id, range } => {
                let mut out = "include binding range ".to_owned();
                push_range(&mut out, range.start, range.end);
                out.append(" in source ");
                push_source(&mut out, source_id);
                out.append(" is not an include directive");
                out
            },
            PrepareSourceError::IncludeTargetNotLoaded { source_id, range, target_id } => {
                let mut out = "include at ".to_owned();
                push_range(&mut out, range.start, range.end);
                out.append(" in source ");
                push_source(&mut out, source_id);
                out.append(" targets missing source ");
                push_source(&mut out, target_id);
                out
            },
            PrepareSourceError::DuplicateIncludeBinding { source_id, range } => {
                let mut out = "duplicate include binding for ".to_owned();
                push_range(&mut out, range.start, range.end);
                out.append(" in source ");
                push_source(&mut out, source_id);
                out
            },
            PrepareSourceError::InvalidDirective { source_id, range } => {
                let mut out = "invalid directive at ".to_owned();
                push_range(&mut out, range.start, range.end);
                out.append(" in source ");
                push_source(&mut out, source_id);
                out
            },
            PrepareSourceError::UnsupportedDirective { source_id, range, keyword } => {
                let mut out = "unsupported directive ".to_owned();
                out.append(debug_text(keyword.as_str()).as_str());
                out.append(" at ");
                push_range(&mut out, range.start, range.end);
                out.append(" in source ");
                push_source(&mut out, source_id);
                out
            },
            PrepareSourceError::UnknownActiveCondition { source_id, range } => {
                let mut out = "condition at ".to_owned();
                push_range(&mut out, range.start, range.end);
                out.append(" in source ");
                push_source(&mut out, source_id);
                out.append(" is unknown");
                out
            },
            PrepareSourceError::MalformedNesting { source_id, range } => {
                let mut out = "malformed conditional nesting at ".to_owned();
                push_range(&mut out, range.start, range.end);
                out.append(" in source ");
                push_source(&mut out, source_id);
                out
            },
            PrepareSourceError::UnresolvedInclude { source_id, range } => {
                let mut out = "include at ".to_owned();
                push_range(&mut out, range.start, range.end);
                out.append(" in source ");
                push_source(&mut out, source_id);
                out.append(" has no selected target");
                out
            },
            PrepareSourceError::IncludeCycle { source_id, range, cycle } => {
                let mut out = "include at ".to_owned();
                push_range(&mut out, range.start, range.end);
                out.append(" in source ");
                push_source(&mut out, source_id);
                out.append(" closes a cycle:");
                push_chain(&mut out, cycle);
                out
            },
            PrepareSourceError::NoCompleteContent { source_id } => {
                let mut out = "source ".to_owned();
                push_source(&mut out, source_id);
                out.append(" has no active content");
                out
            },
            PrepareSourceError::Prepared(error) => {
                let mut out = "prepared text was refused: ".to_owned();
                out.append(error.message().as_str());
                out
            },
        }
    }

    /// The error of the prepared text, where that was the reason.
    pub fn source(&self) -> (r: Option<&PreparedSourceError>)
        ensures
            match r {
                Some(error) => *self == PrepareSourceError::Prepared(*error),
                None => !(self is Prepared),
            },
    {
        match self {
            PrepareSourceError::Prepared(error) => Some(error),
            _ => None,
        }
    }
}

/// Prepares a source.
///
/// The root source is gone through in order. A directive is masked by white space
/// of its length, and so is the text of a branch that is not taken. Behind an
/// include directive follows the text of the source that it stands for, gone
/// through in the same way, and a line break where that text does not end with one.
/// The result is parsed and checked as a complete projection of the supplied
/// sources.
pub fn prepare_source(
    root_id: &ProjectSourceId,
    sources: &[SourceSnapshot],
    includes: &[IncludeBinding],
    options: PrepareSourceOptions,
) -> (r: Result<PreparedSource, PrepareSourceError>)
    ensures
        ({
            let job = JobModel::of(sources@, includes@, options);
            match projected(job, root_id@) {
                Err(problem) => r matches Err(error) && error@ == problem,
                Ok(text) => {
                    let map = MapModel {
                        prepared: text.bytes,
                        sources: snapshot_models(sources@),
                        segments: text.segments,
                    };
                    let model = PreparedModel {
                        source_id: options.prepared_source_id@,
                        map,
                        configuration_id: options.configuration_id@,
                        fidelity: PreparationFidelity::Complete,
                        provenance: PreparationProvenance::Configured,
                    };
                    let nodes = pascal_nodes(text.bytes);
                    let problem = match map.error() {
                        Some(error) => Some(PreparedErrorModel::SourceMap(error)),
                        None => preparation_error(model, text.bytes, nodes),
                    };
                    match r {
                        Ok(prepared) => problem is None && prepared@ == model && Some(
                            prepared.syntax().nodes(),
                        ) == nodes,
                        Err(error) => problem matches Some(found) && error@
                            == PrepareErrorModel::Prepared(found),
                    }
                },
            }
        }),
{
    match expand_source(root_id, sources, includes, &options) {
        Err(error) => Err(error),
        Ok(projection) => {
            let Projection { bytes, sources: originals, segments } = projection;
            match PreparedSource::from_segments(
                options.prepared_source_id,
                bytes.as_slice(),
                originals,
                segments,
                options.configuration_id.as_str(),
                PreparationFidelity::Complete,
                PreparationProvenance::Configured,
            ) {
                Ok(prepared) => Ok(prepared),
                Err(error) => Err(PrepareSourceError::Prepared(error)),
            }
        },
    }
}

} // verus!
