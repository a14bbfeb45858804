use cfg_pascal::{
    prepare_source, IncludeBinding, PreparationBudget, PreparationEnvironment, PreparationLimits,
    PrepareSourceError, PrepareSourceOptions, PreparedSource, PreparedSourceError,
    ProjectSourceId, SourceMap, SourceSegmentKind, SourceSnapshot,
};
use cfg_pascal::conditions::{evaluate, look_up, tokenize, SymbolEntry, Truth};
use cfg_pascal::directives::{find_directive, is_include_at, read_directive, DirectiveKind, Found};
use cfg_pascal::expansion::{expand_source, Projection};

fn id(value: &str) -> ProjectSourceId {
    ProjectSourceId::new(value)
}

fn source(name: &str, text: &str) -> SourceSnapshot {
    SourceSnapshot::new(id(name), text.as_bytes())
}

fn options() -> PrepareSourceOptions {
    PrepareSourceOptions::new(id("p"), "debug", PreparationEnvironment::Complete)
}

fn partial() -> PrepareSourceOptions {
    PrepareSourceOptions::new(id("p"), "debug", PreparationEnvironment::Partial)
}

fn project(text: &str, options: &PrepareSourceOptions) -> Result<String, PrepareSourceError> {
    expand_source(&id("a"), &[source("a", text)], &[], options)
        .map(|projection| String::from_utf8(projection.bytes).expect("UTF-8"))
}

fn refusal(text: &str, options: &PrepareSourceOptions) -> PrepareSourceError {
    project(text, options).expect_err("projection must be refused")
}

fn words(text: &str) -> Vec<String> {
    text.split_whitespace().map(|word| word.to_string()).collect()
}

fn binding(owner: &str, text: &str, directive: &str, target: &str) -> IncludeBinding {
    let start = text.find(directive).expect("directive");
    IncludeBinding::new(id(owner), start..start + directive.len(), id(target))
}

#[test]
fn plain_text_is_projected_onto_itself() {
    let text = "program P; { note } begin s := '{$X}'; end. // {$Y}";
    let projection = expand_source(&id("a"), &[source("a", text)], &[], &options()).expect("text");
    assert_eq!(projection.bytes, text.as_bytes());
    assert_eq!(projection.segments.len(), 1);
    assert_eq!(projection.segments[0].kind(), SourceSegmentKind::Copied);
    assert_eq!(projection.segments[0].expansion_id().as_str(), "root");
}

#[test]
fn branches_are_decided_in_order() {
    let text = "{$IFDEF A} a {$ELSEIF Defined(B)} b {$ELSE} c {$ENDIF} d";
    let with = |names: &[&str]| {
        words(&project(text, &options().with_initial_defined_symbols(names)).expect("text"))
    };
    assert_eq!(with(&["a"]), ["a", "d"]);
    assert_eq!(with(&["A", "B"]), ["a", "d"]);
    assert_eq!(with(&["b"]), ["b", "d"]);
    assert_eq!(with(&[]), ["c", "d"]);

    let negated = "{$ifndef A} a {$else} b {$endif}";
    assert_eq!(words(&project(negated, &options()).expect("text")), ["a"]);
    let known = partial().with_initial_undefined_symbols(&["A"]);
    assert_eq!(words(&project(negated, &known).expect("text")), ["a"]);
}

#[test]
fn masked_text_keeps_its_lines() {
    let text = "{$IF FALSE}\r\nx\ty\n{$ENDIF}\nz";
    assert_eq!(project(text, &options()).expect("text"), "           \r\n   \n        \nz");
}

#[test]
fn nested_groups_in_a_dead_branch_stay_dead() {
    let text = "{$IF FALSE}{$IFDEF A}x{$ELSE}y{$ENDIF}{$IFOPT C+}z{$ENDIF}{$DEFINE B}{$ENDIF}\
                {$IFDEF B}b{$ENDIF} rest";
    let known = partial().with_initial_undefined_symbols(&["B"]);
    assert_eq!(words(&project(text, &known).expect("text")), ["rest"]);
}

#[test]
fn conditions_follow_precedence() {
    let symbols = vec![
        SymbolEntry { name: "on".to_string(), defined: true },
        SymbolEntry { name: "off".to_string(), defined: true },
        SymbolEntry { name: "off".to_string(), defined: false },
    ];
    let value = |text: &str| {
        tokenize(text).and_then(|tokens| evaluate(&symbols, false, &tokens))
    };
    assert_eq!(value("TRUE OR TRUE AND FALSE"), Some(Truth::True));
    assert_eq!(value("(TRUE OR TRUE) AND FALSE"), Some(Truth::False));
    assert_eq!(value("NOT FALSE AND FALSE"), Some(Truth::False));
    assert_eq!(value("NOT (FALSE AND FALSE)"), Some(Truth::True));
    assert_eq!(value("NOT NOT Defined(ON)"), Some(Truth::True));
    assert_eq!(value("Defined(off)"), Some(Truth::False));
    assert_eq!(value("Defined(other)"), Some(Truth::Unknown));
    assert_eq!(value("Defined(other) AND FALSE"), Some(Truth::False));
    assert_eq!(value("Defined(other) OR TRUE"), Some(Truth::True));
    assert_eq!(value("NOT Defined(other) OR FALSE"), Some(Truth::Unknown));
    for broken in ["", "TRUE TRUE", "(TRUE", "TRUE)", "AND", "Defined X", "Defined(X", "X", "1 = 1"] {
        assert_eq!(value(broken), None, "{broken:?}");
    }
    assert_eq!(look_up(&symbols, true, "other"), Truth::False);
    assert_eq!(look_up(&symbols, false, "ON"), Truth::True);
}

#[test]
fn known_conditions_do_not_change_with_more_knowledge() {
    let tokens = tokenize("Defined(A) AND Defined(B) OR NOT Defined(C)").expect("tokens");
    let entry = |name: &str, defined: bool| SymbolEntry { name: name.to_string(), defined };
    assert_eq!(evaluate(&vec![entry("c", false)], false, &tokens), Some(Truth::True));
    assert_eq!(evaluate(&vec![entry("c", false)], true, &tokens), Some(Truth::True));
    assert_eq!(evaluate(&vec![entry("a", false)], false, &tokens), Some(Truth::Unknown));
    assert_eq!(evaluate(&vec![entry("a", false)], true, &tokens), Some(Truth::True));
}

#[test]
fn directives_are_told_from_other_text() {
    let text = b"a '{$X}' // {$Y}\n{ b {$Z} (* {$W} *) (*$I c.inc*) {$I+}";
    let start = text.len() - b"(*$I c.inc*) {$I+}".len();
    let found = find_directive(text, 0);
    assert_eq!(found, Found::Directive { start, end: start + 12 });
    let directive = read_directive(text, start, start + 12);
    assert_eq!(directive.kind, DirectiveKind::Include);
    assert_eq!((directive.keyword.as_str(), directive.argument.as_str()), ("i", " c.inc"));
    assert!(is_include_at(text, start, start + 12));
    let switch = start + 13;
    assert!(!is_include_at(text, switch, text.len()));
    assert_eq!(read_directive(text, switch, text.len()).kind, DirectiveKind::Other);
    assert_eq!(find_directive(text, text.len()), Found::Nothing);
    assert_eq!(find_directive(b"x { y", 0), Found::Unclosed { start: 2 });
    assert_eq!(find_directive(b"x (* y", 0), Found::Unclosed { start: 2 });
}

#[test]
fn included_text_ends_its_line() {
    let root = "program P; begin {$I body.inc} After; end.";
    let body = "Work; // note";
    let projection = expand_source(
        &id("root"),
        &[source("root", root), source("body", body)],
        &[binding("root", root, "{$I body.inc}", "body")],
        &options(),
    )
    .expect("text");
    let text = String::from_utf8(projection.bytes.clone()).expect("UTF-8");
    assert_eq!(text, "program P; begin              Work; // note\n After; end.");
    let kinds: Vec<SourceSegmentKind> =
        projection.segments.iter().map(|segment| segment.kind()).collect();
    assert_eq!(
        kinds,
        vec![
            SourceSegmentKind::Copied,
            SourceSegmentKind::Masked,
            SourceSegmentKind::Copied,
            SourceSegmentKind::Synthetic,
            SourceSegmentKind::Copied,
        ]
    );
    assert_eq!(projection.segments[2].expansion_id().as_str(), "root/include-1");
    let Projection { bytes, sources, segments } = projection;
    assert!(SourceMap::new(&bytes, sources, segments).is_ok());
}

#[test]
fn every_refusal_has_its_words() {
    let error = expand_source(&id("x"), &[source("a", "b")], &[], &options()).expect_err("root");
    assert_eq!(error.message(), "source to prepare ProjectSourceId(\"x\") is not loaded");

    let disputed = options()
        .with_initial_defined_symbols(&["One", "Two"])
        .with_initial_undefined_symbols(&["TWO"]);
    let error = refusal("b", &disputed);
    assert_eq!(error, PrepareSourceError::ConflictingInitialSymbol { name: "Two".to_string() });
    assert_eq!(error.message(), "initial symbol \"Two\" is both defined and undefined");

    let error = refusal("b { c", &options());
    assert_eq!(error.message(), "invalid directive at 2..5 in source ProjectSourceId(\"a\")");
    let error = refusal("{$DEFINE 1}", &options());
    assert_eq!(error.message(), "invalid directive at 0..11 in source ProjectSourceId(\"a\")");
    let error = refusal("{$IFDEF A B}{$ENDIF}", &options());
    assert!(matches!(error, PrepareSourceError::InvalidDirective { .. }));

    let error = refusal("{$APPTYPE CONSOLE}", &options());
    assert_eq!(
        error.message(),
        "unsupported directive \"apptype\" at 0..18 in source ProjectSourceId(\"a\")"
    );
    let error = refusal("{$IFOPT C+}{$ENDIF}", &options());
    assert!(matches!(error, PrepareSourceError::UnsupportedDirective { .. }));

    let error = refusal("{$IFDEF A}{$ENDIF}", &partial());
    assert_eq!(
        error.message(),
        "condition at 0..10 in source ProjectSourceId(\"a\") is unknown"
    );
    let error = refusal("{$ELSE}", &options());
    assert_eq!(
        error.message(),
        "malformed conditional nesting at 0..7 in source ProjectSourceId(\"a\")"
    );
    let error = refusal("b {$I c.inc}", &options());
    assert_eq!(
        error.message(),
        "include at 2..12 in source ProjectSourceId(\"a\") has no selected target"
    );
    let error = refusal(" \n", &options());
    assert_eq!(error.message(), "source ProjectSourceId(\"a\") has no active content");
    assert!(error.source().is_none());
}

#[test]
fn binding_refusals_have_their_words() {
    let root = "b {$I c.inc}";
    let sources = [source("a", root), source("c", "d")];
    let attempt = |bindings: &[IncludeBinding]| {
        expand_source(&id("a"), &sources, bindings, &options())
            .expect_err("refused")
            .message()
    };
    let good = binding("a", root, "{$I c.inc}", "c");
    assert_eq!(good.source_id().as_str(), "a");
    assert_eq!(good.byte_range(), 2..12);
    assert_eq!(good.target_id().as_str(), "c");
    assert_eq!(
        attempt(&[IncludeBinding::new(id("x"), 2..12, id("c"))]),
        "include binding source ProjectSourceId(\"x\") is not loaded"
    );
    assert_eq!(
        attempt(&[IncludeBinding::new(id("a"), 2..11, id("c"))]),
        "include binding range 2..11 in source ProjectSourceId(\"a\") is not an include directive"
    );
    assert_eq!(
        attempt(&[IncludeBinding::new(id("a"), 2..12, id("x"))]),
        "include at 2..12 in source ProjectSourceId(\"a\") targets missing source \
         ProjectSourceId(\"x\")"
    );
    assert_eq!(
        attempt(&[good.clone(), good.clone()]),
        "duplicate include binding for 2..12 in source ProjectSourceId(\"a\")"
    );
    assert_eq!(
        attempt(&[IncludeBinding::new(id("a"), 2..12, id("a"))]),
        "include at 2..12 in source ProjectSourceId(\"a\") closes a cycle: \
         ProjectSourceId(\"a\") ProjectSourceId(\"a\")"
    );
}

#[test]
fn budgets_have_their_words() {
    let limits = PreparationLimits { max_directives: 1, ..Default::default() };
    let error = refusal("{$DEFINE A}{$DEFINE B}", &options().with_limits(limits));
    assert_eq!(
        error,
        PrepareSourceError::BudgetExceeded { budget: PreparationBudget::Directives, limit: 1 }
    );
    assert_eq!(error.message(), "preparation budget Directives of 1 exceeded");
    let limits = PreparationLimits { max_expression_bytes: 5, ..Default::default() };
    assert!(project("{$IF TRUE}x{$ENDIF}", &options().with_limits(limits)).is_ok());
    let error = refusal("{$IF  TRUE}x{$ENDIF}", &options().with_limits(limits));
    assert_eq!(error.message(), "preparation budget ExpressionBytes of 5 exceeded");
}

#[test]
fn prepared_text_must_parse() {
    let root = id("a");
    let error = prepare_source(&root, &[source("a", "program P; begin if end.")], &[], options())
        .expect_err("syntax error");
    assert_eq!(
        error.source(),
        Some(&PreparedSourceError::ParserErrors { range: 0..24 })
    );
    assert_eq!(
        error.message(),
        "prepared text was refused: prepared Pascal source contains parser errors in 0..24"
    );
    let twice = [source("a", "program P; begin end."), source("a", "program P; begin end.")];
    let error = prepare_source(&root, &twice, &[], options()).expect_err("source twice");
    assert!(matches!(
        error,
        PrepareSourceError::Prepared(PreparedSourceError::SourceMap(_))
    ));
    let prepared: PreparedSource =
        prepare_source(&root, &[source("a", "program P; begin end.")], &[], options())
            .expect("prepared");
    assert_eq!(prepared.source_id().as_str(), "p");
    assert_eq!(prepared.configuration_id(), "debug");
}
