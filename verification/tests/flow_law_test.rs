use std::collections::HashSet;

use cfg_pascal::{
    build_file_cfgs, BasicBlockKind, BlockId, Cfg, Edge, EdgeKind, Graph, SyntaxNode, SyntaxTree,
};
use cfg_pascal::constructs::{
    exit_has_argument, is_break_call, is_continue_call, is_exit_call,
    raise_may_throw_during_evaluation, raised_exception_type,
};
use cfg_pascal::exception_types::{
    constructor_call_parts, constructor_parts, ExceptionTypeFact, ExceptionTypeIndex, TypeMatch,
};
use cfg_pascal::labels::normalize_label_name;
use cfg_pascal::text::is_before;
use cfg_pascal::unit_types::{
    canonical_name, contains_preprocessor_directive, merge_create_member, CreateMember, TypeId,
    Visibility,
};

fn parse(text: &str) -> SyntaxTree {
    let tree = SyntaxTree::parse(text.as_bytes()).expect("tree");
    assert!(!tree.root.error, "fixture must be parse-clean");
    tree
}

fn graph_of(text: &str) -> Cfg {
    let mut cfgs = build_file_cfgs(&parse(text), text.as_bytes());
    assert_eq!(cfgs.len(), 1);
    cfgs.remove(0)
}

fn nodes_of_kind<'a>(node: &'a SyntaxNode, kind: &str, out: &mut Vec<&'a SyntaxNode>) {
    if node.kind == kind {
        out.push(node);
    }
    for child in &node.children {
        nodes_of_kind(child, kind, out);
    }
}

fn find<'a>(tree: &'a SyntaxTree, kind: &str, index: usize) -> &'a SyntaxNode {
    let mut found = Vec::new();
    nodes_of_kind(&tree.root, kind, &mut found);
    found[index]
}

fn block_of(cfg: &Cfg, source: &str, text: &str) -> BlockId {
    (0..cfg.graph.blocks.len())
        .map(BlockId)
        .find(|block| {
            cfg.graph.blocks[block.0]
                .stmts
                .iter()
                .any(|stmt| source[stmt.byte_range.clone()].starts_with(text))
        })
        .unwrap_or_else(|| panic!("no block holds {text:?}"))
}

fn edges_from(cfg: &Cfg, block: BlockId) -> Vec<(BlockId, EdgeKind)> {
    cfg.graph
        .edges
        .iter()
        .filter(|edge| edge.source == block)
        .map(|edge| (edge.target, edge.kind))
        .collect()
}

fn reach(cfg: &Cfg, from: BlockId) -> HashSet<usize> {
    let mut seen = HashSet::new();
    let mut open = vec![from.0];
    while let Some(block) = open.pop() {
        if seen.insert(block) {
            for (target, _) in edges_from(cfg, BlockId(block)) {
                open.push(target.0);
            }
        }
    }
    seen
}

fn reach_without(cfg: &Cfg, from: BlockId, barred: BlockId) -> HashSet<usize> {
    let mut seen = HashSet::new();
    let mut open = vec![from.0];
    while let Some(block) = open.pop() {
        if block != barred.0 && seen.insert(block) {
            for (target, _) in edges_from(cfg, BlockId(block)) {
                open.push(target.0);
            }
        }
    }
    seen
}

fn shown(cfgs: &[Cfg]) -> Vec<String> {
    cfgs.iter().map(|cfg| format!("{cfg:?}")).collect()
}

#[test]
fn graphs_are_well_formed() {
    let text = "unit U; interface implementation
        procedure A; begin while x do begin if y then Break; Continue; end; end;
        procedure B; begin try F; except on E: EError do G; else H; end; end;
        procedure C; begin case n of 1: F; 2: Exit; else G; end; repeat F; until x; end;
        procedure D; begin try F; Exit; finally G; end; end;
        end.";
    let cfgs = build_file_cfgs(&parse(text), text.as_bytes());
    assert_eq!(cfgs.len(), 4);
    for cfg in &cfgs {
        assert_eq!(cfg.graph.blocks[cfg.entry.0].kind, BasicBlockKind::Entry);
        assert_eq!(cfg.graph.blocks[cfg.exit.0].kind, BasicBlockKind::Exit);
        for edge in &cfg.graph.edges {
            assert!(edge.source.0 < cfg.graph.blocks.len());
            assert!(edge.target.0 < cfg.graph.blocks.len());
            assert_ne!(edge.source, cfg.exit);
            assert_ne!(edge.target, cfg.entry);
        }
        let starts = cfg.graph.edges.iter().filter(|edge| edge.source == cfg.entry).count();
        assert_eq!(starts, 1);
    }
    let order: Vec<usize> = cfgs.iter().map(|cfg| cfg.byte_range.start).collect();
    assert!(order.windows(2).all(|pair| pair[0] < pair[1]));
}

#[test]
fn loops_settle_break_and_continue() {
    let text = "program P; begin while x do begin if y then Break else Continue; end; After; end.";
    let cfg = graph_of(text);
    let header = block_of(&cfg, text, "while");
    let after = block_of(&cfg, text, "After");
    let breaks = block_of(&cfg, text, "Break");
    let continues = block_of(&cfg, text, "Continue");
    assert_eq!(edges_from(&cfg, breaks), vec![(after, EdgeKind::Normal)]);
    assert!(edges_from(&cfg, continues).iter().any(|(target, _)| *target == header));
    assert!(edges_from(&cfg, header).contains(&(after, EdgeKind::LoopExit)));
}

#[test]
fn every_way_out_passes_the_finalizer() {
    let text = "program P; begin while x do begin try if a then Break; if b then Exit; \
                if c then Continue; raise EError.Create; finally Cleanup; end; end; end.";
    let cfg = graph_of(text);
    for leaving in ["Break", "Exit", "Continue", "raise"] {
        let block = block_of(&cfg, text, leaving);
        let kinds: Vec<BasicBlockKind> = edges_from(&cfg, block)
            .iter()
            .map(|(target, _)| cfg.graph.blocks[target.0].kind)
            .collect();
        assert!(
            reach(&cfg, block).iter().any(|seen| cfg.graph.blocks[*seen]
                .stmts
                .iter()
                .any(|stmt| text[stmt.byte_range.clone()].starts_with("Cleanup"))),
            "{leaving} must reach the cleanup"
        );
        assert!(!kinds.contains(&BasicBlockKind::Exit), "{leaving} must not leave directly");
    }
}

#[test]
fn handlers_receive_only_what_they_may_match() {
    let text = "program P; type EA = class constructor Create; end; \
                EB = class constructor Create; end; begin try raise EA.Create; except \
                on E: EB do HandleB; on E: EA do HandleA; end; end.";
    let cfg = graph_of(text);
    let thrown = block_of(&cfg, text, "raise");
    let seen = reach(&cfg, thrown);
    assert!(seen.contains(&block_of(&cfg, text, "HandleA").0));

    let raised = find(&parse(text), "raise", 0).clone();
    let index = ExceptionTypeIndex::build(&parse(text).root, text.as_bytes());
    let fact = index.raised_fact(0, &raised, text.as_bytes());
    let class = match fact {
        ExceptionTypeFact::Known(class) => class,
        other => panic!("unexpected fact {other:?}"),
    };
    let other = TypeId { unit: class.unit, local: class.local + 1 };
    assert_eq!(index.match_handler(fact, ExceptionTypeFact::Known(class)), TypeMatch::Yes);
    assert_eq!(index.match_handler(fact, ExceptionTypeFact::Known(other)), TypeMatch::No);
    assert_eq!(
        index.match_handler(ExceptionTypeFact::Unknown, ExceptionTypeFact::Known(class)),
        TypeMatch::Unknown
    );
    assert_eq!(index.match_handler(fact, ExceptionTypeFact::Unknown), TypeMatch::Unknown);
}

#[test]
fn ancestry_decides_and_a_cycle_stays_open() {
    let text = "program P; type EA = class constructor Create; end; EB = class(EA) end; \
                EC = class(ED) end; ED = class(EC) end; begin end.";
    let index = ExceptionTypeIndex::build(&parse(text).root, text.as_bytes());
    let fact = |local: usize| ExceptionTypeFact::Known(TypeId { unit: 0, local });
    assert_eq!(index.match_handler(fact(1), fact(0)), TypeMatch::Yes);
    assert_eq!(index.match_handler(fact(0), fact(1)), TypeMatch::No);
    assert_eq!(index.match_handler(fact(2), fact(0)), TypeMatch::Unknown);
}

#[test]
fn case_without_default_can_match_nothing() {
    let without = "program P; begin case n of 1: F; end; After; end.";
    let cfg = graph_of(without);
    let selector = block_of(&cfg, without, "case");
    let after = block_of(&cfg, without, "After");
    assert!(edges_from(&cfg, selector).contains(&(after, EdgeKind::CaseArm)));

    let with = "program P; begin case n of 1: F; else G; end; After; end.";
    let cfg = graph_of(with);
    let selector = block_of(&cfg, with, "case");
    let after = block_of(&cfg, with, "After");
    assert!(!edges_from(&cfg, selector).iter().any(|(target, _)| *target == after));
}

fn token(kind: &str, start: usize, end: usize) -> SyntaxNode {
    SyntaxNode {
        kind: kind.to_string(),
        start,
        end,
        named: true,
        extra: false,
        error: false,
        field: None,
        children: Vec::new(),
    }
}

/// Wraps the statements of a program's body that lie between the directives of a
/// conditional block.
fn with_conditional_block(text: &str) -> SyntaxTree {
    let mut tree = SyntaxTree::parse(text.as_bytes()).expect("tree");
    fn wrap(node: &mut SyntaxNode, text: &str) -> bool {
        if node.kind == "block" {
            let open = text.find("{$IFDEF").expect("opening directive");
            let close = text.find("{$ENDIF}").expect("closing directive") + "{$ENDIF}".len();
            let (inside, outside): (Vec<SyntaxNode>, Vec<SyntaxNode>) = node
                .children
                .drain(..)
                .partition(|child| open <= child.start && child.end <= close);
            let mut block = token("ppBlock", open, close);
            block.children = inside
                .into_iter()
                .map(|mut child| {
                    let own = &text[child.start..child.end];
                    if own.starts_with("{$IFDEF") {
                        child.kind = "ppIf".to_string();
                    } else if own.starts_with("{$ELSE") {
                        child.kind = "ppElse".to_string();
                    } else if own.starts_with("{$ENDIF") {
                        child.kind = "ppEndIf".to_string();
                    }
                    child
                })
                .collect();
            node.children = outside;
            let at = node
                .children
                .iter()
                .position(|child| child.start >= close)
                .unwrap_or(node.children.len());
            node.children.insert(at, block);
            return true;
        }
        node.children.iter_mut().any(|child| wrap(child, text))
    }
    assert!(wrap(&mut tree.root, text));
    tree
}

#[test]
fn conditional_block_without_else_can_be_skipped() {
    let text = "program P; begin Before; {$IFDEF A} Inner; {$ENDIF} After; end.";
    let tree = with_conditional_block(text);
    let cfg = build_file_cfgs(&tree, text.as_bytes()).remove(0);
    let before = block_of(&cfg, text, "Before");
    let inner = block_of(&cfg, text, "Inner");
    let after = block_of(&cfg, text, "After");
    assert!(edges_from(&cfg, before).contains(&(after, EdgeKind::ConditionalFalse)));
    assert!(edges_from(&cfg, before).contains(&(inner, EdgeKind::ConditionalTrue)));
    assert!(edges_from(&cfg, inner).contains(&(after, EdgeKind::Normal)));
}

#[test]
fn conditional_block_with_else_takes_a_branch() {
    let text = "program P; begin Before; {$IFDEF A} Inner; {$ELSE} Other; {$ENDIF} After; end.";
    let tree = with_conditional_block(text);
    let cfg = build_file_cfgs(&tree, text.as_bytes()).remove(0);
    let before = block_of(&cfg, text, "Before");
    let after = block_of(&cfg, text, "After");
    let targets: Vec<BlockId> = edges_from(&cfg, before).iter().map(|(to, _)| *to).collect();
    assert_eq!(
        targets,
        vec![block_of(&cfg, text, "Inner"), block_of(&cfg, text, "Other")]
    );
    assert!(!targets.contains(&after));
}

#[test]
fn labels_compare_by_canonical_name() {
    assert_eq!(normalize_label_name("Retry"), "retry");
    assert_eq!(normalize_label_name("RETRY"), normalize_label_name("retry"));
    assert_eq!(normalize_label_name("0042"), "42");
    assert_eq!(normalize_label_name("000"), "0");
    assert_eq!(normalize_label_name("0x1"), "0x1");
    let name = normalize_label_name("007");
    assert_eq!(normalize_label_name(&name), name);
}

#[test]
fn labels_agree_by_case_or_by_number() {
    let agree = |a: &str, b: &str| normalize_label_name(a) == normalize_label_name(b);
    assert!(agree("L1", "l1"));
    assert!(agree("10", "0010"));
    assert!(agree("0", "000"));
    assert!(!agree("10", "100"));
    assert!(!agree("10", "11"));
    assert!(!agree("1a", "01a"));
    assert!(!agree("l1", "l01"));
    assert!(!agree("7", "l7"));
}

#[test]
fn repeat_settles_break_and_continue() {
    let text = "program P; begin repeat if y then Break else if z then Continue \
                else Exit; until Done; After; end.";
    let cfg = graph_of(text);
    let condition = block_of(&cfg, text, "Done");
    let after = block_of(&cfg, text, "After");
    let breaks = block_of(&cfg, text, "Break");
    let continues = block_of(&cfg, text, "Continue");
    let exits = block_of(&cfg, text, "Exit");
    assert_eq!(edges_from(&cfg, breaks), vec![(after, EdgeKind::Normal)]);
    assert_eq!(edges_from(&cfg, continues), vec![(condition, EdgeKind::Normal)]);
    assert_eq!(edges_from(&cfg, exits), vec![(cfg.exit, EdgeKind::Normal)]);
    assert!(edges_from(&cfg, condition).contains(&(after, EdgeKind::LoopExit)));
}

#[test]
fn goto_reaches_its_label_or_the_exit() {
    let text = "program P; label Here; begin First; Here: Second; goto Here; end.";
    let cfg = graph_of(text);
    let jump = block_of(&cfg, text, "goto");
    let target = block_of(&cfg, text, "Second");
    assert!(reach(&cfg, jump).contains(&target.0));

    let text = "program P; label Gone; begin goto Gone; end.";
    let cfg = graph_of(text);
    let jump = block_of(&cfg, text, "goto");
    assert_eq!(edges_from(&cfg, jump).iter().map(|(to, _)| *to).collect::<Vec<_>>(), vec![cfg.exit]);
}

#[test]
fn texts_are_ordered_by_code_points() {
    assert!(is_before("a", "b") && !is_before("b", "a"));
    assert!(is_before("a", "aa") && is_before("", "a"));
    assert!(!is_before("a", "a"));
    assert!(is_before("Z", "a") && is_before("a", "\u{e9}"));
}

#[test]
fn constructor_members_combine_to_the_worst() {
    let public = CreateMember::Constructor(Visibility::Public);
    assert_eq!(merge_create_member(CreateMember::Absent, public), public);
    assert_eq!(merge_create_member(public, CreateMember::Absent), public);
    assert_eq!(
        merge_create_member(public, CreateMember::Unknown),
        merge_create_member(CreateMember::Unknown, public)
    );
}

#[test]
fn calls_are_recognised_without_case() {
    let text = "program P; begin EXIT; Exit(1); break; Continue; Other; end.";
    let tree = parse(text);
    let bytes = text.as_bytes();
    let mut statements = Vec::new();
    nodes_of_kind(&tree.root, "statement", &mut statements);
    let seen: Vec<(bool, bool, bool, bool)> = statements
        .iter()
        .map(|node| {
            (
                is_exit_call(node, bytes),
                exit_has_argument(node, bytes),
                is_break_call(node, bytes),
                is_continue_call(node, bytes),
            )
        })
        .collect();
    assert_eq!(
        seen,
        vec![
            (true, false, false, false),
            (true, true, false, false),
            (false, false, true, false),
            (false, false, false, true),
            (false, false, false, false),
        ]
    );
}

#[test]
fn a_jump_takes_no_argument() {
    let text = "program P; begin Break(1); Continue(x); Break(); Continue(); Exit(); end.";
    let tree = parse(text);
    let bytes = text.as_bytes();
    let mut statements = Vec::new();
    nodes_of_kind(&tree.root, "statement", &mut statements);
    let seen: Vec<(bool, bool, bool)> = statements
        .iter()
        .map(|node| {
            (
                is_break_call(node, bytes),
                is_continue_call(node, bytes),
                is_exit_call(node, bytes),
            )
        })
        .collect();
    assert_eq!(
        seen,
        vec![
            (false, false, false),
            (false, false, false),
            (true, false, false),
            (false, true, false),
            (false, false, true),
        ]
    );
}

#[test]
fn a_jump_with_an_argument_is_an_ordinary_statement() {
    let text = "program P; begin while x do begin Break(1); Next; end; After; end.";
    let cfg = graph_of(text);
    let calls = block_of(&cfg, text, "Break");
    assert_eq!(calls, block_of(&cfg, text, "Next"));
    let header = block_of(&cfg, text, "while");
    assert_eq!(edges_from(&cfg, calls), vec![(header, EdgeKind::LoopBack)]);

    let text = "program P; begin while x do begin if y then Continue(1) else Break(); \
                Next; end; After; end.";
    let cfg = graph_of(text);
    let continues = block_of(&cfg, text, "Continue");
    assert!(reach_without(&cfg, continues, block_of(&cfg, text, "while"))
        .contains(&block_of(&cfg, text, "Next").0));
    let breaks = block_of(&cfg, text, "Break");
    let after = block_of(&cfg, text, "After");
    assert_eq!(edges_from(&cfg, breaks), vec![(after, EdgeKind::Normal)]);
}

fn finalizers(text: &str) -> usize {
    graph_of(text)
        .graph
        .blocks
        .iter()
        .filter(|block| block.kind == BasicBlockKind::FinallyHandler)
        .count()
}

#[test]
fn evaluation_is_labelled_only_where_the_class_is_unknown() {
    let known = "program P; type EKnown = class constructor Create; end; \
                 begin try F; raise EKnown.Create(M); finally G; end; end.";
    assert_eq!(finalizers(known), 2);
    let unknown = "program P; begin try F; raise EOther.Create(M); finally G; end; end.";
    assert_eq!(finalizers(unknown), 2);
    let bare = "program P; begin try F; raise EOther.Create; finally G; end; end.";
    assert_eq!(finalizers(bare), 1);
    let alone = "program P; begin try raise EOther.Create(M); finally G; end; end.";
    assert_eq!(finalizers(alone), 1);
    let proven = "program P; type EKnown = class constructor Create; end; \
                  begin try raise EKnown.Create(M); finally G; end; end.";
    assert_eq!(finalizers(proven), 2);
}

#[test]
fn an_excluded_bound_excludes_its_descendants() {
    let text = "program P; type EA = class constructor Create; end; EB = class(EA) end; \
                EX = class constructor Create; end; EY = class(EX) end; begin end.";
    let index = ExceptionTypeIndex::build(&parse(text).root, text.as_bytes());
    let class = |local: usize| TypeId { unit: 0, local };
    let bound = ExceptionTypeFact::SubtypeOf(class(2));
    let handler = ExceptionTypeFact::Known(class(1));
    assert_eq!(index.match_handler(bound, handler), TypeMatch::No);
    assert_eq!(index.match_handler(ExceptionTypeFact::Known(class(3)), handler), TypeMatch::No);
    let open = ExceptionTypeFact::SubtypeOf(class(0));
    assert_eq!(index.match_handler(open, handler), TypeMatch::Unknown);
}

#[test]
fn equal_nodes_give_equal_graphs() {
    let text = "unit U; interface type EA = class constructor Create; end; implementation
        procedure A; begin while x do begin if y then Break; Continue; end; end;
        procedure B; label L; begin try F; goto L; except on E: EA do G; else H; end; L: F; end;
        procedure C; begin case n of 1: F; 2: Exit; else G; end; repeat F; until x; end;
        procedure D; begin try raise EA.Create; Exit; finally G; end; end;
        initialization F; finalization G;
        end.";
    let first = parse(text);
    let copy = first.clone();
    let graphs = build_file_cfgs(&first, text.as_bytes());
    assert_eq!(graphs.len(), 6);
    assert_eq!(shown(&graphs), shown(&build_file_cfgs(&copy, text.as_bytes())));
    assert_eq!(shown(&graphs), shown(&build_file_cfgs(&parse(text), text.as_bytes())));
}

#[test]
fn raised_expressions_are_read() {
    let text = "program P; begin raise EError.Create(Make); raise Saved; end.";
    let tree = parse(text);
    let bytes = text.as_bytes();
    let created = find(&tree, "raise", 0);
    assert_eq!(raised_exception_type(created, bytes).as_deref(), Some("EError"));
    assert!(raise_may_throw_during_evaluation(created, bytes));
    assert_eq!(constructor_parts(created, bytes), Some(vec!["eerror".to_string()]));
    assert_eq!(constructor_call_parts(&created.children[1], bytes), constructor_parts(created, bytes));
    let saved = find(&tree, "raise", 1);
    assert_eq!(constructor_parts(saved, bytes), None);
    assert_eq!(canonical_name(&saved.children[1], bytes), "saved");
}

#[test]
fn directives_are_found_below_a_node() {
    let with = "program P; begin {$DEFINE A} end.";
    assert!(contains_preprocessor_directive(&parse(with).root, with.as_bytes()));
    let without = "program P; begin { plain } end.";
    assert!(!contains_preprocessor_directive(&parse(without).root, without.as_bytes()));
}

#[test]
fn graphs_grow_by_blocks_and_edges() {
    let mut graph = Graph::new();
    let first = graph.new_block(BasicBlockKind::Normal);
    let second = graph.new_block(BasicBlockKind::Normal);
    assert_eq!((first, second), (BlockId(0), BlockId(1)));
    graph.add_edge(first, second, EdgeKind::Normal);
    assert_eq!(
        graph.edges,
        vec![Edge { source: first, target: second, kind: EdgeKind::Normal }]
    );
    assert!(!graph.has_executable(first));
    graph.add_stmt(first, 3, 7, "statement");
    assert!(graph.has_executable(first));
    assert_eq!(graph.blocks[0].stmts[0].byte_range, 3..7);
}
