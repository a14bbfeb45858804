use std::collections::HashSet;

use cfg_pascal::{build_file_cfgs, BlockId, Cfg, EdgeKind, SyntaxNode, SyntaxTree};
use tree_sitter::Parser;

fn parse(source: &[u8]) -> SyntaxTree {
    let mut parser = Parser::new();
    parser
        .set_language(&cfg_pascal::LANGUAGE.into())
        .expect("failed to set Pascal language");
    let tree = parser.parse(source, None).expect("parser returned no tree");
    SyntaxTree::from_tree(&tree)
}

/// Parses source whose labels may be numbers.
///
/// The published grammar has names for labels only. In each label declaration,
/// `goto` and label line the numbers are parsed as names of the same length, whose
/// nodes are then renamed.
fn parse_numbers(source: &[u8]) -> SyntaxTree {
    let text = std::str::from_utf8(source).expect("fixture is UTF-8");
    let mut named = String::new();
    for line in text.split_inclusive('\n') {
        let content = line.trim();
        let label_line = content
            .strip_suffix(':')
            .is_some_and(|label| label.bytes().all(|byte| byte.is_ascii_digit()));
        if label_line || content.starts_with("goto ") || content.starts_with("label ") {
            let mut in_number = false;
            for c in line.chars() {
                named.push(if c.is_ascii_digit() && !in_number { 'l' } else { c });
                in_number = c.is_ascii_digit();
            }
        } else {
            named.push_str(line);
        }
    }
    let mut tree = parse(named.as_bytes());
    rename_numbers(&mut tree.root, text);
    tree
}

fn rename_numbers(node: &mut SyntaxNode, source: &str) {
    if node.kind == "identifier"
        && source[node.start..node.end]
            .bytes()
            .all(|byte| byte.is_ascii_digit())
    {
        node.kind = "labelNumber".to_string();
    }
    for child in &mut node.children {
        rename_numbers(child, source);
    }
}

fn parse_clean(source: &[u8]) -> SyntaxTree {
    let tree = parse_numbers(source);
    assert!(!tree.root.error, "numeric-label fixture must not contain parser errors");
    tree
}

fn cfg_for<'a>(cfgs: &'a [Cfg], name: &str) -> &'a Cfg {
    cfgs.iter()
        .find(|cfg| cfg.proc_name == name)
        .unwrap_or_else(|| {
            let names: Vec<&str> = cfgs.iter().map(|cfg| cfg.proc_name.as_str()).collect();
            panic!("CFG for {name:?} not found; available procedures: {names:?}")
        })
}

fn blocks(cfg: &Cfg) -> impl Iterator<Item = BlockId> {
    (0..cfg.graph.blocks.len()).map(BlockId)
}

fn blocks_with_stmt(cfg: &Cfg, source: &[u8], kind: &str, text: &str) -> Vec<BlockId> {
    blocks(cfg)
        .filter(|block| {
            cfg.graph.blocks[block.0].stmts.iter().any(|stmt| {
                stmt.node_kind == kind
                    && std::str::from_utf8(&source[stmt.byte_range.clone()])
                        .is_ok_and(|stmt_text| stmt_text.contains(text))
            })
        })
        .collect()
}

fn blocks_with_exact_stmt(cfg: &Cfg, source: &[u8], kind: &str, expected: &str) -> Vec<BlockId> {
    blocks(cfg)
        .filter(|block| {
            cfg.graph.blocks[block.0].stmts.iter().any(|stmt| {
                stmt.node_kind == kind
                    && std::str::from_utf8(&source[stmt.byte_range.clone()])
                        .is_ok_and(|text| text.trim() == expected)
            })
        })
        .collect()
}

fn block_with_stmt(cfg: &Cfg, source: &[u8], kind: &str, text: &str) -> BlockId {
    let blocks = blocks_with_stmt(cfg, source, kind, text);
    assert_eq!(
        blocks.len(),
        1,
        "expected one {kind:?} statement containing {text:?}, got {blocks:?}"
    );
    blocks[0]
}

fn successors(cfg: &Cfg, from: BlockId) -> Vec<(BlockId, EdgeKind)> {
    cfg.graph
        .edges
        .iter()
        .filter(|edge| edge.source == from)
        .map(|edge| (edge.target, edge.kind))
        .collect()
}

fn can_reach(cfg: &Cfg, from: BlockId, to: BlockId) -> bool {
    let mut pending = vec![from];
    let mut visited = HashSet::new();
    while let Some(block) = pending.pop() {
        if block == to {
            return true;
        }
        if visited.insert(block) {
            pending.extend(successors(cfg, block).into_iter().map(|(target, _)| target));
        }
    }
    false
}

fn walk_nodes(node: &SyntaxNode, out: &mut Vec<(String, String)>, source: &[u8]) {
    let text = std::str::from_utf8(&source[node.start..node.end]).unwrap_or("");
    out.push((node.kind.clone(), text.to_string()));
    for child in &node.children {
        walk_nodes(child, out, source);
    }
}

#[test]
fn numeric_labels_route_forward_backward_and_named_targets() {
    let source = br#"
unit NumericLabels;
interface
implementation

procedure NumericFlow;
label 0007, 42, Named;
begin
  goto 0007;
  SkippedForward;
7:
  ForwardBody;
  goto 42;
42:
  BackwardBody;
  goto 0007;
  SkippedBackward;
  goto Named;
Named:
  NamedBody;
end;

end.
"#
    .to_vec();
    let tree = parse_clean(&source);
    let cfgs = build_file_cfgs(&tree, &source);
    let cfg = cfg_for(&cfgs, "NumericFlow");

    let forward_gotos = blocks_with_exact_stmt(cfg, &source, "goto", "goto 0007;");
    assert_eq!(
        forward_gotos.len(),
        2,
        "both zero-padded gotos must be retained"
    );
    let first_goto = forward_gotos
        .iter()
        .copied()
        .min_by_key(|block| {
            cfg.graph.blocks[block.0]
                .stmts
                .iter()
                .map(|stmt| stmt.byte_range.start)
                .min()
                .expect("goto statement range")
        })
        .expect("forward goto");
    let backward_goto = forward_gotos
        .iter()
        .copied()
        .max_by_key(|block| {
            cfg.graph.blocks[block.0]
                .stmts
                .iter()
                .map(|stmt| stmt.byte_range.start)
                .min()
                .expect("goto statement range")
        })
        .expect("backward goto");
    let forward_body = block_with_stmt(cfg, &source, "statement", "ForwardBody");
    let back_body = block_with_stmt(cfg, &source, "statement", "BackwardBody");
    let named_goto = block_with_stmt(cfg, &source, "goto", "goto Named");
    let named_body = block_with_stmt(cfg, &source, "statement", "NamedBody");
    let skipped_forward = block_with_stmt(cfg, &source, "statement", "SkippedForward");
    let skipped_backward = block_with_stmt(cfg, &source, "statement", "SkippedBackward");

    assert_eq!(
        successors(cfg, first_goto),
        vec![(forward_body, EdgeKind::Goto)],
        "a numeric forward goto must resolve despite a different number of leading zeros"
    );
    assert_eq!(
        successors(cfg, backward_goto),
        vec![(forward_body, EdgeKind::Goto)],
        "a numeric backward goto must use the canonical label name"
    );
    let goto_42 = block_with_stmt(cfg, &source, "goto", "goto 42");
    assert_eq!(
        successors(cfg, goto_42),
        vec![(back_body, EdgeKind::Goto)],
        "a decimal label must target the matching definition"
    );
    assert_eq!(
        successors(cfg, named_goto),
        vec![(named_body, EdgeKind::Goto)],
        "identifier labels must remain a separate namespace spelling"
    );
    assert!(!can_reach(cfg, first_goto, skipped_forward));
    assert!(!can_reach(cfg, backward_goto, skipped_backward));
}

#[test]
fn numeric_labels_work_through_finally_and_case_literals_stay_literals() {
    let source = br#"
unit NumericFinally;
interface
implementation

procedure NumericFinally;
label 100;
begin
  try
    goto 0100;
  finally
    goto 100;
  end;
100:
  TargetBody;
end;

procedure CaseLiteral;
begin
  case Choice of
    1: CaseBody;
  end;
end;

end.
"#
    .to_vec();
    let tree = parse_clean(&source);
    let mut nodes = Vec::new();
    walk_nodes(&tree.root, &mut nodes, &source);
    assert!(
        nodes
            .iter()
            .any(|(kind, text)| kind == "labelNumber" && text == "0100"),
        "numeric goto must use the dedicated labelNumber token"
    );
    assert!(
        nodes
            .iter()
            .any(|(kind, text)| kind == "literalNumber" && text == "1"),
        "case labels must continue using literalNumber"
    );

    let cfgs = build_file_cfgs(&tree, &source);
    let cfg = cfg_for(&cfgs, "NumericFinally");
    let target = block_with_stmt(cfg, &source, "statement", "TargetBody");
    let cleanup_blocks = blocks_with_stmt(cfg, &source, "goto", "goto 100");
    assert!(
        !cleanup_blocks.is_empty(),
        "finally goto must be represented"
    );

    let gotos = blocks_with_stmt(cfg, &source, "goto", "goto ");
    assert!(
        gotos.len() >= 2,
        "try and finally numeric gotos must be retained"
    );
    assert!(
        gotos.iter().any(|goto| {
            successors(cfg, *goto)
                .iter()
                .any(|(_, kind)| *kind == EdgeKind::FinallyEntry)
        }),
        "a numeric goto leaving try/finally must enter cleanup"
    );
    assert!(
        cleanup_blocks.iter().any(|cleanup| {
            successors(cfg, *cleanup)
                .iter()
                .any(|(successor, kind)| *successor == target && *kind == EdgeKind::FinallyExit)
        }),
        "the finally numeric goto must leave cleanup at the canonical target"
    );
}

#[test]
fn signed_real_and_hex_gotos_are_not_accepted_as_numeric_labels() {
    for source in [
        b"program NegativeLabel; begin goto -1; end.".as_slice(),
        b"program RealLabel; begin goto 1.0; end.".as_slice(),
        b"program HexLabel; begin goto $1; end.".as_slice(),
    ] {
        assert!(
            parse(source).root.error,
            "non-decimal goto label must remain a parse error: {}",
            String::from_utf8_lossy(source)
        );
    }
}
