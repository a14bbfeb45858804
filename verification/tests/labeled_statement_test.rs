use std::collections::HashSet;

use cfg_pascal::{build_file_cfgs, BlockId, Cfg, EdgeKind, SyntaxNode, SyntaxTree};
use tree_sitter::Parser;

fn parse(source: &[u8]) -> SyntaxTree {
    let mut parser = Parser::new();
    parser
        .set_language(&cfg_pascal::LANGUAGE.into())
        .expect("failed to set Pascal language");
    let tree = parser.parse(source, None).expect("parser returned no tree");
    SyntaxTree::from_tree(&tree)
}

/// Parses source whose labels may be numbers.
///
/// The published grammar has names for labels only. In each label declaration,
/// `goto` and label line the numbers are parsed as names of the same length, whose
/// nodes are then renamed.
fn parse_numbers(source: &[u8]) -> SyntaxTree {
    let text = std::str::from_utf8(source).expect("fixture is UTF-8");
    let mut named = String::new();
    for line in text.split_inclusive('\n') {
        let content = line.trim();
        let label_line = content
            .strip_suffix(':')
            .is_some_and(|label| label.bytes().all(|byte| byte.is_ascii_digit()));
        if label_line || content.starts_with("goto ") || content.starts_with("label ") {
            let mut in_number = false;
            for c in line.chars() {
                named.push(if c.is_ascii_digit() && !in_number { 'l' } else { c });
                in_number = c.is_ascii_digit();
            }
        } else {
            named.push_str(line);
        }
    }
    let mut tree = parse(named.as_bytes());
    rename_numbers(&mut tree.root, text);
    tree
}

fn rename_numbers(node: &mut SyntaxNode, source: &str) {
    if node.kind == "identifier"
        && source[node.start..node.end]
            .bytes()
            .all(|byte| byte.is_ascii_digit())
    {
        node.kind = "labelNumber".to_string();
    }
    for child in &mut node.children {
        rename_numbers(child, source);
    }
}

/// Parses source in which the given texts are labels in front of a statement, one
/// or more of them with nothing but blanks between.
///
/// The published grammar has no labels inside structured statements. The labels
/// are parsed as blanks, and the statement behind them is then wrapped.
fn parse_labelled(source: &[u8], prefixes: &[&str]) -> SyntaxTree {
    let text = std::str::from_utf8(source).expect("fixture is UTF-8");
    let mut blanked = text.to_string();
    for prefix in prefixes {
        blanked = blanked.replace(prefix, &" ".repeat(prefix.len()));
    }
    let mut tree = parse_numbers(blanked.as_bytes());
    rename_numbers(&mut tree.root, text);
    for prefix in prefixes {
        let start = text.find(prefix).expect("label prefix");
        assert!(wrap(&mut tree.root, text, start, start + prefix.len()));
    }
    tree
}

/// Wraps the outermost statement that starts at `end` in a labelled statement that
/// starts at `start`.
fn wrap(node: &mut SyntaxNode, source: &str, start: usize, end: usize) -> bool {
    for child in &mut node.children {
        if child.start == end && child.named {
            let mut children = Vec::new();
            let mut at = start;
            for label in source[start..end].split_inclusive(':') {
                let name = label.trim();
                if !name.is_empty() {
                    let from = at + label.find(name).unwrap();
                    children.push(label_node(source, from, from + name.len()));
                }
                at += label.len();
            }
            let empty = leaf("", 0, 0);
            let mut statement = std::mem::replace(child, empty);
            *child = SyntaxNode {
                kind: "labeledStatement".to_string(),
                start,
                end: statement.end,
                named: true,
                extra: false,
                error: false,
                field: statement.field.take(),
                children: Vec::new(),
            };
            children.push(statement);
            child.children = children;
            return true;
        }
        if wrap(child, source, start, end) {
            return true;
        }
    }
    false
}

fn leaf(kind: &str, start: usize, end: usize) -> SyntaxNode {
    SyntaxNode {
        kind: kind.to_string(),
        start,
        end,
        named: kind != ":",
        extra: false,
        error: false,
        field: None,
        children: Vec::new(),
    }
}

/// The node of a label: its name and a colon.
fn label_node(source: &str, start: usize, end: usize) -> SyntaxNode {
    let number = source[start..end - 1].bytes().all(|byte| byte.is_ascii_digit());
    let kind = if number { "labelNumber" } else { "identifier" };
    let mut label = leaf("label", start, end);
    label.children = vec![leaf(kind, start, end - 1), leaf(":", end - 1, end)];
    label
}

/// Parses source in which `text` is a label at the end of a statement list.
///
/// The published grammar wants a statement behind each label. The label is parsed
/// as a call of the same length, whose node is then replaced.
fn parse_trailing_label(source: &[u8], text: &str) -> SyntaxTree {
    let original = std::str::from_utf8(source).expect("fixture is UTF-8");
    let start = original.find(text).expect("trailing label");
    let end = start + text.find(':').expect("colon") + 1;
    let mut called = original.to_string();
    called.replace_range(start..start + 1, "l");
    called.replace_range(end - 1..end, ";");
    let mut tree = parse_numbers(called.as_bytes());
    rename_numbers(&mut tree.root, original);
    replace_with_label(&mut tree.root, original, start, end);
    tree
}

fn replace_with_label(node: &mut SyntaxNode, source: &str, start: usize, end: usize) {
    if node.kind == "statement" && node.start == start && node.end == end {
        *node = label_node(source, start, end);
    }
    for child in &mut node.children {
        replace_with_label(child, source, start, end);
    }
}

fn cfg_for<'a>(cfgs: &'a [Cfg], name: &str) -> &'a Cfg {
    cfgs.iter()
        .find(|cfg| cfg.proc_name == name)
        .unwrap_or_else(|| {
            let names: Vec<&str> = cfgs.iter().map(|cfg| cfg.proc_name.as_str()).collect();
            panic!("CFG for {name:?} not found; available procedures: {names:?}")
        })
}

fn blocks(cfg: &Cfg) -> impl Iterator<Item = BlockId> {
    (0..cfg.graph.blocks.len()).map(BlockId)
}

fn blocks_with_stmt(cfg: &Cfg, source: &[u8], kind: &str, text: &str) -> Vec<BlockId> {
    blocks(cfg)
        .filter(|block| {
            cfg.graph.blocks[block.0].stmts.iter().any(|stmt| {
                stmt.node_kind == kind
                    && std::str::from_utf8(&source[stmt.byte_range.clone()])
                        .is_ok_and(|stmt_text| stmt_text.contains(text))
            })
        })
        .collect()
}

fn block_with_stmt(cfg: &Cfg, source: &[u8], kind: &str, text: &str) -> BlockId {
    blocks_with_stmt(cfg, source, kind, text)
        .first()
        .copied()
        .unwrap_or_else(|| panic!("statement {kind:?} containing {text:?} not found"))
}

fn successors(cfg: &Cfg, from: BlockId) -> Vec<(BlockId, EdgeKind)> {
    cfg.graph
        .edges
        .iter()
        .filter(|edge| edge.source == from)
        .map(|edge| (edge.target, edge.kind))
        .collect()
}

fn can_reach(cfg: &Cfg, from: BlockId, to: BlockId) -> bool {
    let mut pending = vec![from];
    let mut visited = HashSet::new();
    while let Some(block) = pending.pop() {
        if block == to {
            return true;
        }
        if visited.insert(block) {
            pending.extend(successors(cfg, block).into_iter().map(|(target, _)| target));
        }
    }
    false
}

#[test]
fn missing_statement_separators_remain_parse_errors() {
    for source in [
        b"program MissingSeparator; begin Work L: end.".as_slice(),
        b"program MissingGotoSeparator; begin goto L L: end.".as_slice(),
        b"program MissingRepeatSeparator; begin repeat Work L: until B end.".as_slice(),
        b"program MissingTrySeparator; begin try Work L: finally Cleanup end end.".as_slice(),
    ] {
        let tree = parse(source);
        assert!(
            tree.root.error,
            "missing statement separator must be rejected for {:?}",
            std::str::from_utf8(source).expect("fixture is UTF-8")
        );
    }
}

#[test]
fn forward_gotos_reach_labeled_bodies_inside_structured_statements() {
    let source = br#"
program LabeledTargets;
label 10, 20, IfTarget, WhileTarget, ForTarget, WithTarget, CaseTarget;
begin
  goto 10;
  UnreachableBeforeIf;
  if BranchCondition then
    0010: IfTarget: IfBody
  else
    IfElseBody;

  goto WhileTarget;
  UnreachableBeforeWhile;
  while LoopCondition do
    WhileTarget: WhileBody;

  goto 20;
  UnreachableBeforeFor;
  for I := 0 to 1 do
    20: ForTarget: ForBody;

  goto WithTarget;
  UnreachableBeforeWith;
  with Context do
    WithTarget: WithBody;

  goto CaseTarget;
  UnreachableBeforeCase;
  case Choice of
    1: CaseTarget: CaseBody;
  end;

  After;
end.
"#
    .to_vec();
    let tree = parse_labelled(
        &source,
        &[
            "0010: IfTarget: ",
            "WhileTarget: ",
            "20: ForTarget: ",
            "WithTarget: ",
            "CaseTarget: ",
        ],
    );
    assert!(!tree.root.error);
    let cfgs = build_file_cfgs(&tree, &source);
    let cfg = cfg_for(&cfgs, "LabeledTargets.<main>");

    for (goto_text, body_text, unreachable_text) in [
        ("goto 10", "IfBody", "UnreachableBeforeIf"),
        ("goto WhileTarget", "WhileBody", "UnreachableBeforeWhile"),
        ("goto 20", "ForBody", "UnreachableBeforeFor"),
        ("goto WithTarget", "WithBody", "UnreachableBeforeWith"),
        ("goto CaseTarget", "CaseBody", "UnreachableBeforeCase"),
    ] {
        let goto = block_with_stmt(cfg, &source, "goto", goto_text);
        let body = block_with_stmt(cfg, &source, "statement", body_text);
        let unreachable = block_with_stmt(cfg, &source, "statement", unreachable_text);

        assert_eq!(
            successors(cfg, goto),
            vec![(body, EdgeKind::Goto)],
            "forward goto {goto_text:?} must target its labeled single-statement body"
        );
        assert!(
            !can_reach(cfg, goto, unreachable),
            "a forward goto must not fall through to {unreachable_text:?}"
        );
    }
}

#[test]
fn trailing_labeled_empty_statement_is_a_normal_fallthrough_target() {
    let source = br#"
program EmptyLabeledTarget;
label 0001;
begin
  goto 1;
  0001:
end.
"#
    .to_vec();
    let tree = parse_trailing_label(&source, "0001:\nend");
    assert!(!tree.root.error);
    let cfgs = build_file_cfgs(&tree, &source);
    let cfg = cfg_for(&cfgs, "EmptyLabeledTarget.<main>");
    let goto = block_with_stmt(cfg, &source, "goto", "goto 1");
    let target = block_with_stmt(cfg, &source, "label", "0001:");

    assert_eq!(
        successors(cfg, goto),
        vec![(target, EdgeKind::Goto)],
        "a goto must resolve to a trailing empty label"
    );
    assert_eq!(
        successors(cfg, target),
        vec![(cfg.exit, EdgeKind::Normal)],
        "a trailing empty label must fall through directly to the scope exit"
    );
    assert!(
        !successors(cfg, target)
            .iter()
            .any(|(_, kind)| *kind == EdgeKind::ExceptionThrow),
        "a trailing empty label must not invent an executable exception path"
    );
}
