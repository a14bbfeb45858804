use cfg_pascal::{build_file_cfgs, BlockId, Cfg, EdgeKind, SyntaxTree};
use tree_sitter::Parser;

fn parse(source: &[u8]) -> SyntaxTree {
    let mut parser = Parser::new();
    parser
        .set_language(&cfg_pascal::LANGUAGE.into())
        .expect("failed to set Pascal language");
    let tree = parser.parse(source, None).expect("parser returned no tree");
    SyntaxTree::from_tree(&tree)
}

fn parse_clean(source: &[u8]) -> SyntaxTree {
    let tree = parse(source);
    assert!(!tree.root.error, "legacy-unit fixture must not contain parser errors");
    tree
}

/// Parses a unit whose initialization is a plain `begin..end` block.
///
/// The published grammar has no such unit. The block is parsed as that of a
/// program, and the node is then moved into the unit.
fn parse_legacy(source: &[u8]) -> SyntaxTree {
    let text = std::str::from_utf8(source).expect("fixture is UTF-8");
    let start = text.find("begin").expect("block start");
    let end = text.rfind("end.").expect("block end");
    let mut header = text.to_string();
    header.replace_range(start..end, &" ".repeat(end - start));
    let mut tree = parse(header.as_bytes());
    let mut body = " ".repeat(text.len());
    body.replace_range(start..text.len(), &text[start..]);
    let heading = "program P;";
    body.replace_range(..heading.len(), heading);
    let mut program = parse(body.as_bytes());
    let module = &mut program.root.children[0];
    let at = module
        .children
        .iter()
        .position(|child| child.kind == "block")
        .expect("program block");
    let block = module.children.remove(at);
    assert!(!program.root.error);
    let unit = tree
        .root
        .children
        .iter_mut()
        .find(|child| child.kind == "unit")
        .expect("unit");
    unit.children.retain(|child| child.kind != "kEnd");
    let last = unit.children.len() - 1;
    unit.children.insert(last, block);
    tree
}

fn cfg_for<'a>(cfgs: &'a [Cfg], name: &str) -> &'a Cfg {
    cfgs.iter()
        .find(|cfg| cfg.proc_name == name)
        .unwrap_or_else(|| {
            let names: Vec<&str> = cfgs.iter().map(|cfg| cfg.proc_name.as_str()).collect();
            panic!("CFG for {name:?} not found; available procedures: {names:?}")
        })
}

fn blocks(cfg: &Cfg) -> impl Iterator<Item = BlockId> {
    (0..cfg.graph.blocks.len()).map(BlockId)
}

fn blocks_with_stmt(cfg: &Cfg, source: &[u8], kind: &str, text: &str) -> Vec<BlockId> {
    blocks(cfg)
        .filter(|block| {
            cfg.graph.blocks[block.0].stmts.iter().any(|stmt| {
                stmt.node_kind == kind
                    && std::str::from_utf8(&source[stmt.byte_range.clone()])
                        .is_ok_and(|stmt_text| stmt_text.contains(text))
            })
        })
        .collect()
}

fn block_with_stmt(cfg: &Cfg, source: &[u8], kind: &str, text: &str) -> BlockId {
    blocks_with_stmt(cfg, source, kind, text)
        .first()
        .copied()
        .unwrap_or_else(|| panic!("statement {kind:?} containing {text:?} not found"))
}

fn successors(cfg: &Cfg, from: BlockId) -> Vec<(BlockId, EdgeKind)> {
    cfg.graph
        .edges
        .iter()
        .filter(|edge| edge.source == from)
        .map(|edge| (edge.target, edge.kind))
        .collect()
}

#[test]
fn legacy_unit_block_is_initialization_and_explicit_sections_remain_distinct() {
    let source = br#"
unit LegacyUnit;
interface
implementation
begin
  LegacyInit;
end.
"#
    .to_vec();
    let tree = parse_legacy(&source);
    assert!(!tree.root.error);
    let cfgs = build_file_cfgs(&tree, &source);

    assert_eq!(
        cfgs.iter()
            .map(|cfg| cfg.proc_name.as_str())
            .collect::<Vec<_>>(),
        vec!["LegacyUnit.<initialization>"]
    );
    let initialization = cfg_for(&cfgs, "LegacyUnit.<initialization>");
    let init = block_with_stmt(initialization, &source, "statement", "LegacyInit");
    let block_text = b"begin\n  LegacyInit;\nend";
    let block_start = source
        .windows(block_text.len())
        .position(|window| window == block_text)
        .expect("legacy unit block");
    assert_eq!(
        initialization.byte_range,
        block_start..block_start + block_text.len()
    );
    assert!(successors(initialization, init)
        .iter()
        .any(|(target, kind)| *target == initialization.exit && *kind == EdgeKind::Normal));

    let explicit_source = br#"
unit ExplicitSections;
interface
implementation
initialization
  ExplicitInit;
finalization
  ExplicitFinal;
end.
"#
    .to_vec();
    let explicit_tree = parse_clean(&explicit_source);
    let explicit_cfgs = build_file_cfgs(&explicit_tree, &explicit_source);
    assert_eq!(
        explicit_cfgs
            .iter()
            .map(|cfg| cfg.proc_name.as_str())
            .collect::<Vec<_>>(),
        vec![
            "ExplicitSections.<initialization>",
            "ExplicitSections.<finalization>"
        ]
    );
}
