use cairo_block_builder::block_builder::BlockBuilder;
use cairo_block_builder::ids::{BlockId, VariableId};
use cairo_block_builder::objects::Statement;

#[test]
fn a_block_without_statements_shows_none() {
    let builder = BlockBuilder::root(BlockId(3));
    assert_eq!(
        builder.debug_text("BlockId(3)", &vec![], "a: v0\nb: v1"),
        "block_id: BlockId(3)\nsemantics:\n  a: v0\n  b: v1"
    );
}

#[test]
fn the_statements_of_a_block_are_shown_line_by_line() {
    let mut builder = BlockBuilder::root(BlockId(0));
    builder.push_statement(Statement::Const { value: 1, output: VariableId(0) });
    builder.push_statement(Statement::Const { value: 2, output: VariableId(1) });
    let statements = vec!["v0 <- 1".to_string(), "v1 <- 2".to_string()];
    assert_eq!(
        builder.debug_text("blk0", &statements, ""),
        "block_id: blk0\nstatements:\n  v0 <- 1\n  v1 <- 2\nsemantics:\n"
    );
}

#[test]
fn empty_lines_are_not_indented() {
    let builder = BlockBuilder::root(BlockId(0));
    assert_eq!(
        builder.debug_text("blk0", &vec![], "a\n\n b\r\n\nc\n"),
        "block_id: blk0\nsemantics:\n  a\n\n   b\n\n  c\n"
    );
    assert_eq!(
        builder.debug_text("blk0", &vec![], "\n\nx\ry\r"),
        "block_id: blk0\nsemantics:\n\n\n  x\ry\r"
    );
}
