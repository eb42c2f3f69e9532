//! The text that shows a block builder.
use vstd::prelude::*;

use crate::block_builder::BlockBuilder;

verus! {

/// A text with a prefix before each of its lines that are not empty.
pub open spec fn indented(prefix: Seq<char>, text: Seq<char>) -> Seq<char>
    decreases text.len(),
{
    if text.len() == 0 {
        Seq::empty()
    } else {
        let before = indented(prefix, text.drop_last());
        let starts_line = text.len() == 1 || text[text.len() - 2] == '\n';
        if starts_line && text.last() != '\n' {
            before + prefix.push(text.last())
        } else {
            before.push(text.last())
        }
    }
}

/// A text whose lines end in `\n` alone: a `\r` before it is left out.
pub open spec fn with_plain_lines(text: Seq<char>) -> Seq<char>
    decreases text.len(),
{
    if text.len() == 0 {
        Seq::empty()
    } else if text.len() > 1 && text[0] == '\r' && text[1] == '\n' {
        with_plain_lines(text.drop_first())
    } else {
        seq![text[0]] + with_plain_lines(text.drop_first())
    }
}

/// `indent::indent_all_with`: the prefix comes before each line that is not empty. A `\r` before
/// the end of a line is lost.
#[verifier::external_body]
pub(crate) fn indent_all_with(prefix: &str, text: &str) -> (res: String)
    ensures
        res@ == indented(prefix@, with_plain_lines(text@)),
{
    indent::indent_all_with(prefix, text)
}

/// The lines for statements.
pub open spec fn statement_lines(statements: Seq<String>) -> Seq<char>
    decreases statements.len(),
{
    if statements.len() == 0 {
        Seq::empty()
    } else {
        statement_lines(statements.drop_last()) + "  "@ + statements.last()@ + "\n"@
    }
}

/// The text for a block, given those for its id, its statements and its semantic variables.
pub open spec fn block_text(
    block_id: Seq<char>,
    statements: Seq<String>,
    semantics: Seq<char>,
) -> Seq<char> {
    "block_id: "@ + block_id + "\n"@ + (if statements.len() > 0 {
        "statements:\n"@ + statement_lines(statements)
    } else {
        Seq::empty()
    }) + "semantics:\n"@ + indented("  "@, with_plain_lines(semantics))
}

impl BlockBuilder {
    /// The text that shows the builder, given those for the id of its block, for each of its
    /// statements and for its semantic variables.
    pub fn debug_text(&self, block_id: &str, statements: &Vec<String>, semantics: &str) -> (res:
        String)
        requires
            statements@.len() == self@.statements.len(),
        ensures
            res@ == block_text(block_id@, statements@, semantics@),
    {
        let mut text = "block_id: ".to_owned();
        text.append(block_id);
        text.append("\n");
        let ghost head = text@;
        if self.statements.statements.len() > 0 {
            text.append("statements:\n");
            let mut i: usize = 0;
            while i < statements.len()
                invariant
                    i <= statements.len(),
                    text@ == head + "statements:\n"@ + statement_lines(statements@.take(i as int)),
                decreases statements.len() - i,
            {
                assert(statements@.take(i + 1).drop_last() =~= statements@.take(i as int));
                text.append("  ");
                text.append(statements[i].as_str());
                text.append("\n");
                i = i + 1;
                assert(text@ =~= head + "statements:\n"@ + statement_lines(
                    statements@.take(i as int),
                ));
            }
            assert(statements@.take(i as int) =~= statements@);
        }
        text.append("semantics:\n");
        text.append(indent_all_with("  ", semantics).as_str());
        assert(text@ =~= block_text(block_id@, statements@, semantics@));
        text
    }
}

} // verus!
