//! Laws of the text that shows a block.
use vstd::prelude::*;

use crate::block_builder::debug::{block_text, indented, statement_lines, with_plain_lines};

verus! {

/// Lines are indented one by one.
pub proof fn law_lines_are_indented_alone(prefix: Seq<char>, a: Seq<char>, b: Seq<char>)
    requires
        a.len() > 0,
        a.last() == '\n',
    ensures
        indented(prefix, a + b) == indented(prefix, a) + indented(prefix, b),
    decreases b.len(),
{
    let all = a + b;
    if b.len() > 0 {
        let rest = b.drop_last();
        law_lines_are_indented_alone(prefix, a, rest);
        assert(all.drop_last() =~= a + rest);
        assert(all.last() == b.last());
        if b.len() == 1 {
            assert(all[all.len() - 2] == a.last());
        } else {
            assert(all[all.len() - 2] == b[b.len() - 2]);
        }
        assert(indented(prefix, all) =~= indented(prefix, a) + indented(prefix, b));
    } else {
        assert(all =~= a);
        assert(indented(prefix, all) =~= indented(prefix, a) + indented(prefix, b));
    }
}

/// A line that is not empty gets the prefix, before it and nowhere else.
pub proof fn law_line_is_indented(prefix: Seq<char>, line: Seq<char>)
    requires
        line.len() > 0,
        forall|i: int| 0 <= i < line.len() ==> #[trigger] line[i] != '\n',
    ensures
        indented(prefix, line) == prefix + line,
    decreases line.len(),
{
    let rest = line.drop_last();
    assert(line[line.len() - 1] != '\n');
    if rest.len() > 0 {
        assert forall|i: int| 0 <= i < rest.len() implies #[trigger] rest[i] != '\n' by {
            assert(rest[i] == line[i]);
        }
        law_line_is_indented(prefix, rest);
        assert(line[line.len() - 2] != '\n');
    } else {
        assert(indented(prefix, rest) =~= Seq::empty());
    }
    assert(indented(prefix, line) =~= prefix + line);
}

/// The end of a line is kept, and gets no prefix.
pub proof fn law_line_end_is_kept(prefix: Seq<char>, text: Seq<char>)
    ensures
        indented(prefix, text.push('\n')) == indented(prefix, text).push('\n'),
{
    assert(text.push('\n').drop_last() =~= text);
}

/// A text without `\r` is left as it is.
pub proof fn law_plain_lines_stay(text: Seq<char>)
    requires
        forall|i: int| 0 <= i < text.len() ==> #[trigger] text[i] != '\r',
    ensures
        with_plain_lines(text) == text,
    decreases text.len(),
{
    if text.len() > 0 {
        let rest = text.drop_first();
        assert forall|i: int| 0 <= i < rest.len() implies #[trigger] rest[i] != '\r' by {
            assert(rest[i] == text[i + 1]);
        }
        law_plain_lines_stay(rest);
        assert(text[0] != '\r');
        assert(seq![text[0]] + rest =~= text);
    } else {
        assert(with_plain_lines(text) =~= text);
    }
}

/// A `\r` before the end of a line is left out.
pub proof fn law_line_ends_become_plain(line: Seq<char>, text: Seq<char>)
    requires
        forall|i: int| 0 <= i < line.len() ==> #[trigger] line[i] != '\r',
    ensures
        with_plain_lines(line + seq!['\r', '\n'] + text) == line + seq!['\n'] + with_plain_lines(
            text,
        ),
    decreases line.len(),
{
    let all = line + seq!['\r', '\n'] + text;
    if line.len() > 0 {
        let rest = line.drop_first();
        assert forall|i: int| 0 <= i < rest.len() implies #[trigger] rest[i] != '\r' by {
            assert(rest[i] == line[i + 1]);
        }
        law_line_ends_become_plain(rest, text);
        assert(line[0] != '\r');
        assert(all.drop_first() =~= rest + seq!['\r', '\n'] + text);
        assert(with_plain_lines(all) =~= line + seq!['\n'] + with_plain_lines(text));
    } else {
        let next = seq!['\n'] + text;
        assert(all.drop_first() =~= next);
        assert(next.drop_first() =~= text);
        assert(with_plain_lines(next) == seq!['\n'] + with_plain_lines(text));
        assert(with_plain_lines(all) =~= line + seq!['\n'] + with_plain_lines(text));
    }
}

/// What the text of a block ends with: its semantic variables, indented.
pub open spec fn semantics_text(semantics: Seq<char>) -> Seq<char> {
    "semantics:\n"@ + indented("  "@, with_plain_lines(semantics))
}

/// The text of a block starts with the id of the block, on a line of its own, and ends with its
/// semantic variables. In between are its statements, if there are any: a line that says so, and a
/// line for each of them, in their order.
pub proof fn law_block_text(
    block_id: Seq<char>,
    statements: Seq<String>,
    semantics: Seq<char>,
    last: String,
)
    ensures
        ({
            let head = "block_id: "@ + block_id + "\n"@;
            let tail = semantics_text(semantics);
            let line = "  "@ + last@ + "\n"@;
            let before = block_text(block_id, statements, semantics);
            let after = block_text(block_id, statements.push(last), semantics);
            &&& block_text(block_id, Seq::empty(), semantics) == head + tail
            &&& statements.len() == 0 ==> after == head + "statements:\n"@ + line + tail
            &&& statements.len() > 0 ==> exists|start: Seq<char>|
                before == #[trigger] (start + tail) && after == start + line + tail
        }),
{
    let head = "block_id: "@ + block_id + "\n"@;
    let tail = semantics_text(semantics);
    let line = "  "@ + last@ + "\n"@;
    let before = block_text(block_id, statements, semantics);
    let all = statements.push(last);
    let after = block_text(block_id, all, semantics);
    assert(all.drop_last() =~= statements);
    assert(statement_lines(all) =~= statement_lines(statements) + line);
    assert(block_text(block_id, Seq::empty(), semantics) =~= head + tail);
    if statements.len() == 0 {
        assert(after =~= head + "statements:\n"@ + line + tail);
    } else {
        let start = head + "statements:\n"@ + statement_lines(statements);
        assert(before =~= start + tail);
        assert(after =~= start + line + tail);
    }
}

} // verus!
