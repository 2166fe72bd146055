//! Lines of text as rows of whitespace-separated fields.

use vstd::prelude::*;
use vstd::std_specs::iter::IteratorSpec;
use vstd::string::*;

verus! {

/// A field that is not what the grid's cells have to be. It carries the
/// field as it stood in the text.
#[derive(Debug, PartialEq, Eq)]
pub struct ParseError {
    pub token: String,
}

/// The characters that separate fields: those with the Unicode property
/// White_Space.
pub open spec fn is_space(c: char) -> bool {
    let u = c as u32;
    ||| 0x09 <= u <= 0x0D
    ||| u == 0x20
    ||| u == 0x85
    ||| u == 0xA0
    ||| u == 0x1680
    ||| 0x2000 <= u <= 0x200A
    ||| u == 0x2028
    ||| u == 0x2029
    ||| u == 0x202F
    ||| u == 0x205F
    ||| u == 0x3000
}

/// The fields of a line. Every separator ends one field and starts the next,
/// so a line with `n` separators has `n + 1` fields, some of them empty where
/// separators stand side by side or at an end of the line.
pub open spec fn fields(line: Seq<char>) -> Seq<Seq<char>>
    decreases line.len(),
{
    if line.len() == 0 {
        seq![Seq::<char>::empty()]
    } else {
        let before = fields(line.drop_last());
        if is_space(line.last()) {
            before.push(Seq::<char>::empty())
        } else {
            before.update(before.len() - 1, before.last().push(line.last()))
        }
    }
}

/// What a list of strings holds, as sequences of characters.
pub open spec fn texts(strings: Seq<String>) -> Seq<Seq<char>> {
    Seq::new(strings.len(), |i: int| strings[i]@)
}

/// Tells whether a character separates fields.
pub fn is_whitespace(c: char) -> (b: bool)
    ensures
        b == is_space(c),
{
    let u: u32 = c as u32;
    (0x09 <= u && u <= 0x0D) || u == 0x20 || u == 0x85 || u == 0xA0 || u == 0x1680 || (0x2000 <= u
        && u <= 0x200A) || u == 0x2028 || u == 0x2029 || u == 0x202F || u == 0x205F || u == 0x3000
}

/// The characters of a string, one by one.
pub fn chars_of(text: &str) -> (out: Vec<char>)
    ensures
        out@ == text@,
{
    broadcast use vstd::string::group_string_axioms;

    let mut out: Vec<char> = Vec::new();
    let mut rest = text.chars();
    loop
        invariant_except_break
            out@ + rest.remaining() == text@,
            rest.decrease() is Some,
        ensures
            out@ == text@,
        decreases rest.decrease()->0,
    {
        let ghost taken = out@;
        let ghost left = rest.remaining();
        match rest.next() {
            Some(c) => {
                out.push(c);
                assert(out@ + rest.remaining() =~= taken + left);
            },
            None => {
                assert(out@ =~= taken + left);
                break ;
            },
        }
    }
    out
}

/// Splits a line at every whitespace character.
pub fn split_fields(line: &str) -> (out: Vec<String>)
    ensures
        texts(out@) == fields(line@),
{
    let chars = chars_of(line);
    let n: usize = chars.len();
    let mut out: Vec<String> = Vec::new();
    let mut start: usize = 0;
    let mut i: usize = 0;
    assert(line@.take(0) =~= Seq::<char>::empty());
    assert(texts(out@).push(line@.subrange(0, 0)) =~= seq![Seq::<char>::empty()]);
    while i < n
        invariant
            start <= i <= n,
            n == line@.len(),
            chars@ == line@,
            fields(line@.take(i as int)) == texts(out@).push(
                line@.subrange(start as int, i as int),
            ),
        decreases n - i,
    {
        let ghost upto = line@.take(i + 1);
        let ghost done = texts(out@);
        assert(upto.drop_last() =~= line@.take(i as int));
        assert(upto.last() == line@[i as int]);
        if is_whitespace(chars[i]) {
            out.push(String::from_str(line.substring_char(start, i)));
            assert(line@.subrange(i + 1, i + 1) =~= Seq::<char>::empty());
            assert(texts(out@) =~= done.push(line@.subrange(start as int, i as int)));
            assert(texts(out@).push(line@.subrange(i + 1, i + 1)) =~= done.push(
                line@.subrange(start as int, i as int),
            ).push(Seq::<char>::empty()));
            start = i + 1;
        } else {
            assert(line@.subrange(start as int, i + 1) =~= line@.subrange(
                start as int,
                i as int,
            ).push(line@[i as int]));
            assert(done.push(line@.subrange(start as int, i + 1)) =~= done.push(
                line@.subrange(start as int, i as int),
            ).update(done.len() as int, line@.subrange(start as int, i as int).push(line@[i as int])));
        }
        i = i + 1;
    }
    assert(line@.take(n as int) =~= line@);
    let ghost done = texts(out@);
    out.push(String::from_str(line.substring_char(start, n)));
    assert(texts(out@) =~= done.push(line@.subrange(start as int, n as int)));
    out
}

/// Where the last line of a text starts that no newline ends: behind the
/// last newline, or at the start of a text without one.
pub open spec fn open_start(text: Seq<char>) -> int
    decreases text.len(),
{
    if text.len() == 0 {
        0
    } else if text.last() == '\n' {
        text.len() as int
    } else {
        open_start(text.drop_last())
    }
}

/// A line without the carriage return that stood before its newline.
pub open spec fn strip_cr(line: Seq<char>) -> Seq<char> {
    if line.len() > 0 && line.last() == '\r' {
        line.drop_last()
    } else {
        line
    }
}

/// The lines of a text that a newline ends, each without its newline and
/// without a carriage return before it.
pub open spec fn closed_lines(text: Seq<char>) -> Seq<Seq<char>>
    decreases text.len(),
{
    if text.len() == 0 {
        Seq::<Seq<char>>::empty()
    } else if text.last() == '\n' {
        closed_lines(text.drop_last()).push(
            strip_cr(text.subrange(open_start(text.drop_last()), text.len() - 1)),
        )
    } else {
        closed_lines(text.drop_last())
    }
}

/// The lines of a text. The newline at the end of the last line is
/// optional: what follows the last newline is a line of its own only where
/// it is not empty, and it is taken as it stands.
pub open spec fn lines_of(text: Seq<char>) -> Seq<Seq<char>> {
    if open_start(text) < text.len() {
        closed_lines(text).push(text.skip(open_start(text)))
    } else {
        closed_lines(text)
    }
}

/// Splits a text into its lines.
pub fn split_lines(text: &str) -> (out: Vec<String>)
    ensures
        texts(out@) == lines_of(text@),
{
    let chars = chars_of(text);
    let n: usize = chars.len();
    let mut out: Vec<String> = Vec::new();
    let mut start: usize = 0;
    let mut i: usize = 0;
    assert(text@.take(0) =~= Seq::<char>::empty());
    assert(texts(out@) =~= Seq::<Seq<char>>::empty());
    while i < n
        invariant
            start <= i <= n,
            n == text@.len(),
            chars@ == text@,
            start == open_start(text@.take(i as int)),
            texts(out@) == closed_lines(text@.take(i as int)),
        decreases n - i,
    {
        let ghost upto = text@.take(i + 1);
        let ghost done = texts(out@);
        assert(upto.drop_last() =~= text@.take(i as int));
        assert(upto.last() == text@[i as int]);
        if chars[i] == '\n' {
            let end: usize = if start < i && chars[i - 1] == '\r' {
                (i - 1) as usize
            } else {
                i
            };
            assert(upto.subrange(start as int, i as int) =~= text@.subrange(
                start as int,
                i as int,
            ));
            assert(strip_cr(text@.subrange(start as int, i as int)) =~= text@.subrange(
                start as int,
                end as int,
            ));
            out.push(String::from_str(text.substring_char(start, end)));
            assert(texts(out@) =~= done.push(text@.subrange(start as int, end as int)));
            start = i + 1;
        }
        i = i + 1;
    }
    assert(text@.take(n as int) =~= text@);
    if start < n {
        let ghost done = texts(out@);
        out.push(String::from_str(text.substring_char(start, n)));
        assert(text@.skip(start as int) =~= text@.subrange(start as int, n as int));
        assert(texts(out@) =~= done.push(text@.subrange(start as int, n as int)));
    }
    out
}

/// Behind the place where the last line starts there is no newline.
proof fn tail_holds_no_newline(text: Seq<char>, j: int)
    requires
        0 <= j,
        open_start(text) <= j < text.len(),
    ensures
        text[j] != '\n',
    decreases text.len(),
{
    if text.len() > 0 && text.last() != '\n' && j < text.len() - 1 {
        tail_holds_no_newline(text.drop_last(), j);
    }
}

/// The last line starts within the text.
proof fn open_start_bounds(text: Seq<char>)
    ensures
        0 <= open_start(text) <= text.len(),
    decreases text.len(),
{
    if text.len() > 0 && text.last() != '\n' {
        open_start_bounds(text.drop_last());
    }
}

/// No line that a newline ends holds a newline.
proof fn closed_lines_hold_no_newline(text: Seq<char>)
    ensures
        forall|k: int, i: int|
            0 <= k < closed_lines(text).len() && 0 <= i < closed_lines(text)[k].len()
                ==> #[trigger] closed_lines(text)[k][i] != '\n',
    decreases text.len(),
{
    if text.len() > 0 {
        let before = text.drop_last();
        closed_lines_hold_no_newline(before);
        if text.last() == '\n' {
            let start = open_start(before);
            open_start_bounds(before);
            let piece = text.subrange(start, text.len() - 1);
            assert forall|i: int| 0 <= i < piece.len() implies piece[i] != '\n' by {
                tail_holds_no_newline(before, start + i);
            }
            assert forall|k: int, i: int|
                0 <= k < closed_lines(text).len() && 0 <= i < closed_lines(text)[k].len()
                    implies #[trigger] closed_lines(text)[k][i] != '\n' by {
                if k < closed_lines(before).len() {
                    assert(closed_lines(text)[k] == closed_lines(before)[k]);
                } else {
                    assert(closed_lines(text)[k][i] == piece[i]);
                }
            }
        }
    }
}

/// No line of a text holds a newline.
pub proof fn lines_hold_no_newline(text: Seq<char>)
    ensures
        forall|k: int, i: int|
            0 <= k < lines_of(text).len() && 0 <= i < lines_of(text)[k].len()
                ==> #[trigger] lines_of(text)[k][i] != '\n',
{
    closed_lines_hold_no_newline(text);
    open_start_bounds(text);
    let start = open_start(text);
    assert forall|k: int, i: int|
        0 <= k < lines_of(text).len() && 0 <= i < lines_of(text)[k].len()
            implies #[trigger] lines_of(text)[k][i] != '\n' by {
        if k < closed_lines(text).len() {
            assert(lines_of(text)[k] == closed_lines(text)[k]);
        } else {
            tail_holds_no_newline(text, start + i);
        }
    }
}

/// The number of separators in a line.
pub open spec fn separators(line: Seq<char>) -> nat
    decreases line.len(),
{
    if line.len() == 0 {
        0
    } else {
        separators(line.drop_last()) + if is_space(line.last()) {
            1nat
        } else {
            0nat
        }
    }
}

/// A line has one field more than it has separators, and no field holds a
/// separator.
pub proof fn fields_are_clean(line: Seq<char>)
    ensures
        fields(line).len() == separators(line) + 1,
        forall|k: int, i: int|
            0 <= k < fields(line).len() && 0 <= i < fields(line)[k].len() ==> !is_space(
                #[trigger] fields(line)[k][i],
            ),
    decreases line.len(),
{
    if line.len() > 0 {
        fields_are_clean(line.drop_last());
        let before = fields(line.drop_last());
        assert forall|k: int, i: int|
            0 <= k < fields(line).len() && 0 <= i < fields(line)[k].len() implies !is_space(
            #[trigger] fields(line)[k][i],
        ) by {
            if k < before.len() - 1 {
                assert(fields(line)[k] == before[k]);
            } else if is_space(line.last()) {
                if k == before.len() - 1 {
                    assert(fields(line)[k] == before[k]);
                }
            } else if i < before.last().len() {
                assert(fields(line)[k][i] == before[k][i]);
            }
        }
    }
}

/// The number of characters in all fields of a row.
pub open spec fn total_len(row: Seq<Seq<char>>) -> nat
    decreases row.len(),
{
    if row.len() == 0 {
        0
    } else {
        total_len(row.drop_last()) + row.last().len()
    }
}

/// Splitting loses no character: the fields and the separators together are
/// as long as the line.
pub proof fn fields_cover_line(line: Seq<char>)
    ensures
        total_len(fields(line)) + separators(line) == line.len(),
    decreases line.len(),
{
    if line.len() == 0 {
        assert(fields(line).drop_last() =~= Seq::<Seq<char>>::empty());
        assert(total_len(fields(line).drop_last()) == 0);
    } else {
        fields_cover_line(line.drop_last());
        fields_are_clean(line.drop_last());
        let before = fields(line.drop_last());
        if is_space(line.last()) {
            assert(fields(line).drop_last() =~= before);
        } else {
            assert(fields(line).drop_last() =~= before.drop_last());
        }
    }
}

} // verus!
