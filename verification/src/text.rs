//! Text addressed by UTF-8 byte offsets: slices, line numbers, columns and lines.

use vstd::prelude::*;
use vstd::utf8::*;

verus! {

/// Byte offset `pos` lies between two characters of `text`, or at one of its ends.
pub open spec fn on_boundary(text: Seq<char>, pos: int) -> bool {
    is_char_boundary(encode_utf8(text), pos)
}

/// The characters of `text` from byte offset `start` up to byte offset `end`.
pub open spec fn slice(text: Seq<char>, start: int, end: int) -> Seq<char> {
    decode_utf8(encode_utf8(text).subrange(start, end))
}

/// The length of `text` in bytes.
pub open spec fn byte_len(text: Seq<char>) -> int {
    encode_utf8(text).len() as int
}

/// The characters before byte offset `pos`.
pub open spec fn before(text: Seq<char>, pos: int) -> Seq<char> {
    slice(text, 0, pos)
}

/// The characters from byte offset `pos` on.
pub open spec fn after(text: Seq<char>, pos: int) -> Seq<char> {
    slice(text, pos, byte_len(text))
}

/// How many line feeds `text` holds.
pub open spec fn line_feeds(text: Seq<char>) -> nat
    decreases text.len(),
{
    if text.len() == 0 {
        0
    } else {
        line_feeds(text.drop_last()) + if text.last() == '\n' {
            1nat
        } else {
            0nat
        }
    }
}

/// What follows the last line feed of `text`; all of it when it has none.
pub open spec fn last_line(text: Seq<char>) -> Seq<char>
    decreases text.len(),
{
    if text.len() == 0 || text.last() == '\n' {
        seq![]
    } else {
        last_line(text.drop_last()).push(text.last())
    }
}

/// `text` up to its first line feed, which is included; all of it when it has none.
pub open spec fn first_line(text: Seq<char>) -> Seq<char>
    decreases text.len(),
{
    if text.len() == 0 {
        seq![]
    } else if text[0] == '\n' {
        seq!['\n']
    } else {
        seq![text[0]] + first_line(text.drop_first())
    }
}

/// The line that byte offset `pos` is on, counted from 1.
pub open spec fn line_number(text: Seq<char>, pos: int) -> nat {
    1 + line_feeds(before(text, pos))
}

/// The column of byte offset `pos` in its line, in characters counted from 1.
pub open spec fn column(text: Seq<char>, pos: int) -> nat {
    1 + last_line(before(text, pos)).len()
}

/// The whole line around byte offset `pos`, with its line feed where it has one.
pub open spec fn line_around(text: Seq<char>, pos: int) -> Seq<char> {
    last_line(before(text, pos)) + first_line(after(text, pos))
}

/// Calls `pest::Position::line_col` at byte offset `pos` of `input`.
///
/// Claimed of it: the line is one more than the number of line feeds before `pos`, and the
/// column is one more than the number of characters between the last of them and `pos`.
#[verifier::external_body]
pub(crate) fn line_col(input: &str, pos: usize) -> (r: (usize, usize))
    requires
        on_boundary(input@, pos as int),
    ensures
        r.0 == line_number(input@, pos as int),
        r.1 == column(input@, pos as int),
{
    pest::Position::new(input, pos).unwrap().line_col()
}

/// Calls `pest::Position::line_of` at byte offset `pos` of `input`.
///
/// Claimed of it: the line starts behind the last line feed before `pos` and runs through the
/// first line feed at or behind `pos`; where there is none, it runs from the start or to the
/// end of `input`.
#[verifier::external_body]
pub(crate) fn line_of(input: &str, pos: usize) -> (r: &str)
    requires
        on_boundary(input@, pos as int),
    ensures
        r@ == line_around(input@, pos as int),
{
    pest::Position::new(input, pos).unwrap().line_of()
}

/// Calls `pest::Span::as_str` on the span of `input` from byte offset `start` to byte offset
/// `end`.
///
/// Claimed of it: the result holds the characters between the two offsets.
#[verifier::external_body]
pub(crate) fn span_str(input: &str, start: usize, end: usize) -> (r: &str)
    requires
        start <= end,
        on_boundary(input@, start as int),
        on_boundary(input@, end as int),
    ensures
        r@ == slice(input@, start as int, end as int),
{
    pest::Span::new(input, start, end).unwrap().as_str()
}

/// A boundary lies within the text.
pub proof fn lemma_boundary_in_range(text: Seq<char>, pos: int)
    requires
        on_boundary(text, pos),
    ensures
        0 <= pos <= byte_len(text),
{
    encode_utf8_valid_utf8(text);
}

/// The bytes between two boundaries are the encoding of the slice between them.
pub proof fn lemma_slice_bytes(text: Seq<char>, start: int, end: int)
    requires
        start <= end,
        on_boundary(text, start),
        on_boundary(text, end),
    ensures
        valid_utf8(encode_utf8(text).subrange(start, end)),
        encode_utf8(slice(text, start, end)) == encode_utf8(text).subrange(start, end),
        byte_len(slice(text, start, end)) == end - start,
{
    let bytes = encode_utf8(text);
    encode_utf8_valid_utf8(text);
    lemma_boundary_in_range(text, start);
    lemma_boundary_in_range(text, end);
    let head = bytes.subrange(0, end);
    valid_utf8_split(bytes, end);
    lemma_boundary_in_part(bytes, head, 0, start);
    valid_utf8_split(head, start);
    assert(head.subrange(start, head.len() as int) =~= bytes.subrange(start, end));
    decode_utf8_encode_utf8(bytes.subrange(start, end));
}

/// A boundary of `bytes` that falls within the valid part at `offset` is one of that part.
proof fn lemma_boundary_in_part(bytes: Seq<u8>, part: Seq<u8>, offset: int, pos: int)
    requires
        valid_utf8(bytes),
        valid_utf8(part),
        is_char_boundary(bytes, pos),
        0 <= offset <= pos <= offset + part.len() <= bytes.len(),
        part == bytes.subrange(offset, offset + part.len()),
    ensures
        is_char_boundary(part, pos - offset),
{
    if pos == offset + part.len() {
        is_char_boundary_start_end_of_seq(part);
    } else {
        is_char_boundary_iff_not_is_continuation_byte(bytes, pos);
        is_char_boundary_iff_not_is_continuation_byte(part, pos - offset);
        assert(part[pos - offset] == bytes[pos]);
    }
}

/// A slice is what comes before a boundary within it, followed by what comes after.
pub proof fn lemma_slice_split(text: Seq<char>, start: int, mid: int, end: int)
    requires
        start <= mid <= end,
        on_boundary(text, start),
        on_boundary(text, mid),
        on_boundary(text, end),
    ensures
        slice(text, start, end) == slice(text, start, mid) + slice(text, mid, end),
{
    let bytes = encode_utf8(text);
    encode_utf8_valid_utf8(text);
    lemma_boundary_in_range(text, start);
    lemma_boundary_in_range(text, end);
    lemma_slice_bytes(text, start, end);
    let part = bytes.subrange(start, end);
    lemma_boundary_in_part(bytes, part, start, mid);
    decode_utf8_split(part, mid - start);
    assert(part.subrange(0, mid - start) =~= bytes.subrange(start, mid));
    assert(part.subrange(mid - start, part.len() as int) =~= bytes.subrange(mid, end));
}

/// The slice between the two ends of a text is that text, and the ends are boundaries.
pub proof fn lemma_slice_all(text: Seq<char>)
    ensures
        on_boundary(text, 0),
        on_boundary(text, byte_len(text)),
        slice(text, 0, byte_len(text)) == text,
{
    encode_utf8_valid_utf8(text);
    is_char_boundary_start_end_of_seq(encode_utf8(text));
    encode_utf8_decode_utf8(text);
    assert(encode_utf8(text).subrange(0, byte_len(text)) =~= encode_utf8(text));
}

/// The encoding of two texts in a row is the two encodings in a row.
pub proof fn lemma_encode_concat(a: Seq<char>, b: Seq<char>)
    ensures
        encode_utf8(a + b) == encode_utf8(a) + encode_utf8(b),
    decreases a.len(),
{
    if a.len() == 0 {
        assert(a + b =~= b);
        assert(encode_utf8(a) + encode_utf8(b) =~= encode_utf8(b));
    } else {
        lemma_encode_concat(a.drop_first(), b);
        assert((a + b).drop_first() =~= a.drop_first() + b);
        assert(encode_scalar(a[0] as u32) + (encode_utf8(a.drop_first()) + encode_utf8(b))
            =~= (encode_scalar(a[0] as u32) + encode_utf8(a.drop_first())) + encode_utf8(b));
    }
}

/// Where one text follows another, the seam is a boundary and splits the two.
pub proof fn lemma_slice_concat(a: Seq<char>, b: Seq<char>)
    ensures
        byte_len(a + b) == byte_len(a) + byte_len(b),
        on_boundary(a + b, byte_len(a)),
        slice(a + b, 0, byte_len(a)) == a,
        slice(a + b, byte_len(a), byte_len(a + b)) == b,
{
    lemma_encode_concat(a, b);
    encode_utf8_valid_utf8(a);
    encode_utf8_valid_utf8(b);
    encode_utf8_valid_utf8(a + b);
    encode_utf8_decode_utf8(a);
    encode_utf8_decode_utf8(b);
    let bytes = encode_utf8(a + b);
    let cut = byte_len(a);
    assert(bytes.subrange(0, cut) =~= encode_utf8(a));
    assert(bytes.subrange(cut, bytes.len() as int) =~= encode_utf8(b));
    if encode_utf8(b).len() == 0 {
        is_char_boundary_start_end_of_seq(bytes);
    } else {
        is_char_boundary_start_end_of_seq(encode_utf8(b));
        is_char_boundary_iff_not_is_continuation_byte(encode_utf8(b), 0);
        is_char_boundary_iff_not_is_continuation_byte(bytes, cut);
        assert(bytes[cut] == encode_utf8(b)[0]);
    }
}

/// A boundary of the first of two texts in a row is one of both together, and the slices
/// before it are the same.
pub proof fn lemma_slice_of_first(a: Seq<char>, b: Seq<char>, start: int, end: int)
    requires
        start <= end,
        on_boundary(a, start),
        on_boundary(a, end),
    ensures
        on_boundary(a + b, start),
        on_boundary(a + b, end),
        slice(a + b, start, end) == slice(a, start, end),
{
    lemma_boundary_in_range(a, start);
    lemma_boundary_in_range(a, end);
    lemma_boundary_of_first(a, b, start);
    lemma_boundary_of_first(a, b, end);
    lemma_encode_concat(a, b);
    assert(encode_utf8(a + b).subrange(start, end) =~= encode_utf8(a).subrange(start, end));
}

proof fn lemma_boundary_of_first(a: Seq<char>, b: Seq<char>, pos: int)
    requires
        on_boundary(a, pos),
    ensures
        on_boundary(a + b, pos),
{
    lemma_boundary_in_range(a, pos);
    if pos == byte_len(a) {
        lemma_slice_concat(a, b);
    } else {
        lemma_encode_concat(a, b);
        encode_utf8_valid_utf8(a);
        encode_utf8_valid_utf8(a + b);
        is_char_boundary_iff_not_is_continuation_byte(encode_utf8(a), pos);
        is_char_boundary_iff_not_is_continuation_byte(encode_utf8(a + b), pos);
    }
}

/// A boundary of a text between two others is a boundary of the slice between those two.
pub proof fn lemma_boundary_of_slice(text: Seq<char>, start: int, end: int, pos: int)
    requires
        start <= pos <= end,
        on_boundary(text, start),
        on_boundary(text, end),
        on_boundary(text, pos),
    ensures
        on_boundary(slice(text, start, end), pos - start),
{
    encode_utf8_valid_utf8(text);
    lemma_slice_bytes(text, start, end);
    lemma_boundary_in_range(text, start);
    lemma_boundary_in_range(text, end);
    lemma_boundary_in_part(encode_utf8(text), encode_utf8(text).subrange(start, end), start, pos);
}

proof fn lemma_last_line(text: Seq<char>) -> (head: Seq<char>)
    ensures
        text == head + last_line(text),
        head.len() == 0 || head.last() == '\n',
        forall|i: int| 0 <= i < last_line(text).len() ==> #[trigger] last_line(text)[i] != '\n',
    decreases text.len(),
{
    if text.len() == 0 || text.last() == '\n' {
        assert(text + last_line(text) =~= text);
        text
    } else {
        let head = lemma_last_line(text.drop_last());
        assert(text.drop_last().push(text.last()) =~= text);
        assert(head + last_line(text) =~= (head + last_line(text.drop_last())).push(text.last()));
        head
    }
}

proof fn lemma_first_line(text: Seq<char>) -> (tail: Seq<char>)
    ensures
        text == first_line(text) + tail,
        tail.len() == 0 || (first_line(text).len() > 0 && first_line(text).last() == '\n'),
        forall|i: int|
            0 <= i < first_line(text).len() - 1 ==> #[trigger] first_line(text)[i] != '\n',
    decreases text.len(),
{
    if text.len() == 0 {
        assert(first_line(text) + text =~= text);
        text
    } else if text[0] == '\n' {
        assert(text =~= first_line(text) + text.drop_first());
        text.drop_first()
    } else {
        let rest = text.drop_first();
        let tail = lemma_first_line(rest);
        assert(seq![text[0]] + rest =~= text);
        assert(first_line(text) + tail =~= seq![text[0]] + (first_line(rest) + tail));
        assert forall|i: int| 0 <= i < first_line(text).len() - 1 implies #[trigger] first_line(
            text,
        )[i] != '\n' by {
            if i > 0 {
                assert(first_line(text)[i] == first_line(rest)[i - 1]);
            }
        }
        if tail.len() > 0 {
            assert(first_line(text).last() == first_line(rest).last());
        }
        tail
    }
}

/// The line around an offset is a line of the text: it begins at the start of the text or
/// behind a line feed, it ends at the end of the text or with a line feed, and there is no
/// other line feed in it. The column is within that line or right behind it.
pub proof fn law_line_around(text: Seq<char>, pos: int)
    requires
        on_boundary(text, pos),
    ensures
        exists|head: Seq<char>, tail: Seq<char>| #[trigger]
            (head + line_around(text, pos) + tail) == text && (head.len() == 0 || head.last()
                == '\n') && (tail.len() == 0 || (line_around(text, pos).len() > 0 && line_around(
                text,
                pos,
            ).last() == '\n')),
        forall|i: int|
            0 <= i < line_around(text, pos).len() - 1 ==> #[trigger] line_around(text, pos)[i]
                != '\n',
        1 <= line_number(text, pos),
        1 <= column(text, pos) <= line_around(text, pos).len() + 1,
{
    lemma_slice_all(text);
    lemma_boundary_in_range(text, pos);
    lemma_slice_split(text, 0, pos, byte_len(text));
    let head = lemma_last_line(before(text, pos));
    let tail = lemma_first_line(after(text, pos));
    let line = line_around(text, pos);
    assert(head + line + tail =~= text);
    if tail.len() > 0 {
        assert(line.last() == first_line(after(text, pos)).last());
    }
    let cut = last_line(before(text, pos)).len();
    assert forall|i: int| 0 <= i < line.len() - 1 implies #[trigger] line[i] != '\n' by {
        if i >= cut {
            assert(line[i] == first_line(after(text, pos))[i - cut]);
        }
    }
}

/// A byte offset is a boundary exactly when the first characters of the text, some number of
/// them, take up that many bytes.
pub proof fn law_boundary(text: Seq<char>, pos: int)
    ensures
        on_boundary(text, pos) <==> exists|i: int|
            0 <= i <= text.len() && encode_utf8(#[trigger] text.take(i)).len() == pos,
{
    if on_boundary(text, pos) {
        lemma_slice_all(text);
        lemma_boundary_in_range(text, pos);
        lemma_slice_split(text, 0, pos, byte_len(text));
        lemma_slice_bytes(text, 0, pos);
        assert(text.take(before(text, pos).len() as int) =~= before(text, pos));
    }
    assert forall|i: int|
        0 <= i <= text.len() && encode_utf8(#[trigger] text.take(i)).len() == pos implies on_boundary(
        text,
        pos,
    ) by {
        assert(text.take(i) + text.skip(i) =~= text);
        lemma_slice_concat(text.take(i), text.skip(i));
    }
}

/// The slice from behind the first `a` characters to behind the first `b` characters holds the
/// characters between, and its bytes are the bytes of the text there.
pub proof fn law_slice(text: Seq<char>, a: int, b: int)
    requires
        0 <= a <= b <= text.len(),
    ensures
        slice(
            text,
            encode_utf8(text.take(a)).len() as int,
            encode_utf8(text.take(b)).len() as int,
        ) == text.subrange(a, b),
        encode_utf8(text.subrange(a, b)) == encode_utf8(text).subrange(
            encode_utf8(text.take(a)).len() as int,
            encode_utf8(text.take(b)).len() as int,
        ),
{
    let part = text.subrange(a, b);
    assert(text.take(a) + part =~= text.take(b));
    assert(text.take(b) + text.skip(b) =~= text);
    lemma_encode_concat(text.take(a), part);
    lemma_encode_concat(text.take(b), text.skip(b));
    encode_utf8_decode_utf8(part);
    assert(encode_utf8(text).subrange(
        encode_utf8(text.take(a)).len() as int,
        encode_utf8(text.take(b)).len() as int,
    ) =~= encode_utf8(part));
}

proof fn lemma_line_feeds(text: Seq<char>)
    ensures
        line_feeds(text) == text.to_multiset().count('\n'),
    decreases text.len(),
{
    broadcast use vstd::seq_lib::group_to_multiset_ensures;

    if text.len() > 0 {
        lemma_line_feeds(text.drop_last());
        assert(text.drop_last().push(text.last()) =~= text);
    }
}

/// Behind the first `at` characters of a text, the line number is one more than the line feeds
/// among them, and the column is one more than the characters behind the last of those. The
/// line around that place begins there and runs up to `end`: through the first line feed from
/// the place on, or to the end of the text.
pub proof fn law_lines(text: Seq<char>, at: int) -> (end: int)
    requires
        0 <= at <= text.len(),
    ensures
        ({
            let pos = encode_utf8(text.take(at)).len() as int;
            let col = column(text, pos) as int;
            &&& line_number(text, pos) == 1 + text.take(at).to_multiset().count('\n')
            &&& 1 <= col <= at + 1
            &&& forall|i: int| at + 1 - col <= i < at ==> #[trigger] text[i] != '\n'
            &&& col <= at ==> text[at - col] == '\n'
            &&& at <= end <= text.len()
            &&& forall|i: int| at <= i < end - 1 ==> #[trigger] text[i] != '\n'
            &&& end < text.len() ==> at < end && text[end - 1] == '\n'
            &&& line_around(text, pos) == text.subrange(at + 1 - col, end)
        }),
{
    let pos = encode_utf8(text.take(at)).len() as int;
    law_slice(text, 0, at);
    law_slice(text, at, text.len() as int);
    assert(text.take(0) =~= seq![]);
    assert(text.take(text.len() as int) =~= text);
    assert(before(text, pos) =~= text.take(at));
    assert(after(text, pos) =~= text.skip(at));
    lemma_line_feeds(text.take(at));
    let head = lemma_last_line(text.take(at));
    let tail = lemma_first_line(text.skip(at));
    let last = last_line(text.take(at));
    let first = first_line(text.skip(at));
    let end = at + first.len();
    assert forall|i: int| at - last.len() <= i < at implies #[trigger] text[i] != '\n' by {
        assert(text.take(at)[i] == last[i - head.len()]);
    }
    if head.len() > 0 {
        assert(text.take(at)[head.len() - 1] == head.last());
    }
    assert forall|i: int| at <= i < end - 1 implies #[trigger] text[i] != '\n' by {
        assert(text.skip(at)[i - at] == first[i - at]);
    }
    if tail.len() > 0 {
        assert(text.skip(at)[first.len() - 1] == first.last());
    }
    assert forall|i: int| 0 <= i < last.len() implies #[trigger] last[i] == text[at - last.len()
        + i] by {
        assert(text.take(at)[head.len() + i] == last[i]);
    }
    assert forall|i: int| 0 <= i < first.len() implies #[trigger] first[i] == text[at + i] by {
        assert(text.skip(at)[i] == first[i]);
    }
    assert(line_around(text, pos) =~= text.subrange(at - last.len(), end));
    end
}

} // verus!
