//! Replacing ranges of a string.

use crate::text;
use vstd::prelude::*;
use vstd::utf8::*;

verus! {

/// A range of byte offsets, both ends included, and the text to put in its place.
pub type Replacement = ((usize, usize), String);

/// The offset at which a replacement begins.
pub open spec fn start_of(e: Replacement) -> int {
    e.0.0 as int
}

/// `e` put into a row that is sorted by start, behind all that begin no later.
pub open spec fn inserted(row: Seq<Replacement>, e: Replacement) -> Seq<Replacement>
    decreases row.len(),
{
    if row.len() == 0 || start_of(row.last()) <= start_of(e) {
        row.push(e)
    } else {
        inserted(row.drop_last(), e).push(row.last())
    }
}

/// The row sorted by start; those that begin alike keep their order.
pub open spec fn sorted(row: Seq<Replacement>) -> Seq<Replacement>
    decreases row.len(),
{
    if row.len() == 0 {
        row
    } else {
        inserted(sorted(row.drop_last()), row.last())
    }
}

/// A range of byte offsets, the second one behind its end, and the text to put in its place.
pub struct Edit {
    pub start: int,
    pub stop: int,
    pub value: Seq<char>,
}

pub open spec fn edit_of(e: Replacement) -> Edit {
    Edit { start: start_of(e), stop: e.0.1 + 1, value: e.1@ }
}

pub open spec fn edits_of(row: Seq<Replacement>) -> Seq<Edit> {
    row.map_values(|e: Replacement| edit_of(e))
}

/// The range of `e` lies in `s` and cuts through none of its characters.
pub open spec fn fits(s: Seq<char>, e: Edit) -> bool {
    &&& e.start <= e.stop
    &&& text::on_boundary(s, e.start)
    &&& text::on_boundary(s, e.stop)
}

/// `s` with the range of `e` replaced.
pub open spec fn replaced_once(s: Seq<char>, e: Edit) -> Seq<char> {
    text::before(s, e.start) + e.value + text::after(s, e.stop)
}

/// `s` with all ranges replaced, the last of the row first.
pub open spec fn replaced(s: Seq<char>, row: Seq<Edit>) -> Seq<char>
    decreases row.len(),
{
    if row.len() == 0 {
        s
    } else {
        replaced(replaced_once(s, row.last()), row.drop_last())
    }
}

/// Every range fits when its turn comes, the last of the row first.
pub open spec fn replaceable(s: Seq<char>, row: Seq<Edit>) -> bool
    decreases row.len(),
{
    row.len() > 0 ==> {
        &&& fits(s, row.last())
        &&& replaceable(replaced_once(s, row.last()), row.drop_last())
    }
}

/// The ranges fit into `s`, and each ends before the next one begins.
pub open spec fn apart(s: Seq<char>, row: Seq<Edit>) -> bool {
    &&& forall|i: int| 0 <= i < row.len() ==> fits(s, #[trigger] row[i])
    &&& forall|i: int, j: int|
        0 <= i < j < row.len() ==> (#[trigger] row[i]).stop <= (#[trigger] row[j]).start
}

/// The offset behind the last range of the row, 0 when there is none.
pub open spec fn stop_of(row: Seq<Edit>) -> int {
    if row.len() == 0 {
        0
    } else {
        row.last().stop
    }
}

/// The text of `s` up to the end of the last range, with the values in place of the ranges.
pub open spec fn interleaved(s: Seq<char>, row: Seq<Edit>) -> Seq<char>
    decreases row.len(),
{
    if row.len() == 0 {
        seq![]
    } else {
        interleaved(s, row.drop_last()) + text::slice(
            s,
            stop_of(row.drop_last()),
            row.last().start,
        ) + row.last().value
    }
}

fn swap_neighbours(row: &mut [Replacement], j: usize)
    requires
        0 < j < old(row)@.len(),
    ensures
        final(row)@ == old(row)@.update(j - 1, old(row)@[j as int]).update(
            j as int,
            old(row)@[j - 1],
        ),
{
    let (left, right) = row.split_at_mut(j);
    if let Some(a) = left.last_mut() {
        if let Some(b) = right.first_mut() {
            std::mem::swap(a, b);
        }
    }
}

/// Sorts the row by start; those that begin alike keep their order.
fn sort_by_start(row: &mut [Replacement])
    ensures
        final(row)@ == sorted(old(row)@),
{
    let n: usize = row.len();
    let ghost given = row@;
    let mut i: usize = 0;
    assert(given.take(0) =~= seq![]);
    while i < n
        invariant
            n == given.len(),
            n == row@.len(),
            i <= n,
            row@ == sorted(given.take(i as int)) + given.skip(i as int),
            sorted(given.take(i as int)).len() == i,
        decreases n - i,
    {
        let ghost done = sorted(given.take(i as int));
        let ghost e = given[i as int];
        let mut j: usize = i;
        proof {
            assert(given.take(i + 1).drop_last() =~= given.take(i as int));
            lemma_inserted_len(done, e);
            assert(done.take(i as int) =~= done);
            assert(done.skip(i as int) =~= seq![]);
            assert(inserted(done, e) =~= inserted(done.take(j as int), e) + done.skip(j as int));
        }
        while j > 0 && row[j - 1].0.0 > row[j].0.0
            invariant
                n == given.len(),
                n == row@.len(),
                j <= i < n,
                done.len() == i,
                e == given[i as int],
                row@ =~= done.take(j as int).push(e) + done.skip(j as int) + given.skip(i + 1),
                inserted(done, e) == inserted(done.take(j as int), e) + done.skip(j as int),
            decreases j,
        {
            proof {
                let head = done.take(j as int);
                assert(head.drop_last() =~= done.take(j - 1));
                assert(head.last() == done[j - 1]);
                assert(done.skip(j - 1) =~= seq![done[j - 1]] + done.skip(j as int));
                assert(inserted(head, e) + done.skip(j as int)
                    =~= inserted(head.drop_last(), e) + done.skip(j - 1));
            }
            swap_neighbours(row, j);
            j = j - 1;
        }
        proof {
            let head = done.take(j as int);
            if j > 0 {
                assert(row@[j - 1] == done[j - 1]);
                assert(row@[j as int] == e);
            }
            assert(inserted(head, e) == head.push(e));
            assert(sorted(given.take(i + 1)) == inserted(done, e));
            assert(inserted(done, e) =~= head.push(e) + done.skip(j as int));
        }
        i = i + 1;
    }
    assert(given.take(n as int) =~= given);
    assert(given.skip(n as int) =~= seq![]);
    assert(row@ =~= sorted(given));
}

/// Replaces one range of `s`.
fn replace_once(s: String, e: &Replacement) -> (r: String)
    requires
        fits(s@, edit_of(*e)),
    ensures
        r@ == replaced_once(s@, edit_of(*e)),
{
    let whole: &str = s.as_str();
    let len: usize = whole.as_bytes().len();
    proof {
        text::lemma_boundary_in_range(s@, edit_of(*e).stop);
        text::lemma_slice_all(s@);
        text::lemma_slice_bytes(s@, 0, start_of(*e));
        text::lemma_slice_bytes(s@, edit_of(*e).stop, text::byte_len(s@));
    }
    let stop: usize = e.0.1 + 1;
    let head: &str = whole.split_at(e.0.0).0;
    let tail: &str = whole.split_at(stop).1;
    proof {
        encode_utf8_decode_utf8(head@);
        encode_utf8_decode_utf8(tail@);
    }
    let mut r: String = head.to_owned();
    r.append(e.1.as_str());
    r.append(tail);
    r
}

/// Utility that replaces all the replacing values into the target string.
///
/// The values are sorted by start and replaced from the last to the first, so that no
/// replacement moves the range of another one before it.
pub fn replaced_in_string(s: String, replacing_values: &mut [Replacement]) -> (r: String)
    requires
        replaceable(s@, edits_of(sorted(old(replacing_values)@))),
    ensures
        final(replacing_values)@ == sorted(old(replacing_values)@),
        r@ == replaced(s@, edits_of(sorted(old(replacing_values)@))),
{
    sort_by_start(replacing_values);
    let ghost row = edits_of(replacing_values@);
    let mut s: String = s;
    let ghost given = s@;
    let mut i: usize = replacing_values.len();
    assert(row.take(i as int) =~= row);
    while i > 0
        invariant
            i <= row.len(),
            row == edits_of(replacing_values@),
            replaceable(s@, row.take(i as int)),
            replaced(s@, row.take(i as int)) == replaced(given, row),
        decreases i,
    {
        proof {
            assert(row.take(i as int).drop_last() =~= row.take(i - 1));
            assert(row.take(i as int).last() == row[i - 1]);
        }
        i = i - 1;
        s = replace_once(s, &replacing_values[i]);
    }
    s
}

proof fn lemma_inserted_len(row: Seq<Replacement>, e: Replacement)
    ensures
        inserted(row, e).len() == row.len() + 1,
    decreases row.len(),
{
    if row.len() > 0 && start_of(row.last()) > start_of(e) {
        lemma_inserted_len(row.drop_last(), e);
    }
}

/// The starts of the row never go down.
pub open spec fn ascending(row: Seq<Replacement>) -> bool {
    forall|i: int, j: int|
        0 <= i <= j < row.len() ==> start_of(#[trigger] row[i]) <= start_of(#[trigger] row[j])
}

/// The entries of the row that begin at `start`, in their order.
pub open spec fn beginning_at(row: Seq<Replacement>, start: int) -> Seq<Replacement> {
    row.filter(|e: Replacement| start_of(e) == start)
}

proof fn lemma_beginning_push(row: Seq<Replacement>, e: Replacement, start: int)
    ensures
        beginning_at(row.push(e), start) == if start_of(e) == start {
            beginning_at(row, start).push(e)
        } else {
            beginning_at(row, start)
        },
{
    reveal(Seq::filter);
    assert(row.push(e).drop_last() =~= row);
}

proof fn lemma_inserted(row: Seq<Replacement>, e: Replacement, start: int)
    requires
        ascending(row),
    ensures
        ascending(inserted(row, e)),
        inserted(row, e).to_multiset() == row.to_multiset().insert(e),
        beginning_at(inserted(row, e), start) == beginning_at(row.push(e), start),
        forall|i: int|
            0 <= i < inserted(row, e).len() ==> inserted(row, e)[i] == e || exists|j: int|
                0 <= j < row.len() && row[j] == #[trigger] inserted(row, e)[i],
    decreases row.len(),
{
    broadcast use vstd::seq_lib::group_to_multiset_ensures;

    lemma_inserted_len(row, e);
    if row.len() == 0 || start_of(row.last()) <= start_of(e) {
        assert forall|i: int| 0 <= i < row.push(e).len() implies row.push(e)[i] == e
            || exists|j: int| 0 <= j < row.len() && row[j] == #[trigger] row.push(e)[i] by {
            if i < row.len() {
                assert(row[i] == row.push(e)[i]);
            }
        }
    } else {
        let front = row.drop_last();
        let last = row.last();
        let inner = inserted(front, e);
        lemma_inserted(front, e, start);
        lemma_inserted_len(front, e);
        assert(front.push(last) =~= row);
        lemma_beginning_push(inner, last, start);
        lemma_beginning_push(front, e, start);
        lemma_beginning_push(front, last, start);
        lemma_beginning_push(row, e, start);
        assert(row.to_multiset() =~= front.to_multiset().insert(last));
        assert(inner.push(last).to_multiset() =~= row.to_multiset().insert(e));
        assert forall|i: int| 0 <= i < inner.len() implies start_of(#[trigger] inner[i])
            <= start_of(last) by {
            if inner[i] != e {
                let j = choose|j: int| 0 <= j < front.len() && front[j] == inner[i];
                assert(row[j] == front[j]);
            }
        }
        assert forall|i: int| 0 <= i < inner.push(last).len() implies inner.push(last)[i] == e
            || exists|j: int| 0 <= j < row.len() && row[j] == #[trigger] inner.push(last)[i] by {
            if i < inner.len() {
                if inner[i] != e {
                    let j = choose|j: int| 0 <= j < front.len() && front[j] == inner[i];
                    assert(row[j] == inner.push(last)[i]);
                }
            } else {
                assert(row[row.len() - 1] == inner.push(last)[i]);
            }
        }
    }
}

/// Sorting puts the starts in order, neither adds nor loses an entry, and leaves those that
/// begin alike in the order they had.
pub proof fn law_sorted(row: Seq<Replacement>, start: int)
    ensures
        ascending(sorted(row)),
        sorted(row).to_multiset() == row.to_multiset(),
        beginning_at(sorted(row), start) == beginning_at(row, start),
    decreases row.len(),
{
    broadcast use vstd::seq_lib::group_to_multiset_ensures;

    if row.len() > 0 {
        let front = row.drop_last();
        law_sorted(front, start);
        lemma_inserted(sorted(front), row.last(), start);
        assert(front.push(row.last()) =~= row);
        lemma_beginning_push(front, row.last(), start);
        lemma_beginning_push(sorted(front), row.last(), start);
    }
}

/// A row that is in order stays as it is.
pub proof fn law_sorted_row_stays(row: Seq<Replacement>)
    requires
        ascending(row),
    ensures
        sorted(row) == row,
    decreases row.len(),
{
    if row.len() > 0 {
        let front = row.drop_last();
        law_sorted_row_stays(front);
        if front.len() > 0 {
            assert(start_of(row[row.len() - 2]) <= start_of(row[row.len() - 1]));
        }
        assert(front.push(row.last()) =~= row);
    }
}

/// Where the ranges lie apart, replacing them leaves all text between them as it is: the
/// result is that text with the values in place of the ranges.
pub proof fn law_text_between_stays(s: Seq<char>, row: Seq<Edit>)
    requires
        apart(s, row),
    ensures
        replaceable(s, row),
        replaced(s, row) == interleaved(s, row) + text::after(s, stop_of(row)),
{
    text::lemma_slice_all(s);
    if row.len() > 0 {
        assert(fits(s, row[row.len() - 1]));
        text::lemma_boundary_in_range(s, row.last().stop);
        text::lemma_slice_split(s, 0, stop_of(row), text::byte_len(s));
    } else {
        assert(text::before(s, 0) + text::after(s, 0) =~= s);
    }
    lemma_replaced_prefix(s, row, text::after(s, stop_of(row)));
    assert(text::before(s, stop_of(row)) + text::after(s, stop_of(row)) == s);
}

/// What comes behind the last range does not matter to the replacing.
proof fn lemma_replaced_prefix(s: Seq<char>, row: Seq<Edit>, rest: Seq<char>)
    requires
        apart(s, row),
    ensures
        replaceable(text::before(s, stop_of(row)) + rest, row),
        replaced(text::before(s, stop_of(row)) + rest, row) == interleaved(s, row) + rest,
    decreases row.len(),
{
    let now = text::before(s, stop_of(row)) + rest;
    text::lemma_slice_all(s);
    if row.len() == 0 {
        text::lemma_slice_bytes(s, 0, 0);
        assert(encode_utf8(s).subrange(0, 0) =~= seq![]);
        assert(now =~= rest);
        assert(interleaved(s, row) + rest =~= rest);
    } else {
        let front = row.drop_last();
        let e = row.last();
        assert(fits(s, row[row.len() - 1]));
        if front.len() > 0 {
            assert(fits(s, row[row.len() - 2]));
        }
        text::lemma_boundary_in_range(s, e.start);
        text::lemma_boundary_in_range(s, e.stop);
        text::lemma_boundary_in_range(s, stop_of(front));
        let head = text::before(s, e.stop);
        text::lemma_slice_bytes(s, 0, e.stop);
        text::lemma_slice_concat(head, rest);
        text::lemma_boundary_of_slice(s, 0, e.stop, e.start);
        text::lemma_slice_all(head);
        text::lemma_slice_of_first(head, rest, 0, e.start);
        text::lemma_slice_bytes(s, 0, e.start);
        assert(encode_utf8(head).subrange(0, e.start) =~= encode_utf8(s).subrange(0, e.start));
        assert(text::before(now, e.start) == text::before(s, e.start));
        assert(text::after(now, e.stop) == rest);
        text::lemma_slice_split(s, 0, stop_of(front), e.start);
        let between = text::slice(s, stop_of(front), e.start);
        assert(replaced_once(now, e) =~= text::before(s, stop_of(front)) + (between + e.value
            + rest));
        assert forall|i: int| 0 <= i < front.len() implies fits(s, #[trigger] front[i]) by {
            assert(fits(s, row[i]));
        }
        assert(apart(s, front));
        lemma_replaced_prefix(s, front, between + e.value + rest);
        assert(interleaved(s, row) + rest =~= interleaved(s, front) + (between + e.value + rest));
    }
}

/// The entries that begin at an offset are found one by one.
pub proof fn law_beginning_at(row: Seq<Replacement>, e: Replacement, start: int)
    ensures
        beginning_at(seq![], start).len() == 0,
        beginning_at(row.push(e), start) == if e.0.0 == start {
            beginning_at(row, start).push(e)
        } else {
            beginning_at(row, start)
        },
{
    reveal(Seq::filter);
    lemma_beginning_push(row, e, start);
}

/// In the sorted row, no entry begins before one that stands before it.
pub proof fn law_sorted_by_start(row: Seq<Replacement>, i: int, j: int)
    requires
        0 <= i <= j < row.len(),
    ensures
        sorted(row).len() == row.len(),
        sorted(row)[i].0.0 <= sorted(row)[j].0.0,
{
    broadcast use vstd::seq_lib::group_to_multiset_ensures;

    law_sorted(row, 0);
    assert(sorted(row).len() == sorted(row).to_multiset().len());
    assert(start_of(sorted(row)[i]) <= start_of(sorted(row)[j]));
}

/// Replacing the range that holds the characters from `a` to `b` puts the value in their place
/// and leaves all other characters as they are; without replacements nothing changes.
pub proof fn law_replace_one(s: Seq<char>, e: Replacement, a: int, b: int)
    requires
        0 <= a <= b <= s.len(),
        e.0.0 == encode_utf8(s.take(a)).len(),
        e.0.1 + 1 == encode_utf8(s.take(b)).len(),
    ensures
        replaceable(s, edits_of(seq![e])),
        replaced(s, edits_of(seq![e])) == s.take(a) + e.1@ + s.skip(b),
        replaceable(s, edits_of(seq![])),
        replaced(s, edits_of(seq![])) == s,
{
    reveal_with_fuel(replaced, 2);
    reveal_with_fuel(replaceable, 2);
    let row = edits_of(seq![e]);
    assert(row.last() == edit_of(e));
    text::law_boundary(s, e.0.0 as int);
    text::law_boundary(s, e.0.1 + 1);
    text::law_slice(s, 0, a);
    text::law_slice(s, a, b);
    text::law_slice(s, b, s.len() as int);
    assert(s.take(0) =~= seq![]);
    assert(s.take(s.len() as int) =~= s);
    assert(s.subrange(0, a) =~= s.take(a));
    assert(s.subrange(b, s.len() as int) =~= s.skip(b));
    assert(s.take(a) + s.subrange(a, b) =~= s.take(b));
    text::lemma_encode_concat(s.take(a), s.subrange(a, b));
    assert(fits(s, edit_of(e)));
    assert(row.drop_last().len() == 0);
}

/// Replacing a row is replacing its second part, and then its first part in what came out.
pub proof fn law_replace_in_two_steps(s: Seq<char>, a: Seq<Replacement>, b: Seq<Replacement>)
    ensures
        replaced(s, edits_of(a + b)) == replaced(replaced(s, edits_of(b)), edits_of(a)),
        replaceable(s, edits_of(a + b)) <==> replaceable(s, edits_of(b)) && replaceable(
            replaced(s, edits_of(b)),
            edits_of(a),
        ),
    decreases b.len(),
{
    if b.len() == 0 {
        assert(a + b =~= a);
        assert(edits_of(b) =~= seq![]);
    } else {
        let e = edit_of(b.last());
        assert(edits_of(a + b).drop_last() =~= edits_of(a + b.drop_last()));
        assert(edits_of(a + b).last() == e);
        assert(edits_of(b).drop_last() =~= edits_of(b.drop_last()));
        assert(edits_of(b).last() == e);
        law_replace_in_two_steps(replaced_once(s, e), a, b.drop_last());
    }
}

proof fn lemma_interleaved_parts(s: Seq<char>, row: Seq<Edit>, parts: Seq<Seq<char>>)
    requires
        parts.len() == 2 * row.len(),
        forall|k: int|
            0 <= k < parts.len() ==> #[trigger] parts[k] == if k % 2 == 0 {
                text::slice(
                    s,
                    if k == 0 {
                        0
                    } else {
                        row[k / 2 - 1].stop
                    },
                    row[k / 2].start,
                )
            } else {
                row[k / 2].value
            },
    ensures
        parts.flatten_alt() == interleaved(s, row),
    decreases row.len(),
{
    if row.len() > 0 {
        let front = row.drop_last();
        let less = parts.drop_last().drop_last();
        let n = row.len() - 1;
        assert forall|k: int| 0 <= k < less.len() implies #[trigger] less[k] == if k % 2 == 0 {
            text::slice(
                s,
                if k == 0 {
                    0
                } else {
                    front[k / 2 - 1].stop
                },
                front[k / 2].start,
            )
        } else {
            front[k / 2].value
        } by {
            assert(less[k] == parts[k]);
        }
        lemma_interleaved_parts(s, front, less);
        assert(parts.last() == parts[2 * n + 1]);
        assert(parts.drop_last().last() == parts[2 * n]);
        assert(parts[2 * n] == text::slice(s, stop_of(front), row.last().start));
        assert(parts.drop_last().flatten_alt() == less.flatten_alt() + parts[2 * n]);
        assert(parts.flatten_alt() == parts.drop_last().flatten_alt() + parts[2 * n + 1]);
    }
}

/// Where the ranges lie apart, the result is made up of parts: by turns the characters of the
/// text up to the next range, or behind the last one, and the value of that range.
pub proof fn law_replaced_parts(s: Seq<char>, row: Seq<Edit>, parts: Seq<Seq<char>>)
    requires
        apart(s, row),
        parts.len() == 2 * row.len() + 1,
        forall|k: int|
            0 <= k < parts.len() ==> #[trigger] parts[k] == if k % 2 == 0 {
                decode_utf8(
                    encode_utf8(s).subrange(
                        if k == 0 {
                            0
                        } else {
                            row[k / 2 - 1].stop
                        },
                        if k / 2 < row.len() {
                            row[k / 2].start
                        } else {
                            encode_utf8(s).len() as int
                        },
                    ),
                )
            } else {
                row[k / 2].value
            },
    ensures
        replaced(s, row) == parts.flatten(),
{
    let less = parts.drop_last();
    assert forall|k: int| 0 <= k < less.len() implies #[trigger] less[k] == if k % 2 == 0 {
        text::slice(
            s,
            if k == 0 {
                0
            } else {
                row[k / 2 - 1].stop
            },
            row[k / 2].start,
        )
    } else {
        row[k / 2].value
    } by {
        assert(less[k] == parts[k]);
    }
    lemma_interleaved_parts(s, row, less);
    law_text_between_stays(s, row);
    parts.lemma_flatten_and_flatten_alt_are_equivalent();
    assert(parts.last() == parts[parts.len() - 1]);
    assert(parts.last() == text::after(s, stop_of(row)));
}

} // verus!
