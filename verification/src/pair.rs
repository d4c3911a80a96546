//! The tokens that the grammar finds in a query file.

use crate::error;
use crate::error::ParsedPosition;
use crate::parsed::{Parsed, ParsedView};
use crate::text;
use vstd::prelude::*;
use vstd::utf8::*;

verus! {

/// What a token stands for.
#[derive(Debug, Clone, Copy, PartialEq, Eq, Structural)]
pub enum Rule {
    /// A query: its annotation, then its SQL.
    Query,
    /// A name.
    Ident,
    /// The index of a bind parameter.
    Number,
    /// The parameters of a query in PostgreSQL-compatible syntax.
    ParamList,
    /// The columns of a query that may be null.
    NullableColumnList,
    /// Anything else, such as an annotation or the SQL of a query.
    Other,
}

/// A token: its rule, the byte offsets between which it stands, and the tokens within it.
#[derive(Debug)]
pub struct Pair {
    pub rule: Rule,
    pub start: usize,
    pub end: usize,
    pub inner: Vec<Pair>,
}

/// Both ends of the token are character boundaries of the text, in order.
pub open spec fn spans(text: Seq<char>, p: Pair) -> bool {
    &&& p.start <= p.end
    &&& text::on_boundary(text, p.start as int)
    &&& text::on_boundary(text, p.end as int)
}

/// All tokens of the row do.
pub open spec fn all_span(text: Seq<char>, row: Seq<Pair>) -> bool {
    forall|i: int| 0 <= i < row.len() ==> spans(text, #[trigger] row[i])
}

/// The text of a token with its place.
pub open spec fn piece(text: Seq<char>, p: Pair) -> ParsedView<Seq<char>> {
    ParsedView {
        pos: error::place(text, p.start as int),
        value: text::slice(text, p.start as int, p.end as int),
    }
}

/// The texts of a row of tokens with their places.
pub open spec fn pieces(text: Seq<char>, row: Seq<Pair>) -> Seq<ParsedView<Seq<char>>> {
    row.map_values(|p: Pair| piece(text, p))
}

/// The SQL of a query: its bind parameters follow one another, each behind a mark of one byte.
pub open spec fn sql_fits(text: Seq<char>, sql: Pair) -> bool {
    let binds = sql.inner@;
    &&& spans(text, sql)
    &&& forall|i: int| #![trigger binds[i]]
        0 <= i < binds.len() ==> {
            &&& spans(text, binds[i])
            &&& sql.start < binds[i].start
            &&& text::on_boundary(text, binds[i].start - 1)
            &&& binds[i].end <= sql.end
        }
    &&& forall|i: int, j: int| #![trigger binds[i], binds[j]]
        0 <= i < j < binds.len() ==> binds[i].end < binds[j].start
}

/// The annotation of a query: its name, then a parameter list, a list of nullable columns or
/// the name of a struct, if anything.
pub open spec fn annotation_fits(text: Seq<char>, annotation: Pair) -> bool {
    let row = annotation.inner@;
    &&& row.len() >= 1
    &&& all_span(text, row)
    &&& forall|i: int| 0 <= i < row.len() ==> all_span(text, (#[trigger] row[i]).inner@)
    &&& row.len() >= 2 ==> row[1].rule == Rule::ParamList || row[1].rule
        == Rule::NullableColumnList || row[1].rule == Rule::Ident
}

pub open spec fn is_ident() -> spec_fn(Pair) -> bool {
    |p: Pair| p.rule == Rule::Ident
}

/// The annotation has a parameter list that does not hold exactly one name: the bind parameters
/// of the query have to be indexed.
pub open spec fn indexed_only(annotation: Pair) -> bool {
    let row = annotation.inner@;
    row.len() >= 2 && row[1].rule == Rule::ParamList && row[1].inner@.filter(is_ident()).len() != 1
}

/// A query: an annotation and its SQL. Where the bind parameters have to be indexed, nothing in
/// the SQL gives way to anything, and so nothing is asked of where they stand.
pub open spec fn query_fits(text: Seq<char>, q: Pair) -> bool {
    &&& text::on_boundary(text, q.start as int)
    &&& q.inner@.len() >= 2
    &&& annotation_fits(text, q.inner@[0])
    &&& spans(text, q.inner@[1])
    &&& all_span(text, q.inner@[1].inner@)
    &&& indexed_only(q.inner@[0]) || sql_fits(text, q.inner@[1])
}

/// What the grammar finds in a text: one token, in which all queries are such.
pub open spec fn pairs_fit(text: Seq<char>, pairs: Seq<Pair>) -> bool {
    &&& pairs.len() >= 1
    &&& forall|i: int|
        0 <= i < pairs[0].inner@.len() && (#[trigger] pairs[0].inner@[i]).rule == Rule::Query
            ==> query_fits(text, pairs[0].inner@[i])
}

impl Pair {
    /// The text of the token.
    pub fn as_str<'a>(&self, input: &'a str) -> (r: &'a str)
        requires
            spans(input@, *self),
        ensures
            r@ == text::slice(input@, self.start as int, self.end as int),
    {
        text::span_str(input, self.start, self.end)
    }

    /// The text of the token with its place.
    pub fn parsed(&self, input: &str) -> (r: Parsed<String>)
        requires
            spans(input@, *self),
        ensures
            r@ == piece(input@, *self),
    {
        let pos: ParsedPosition = error::position_at(input, self.start);
        let value: String = self.as_str(input).to_owned();
        Parsed { pos, value }
    }
}

fn check_span(input: &str, p: &Pair) -> (r: bool)
    ensures
        r == spans(input@, *p),
{
    p.start <= p.end && input.is_char_boundary(p.start) && input.is_char_boundary(p.end)
}

fn check_all_span(input: &str, row: &Vec<Pair>) -> (r: bool)
    ensures
        r == all_span(input@, row@),
{
    let mut i: usize = 0;
    while i < row.len()
        invariant
            i <= row@.len(),
            forall|k: int| 0 <= k < i ==> spans(input@, #[trigger] row@[k]),
        decreases row@.len() - i,
    {
        if !check_span(input, &row[i]) {
            assert(!spans(input@, row@[i as int]));
            return false;
        }
        i = i + 1;
    }
    true
}

fn check_sql(input: &str, sql: &Pair) -> (r: bool)
    ensures
        r == sql_fits(input@, *sql),
{
    if !check_span(input, sql) {
        return false;
    }
    let ghost binds = sql.inner@;
    let mut i: usize = 0;
    while i < sql.inner.len()
        invariant
            binds == sql.inner@,
            i <= binds.len(),
            forall|k: int| #![trigger binds[k]]
                0 <= k < i ==> {
                    &&& spans(input@, binds[k])
                    &&& sql.start < binds[k].start
                    &&& text::on_boundary(input@, binds[k].start - 1)
                    &&& binds[k].end <= sql.end
                },
            forall|k: int, l: int| #![trigger binds[k], binds[l]]
                0 <= k < l < i ==> binds[k].end < binds[l].start,
        decreases binds.len() - i,
    {
        let b: &Pair = &sql.inner[i];
        assert(*b == binds[i as int]);
        if !(check_span(input, b) && sql.start < b.start && input.is_char_boundary(b.start - 1)
            && b.end <= sql.end) {
            return false;
        }
        if i > 0 {
            let last: &Pair = &sql.inner[i - 1];
            assert(*last == binds[i - 1]);
            if last.end >= b.start {
                return false;
            }
        }
        i = i + 1;
    }
    true
}

fn check_annotation(input: &str, annotation: &Pair) -> (r: bool)
    ensures
        r == annotation_fits(input@, *annotation),
{
    let row: &Vec<Pair> = &annotation.inner;
    if row.len() < 1 || !check_all_span(input, row) {
        return false;
    }
    if row.len() >= 2 {
        let rule: Rule = row[1].rule;
        if !(rule == Rule::ParamList || rule == Rule::NullableColumnList || rule == Rule::Ident) {
            return false;
        }
    }
    let mut i: usize = 0;
    while i < row.len()
        invariant
            row@ == annotation.inner@,
            i <= row@.len(),
            forall|k: int| 0 <= k < i ==> all_span(input@, (#[trigger] row@[k]).inner@),
        decreases row@.len() - i,
    {
        if !check_all_span(input, &row[i].inner) {
            assert(!all_span(input@, row@[i as int].inner@));
            return false;
        }
        i = i + 1;
    }
    true
}

/// Tells whether a row holds exactly one name.
fn holds_one_name(row: &Vec<Pair>) -> (r: bool)
    ensures
        r == (row@.filter(is_ident()).len() == 1),
{
    let mut n: usize = 0;
    let mut i: usize = 0;
    proof {
        reveal(Seq::filter);
        assert(row@.take(0).filter(is_ident()).len() == 0);
    }
    while i < row.len()
        invariant
            n <= i <= row@.len(),
            n == row@.take(i as int).filter(is_ident()).len(),
        decreases row@.len() - i,
    {
        proof {
            reveal(Seq::filter);
            assert(row@.take(i + 1).drop_last() =~= row@.take(i as int));
        }
        if row[i].rule == Rule::Ident {
            n = n + 1;
        }
        i = i + 1;
    }
    assert(row@.take(i as int) =~= row@);
    n == 1
}

fn check_indexed_only(annotation: &Pair) -> (r: bool)
    ensures
        r == indexed_only(*annotation),
{
    let row: &Vec<Pair> = &annotation.inner;
    row.len() >= 2 && row[1].rule == Rule::ParamList && !holds_one_name(&row[1].inner)
}

fn check_query(input: &str, q: &Pair) -> (r: bool)
    ensures
        r == query_fits(input@, *q),
{
    input.is_char_boundary(q.start) && q.inner.len() >= 2 && check_annotation(input, &q.inner[0])
        && check_span(input, &q.inner[1]) && check_all_span(input, &q.inner[1].inner) && (
    check_indexed_only(&q.inner[0]) || check_sql(input, &q.inner[1]))
}

/// Tells whether the tokens are such as the grammar finds in `input`.
pub fn check_pairs(input: &str, pairs: &Vec<Pair>) -> (r: bool)
    ensures
        r == pairs_fit(input@, pairs@),
{
    if pairs.len() < 1 {
        return false;
    }
    let row: &Vec<Pair> = &pairs[0].inner;
    let mut i: usize = 0;
    while i < row.len()
        invariant
            pairs@.len() >= 1,
            row@ == pairs@[0].inner@,
            i <= row@.len(),
            forall|k: int|
                0 <= k < i && (#[trigger] row@[k]).rule == Rule::Query ==> query_fits(
                    input@,
                    row@[k],
                ),
        decreases row@.len() - i,
    {
        let q: &Pair = &row[i];
        assert(*q == row@[i as int]);
        if q.rule == Rule::Query && !check_query(input, q) {
            assert(!query_fits(input@, pairs@[0].inner@[i as int]));
            return false;
        }
        i = i + 1;
    }
    true
}

/// The piece that a token stands for holds exactly the characters between the offsets of the
/// token, here from `a` to `b` of the text, and has the place at which the token starts.
pub proof fn law_piece(text: Seq<char>, p: Pair, a: int, b: int)
    requires
        0 <= a <= b <= text.len(),
        p.start == encode_utf8(text.take(a)).len(),
        p.end == encode_utf8(text.take(b)).len(),
    ensures
        piece(text, p).value == text.subrange(a, b),
        piece(text, p).pos == error::place(text, p.start as int),
{
    text::law_slice(text, a, b);
}

/// In bytes: the piece that a token stands for has those between its offsets.
pub proof fn law_piece_bytes(text: Seq<char>, p: Pair)
    requires
        spans(text, p),
    ensures
        encode_utf8(piece(text, p).value) == encode_utf8(text).subrange(
            p.start as int,
            p.end as int,
        ),
{
    text::lemma_slice_bytes(text, p.start as int, p.end as int);
}

/// A row of tokens gives as many pieces, one for each, in order.
pub proof fn law_pieces(text: Seq<char>, row: Seq<Pair>)
    ensures
        pieces(text, row).len() == row.len(),
        forall|i: int|
            0 <= i < row.len() ==> #[trigger] pieces(text, row)[i] == piece(text, row[i]),
{
}

/// A token spans part of the text exactly when its ends are in order and no character of the
/// text is cut by them.
pub proof fn law_spans(text: Seq<char>, p: Pair)
    ensures
        spans(text, p) <==> p.start <= p.end && is_char_boundary(
            encode_utf8(text),
            p.start as int,
        ) && is_char_boundary(encode_utf8(text), p.end as int),
{
}

/// A query token fits exactly when it begins between two characters; has an annotation and SQL;
/// the annotation has a name and, behind it, nothing but a parameter list, a list of columns or
/// a name; all tokens have their ends between characters; and, unless the annotation has a
/// parameter list that does not hold exactly one name, each bind parameter lies within the SQL,
/// behind a mark of one byte that no bind parameter before it reaches.
pub proof fn law_query_fits(text: Seq<char>, q: Pair)
    ensures
        query_fits(text, q) <==> {
            let row = q.inner@[0].inner@;
            let sql = q.inner@[1];
            let binds = sql.inner@;
            &&& is_char_boundary(encode_utf8(text), q.start as int)
            &&& q.inner@.len() >= 2
            &&& row.len() >= 1
            &&& row.len() >= 2 ==> row[1].rule == Rule::ParamList || row[1].rule
                == Rule::NullableColumnList || row[1].rule == Rule::Ident
            &&& forall|i: int|
                #![trigger row[i]]
                0 <= i < row.len() ==> spans(text, row[i]) && forall|j: int|
                    0 <= j < row[i].inner@.len() ==> spans(text, #[trigger] row[i].inner@[j])
            &&& spans(text, sql)
            &&& forall|i: int| 0 <= i < binds.len() ==> spans(text, #[trigger] binds[i])
            &&& row.len() >= 2 && row[1].rule == Rule::ParamList && row[1].inner@.filter(
                is_ident(),
            ).len() != 1 || {
                &&& forall|i: int|
                    #![trigger binds[i]]
                    0 <= i < binds.len() ==> sql.start < binds[i].start && is_char_boundary(
                        encode_utf8(text),
                        binds[i].start - 1,
                    ) && binds[i].end <= sql.end
                &&& forall|i: int, j: int|
                    #![trigger binds[i], binds[j]]
                    0 <= i < j < binds.len() ==> binds[i].end < binds[j].start
            }
        },
{
}

/// The names of a row are counted one by one: only tokens for names count.
pub proof fn law_names_counted(row: Seq<Pair>, p: Pair)
    ensures
        Seq::<Pair>::empty().filter(is_ident()).len() == 0,
        row.push(p).filter(is_ident()).len() == row.filter(is_ident()).len() + if p.rule
            == Rule::Ident {
            1int
        } else {
            0
        },
{
    reveal(Seq::filter);
    assert(row.push(p).drop_last() =~= row);
}

/// The tokens of a file fit exactly when there is one that holds all others, and all queries
/// among those fit.
pub proof fn law_pairs_fit(text: Seq<char>, pairs: Seq<Pair>)
    ensures
        pairs_fit(text, pairs) <==> pairs.len() >= 1 && forall|i: int|
            0 <= i < pairs[0].inner@.len() && (#[trigger] pairs[0].inner@[i]).rule == Rule::Query
                ==> query_fits(text, pairs[0].inner@[i]),
{
}

} // verus!
