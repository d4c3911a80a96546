//! From the tokens of a query file to its queries.

use crate::error;
use crate::error::{Error, ErrorView, ParsedPosition, ValidationError, ValidationErrorView};
use crate::laws;
use crate::number;
use crate::pair;
use crate::pair::{Pair, Rule};
use crate::parsed;
use crate::parsed::{Parsed, ParsedQuery, ParsedQueryView, ParsedView};
use crate::replace;
use crate::replace::{Edit, Replacement};
use crate::search;
use crate::text;
use crate::validate;
use vstd::prelude::*;

verus! {

/// The names among the tokens of a row.
pub open spec fn idents(text: Seq<char>, row: Seq<Pair>) -> Seq<ParsedView<Seq<char>>> {
    pair::pieces(text, row.filter(pair::is_ident()))
}

/// Holds at the pieces whose value occurs before them.
pub open spec fn repeats(row: Seq<ParsedView<Seq<char>>>) -> spec_fn(int) -> bool {
    |j: int| validate::has_value(row.take(j), row[j].value)
}

/// The parameters of a list: its names, unless one occurs twice.
pub open spec fn params_of(text: Seq<char>, list: Pair) -> Result<
    Seq<ParsedView<Seq<char>>>,
    ErrorView,
> {
    let names = idents(text, list.inner@);
    let j = search::first_where(names.len(), repeats(names));
    if j < names.len() {
        Err(
            ErrorView::Validation(
                ValidationErrorView::DuplicateParam { pos: names[j as int].pos },
            ),
        )
    } else {
        Ok(names)
    }
}

/// A result that holds a row of pieces as it stands in specifications.
pub open spec fn row_outcome<T: View>(r: Result<Vec<Parsed<T>>, Error>) -> Result<
    Seq<ParsedView<T::V>>,
    ErrorView,
> {
    match r {
        Ok(row) => Ok(parsed::views(row@)),
        Err(e) => Err(e@),
    }
}

proof fn lemma_idents_push(text: Seq<char>, row: Seq<Pair>, i: int)
    requires
        0 <= i < row.len(),
    ensures
        idents(text, row.take(i + 1)) == if row[i].rule == Rule::Ident {
            idents(text, row.take(i)).push(pair::piece(text, row[i]))
        } else {
            idents(text, row.take(i))
        },
        idents(text, row.take(i + 1)).len() <= idents(text, row).len(),
        idents(text, row.take(i + 1)) == idents(text, row).take(
            idents(text, row.take(i + 1)).len() as int,
        ),
{
    reveal(Seq::filter);
    let now = row.take(i + 1);
    assert(now.drop_last() =~= row.take(i));
    assert(idents(text, now) =~= if row[i].rule == Rule::Ident {
        idents(text, row.take(i)).push(pair::piece(text, row[i]))
    } else {
        idents(text, row.take(i))
    });
    assert(now + row.skip(i + 1) =~= row);
    Seq::filter_distributes_over_add(now, row.skip(i + 1), pair::is_ident());
    assert(idents(text, now) =~= idents(text, row).take(idents(text, now).len() as int));
}

/// Parse query parameters. This is only applicable to postgres-compatible queries.
pub fn parse_params(input: &str, pair: &Pair) -> (r: Result<Vec<Parsed<String>>, Error>)
    requires
        pair::all_span(input@, pair.inner@),
    ensures
        row_outcome(r) == params_of(input@, *pair),
{
    let ghost row = pair.inner@;
    let ghost names = idents(input@, row);
    let mut params: Vec<Parsed<String>> = Vec::new();
    let mut i: usize = 0;
    proof {
        reveal(Seq::filter);
        assert(parsed::views(params@) =~= idents(input@, row.take(0)));
        assert(parsed::views(params@) =~= names.take(0));
    }
    while i < pair.inner.len()
        invariant
            row == pair.inner@,
            pair::all_span(input@, row),
            names == idents(input@, row),
            i <= row.len(),
            params@.len() <= names.len(),
            parsed::views(params@) == idents(input@, row.take(i as int)),
            parsed::views(params@) == names.take(params@.len() as int),
            forall|k: int| 0 <= k < params@.len() ==> !#[trigger] repeats(names)(k),
        decreases row.len() - i,
    {
        let it: &Pair = &pair.inner[i];
        proof {
            assert(pair::spans(input@, row[i as int]));
            lemma_idents_push(input@, row, i as int);
        }
        if it.rule == Rule::Ident {
            // Collect info about the span we're parsing
            let it_str: String = it.as_str(input).to_owned();
            let ghost at = params@.len() as int;
            let ghost known = parsed::views(params@);
            let ghost next = known.push(pair::piece(input@, *it));
            proof {
                assert(next == names.take(at + 1));
                assert(next[at] == names[at]);
            }
            // Check that this parameter is not already in the list, then add it to the list.
            match validate::duplicate_param(input, it, params.as_slice(), it_str.as_str()) {
                Ok((line, col, line_str)) => {
                    params.push(
                        Parsed { value: it_str, pos: ParsedPosition { line, col, line_str } },
                    );
                    assert(parsed::views(params@) =~= next);
                    assert(!repeats(names)(at));
                },
                Err(e) => {
                    proof {
                        search::lemma_is_first(names.len(), repeats(names), at as nat);
                    }
                    return Err(e);
                },
            }
        }
        i = i + 1;
    }
    proof {
        assert(row.take(row.len() as int) =~= row);
        search::lemma_is_first(names.len(), repeats(names), names.len());
    }
    Ok(params)
}

/// The pieces of a row without those whose value occurs before them.
pub open spec fn first_uses<V>(row: Seq<ParsedView<V>>) -> Seq<ParsedView<V>>
    decreases row.len(),
{
    if row.len() == 0 {
        row
    } else {
        let before = first_uses(row.drop_last());
        if validate::has_value(before, row.last().value) {
            before
        } else {
            before.push(row.last())
        }
    }
}

/// The index of a bind parameter, where it has a valid one.
pub open spec fn index_of(text: Seq<char>, p: Pair) -> Option<i16> {
    validate::index_value(pair::piece(text, p).value)
}

/// Holds at the bind parameters that are not allowed in PostgreSQL-compatible syntax.
pub open spec fn not_indexed(text: Seq<char>, binds: Seq<Pair>) -> spec_fn(int) -> bool {
    |i: int| binds[i].rule != Rule::Number || index_of(text, binds[i]) is None
}

/// The index of a bind parameter with its place.
pub open spec fn indexed(text: Seq<char>, p: Pair) -> ParsedView<i16> {
    ParsedView { pos: error::place(text, p.start as int), value: index_of(text, p).unwrap() }
}

/// The indices of a row of bind parameters with their places.
pub open spec fn all_indexed(text: Seq<char>, binds: Seq<Pair>) -> Seq<ParsedView<i16>> {
    binds.map_values(|p: Pair| indexed(text, p))
}

/// The indices that occur in the SQL of a query, each at its first occurrence, unless some
/// bind parameter has a name or an index that is out of range.
pub open spec fn pg_bind_params_of(text: Seq<char>, sql: Pair) -> Result<
    Seq<ParsedView<i16>>,
    ErrorView,
> {
    let binds = sql.inner@;
    let k = search::first_where(binds.len(), not_indexed(text, binds));
    if k < binds.len() {
        let pos = error::place(text, binds[k as int].start as int);
        if binds[k as int].rule != Rule::Number {
            Err(ErrorView::Validation(ValidationErrorView::ExtendedParamInPgQuery { pos }))
        } else {
            Err(ErrorView::Validation(ValidationErrorView::InvalidI16Index { pos }))
        }
    } else {
        Ok(first_uses(all_indexed(text, binds)))
    }
}

/// Finds all bind parameters (indexed) from their usage inside the query sql.  This is only
/// applicable to postgres-compatible queries.
pub fn parse_pg_bind_params(input: &str, pair: &Pair) -> (r: Result<Vec<Parsed<i16>>, Error>)
    requires
        pair::all_span(input@, pair.inner@),
    ensures
        row_outcome(r) == pg_bind_params_of(input@, *pair),
{
    let ghost binds = pair.inner@;
    let ghost all = all_indexed(input@, binds);
    let mut bind_params: Vec<Parsed<i16>> = Vec::new();
    let mut i: usize = 0;
    assert(parsed::views(bind_params@) =~= first_uses(all.take(0)));
    while i < pair.inner.len()
        invariant
            binds == pair.inner@,
            pair::all_span(input@, binds),
            all == all_indexed(input@, binds),
            i <= binds.len(),
            parsed::views(bind_params@) == first_uses(all.take(i as int)),
            forall|k: int| 0 <= k < i ==> !#[trigger] not_indexed(input@, binds)(k),
        decreases binds.len() - i,
    {
        // Collect info about the span we're parsing
        let it: &Pair = &pair.inner[i];
        proof {
            assert(pair::spans(input@, binds[i as int]));
            assert(all.take(i + 1).drop_last() =~= all.take(i as int));
        }
        let pos: ParsedPosition = error::position_at(input, it.start);
        // Check that we have an indexed bind param (as opposed to named).
        // This is mandatory in postgres-compatible syntax queries
        if it.rule == Rule::Number {
            let it_str: &str = it.as_str(input);
            // Check that the index can be parsed as a i16 (required by postgres wire protocol)
            match validate::i16_index(it_str, pos.line, pos.col, pos.line_str.as_str()) {
                Ok(index) => {
                    // If the bind param has not yet been seen, add it to the list
                    let ghost known = parsed::views(bind_params@);
                    assert(all[i as int] == (ParsedView { pos: pos@, value: index }));
                    if !validate::any_index(bind_params.as_slice(), index) {
                        bind_params.push(Parsed { pos, value: index });
                        assert(parsed::views(bind_params@) =~= known.push(all[i as int]));
                    }
                },
                Err(e) => {
                    proof {
                        search::lemma_is_first(
                            binds.len(),
                            not_indexed(input@, binds),
                            i as nat,
                        );
                    }
                    return Err(e);
                },
            }
        } else {
            proof {
                search::lemma_is_first(binds.len(), not_indexed(input@, binds), i as nat);
            }
            return Err(Error::Validation(ValidationError::ExtendedParamInPgQuery { pos }));
        }
        i = i + 1;
    }
    proof {
        assert(all.take(i as int) =~= all);
        search::lemma_is_first(binds.len(), not_indexed(input@, binds), i as nat);
    }
    Ok(bind_params)
}

/// Holds at the bind parameters that are not allowed in extended syntax.
pub open spec fn not_named(binds: Seq<Pair>) -> spec_fn(int) -> bool {
    |i: int| binds[i].rule != Rule::Ident
}

pub open spec fn is_value(row: Seq<ParsedView<Seq<char>>>, value: Seq<char>) -> spec_fn(
    int,
) -> bool {
    |i: int| row[i].value == value
}

/// The number of the parameter with the given name, counted from 1.
pub open spec fn number_of(params: Seq<ParsedView<Seq<char>>>, name: Seq<char>) -> nat {
    search::first_where(params.len(), is_value(params, name)) + 1
}

/// The replacements that turn the named bind parameters of a query into indexed ones: each
/// one, with the mark before it, gives way to the number of its parameter.
pub open spec fn bind_edits(
    text: Seq<char>,
    sql: Pair,
    params: Seq<ParsedView<Seq<char>>>,
) -> Seq<Edit> {
    sql.inner@.map_values(
        |p: Pair|
            Edit {
                start: p.start - sql.start - 1,
                stop: p.end - sql.start,
                value: "$"@ + number::decimal(number_of(params, pair::piece(text, p).value)),
            },
    )
}

/// The SQL of a query with indexed bind parameters in place of the named ones, and all text
/// between them as it was.
pub open spec fn normalized(
    text: Seq<char>,
    sql: Pair,
    params: Seq<ParsedView<Seq<char>>>,
) -> Seq<char> {
    let sql_text = pair::piece(text, sql).value;
    let edits = bind_edits(text, sql, params);
    replace::interleaved(sql_text, edits) + text::after(sql_text, replace::stop_of(edits))
}

/// The names that occur in the SQL of a query, each at its first occurrence, and the SQL in
/// which their numbers stand for them; unless some bind parameter has an index.
pub open spec fn extended_bind_params_of(text: Seq<char>, sql: Pair) -> Result<
    (Seq<ParsedView<Seq<char>>>, Seq<char>),
    ErrorView,
> {
    let binds = sql.inner@;
    let k = search::first_where(binds.len(), not_named(binds));
    if k < binds.len() {
        Err(
            ErrorView::Validation(
                ValidationErrorView::PgParamInExtendedQuery {
                    pos: error::place(text, binds[k as int].start as int),
                },
            ),
        )
    } else {
        let params = first_uses(pair::pieces(text, binds));
        Ok((params, normalized(text, sql, params)))
    }
}

pub open spec fn extended_outcome(r: Result<(Vec<Parsed<String>>, String), Error>) -> Result<
    (Seq<ParsedView<Seq<char>>>, Seq<char>),
    ErrorView,
> {
    match r {
        Ok((params, sql)) => Ok((parsed::views(params@), sql@)),
        Err(e) => Err(e@),
    }
}

proof fn lemma_number_push(
    row: Seq<ParsedView<Seq<char>>>,
    p: ParsedView<Seq<char>>,
    name: Seq<char>,
)
    requires
        validate::has_value(row, name),
    ensures
        number_of(row.push(p), name) == number_of(row, name),
{
    let longer = row.push(p);
    search::lemma_first_where(row.len(), is_value(row, name));
    let k = search::first_where(row.len(), is_value(row, name));
    let i = choose|i: int| 0 <= i < row.len() && (#[trigger] row[i]).value == name;
    assert(is_value(row, name)(i));
    assert(k < row.len());
    assert forall|j: int| 0 <= j < k implies !#[trigger] is_value(longer, name)(j) by {
        assert(!is_value(row, name)(j));
    }
    search::lemma_is_first(longer.len(), is_value(longer, name), k);
}

/// The named bind parameters of a query lie apart in its SQL.
pub proof fn lemma_bind_edits_apart(
    text: Seq<char>,
    sql: Pair,
    params: Seq<ParsedView<Seq<char>>>,
)
    requires
        pair::sql_fits(text, sql),
    ensures
        replace::apart(pair::piece(text, sql).value, bind_edits(text, sql, params)),
{
    let sql_text = pair::piece(text, sql).value;
    let edits = bind_edits(text, sql, params);
    let binds = sql.inner@;
    assert forall|i: int| 0 <= i < edits.len() implies replace::fits(sql_text, #[trigger] edits[i]) by {
        let b = binds[i];
        text::lemma_boundary_of_slice(text, sql.start as int, sql.end as int, b.start - 1);
        text::lemma_boundary_of_slice(text, sql.start as int, sql.end as int, b.end as int);
    }
    assert forall|i: int, j: int| 0 <= i < j < edits.len() implies (#[trigger] edits[i]).stop <= (
    #[trigger] edits[j]).start by {
        assert(binds[i].end < binds[j].start);
    }
}

/// Finds all bind parameters (named) from their usage inside the query sql.
/// This is only applicable to extended syntax queries.
#[verifier::rlimit(40)]
pub fn parse_extended_bind_params(input: &str, pair: &Pair) -> (r: Result<
    (Vec<Parsed<String>>, String),
    Error,
>)
    requires
        pair::sql_fits(input@, *pair),
    ensures
        extended_outcome(r) == extended_bind_params_of(input@, *pair),
{
    let ghost binds = pair.inner@;
    let ghost names = pair::pieces(input@, binds);
    let ghost sql_text = pair::piece(input@, *pair).value;
    // Accumulator for valid bind parameters
    let mut bind_params: Vec<Parsed<String>> = Vec::new();
    // Accumulator for values to replace in the SQL (normalizing process)
    let mut replacing_values: Vec<Replacement> = Vec::new();
    let mut i: usize = 0;
    assert(parsed::views(bind_params@) =~= first_uses(names.take(0)));
    while i < pair.inner.len()
        invariant
            binds == pair.inner@,
            pair::sql_fits(input@, *pair),
            names == pair::pieces(input@, binds),
            i <= binds.len(),
            parsed::views(bind_params@) == first_uses(names.take(i as int)),
            bind_params@.len() <= i,
            replacing_values@.len() == i,
            forall|k: int| #![trigger replacing_values@[k]]
                0 <= k < i ==> replace::edit_of(replacing_values@[k]) == bind_edits(
                    input@,
                    *pair,
                    parsed::views(bind_params@),
                )[k],
            forall|k: int| 0 <= k < i ==> !#[trigger] not_named(binds)(k),
        decreases binds.len() - i,
    {
        // Collect some info about the span we're parsing
        let it: &Pair = &pair.inner[i];
        proof {
            assert(*it == binds[i as int]);
            assert(names.take(i + 1).drop_last() =~= names.take(i as int));
            assert(names.take(i + 1).last() == pair::piece(input@, *it));
        }
        let span_start: usize = it.start - pair.start - 1;
        let span_end: usize = it.end - pair.start - 1;
        // Check that we have a named bind param (as opposed to indexed)
        // This is mandatory in extended syntax queries
        if it.rule == Rule::Ident {
            let parsed: Parsed<String> = it.parsed(input);
            let ghost name = parsed@;
            let ghost known = parsed::views(bind_params@);
            // If the bind parameter hasn't been seen yet, add it and and its replacing value
            // otherwise, just add the replacing value
            let index: usize = validate::find_name(bind_params.as_slice(), &parsed.value);
            let mut value: String = "$".to_owned();
            value.append(number::decimal_string(index + 1).as_str());
            replacing_values.push(((span_start, span_end), value));
            if index == bind_params.len() {
                bind_params.push(parsed);
                assert(parsed::views(bind_params@) =~= known.push(name));
                assert(!validate::has_value(known, name.value));
            } else {
                assert(validate::has_value(known, name.value));
            }
            proof {
                let now = parsed::views(bind_params@);
                assert(now == first_uses(names.take(i + 1)));
                assert forall|k: int| 0 <= k < index implies !#[trigger] is_value(
                    now,
                    name.value,
                )(k) by {
                    assert(now[k] == known[k]);
                }
                search::lemma_is_first(now.len(), is_value(now, name.value), index as nat);
                laws::law_first_uses(names.take(i as int));
                assert forall|k: int| #![trigger replacing_values@[k]]
                    0 <= k < i + 1 implies replace::edit_of(replacing_values@[k]) == bind_edits(
                    input@,
                    *pair,
                    now,
                )[k] by {
                    if k < i {
                        assert(names.take(i as int)[k] == pair::piece(input@, binds[k]));
                        assert(validate::has_value(names.take(i as int), names[k].value));
                        if now != known {
                            lemma_number_push(known, name, names[k].value);
                        }
                    }
                }
            }
        } else {
            proof {
                search::lemma_is_first(binds.len(), not_named(binds), i as nat);
            }
            let pos: ParsedPosition = error::position_at(input, it.start);
            return Err(Error::Validation(ValidationError::PgParamInExtendedQuery { pos }));
        }
        i = i + 1;
    }
    let sql: String = pair.as_str(input).to_owned();
    let ghost edits = bind_edits(input@, *pair, parsed::views(bind_params@));
    proof {
        assert(names.take(i as int) =~= names);
        search::lemma_is_first(binds.len(), not_named(binds), i as nat);
        lemma_bind_edits_apart(input@, *pair, parsed::views(bind_params@));
        assert(replace::edits_of(replacing_values@) =~= edits);
        assert forall|j: int, k: int|
            0 <= j <= k < replacing_values@.len() implies replace::start_of(
            #[trigger] replacing_values@[j],
        ) <= replace::start_of(#[trigger] replacing_values@[k]) by {
            assert(edits[j] == replace::edit_of(replacing_values@[j]));
            assert(edits[k] == replace::edit_of(replacing_values@[k]));
            assert(replace::fits(sql_text, edits[j]));
        }
        replace::law_sorted_row_stays(replacing_values@);
        replace::law_text_between_stays(sql_text, edits);
    }
    let normalized_sql: String = replace::replaced_in_string(
        sql,
        replacing_values.as_mut_slice(),
    );
    Ok((bind_params, normalized_sql))
}

/// Parse nullable column list. Applicable to both extended and postgres-compatible syntax.
pub fn parse_nullable_columns(input: &str, pair: &Pair) -> (r: Result<Vec<Parsed<String>>, Error>)
    requires
        pair::all_span(input@, pair.inner@),
    ensures
        row_outcome(r) == Ok::<_, ErrorView>(pair::pieces(input@, pair.inner@)),
{
    let ghost all = pair::pieces(input@, pair.inner@);
    let mut cols: Vec<Parsed<String>> = Vec::new();
    let mut i: usize = 0;
    assert(parsed::views(cols@) =~= all.take(0));
    while i < pair.inner.len()
        invariant
            pair::all_span(input@, pair.inner@),
            all == pair::pieces(input@, pair.inner@),
            i <= pair.inner@.len(),
            parsed::views(cols@) == all.take(i as int),
        decreases pair.inner@.len() - i,
    {
        assert(pair::spans(input@, pair.inner@[i as int]));
        let ghost known = parsed::views(cols@);
        cols.push(pair.inner[i].parsed(input));
        assert(parsed::views(cols@) =~= known.push(all[i as int]));
        assert(known.push(all[i as int]) =~= all.take(i + 1));
        i = i + 1;
    }
    assert(all.take(i as int) =~= all);
    Ok(cols)
}

/// A query whose bind parameters are named: they are its parameters, and its SQL is
/// normalized.
pub open spec fn with_named_binds(text: Seq<char>, sql: Pair, q: ParsedQueryView) -> Result<
    ParsedQueryView,
    ErrorView,
> {
    match extended_bind_params_of(text, sql) {
        Ok((params, sql_str)) => Ok(ParsedQueryView { params, sql_str, ..q }),
        Err(e) => Err(e),
    }
}

/// A query whose bind parameters are indexed: all of them are within the parameter list, and
/// all of the list is used. Its SQL stays as it is.
pub open spec fn with_indexed_binds(
    text: Seq<char>,
    sql: Pair,
    params: Seq<ParsedView<Seq<char>>>,
    q: ParsedQueryView,
) -> Result<ParsedQueryView, ErrorView> {
    match pg_bind_params_of(text, sql) {
        Ok(binds) => match validate::bind_params_within(binds, params.len()) {
            Ok(_) => match validate::params_used(params, binds) {
                Ok(_) => Ok(q),
                Err(e) => Err(e),
            },
            Err(e) => Err(e),
        },
        Err(e) => Err(e),
    }
}

/// The token at `i` of an annotation as a name, where there is one.
pub open spec fn name_at(text: Seq<char>, row: Seq<Pair>, i: int) -> Option<
    ParsedView<Seq<char>>,
> {
    if i < row.len() {
        Some(pair::piece(text, row[i]))
    } else {
        None
    }
}

/// The token at `i` of an annotation as a list of columns, empty where there is none.
pub open spec fn columns_at(text: Seq<char>, row: Seq<Pair>, i: int) -> Seq<
    ParsedView<Seq<char>>,
> {
    if i < row.len() {
        pair::pieces(text, row[i].inner@)
    } else {
        seq![]
    }
}

/// Holds at the tokens of a row that have the given rule.
pub open spec fn has_rule(row: Seq<Pair>, rule: Rule) -> spec_fn(int) -> bool {
    |i: int| row[i].rule == rule
}

/// Where the first token with the given rule stands behind the parameter list of an
/// annotation; the length of the annotation if there is none.
pub open spec fn behind_list(row: Seq<Pair>, rule: Rule) -> int {
    search::first_from(2, row.len(), has_rule(row, rule)) as int
}

/// A list of columns follows the parameter list of an annotation at once.
pub open spec fn columns_follow(row: Seq<Pair>) -> bool {
    row.len() > 2 && row[2].rule == Rule::NullableColumnList
}

/// The line, the name and the SQL of a query as they stand in the text.
pub open spec fn bare_query(text: Seq<char>, q: Pair) -> ParsedQueryView {
    ParsedQueryView {
        line: text::line_number(text, q.start as int),
        name: pair::piece(text, q.inner@[0].inner@[0]),
        named_param_struct: None,
        params: seq![],
        named_return_struct: None,
        nullable_columns: seq![],
        sql_str: pair::piece(text, q.inner@[1]).value,
    }
}

/// What a query token stands for.
pub open spec fn query_of(text: Seq<char>, q: Pair) -> Result<ParsedQueryView, ErrorView> {
    let row = q.inner@[0].inner@;
    let sql = q.inner@[1];
    let bare = bare_query(text, q);
    if row.len() < 2 {
        with_named_binds(text, sql, bare)
    } else {
        match row[1].rule {
            Rule::ParamList => match params_of(text, row[1]) {
                Ok(params) => if params.len() == 1 && extended_bind_params_of(text, sql) is Ok {
                    with_named_binds(
                        text,
                        sql,
                        if columns_follow(row) {
                            ParsedQueryView { nullable_columns: columns_at(text, row, 2), ..bare }
                        } else {
                            ParsedQueryView {
                                named_return_struct: name_at(text, row, 2),
                                nullable_columns: columns_at(text, row, 3),
                                ..bare
                            }
                        },
                    )
                } else {
                    with_indexed_binds(
                        text,
                        sql,
                        params,
                        ParsedQueryView {
                            params,
                            named_return_struct: name_at(
                                text,
                                row,
                                behind_list(row, Rule::Ident),
                            ),
                            nullable_columns: columns_at(
                                text,
                                row,
                                behind_list(row, Rule::NullableColumnList),
                            ),
                            ..bare
                        },
                    )
                },
                Err(e) => Err(e),
            },
            Rule::NullableColumnList => with_named_binds(
                text,
                sql,
                ParsedQueryView { nullable_columns: columns_at(text, row, 1), ..bare },
            ),
            _ => with_named_binds(
                text,
                sql,
                ParsedQueryView {
                    named_return_struct: name_at(text, row, 1),
                    nullable_columns: columns_at(text, row, 2),
                    ..bare
                },
            ),
        }
    }
}

pub open spec fn query_outcome(r: Result<ParsedQuery, Error>) -> Result<
    ParsedQueryView,
    ErrorView,
> {
    match r {
        Ok(q) => Ok(q@),
        Err(e) => Err(e@),
    }
}

/// Checks the indexed bind parameters of a query against its parameter list.
fn check_indexed_binds(input: &str, sql: &Pair, params: &Vec<Parsed<String>>) -> (r: Result<
    (),
    Error,
>)
    requires
        pair::all_span(input@, sql.inner@),
    ensures
        forall|q: ParsedQueryView| #[trigger]
            with_indexed_binds(input@, *sql, parsed::views(params@), q) == match r {
                Ok(_) => Ok(q),
                Err(e) => Err(e@),
            },
{
    match parse_pg_bind_params(input, sql) {
        Ok(bind_params) => {
            // Check if the bind parameter's index is greater than the number of parameters
            match validate::more_bind_params_than_params(bind_params.as_slice(), params.len()) {
                // Check that every param is used in the query
                Ok(_) => validate::unused_param(params.as_slice(), bind_params.as_slice()),
                Err(e) => Err(e),
            }
        },
        Err(e) => Err(e),
    }
}

/// Finds the first token with the given rule behind the parameter list of an annotation; the
/// length of the annotation if there is none.
fn find_behind_list(row: &Vec<Pair>, rule: Rule) -> (r: usize)
    requires
        row@.len() >= 2,
    ensures
        r == behind_list(row@, rule),
{
    let mut i: usize = 2;
    while i < row.len() && row[i].rule != rule
        invariant
            2 <= i <= row@.len(),
            behind_list(row@, rule) == search::first_from(
                i as nat,
                row@.len(),
                has_rule(row@, rule),
            ),
        decreases row@.len() - i,
    {
        i = i + 1;
    }
    i
}

/// Reads the list of columns at `i` of an annotation, if there is one.
fn parse_columns_at(input: &str, row: &Vec<Pair>, i: usize) -> (r: Result<
    Vec<Parsed<String>>,
    Error,
>)
    requires
        forall|k: int| 0 <= k < row@.len() ==> pair::all_span(input@, (#[trigger] row@[k]).inner@),
    ensures
        row_outcome(r) == Ok::<_, ErrorView>(columns_at(input@, row@, i as int)),
{
    if i < row.len() {
        parse_nullable_columns(input, &row[i])
    } else {
        let none: Vec<Parsed<String>> = Vec::new();
        assert(parsed::views(none@) =~= seq![]);
        Ok(none)
    }
}

/// Reads one query.
pub fn parse_query(input: &str, query: &Pair) -> (r: Result<ParsedQuery, Error>)
    requires
        pair::query_fits(input@, *query),
    ensures
        query_outcome(r) == query_of(input@, *query),
{
    let line: usize = text::line_col(input, query.start).0;
    let row: &Vec<Pair> = &query.inner[0].inner;
    let sql: &Pair = &query.inner[1];
    let ghost bare = bare_query(input@, *query);
    // Name
    let name: Parsed<String> = row[0].parsed(input);
    let mut parsed_query: ParsedQuery = ParsedQuery {
        line,
        name,
        params: Vec::new(),
        nullable_columns: Vec::new(),
        sql_str: sql.as_str(input).to_owned(),
        named_param_struct: None,
        named_return_struct: None,
    };
    proof {
        assert(parsed::views(parsed_query.params@) =~= seq![]);
        assert(parsed::views(parsed_query.nullable_columns@) =~= seq![]);
        assert(parsed_query@ == bare);
    }
    // Parameter list and nullable column list
    if row.len() >= 2 {
        match row[1].rule {
            Rule::ParamList => {
                // Params
                let params: Vec<Parsed<String>> = match parse_params(input, &row[1]) {
                    Ok(params) => params,
                    Err(e) => {
                        return Err(e);
                    },
                };
                assert(parsed::views(params@) == idents(input@, row@[1].inner@));
                // Bind params
                if params.len() == 1 {
                    if let Ok((bind_params, normalized_sql)) = parse_extended_bind_params(
                        input,
                        sql,
                    ) {
                        let mut columns_at: usize = 3;
                        if row.len() >= 3 {
                            if row[2].rule == Rule::NullableColumnList {
                                columns_at = 2;
                            } else {
                                parsed_query.named_return_struct = Some(row[2].parsed(input));
                            }
                        }
                        // Nullable columns
                        match parse_columns_at(input, row, columns_at) {
                            Ok(columns) => parsed_query.nullable_columns = columns,
                            Err(e) => {
                                return Err(e);
                            },
                        }
                        parsed_query.params = bind_params;
                        parsed_query.sql_str = normalized_sql;
                        return Ok(parsed_query);
                    }
                }
                match check_indexed_binds(input, sql, &params) {
                    Ok(_) => {},
                    Err(e) => {
                        return Err(e);
                    },
                }
                let struct_at: usize = find_behind_list(row, Rule::Ident);
                if struct_at < row.len() {
                    parsed_query.named_return_struct = Some(row[struct_at].parsed(input));
                }
                // Nullable columns
                match parse_columns_at(
                    input,
                    row,
                    find_behind_list(row, Rule::NullableColumnList),
                ) {
                    Ok(columns) => parsed_query.nullable_columns = columns,
                    Err(e) => {
                        return Err(e);
                    },
                }
                parsed_query.params = params;
                return Ok(parsed_query);
            },
            // Extended syntax with nullable columns
            Rule::NullableColumnList => {
                match parse_nullable_columns(input, &row[1]) {
                    Ok(columns) => parsed_query.nullable_columns = columns,
                    Err(e) => {
                        return Err(e);
                    },
                }
            },
            _ => {
                parsed_query.named_return_struct = Some(row[1].parsed(input));
                // Nullable columns
                match parse_columns_at(input, row, 2) {
                    Ok(columns) => parsed_query.nullable_columns = columns,
                    Err(e) => {
                        return Err(e);
                    },
                }
            },
        }
    }
    // Bind params and normalized sql

    match parse_extended_bind_params(input, sql) {
        Ok((bind_params, normalized_sql)) => {
            parsed_query.params = bind_params;
            parsed_query.sql_str = normalized_sql;
            Ok(parsed_query)
        },
        Err(e) => Err(e),
    }
}

pub open spec fn is_query() -> spec_fn(Pair) -> bool {
    |p: Pair| p.rule == Rule::Query
}

/// Holds at the queries that break a rule.
pub open spec fn fails(text: Seq<char>, queries: Seq<Pair>) -> spec_fn(int) -> bool {
    |i: int| query_of(text, queries[i]) is Err
}

/// What the tokens of a query file stand for: its queries, unless one of them breaks a rule.
pub open spec fn queries_of(text: Seq<char>, row: Seq<Pair>) -> Result<
    Seq<ParsedQueryView>,
    ErrorView,
> {
    let queries = row.filter(is_query());
    let k = search::first_where(queries.len(), fails(text, queries));
    if k < queries.len() {
        Err(query_of(text, queries[k as int])->Err_0)
    } else {
        Ok(queries.map_values(|q: Pair| query_of(text, q)->Ok_0))
    }
}

pub open spec fn query_views(queries: Seq<ParsedQuery>) -> Seq<ParsedQueryView> {
    queries.map_values(|q: ParsedQuery| q@)
}

pub open spec fn queries_outcome(r: Result<Vec<ParsedQuery>, Error>) -> Result<
    Seq<ParsedQueryView>,
    ErrorView,
> {
    match r {
        Ok(queries) => Ok(query_views(queries@)),
        Err(e) => Err(e@),
    }
}

proof fn lemma_queries_push(row: Seq<Pair>, i: int, at: int)
    requires
        0 <= i < row.len(),
        0 <= at <= row.filter(is_query()).len(),
        row.take(i).filter(is_query()) == row.filter(is_query()).take(at),
    ensures
        row[i].rule == Rule::Query ==> {
            &&& at < row.filter(is_query()).len()
            &&& row.filter(is_query())[at] == row[i]
            &&& row.take(i + 1).filter(is_query()) == row.filter(is_query()).take(at + 1)
        },
        row[i].rule != Rule::Query ==> row.take(i + 1).filter(is_query()) == row.filter(
            is_query(),
        ).take(at),
{
    reveal(Seq::filter);
    let now = row.take(i + 1);
    let queries = row.filter(is_query());
    assert(now.drop_last() =~= row.take(i));
    assert(now + row.skip(i + 1) =~= row);
    Seq::filter_distributes_over_add(now, row.skip(i + 1), is_query());
    if row[i].rule == Rule::Query {
        assert(now.filter(is_query()) == queries.take(at).push(row[i]));
        assert(queries[at] == now.filter(is_query())[at]);
        assert(now.filter(is_query()) =~= queries.take(at + 1));
    }
}

/// Reads the queries of `input`, in which the grammar found the tokens `parsed`, unless it
/// refused the text with the message that `parsed` then holds.
pub fn parse_queries(input: &str, parsed: Result<Vec<Pair>, String>) -> (r: Result<
    Vec<ParsedQuery>,
    Error,
>)
    requires
        parsed matches Ok(pairs) ==> pair::pairs_fit(input@, pairs@),
    ensures
        queries_outcome(r) == match parsed {
            Ok(pairs) => queries_of(input@, pairs@[0].inner@),
            Err(message) => Err(ErrorView::Parser(message@)),
        },
        // The message of the error can be laid out.
        r matches Err(Error::Validation(e)) ==> error::place_of(e@).col >= 1,
{
    // Get top level tokens
    let pairs: Vec<Pair> = match parsed {
        Ok(pairs) => pairs,
        Err(message) => {
            return Err(Error::Parser(message));
        },
    };
    let row: &Vec<Pair> = &pairs[0].inner;
    let ghost queries = row@.filter(is_query());
    let mut parsed_queries: Vec<ParsedQuery> = Vec::new();
    let mut i: usize = 0;
    proof {
        reveal(Seq::filter);
        assert(row@.take(0).filter(is_query()) =~= queries.take(0));
    }
    while i < row.len()
        invariant
            pairs@.len() >= 1,
            row@ == pairs@[0].inner@,
            parsed == Ok::<_, String>(pairs),
            pair::pairs_fit(input@, pairs@),
            queries == row@.filter(is_query()),
            i <= row@.len(),
            parsed_queries@.len() <= queries.len(),
            row@.take(i as int).filter(is_query()) == queries.take(parsed_queries@.len() as int),
            forall|k: int| #![trigger parsed_queries@[k]]
                0 <= k < parsed_queries@.len() ==> query_of(input@, queries[k]) == Ok::<
                    _,
                    ErrorView,
                >(parsed_queries@[k]@),
        decreases row@.len() - i,
    {
        let query: &Pair = &row[i];
        let ghost at = parsed_queries@.len() as int;
        proof {
            lemma_queries_push(row@, i as int, at);
        }
        if query.rule == Rule::Query {
            match parse_query(input, query) {
                Ok(parsed_query) => {
                    parsed_queries.push(parsed_query);
                },
                Err(e) => {
                    proof {
                        assert forall|k: int| 0 <= k < at implies !#[trigger] fails(
                            input@,
                            queries,
                        )(k) by {
                            assert(query_of(input@, queries[k]) == Ok::<_, ErrorView>(
                                parsed_queries@[k]@,
                            ));
                        }
                        search::lemma_is_first(queries.len(), fails(input@, queries), at as nat);
                        laws::law_errors_point_into_file(input@, row@);
                    }
                    return Err(e);
                },
            }
        }
        i = i + 1;
    }
    proof {
        assert(row@.take(i as int) =~= row@);
        assert(queries.len() == parsed_queries@.len());
        assert forall|k: int| 0 <= k < queries.len() implies !#[trigger] fails(input@, queries)(
            k,
        ) by {
            assert(query_of(input@, queries[k]) == Ok::<_, ErrorView>(parsed_queries@[k]@));
        }
        search::lemma_is_first(queries.len(), fails(input@, queries), queries.len());
        assert(query_views(parsed_queries@) =~= queries.map_values(
            |q: Pair| query_of(input@, q)->Ok_0,
        ));
    }
    Ok(parsed_queries)
}

} // verus!
