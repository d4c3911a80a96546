//! What holds of the queries that are read, whatever the file.

use crate::error;
use crate::error::{Error, ErrorView, PositionView, ValidationErrorView};
use crate::number;
use crate::pair;
use crate::pair::{Pair, Rule};
use crate::parsed;
use crate::parsed::{Parsed, ParsedQuery, ParsedQueryView, ParsedView};
use crate::parser;
use crate::replace;
use crate::search;
use crate::text;
use crate::validate;
use vstd::prelude::*;
use vstd::utf8::*;

verus! {

/// No value occurs twice in the row.
pub open spec fn distinct<V>(row: Seq<ParsedView<V>>) -> bool {
    forall|i: int, j: int|
        0 <= i < j < row.len() ==> (#[trigger] row[i]).value != (#[trigger] row[j]).value
}

/// A parameter list is accepted exactly when no name occurs twice in it; its parameters are
/// then its names, in their order.
pub proof fn law_param_list(text: Seq<char>, list: Pair)
    ensures
        parser::params_of(text, list) is Ok <==> distinct(parser::idents(text, list.inner@)),
        parser::params_of(text, list) matches Ok(params) ==> params == parser::idents(
            text,
            list.inner@,
        ),
{
    let names = parser::idents(text, list.inner@);
    let p = parser::repeats(names);
    search::lemma_first_where(names.len(), p);
    let k = search::first_where(names.len(), p);
    if k < names.len() {
        let front = names.take(k as int);
        let i = choose|i: int| 0 <= i < front.len() && (#[trigger] front[i]).value == names[k as int].value;
        assert(names[i].value == names[k as int].value);
    } else {
        assert forall|i: int, j: int| 0 <= i < j < names.len() implies (#[trigger] names[i]).value
            != (#[trigger] names[j]).value by {
            assert(!p(j));
            assert(names.take(j)[i] == names[i]);
        }
    }
}

/// The first uses of the values in a row are distinct, are pieces of that row, and cover all
/// its values; a row of distinct values is all first uses.
pub proof fn law_first_uses<V>(row: Seq<ParsedView<V>>)
    ensures
        distinct(parser::first_uses(row)),
        forall|v: V|
            #![trigger validate::has_value(row, v)]
            validate::has_value(row, v) <==> validate::has_value(parser::first_uses(row), v),
        forall|i: int|
            0 <= i < parser::first_uses(row).len() ==> row.contains(
                #[trigger] parser::first_uses(row)[i],
            ),
        distinct(row) ==> parser::first_uses(row) == row,
    decreases row.len(),
{
    if row.len() > 0 {
        let front = row.drop_last();
        let last = row.last();
        let before = parser::first_uses(front);
        let now = parser::first_uses(row);
        law_first_uses(front);
        assert(row =~= front.push(last));
        assert forall|v: V| #![trigger validate::has_value(row, v)]
            validate::has_value(row, v) <==> validate::has_value(now, v) by {
            if validate::has_value(row, v) {
                let i = choose|i: int| 0 <= i < row.len() && (#[trigger] row[i]).value == v;
                if i < front.len() {
                    assert(front[i].value == v);
                    assert(validate::has_value(front, v));
                    let j = choose|j: int| 0 <= j < before.len() && (#[trigger] before[j]).value == v;
                    assert(now[j].value == v);
                } else if validate::has_value(before, last.value) {
                } else {
                    assert(now[before.len() as int].value == v);
                }
            }
            if validate::has_value(now, v) {
                let j = choose|j: int| 0 <= j < now.len() && (#[trigger] now[j]).value == v;
                if j < before.len() {
                    assert(before[j].value == v);
                    assert(validate::has_value(before, v));
                    assert(validate::has_value(front, v));
                    let i = choose|i: int| 0 <= i < front.len() && (#[trigger] front[i]).value == v;
                    assert(row[i].value == v);
                } else {
                    assert(row[row.len() - 1].value == v);
                }
            }
        }
        assert forall|i: int| 0 <= i < now.len() implies row.contains(#[trigger] now[i]) by {
            if i < before.len() {
                assert(front.contains(before[i]));
                let j = choose|j: int| 0 <= j < front.len() && front[j] == before[i];
                assert(row[j] == now[i]);
            } else {
                assert(row[row.len() - 1] == now[i]);
            }
        }
        assert(distinct(now)) by {
            assert forall|i: int, j: int| 0 <= i < j < now.len() implies (#[trigger] now[i]).value
                != (#[trigger] now[j]).value by {
                if j == before.len() {
                    assert(before[i].value != last.value);
                } else {
                    assert(before[i].value != before[j].value);
                }
            }
        }
        if distinct(row) {
            assert forall|i: int, j: int| 0 <= i < j < front.len() implies (
            #[trigger] front[i]).value != (#[trigger] front[j]).value by {
                assert(row[i].value != row[j].value);
            }
            assert(before == front);
            if validate::has_value(front, last.value) {
                let i = choose|i: int| 0 <= i < front.len() && (#[trigger] front[i]).value == last.value;
                assert(row[i].value != row[row.len() - 1].value);
            }
        }
    }
}

/// In a query with named bind parameters, each of them is replaced by the number of the
/// parameter with its name, each parameter is used, and no two have the same name.
pub proof fn law_named_binds(text: Seq<char>, sql: Pair, i: int)
    requires
        0 <= i < sql.inner@.len(),
    ensures
        parser::extended_bind_params_of(text, sql) matches Ok((params, _)) ==> {
            let name = pair::piece(text, sql.inner@[i]).value;
            let n = parser::number_of(params, name);
            &&& 1 <= n <= params.len()
            &&& params[n - 1].value == name
            &&& distinct(params)
            &&& forall|k: int|
                0 <= k < params.len() ==> pair::pieces(text, sql.inner@).contains(
                    #[trigger] params[k],
                )
        },
{
    let names = pair::pieces(text, sql.inner@);
    let params = parser::first_uses(names);
    let name = names[i].value;
    law_first_uses(names);
    assert(validate::has_value(names, name));
    assert(validate::has_value(params, name));
    let j = choose|j: int| 0 <= j < params.len() && (#[trigger] params[j]).value == name;
    let p = parser::is_value(params, name);
    search::lemma_first_where(params.len(), p);
    assert(p(j));
}

/// Two bind parameters get the same number exactly when they have the same name.
pub proof fn law_numbers_tell_names_apart(text: Seq<char>, sql: Pair, i: int, j: int)
    requires
        0 <= i < sql.inner@.len(),
        0 <= j < sql.inner@.len(),
    ensures
        parser::extended_bind_params_of(text, sql) matches Ok((params, _)) ==> {
            let a = pair::piece(text, sql.inner@[i]).value;
            let b = pair::piece(text, sql.inner@[j]).value;
            parser::number_of(params, a) == parser::number_of(params, b) <==> a == b
        },
{
    law_named_binds(text, sql, i);
    law_named_binds(text, sql, j);
}

/// The number that takes the place of a named bind parameter is a valid index of that
/// parameter, as long as there are no more parameters than indices.
pub proof fn law_numbers_are_indices(text: Seq<char>, sql: Pair, i: int)
    requires
        0 <= i < sql.inner@.len(),
    ensures
        parser::extended_bind_params_of(text, sql) matches Ok((params, _)) ==> {
            let n = parser::number_of(params, pair::piece(text, sql.inner@[i]).value);
            params.len() <= i16::MAX ==> validate::index_value(number::decimal(n)) == Some(n as i16)
        },
{
    law_named_binds(text, sql, i);
    if let Ok((params, _)) = parser::extended_bind_params_of(text, sql) {
        if params.len() <= i16::MAX {
            number::law_index_round_trip(
                parser::number_of(params, pair::piece(text, sql.inner@[i]).value),
            );
        }
    }
}

/// A query without bind parameters has no parameters, and its SQL stays as it is.
pub proof fn law_no_binds(text: Seq<char>, sql: Pair)
    requires
        sql.inner@.len() == 0,
    ensures
        parser::extended_bind_params_of(text, sql) == Ok::<_, ErrorView>(
            (Seq::<ParsedView<Seq<char>>>::empty(), pair::piece(text, sql).value),
        ),
        parser::pg_bind_params_of(text, sql) == Ok::<_, ErrorView>(
            Seq::<ParsedView<i16>>::empty(),
        ),
{
    let sql_text = pair::piece(text, sql).value;
    let params = parser::first_uses(pair::pieces(text, sql.inner@));
    assert(params =~= seq![]);
    assert(parser::first_uses(parser::all_indexed(text, sql.inner@)) =~= seq![]);
    assert(parser::bind_edits(text, sql, params) =~= seq![]);
    text::lemma_slice_all(sql_text);
    assert(parser::normalized(text, sql, params) =~= sql_text);
}

/// The same SQL is never accepted both with named and with indexed bind parameters, unless it
/// has none.
pub proof fn law_binds_do_not_mix(text: Seq<char>, sql: Pair)
    requires
        sql.inner@.len() > 0,
    ensures
        parser::extended_bind_params_of(text, sql) is Err || parser::pg_bind_params_of(
            text,
            sql,
        ) is Err,
{
    let binds = sql.inner@;
    search::lemma_first_where(binds.len(), parser::not_named(binds));
    search::lemma_first_where(binds.len(), parser::not_indexed(text, binds));
    if parser::extended_bind_params_of(text, sql) is Ok && parser::pg_bind_params_of(
        text,
        sql,
    ) is Ok {
        assert(!parser::not_named(binds)(0));
        assert(!parser::not_indexed(text, binds)(0));
    }
}

/// The indices that are found in a query are distinct, and none of them is zero.
pub proof fn law_indexed_binds(text: Seq<char>, sql: Pair)
    ensures
        parser::pg_bind_params_of(text, sql) matches Ok(binds) ==> {
            &&& distinct(binds)
            &&& forall|i: int| 0 <= i < binds.len() ==> (#[trigger] binds[i]).value != 0
        },
{
    let binds = sql.inner@;
    let all = parser::all_indexed(text, binds);
    law_first_uses(all);
    search::lemma_first_where(binds.len(), parser::not_indexed(text, binds));
    if parser::pg_bind_params_of(text, sql) is Ok {
        let found = parser::first_uses(all);
        assert forall|i: int| 0 <= i < found.len() implies (#[trigger] found[i]).value != 0 by {
            assert(all.contains(found[i]));
            let j = choose|j: int| 0 <= j < all.len() && all[j] == found[i];
            assert(!parser::not_indexed(text, binds)(j));
        }
    }
}

/// The rule on bind parameters holds exactly when none has an index greater than the number of
/// parameters; the rule on parameters holds exactly when the number of each of them is used.
pub proof fn law_indices_match_params(
    params: Seq<ParsedView<Seq<char>>>,
    binds: Seq<ParsedView<i16>>,
)
    ensures
        validate::bind_params_within(binds, params.len()) is Ok <==> forall|i: int|
            0 <= i < binds.len() ==> (#[trigger] binds[i]).value <= params.len(),
        validate::params_used(params, binds) is Ok <==> forall|i: int|
            0 <= i < params.len() ==> #[trigger] validate::used(binds, i),
{
    let p = validate::beyond(binds, params.len());
    search::lemma_first_where(binds.len(), p);
    if validate::bind_params_within(binds, params.len()) is Ok {
        assert forall|i: int| 0 <= i < binds.len() implies (#[trigger] binds[i]).value
            <= params.len() by {
            assert(!p(i));
        }
    }
    let u = validate::unused(binds);
    search::lemma_first_where(params.len(), u);
    let k = search::first_where(params.len(), u) as int;
    if validate::params_used(params, binds) is Ok {
        assert forall|i: int| 0 <= i < params.len() implies #[trigger] validate::used(
            binds,
            i,
        ) by {
            assert(!u(i));
        }
    } else {
        assert(!validate::used(binds, k));
    }
}

/// A list of more parameters than there are indices is never accepted: some of them are not
/// used.
pub proof fn law_parameters_have_indices(
    params: Seq<ParsedView<Seq<char>>>,
    binds: Seq<ParsedView<i16>>,
)
    requires
        params.len() > i16::MAX,
    ensures
        validate::params_used(params, binds) is Err,
{
    law_indices_match_params(params, binds);
    assert(!validate::used(binds, i16::MAX as int));
}

/// The queries of a file are those of its query tokens, one each, in their order; other tokens
/// do not matter.
pub proof fn law_one_query_each(text: Seq<char>, row: Seq<Pair>)
    ensures
        parser::queries_of(text, row) is Ok <==> forall|i: int|
            0 <= i < row.filter(parser::is_query()).len() ==> parser::query_of(
                text,
                #[trigger] row.filter(parser::is_query())[i],
            ) is Ok,
        parser::queries_of(text, row) matches Ok(queries) ==> {
            &&& queries.len() == row.filter(parser::is_query()).len()
            &&& forall|i: int|
                0 <= i < queries.len() ==> parser::query_of(
                    text,
                    row.filter(parser::is_query())[i],
                ) == Ok::<_, ErrorView>(#[trigger] queries[i])
        },
        parser::queries_of(text, row) == parser::queries_of(text, row.filter(parser::is_query())),
{
    let queries = row.filter(parser::is_query());
    let p = parser::fails(text, queries);
    search::lemma_first_where(queries.len(), p);
    assert forall|i: int| 0 <= i < queries.len() implies p(i) == (parser::query_of(
        text,
        #[trigger] queries[i],
    ) is Err) by {}
    if parser::queries_of(text, row) is Ok {
        assert forall|i: int| 0 <= i < queries.len() implies parser::query_of(
            text,
            #[trigger] queries[i],
        ) is Ok by {
            assert(!p(i));
        }
    }
    lemma_filter_twice(row);
}

proof fn lemma_filter_twice(row: Seq<Pair>)
    ensures
        row.filter(parser::is_query()).filter(parser::is_query()) == row.filter(
            parser::is_query(),
        ),
    decreases row.len(),
{
    reveal(Seq::filter);
    if row.len() > 0 {
        let front = row.drop_last().filter(parser::is_query());
        lemma_filter_twice(row.drop_last());
        if parser::is_query()(row.last()) {
            assert(front.push(row.last()).drop_last() =~= front);
        }
    }
}

/// Two rows of tokens, one behind the other, give the queries of the first, then those of the
/// second; the first error stops the reading.
#[verifier::rlimit(40)]
pub proof fn law_first_error_wins(text: Seq<char>, a: Seq<Pair>, b: Seq<Pair>)
    ensures
        parser::queries_of(text, a + b) == match parser::queries_of(text, a) {
            Ok(first) => match parser::queries_of(text, b) {
                Ok(second) => Ok(first + second),
                Err(e) => Err(e),
            },
            Err(e) => Err(e),
        },
{
    let qa = a.filter(parser::is_query());
    let qb = b.filter(parser::is_query());
    let qs = (a + b).filter(parser::is_query());
    Seq::filter_distributes_over_add(a, b, parser::is_query());
    assert(qs == qa + qb);
    let pa = parser::fails(text, qa);
    let pb = parser::fails(text, qb);
    let p = parser::fails(text, qs);
    search::lemma_first_where(qa.len(), pa);
    search::lemma_first_where(qb.len(), pb);
    let ka = search::first_where(qa.len(), pa);
    let kb = search::first_where(qb.len(), pb);
    assert forall|i: int| 0 <= i < qs.len() implies #[trigger] p(i) == if i < qa.len() {
        pa(i)
    } else {
        pb(i - qa.len())
    } by {}
    if ka < qa.len() {
        assert forall|i: int| 0 <= i < ka implies !#[trigger] p(i) by {
            assert(!pa(i));
        }
        search::lemma_is_first(qs.len(), p, ka);
    } else {
        assert forall|i: int| 0 <= i < qa.len() + kb implies !#[trigger] p(i) by {
            if i < qa.len() {
                assert(!pa(i));
            } else {
                assert(!pb(i - qa.len()));
            }
        }
        search::lemma_is_first(qs.len(), p, qa.len() + kb);
        if kb == qb.len() {
            assert(parser::queries_of(text, a + b)->Ok_0 =~= parser::queries_of(text, a)->Ok_0
                + parser::queries_of(text, b)->Ok_0);
        }
    }
}

/// The place is that of some offset of the text, between two of its characters or at an end.
pub open spec fn somewhere(text: Seq<char>, pos: PositionView) -> bool {
    exists|at: int| text::on_boundary(text, at) && pos == #[trigger] error::place(text, at)
}

/// All pieces of the row have their places in the text.
pub open spec fn all_somewhere<V>(text: Seq<char>, row: Seq<ParsedView<V>>) -> bool {
    forall|i: int| 0 <= i < row.len() ==> somewhere(text, (#[trigger] row[i]).pos)
}

/// The error is on a rule, and its place is in the text.
pub open spec fn points_into(text: Seq<char>, e: ErrorView) -> bool {
    e matches ErrorView::Validation(v) && somewhere(text, error::place_of(v))
}

proof fn lemma_idents_somewhere(text: Seq<char>, row: Seq<Pair>)
    requires
        pair::all_span(text, row),
    ensures
        all_somewhere(text, parser::idents(text, row)),
{
    let found = row.filter(pair::is_ident());
    let all = parser::idents(text, row);
    assert forall|i: int| 0 <= i < all.len() implies somewhere(text, (#[trigger] all[i]).pos) by {
        row.lemma_filter_contains_rev(pair::is_ident(), found[i]);
        assert(pair::spans(text, found[i]));
        assert(all[i].pos == error::place(text, found[i].start as int));
    }
}

proof fn lemma_indexed_somewhere(text: Seq<char>, sql: Pair)
    requires
        pair::all_span(text, sql.inner@),
    ensures
        parser::pg_bind_params_of(text, sql) matches Ok(binds) ==> all_somewhere(text, binds),
        parser::pg_bind_params_of(text, sql) matches Err(e) ==> points_into(text, e),
        parser::extended_bind_params_of(text, sql) matches Err(e) ==> points_into(text, e),
{
    let all = parser::all_indexed(text, sql.inner@);
    let found = parser::first_uses(all);
    law_first_uses(all);
    assert forall|i: int| 0 <= i < found.len() implies somewhere(
        text,
        (#[trigger] found[i]).pos,
    ) by {
        assert(all.contains(found[i]));
        let j = choose|j: int| 0 <= j < all.len() && all[j] == found[i];
        assert(pair::spans(text, sql.inner@[j]));
        assert(all[j].pos == error::place(text, sql.inner@[j].start as int));
    }
    let n = search::first_where(sql.inner@.len(), parser::not_indexed(text, sql.inner@)) as int;
    let m = search::first_where(sql.inner@.len(), parser::not_named(sql.inner@)) as int;
    if n < sql.inner@.len() {
        assert(pair::spans(text, sql.inner@[n]));
        assert(somewhere(text, error::place(text, sql.inner@[n].start as int)));
    }
    if m < sql.inner@.len() {
        assert(pair::spans(text, sql.inner@[m]));
        assert(somewhere(text, error::place(text, sql.inner@[m].start as int)));
    }
}

proof fn lemma_query_error(text: Seq<char>, q: Pair)
    requires
        pair::query_fits(text, q),
    ensures
        parser::query_of(text, q) matches Err(e) ==> points_into(text, e),
{
    let row = q.inner@[0].inner@;
    let sql = q.inner@[1];
    lemma_indexed_somewhere(text, sql);
    if row.len() >= 2 && row[1].rule == Rule::ParamList {
        let names = parser::idents(text, row[1].inner@);
        lemma_idents_somewhere(text, row[1].inner@);
        match parser::params_of(text, row[1]) {
            Err(e) => {
                let j = search::first_where(names.len(), parser::repeats(names)) as int;
                assert(somewhere(text, names[j].pos));
            },
            Ok(params) => {
                if let Ok(binds) = parser::pg_bind_params_of(text, sql) {
                    let j = search::first_where(
                        binds.len(),
                        validate::beyond(binds, params.len()),
                    ) as int;
                    if j < binds.len() {
                        assert(somewhere(text, binds[j].pos));
                    }
                    let k = search::first_where(params.len(), validate::unused(binds)) as int;
                    if k < params.len() {
                        assert(somewhere(text, params[k].pos));
                    }
                }
            },
        }
    }
}

/// Where a query of a file breaks a rule, the error points at a place in that file: line and
/// column are counted from 1, so that the message can be laid out.
pub proof fn law_errors_point_into_file(text: Seq<char>, row: Seq<Pair>)
    requires
        forall|i: int|
            0 <= i < row.len() && (#[trigger] row[i]).rule == Rule::Query ==> pair::query_fits(
                text,
                row[i],
            ),
    ensures
        parser::queries_of(text, row) matches Err(e) ==> points_into(text, e),
        parser::queries_of(text, row) matches Err(ErrorView::Validation(v)) ==> error::place_of(
            v,
        ).line >= 1 && error::place_of(v).col >= 1,
{
    let queries = row.filter(parser::is_query());
    let p = parser::fails(text, queries);
    search::lemma_first_where(queries.len(), p);
    let k = search::first_where(queries.len(), p) as int;
    if k < queries.len() {
        row.lemma_filter_contains_rev(parser::is_query(), queries[k]);
        row.lemma_filter_pred(parser::is_query(), k);
        lemma_query_error(text, queries[k]);
    }
}

/// A query has the line at which its token begins and the name that its annotation begins
/// with, and it never has a named parameter struct.
pub proof fn law_query_line_and_name(text: Seq<char>, q: Pair)
    ensures
        parser::query_of(text, q) matches Ok(query) ==> {
            &&& query.line == text::line_number(text, q.start as int)
            &&& query.name == pair::piece(text, q.inner@[0].inner@[0])
            &&& query.named_param_struct is None
        },
{
}

/// The query has a parameter list, and its bind parameters are taken as indexed: the list does
/// not hold exactly one name, or some bind parameter is not named.
pub open spec fn takes_indices(text: Seq<char>, q: Pair) -> bool {
    let row = q.inner@[0].inner@;
    &&& row.len() >= 2
    &&& row[1].rule == Rule::ParamList
    &&& parser::idents(text, row[1].inner@).len() != 1 || parser::extended_bind_params_of(
        text,
        q.inner@[1],
    ) is Err
}

/// A query with indexed bind parameters has the names of its list as its parameters, in their
/// order and with their places, and keeps its SQL. Its nullable columns are those of the list
/// of columns behind the parameter list, and its return struct is the name there; it has none
/// where there is no such token. The first such token counts.
pub proof fn law_indexed_query_holds_all(text: Seq<char>, q: Pair, at: int)
    requires
        takes_indices(text, q),
    ensures
        parser::query_of(text, q) matches Ok(query) ==> {
            let row = q.inner@[0].inner@;
            &&& query.params == parser::idents(text, row[1].inner@)
            &&& query.sql_str == pair::piece(text, q.inner@[1]).value
            &&& 2 <= at < row.len() && row[at].rule == Rule::NullableColumnList && (forall|i: int|
                2 <= i < at ==> (#[trigger] row[i]).rule != Rule::NullableColumnList)
                ==> query.nullable_columns == pair::pieces(text, row[at].inner@)
            &&& (forall|i: int|
                2 <= i < row.len() ==> (#[trigger] row[i]).rule != Rule::NullableColumnList)
                ==> query.nullable_columns.len() == 0
            &&& 2 <= at < row.len() && row[at].rule == Rule::Ident && (forall|i: int|
                2 <= i < at ==> (#[trigger] row[i]).rule != Rule::Ident)
                ==> query.named_return_struct == Some(pair::piece(text, row[at]))
            &&& (forall|i: int| 2 <= i < row.len() ==> (#[trigger] row[i]).rule != Rule::Ident)
                ==> query.named_return_struct is None
        },
{
    let row = q.inner@[0].inner@;
    lemma_behind_list(row, Rule::NullableColumnList, at);
    lemma_behind_list(row, Rule::Ident, at);
}

proof fn lemma_behind_list(row: Seq<Pair>, rule: Rule, at: int)
    requires
        row.len() >= 2,
    ensures
        2 <= at < row.len() && row[at].rule == rule && (forall|i: int|
            2 <= i < at ==> (#[trigger] row[i]).rule != rule) ==> parser::behind_list(row, rule)
            == at,
        (forall|i: int| 2 <= i < row.len() ==> (#[trigger] row[i]).rule != rule)
            ==> parser::behind_list(row, rule) == row.len(),
{
    let p = parser::has_rule(row, rule);
    search::lemma_first_from(2, row.len(), p);
    let k = parser::behind_list(row, rule);
    if 2 <= at < k {
        assert(!p(at));
    }
    if k < row.len() {
        assert(p(k));
        assert(row[k].rule == rule);
    }
}

/// A query with indexed bind parameters is read exactly when no name occurs twice in its
/// parameter list, all bind parameters are valid indices, none of them is higher than the
/// number of names, and each number up to that one is used.
pub proof fn law_indexed_query(text: Seq<char>, q: Pair)
    requires
        takes_indices(text, q),
    ensures
        parser::query_of(text, q) is Ok <==> {
            let names = parser::idents(text, q.inner@[0].inner@[1].inner@);
            let binds = q.inner@[1].inner@;
            &&& distinct(names)
            &&& forall|i: int|
                0 <= i < binds.len() ==> (#[trigger] binds[i]).rule == Rule::Number
                    && parser::index_of(text, binds[i]) is Some && parser::index_of(
                    text,
                    binds[i],
                ).unwrap() <= names.len()
            &&& forall|i: int|
                0 <= i < names.len() ==> #[trigger] validate::used(
                    parser::all_indexed(text, binds),
                    i,
                )
        },
{
    let list = q.inner@[0].inner@[1];
    let names = parser::idents(text, list.inner@);
    let binds = q.inner@[1].inner@;
    let all = parser::all_indexed(text, binds);
    let found = parser::first_uses(all);
    let p = parser::not_indexed(text, binds);
    law_param_list(text, list);
    search::lemma_first_where(binds.len(), p);
    law_first_uses(all);
    law_indices_match_params(names, found);
    assert forall|i: int|
        validate::used(all, i) <==> #[trigger] validate::used(found, i) by {
        lemma_used(all, found, i);
        lemma_used(found, all, i);
    }
    if parser::query_of(text, q) is Ok {
        assert forall|i: int| 0 <= i < binds.len() implies (#[trigger] binds[i]).rule
            == Rule::Number && parser::index_of(text, binds[i]) is Some && parser::index_of(
            text,
            binds[i],
        ).unwrap() <= names.len() by {
            assert(!p(i));
            assert(all[i].value == parser::index_of(text, binds[i]).unwrap());
            assert(validate::has_value(all, all[i].value));
            let j = choose|j: int|
                0 <= j < found.len() && (#[trigger] found[j]).value == all[i].value;
            assert(found[j].value <= names.len());
        }
        assert forall|i: int| 0 <= i < names.len() implies #[trigger] validate::used(all, i) by {
            assert(validate::used(found, i));
        }
    }
    if forall|i: int|
        0 <= i < binds.len() ==> (#[trigger] binds[i]).rule == Rule::Number && parser::index_of(
            text,
            binds[i],
        ) is Some && parser::index_of(text, binds[i]).unwrap() <= names.len() {
        let k = search::first_where(binds.len(), p) as int;
        if k < binds.len() {
            assert(p(k));
            assert(binds[k].rule == Rule::Number);
        }
        assert forall|i: int| 0 <= i < found.len() implies (#[trigger] found[i]).value
            <= names.len() by {
            assert(all.contains(found[i]));
            let j = choose|j: int| 0 <= j < all.len() && all[j] == found[i];
            assert(binds[j].rule == Rule::Number);
        }
    }
}

/// A number that one row of indices uses is used by any row that holds the same values.
proof fn lemma_used(a: Seq<ParsedView<i16>>, b: Seq<ParsedView<i16>>, i: int)
    requires
        forall|v: i16|
            #![trigger validate::has_value(a, v)]
            #![trigger validate::has_value(b, v)]
            validate::has_value(a, v) <==> validate::has_value(b, v),
    ensures
        validate::used(a, i) ==> validate::used(b, i),
{
    if validate::used(a, i) {
        let j = choose|j: int| 0 <= j < a.len() && (#[trigger] a[j]).value == i + 1;
        assert(validate::has_value(a, a[j].value));
        let k = choose|k: int| 0 <= k < b.len() && (#[trigger] b[k]).value == a[j].value;
        assert(b[k].value == i + 1);
    }
}

/// A query without a parameter list is read exactly when its bind parameters are all named,
/// and its parameters are then the names of its bind parameters.
pub proof fn law_named_query(text: Seq<char>, q: Pair)
    requires
        q.inner@[0].inner@.len() >= 2 ==> q.inner@[0].inner@[1].rule != Rule::ParamList,
    ensures
        parser::query_of(text, q) is Ok <==> forall|i: int|
            0 <= i < q.inner@[1].inner@.len() ==> (#[trigger] q.inner@[1].inner@[i]).rule
                == Rule::Ident,
        parser::query_of(text, q) matches Ok(query) ==> {
            &&& query.params == parser::first_uses(pair::pieces(text, q.inner@[1].inner@))
            &&& query.sql_str == parser::normalized(text, q.inner@[1], query.params)
        },
{
    let binds = q.inner@[1].inner@;
    let p = parser::not_named(binds);
    search::lemma_first_where(binds.len(), p);
    assert forall|i: int| 0 <= i < binds.len() implies p(i) == ((#[trigger] binds[i]).rule
        != Rule::Ident) by {}
    if parser::query_of(text, q) is Ok {
        assert forall|i: int| 0 <= i < binds.len() implies (#[trigger] binds[i]).rule
            == Rule::Ident by {
            assert(!p(i));
        }
    }
}

/// The names of a row are the pieces of its tokens for names: one for each such token, none for
/// any other, in order.
pub proof fn law_idents(text: Seq<char>, a: Seq<Pair>, b: Seq<Pair>, p: Pair)
    ensures
        parser::idents(text, seq![]).len() == 0,
        parser::idents(text, seq![p]) == if p.rule == Rule::Ident {
            seq![pair::piece(text, p)]
        } else {
            seq![]
        },
        parser::idents(text, a + b) == parser::idents(text, a) + parser::idents(text, b),
{
    reveal_with_fuel(Seq::filter, 2);
    assert(seq![p].drop_last() =~= seq![]);
    assert(parser::idents(text, seq![p]) =~= if p.rule == Rule::Ident {
        seq![pair::piece(text, p)]
    } else {
        seq![]
    });
    Seq::filter_distributes_over_add(a, b, pair::is_ident());
    assert(parser::idents(text, a + b) =~= parser::idents(text, a) + parser::idents(text, b));
}

/// The first uses of a row stand at `r.0`, in the order of the row: each is the first piece with
/// its value. `r.1` tells for each piece which of them has its value, at or before it.
pub proof fn law_first_uses_in_order<V>(row: Seq<ParsedView<V>>) -> (r: (Seq<int>, Seq<int>))
    ensures
        r.0.len() == parser::first_uses(row).len(),
        forall|j: int| #![trigger r.0[j]]
            0 <= j < r.0.len() ==> 0 <= r.0[j] < row.len() && parser::first_uses(row)[j]
                == row[r.0[j]],
        forall|j: int, k: int| 0 <= j < k < r.0.len() ==> #[trigger] r.0[j] < #[trigger] r.0[k],
        forall|j: int, i: int|
            0 <= j < r.0.len() && 0 <= i < r.0[j] ==> (#[trigger] row[i]).value != row[
                #[trigger] r.0[j]].value,
        r.1.len() == row.len(),
        forall|i: int| #![trigger r.1[i]]
            0 <= i < row.len() ==> 0 <= r.1[i] < r.0.len() && r.0[r.1[i]] <= i && row[r.0[r.1[i]]].value
                == row[i].value,
    decreases row.len(),
{
    if row.len() == 0 {
        (seq![], seq![])
    } else {
        let front = row.drop_last();
        let last = row.last();
        let (before, of) = law_first_uses_in_order(front);
        let known = parser::first_uses(front);
        let n = row.len() - 1;
        assert(row =~= front.push(last));
        if validate::has_value(known, last.value) {
            let j = choose|j: int| 0 <= j < known.len() && (#[trigger] known[j]).value == last.value;
            let now = of.push(j);
            assert(front[before[j]] == known[j]);
            assert forall|i: int| #![trigger now[i]] 0 <= i < row.len() implies 0 <= now[i]
                < before.len() && before[now[i]] <= i && row[before[now[i]]].value
                == row[i].value by {
                if i < n {
                    assert(now[i] == of[i]);
                }
            }
            (before, now)
        } else {
            let at = before.push(n);
            let now = of.push(before.len() as int);
            assert forall|j: int| #![trigger at[j]] 0 <= j < at.len() implies 0 <= at[j] < row.len()
                && parser::first_uses(row)[j] == row[at[j]] by {
                if j < before.len() {
                    assert(at[j] == before[j]);
                }
            }
            assert forall|j: int, i: int| 0 <= j < at.len() && 0 <= i < at[j] implies (
            #[trigger] row[i]).value != row[#[trigger] at[j]].value by {
                if j < before.len() {
                    assert(at[j] == before[j]);
                    assert(front[i].value != front[before[j]].value);
                } else if row[i].value == last.value {
                    assert(0 <= of[i] < before.len());
                    assert(known[of[i]] == front[before[of[i]]]);
                    assert(validate::has_value(known, last.value));
                }
            }
            assert forall|i: int| #![trigger now[i]] 0 <= i < row.len() implies 0 <= now[i]
                < at.len() && at[now[i]] <= i && row[at[now[i]]].value == row[i].value by {
                if i < n {
                    assert(now[i] == of[i]);
                    assert(at[of[i]] == before[of[i]]);
                } else {
                    assert(at[before.len() as int] == n);
                }
            }
            (at, now)
        }
    }
}

/// Where a parameter list is refused, the error points at the first name that occurs before; in
/// a list that is accepted no name does.
pub proof fn law_first_repeated_name(text: Seq<char>, list: Pair) -> (k: int)
    ensures
        parser::params_of(text, list) is Ok <==> forall|i: int, j: int|
            0 <= i < j < parser::idents(text, list.inner@).len() ==> (#[trigger] parser::idents(
                text,
                list.inner@,
            )[i]).value != (#[trigger] parser::idents(text, list.inner@)[j]).value,
        parser::params_of(text, list) matches Ok(params) ==> params == parser::idents(
            text,
            list.inner@,
        ),
        parser::params_of(text, list) matches Err(e) ==> {
            let names = parser::idents(text, list.inner@);
            &&& 0 <= k < names.len()
            &&& exists|i: int| 0 <= i < k && (#[trigger] names[i]).value == names[k].value
            &&& forall|i: int, j: int|
                0 <= i < j < k ==> (#[trigger] names[i]).value != (#[trigger] names[j]).value
            &&& e == ErrorView::Validation(
                ValidationErrorView::DuplicateParam { pos: names[k].pos },
            )
        },
{
    let names = parser::idents(text, list.inner@);
    let p = parser::repeats(names);
    law_param_list(text, list);
    search::lemma_first_where(names.len(), p);
    let k = search::first_where(names.len(), p) as int;
    if k < names.len() {
        let front = names.take(k);
        let i = choose|i: int| 0 <= i < front.len() && (#[trigger] front[i]).value == names[k].value;
        assert(names[i].value == names[k].value);
        assert forall|i: int, j: int| 0 <= i < j < k implies (#[trigger] names[i]).value != (
        #[trigger] names[j]).value by {
            assert(!p(j));
            assert(names.take(j)[i] == names[i]);
        }
    }
    k
}

/// The bind parameters of a query are accepted as indexed exactly when each is a number of 16
/// bits other than zero; the first one that is not is at fault, in one way if it has a name and
/// in another if its number is out of range.
pub proof fn law_first_invalid_index(text: Seq<char>, sql: Pair) -> (k: int)
    ensures
        parser::pg_bind_params_of(text, sql) is Ok <==> forall|i: int| #![trigger sql.inner@[i]]
            0 <= i < sql.inner@.len() ==> sql.inner@[i].rule == Rule::Number && number::i16_value(
                pair::piece(text, sql.inner@[i]).value,
            ) is Some && number::i16_value(pair::piece(text, sql.inner@[i]).value) != Some(0i16),
        parser::pg_bind_params_of(text, sql) matches Err(e) ==> {
            let binds = sql.inner@;
            let pos = error::place(text, binds[k].start as int);
            &&& 0 <= k < binds.len()
            &&& forall|i: int| #![trigger binds[i]]
                0 <= i < k ==> binds[i].rule == Rule::Number && number::i16_value(
                    pair::piece(text, binds[i]).value,
                ) is Some && number::i16_value(pair::piece(text, binds[i]).value) != Some(0i16)
            &&& binds[k].rule != Rule::Number ==> e == ErrorView::Validation(
                ValidationErrorView::ExtendedParamInPgQuery { pos },
            )
            &&& binds[k].rule == Rule::Number ==> (number::i16_value(
                pair::piece(text, binds[k]).value,
            ) is None || number::i16_value(pair::piece(text, binds[k]).value) == Some(0i16)) && e
                == ErrorView::Validation(ValidationErrorView::InvalidI16Index { pos })
        },
{
    let binds = sql.inner@;
    let p = parser::not_indexed(text, binds);
    search::lemma_first_where(binds.len(), p);
    let k = search::first_where(binds.len(), p) as int;
    assert forall|i: int| #![trigger binds[i]] 0 <= i < k implies binds[i].rule == Rule::Number
        && number::i16_value(pair::piece(text, binds[i]).value) is Some && number::i16_value(
        pair::piece(text, binds[i]).value,
    ) != Some(0i16) by {
        assert(!p(i));
    }
    if k < binds.len() {
        assert(p(k));
    }
    k
}

/// The indices that are found in a query are those of the bind parameters at `r.0`, in order and
/// with their places: each where it occurs first. `r.1` tells for each bind parameter which of
/// them is its index.
pub proof fn law_indices_found(text: Seq<char>, sql: Pair) -> (r: (Seq<int>, Seq<int>))
    ensures
        parser::pg_bind_params_of(text, sql) matches Ok(found) ==> {
            let (at, of) = r;
            let binds = sql.inner@;
            &&& at.len() == found.len()
            &&& forall|j: int| #![trigger at[j]]
                0 <= j < at.len() ==> 0 <= at[j] < binds.len() && found[j].pos == error::place(
                    text,
                    binds[at[j]].start as int,
                ) && number::i16_value(pair::piece(text, binds[at[j]]).value) == Some(
                    found[j].value,
                )
            &&& forall|j: int, k: int| 0 <= j < k < at.len() ==> #[trigger] at[j] < #[trigger] at[k]
            &&& of.len() == binds.len()
            &&& forall|i: int| #![trigger of[i]]
                0 <= i < binds.len() ==> 0 <= of[i] < at.len() && at[of[i]] <= i && Some(
                    found[of[i]].value,
                ) == number::i16_value(pair::piece(text, binds[i]).value)
            &&& forall|i: int, j: int|
                0 <= i < j < found.len() ==> (#[trigger] found[i]).value != (
                #[trigger] found[j]).value
        },
{
    let binds = sql.inner@;
    let all = parser::all_indexed(text, binds);
    let found = parser::first_uses(all);
    let (at, of) = law_first_uses_in_order(all);
    let k = law_first_invalid_index(text, sql);
    law_first_uses(all);
    if parser::pg_bind_params_of(text, sql) is Ok {
        assert forall|j: int| #![trigger at[j]] 0 <= j < at.len() implies 0 <= at[j] < binds.len()
            && found[j].pos == error::place(text, binds[at[j]].start as int) && number::i16_value(
            pair::piece(text, binds[at[j]]).value,
        ) == Some(found[j].value) by {
            assert(all[at[j]] == found[j]);
            assert(binds[at[j]].rule == Rule::Number);
        }
        assert forall|i: int| #![trigger of[i]] 0 <= i < binds.len() implies 0 <= of[i] < at.len()
            && at[of[i]] <= i && Some(found[of[i]].value) == number::i16_value(
            pair::piece(text, binds[i]).value,
        ) by {
            assert(binds[i].rule == Rule::Number);
            assert(all[i] == parser::indexed(text, binds[i]));
            assert(found[of[i]] == all[at[of[i]]]);
        }
    }
    (at, of)
}

/// The bind parameters of a query are accepted as named exactly when all of them are names; the
/// first one that is not is at fault.
pub proof fn law_first_index_among_names(text: Seq<char>, sql: Pair) -> (k: int)
    ensures
        parser::extended_bind_params_of(text, sql) is Ok <==> forall|i: int|
            0 <= i < sql.inner@.len() ==> (#[trigger] sql.inner@[i]).rule == Rule::Ident,
        parser::extended_bind_params_of(text, sql) matches Err(e) ==> {
            let binds = sql.inner@;
            &&& 0 <= k < binds.len()
            &&& binds[k].rule != Rule::Ident
            &&& forall|i: int| 0 <= i < k ==> (#[trigger] binds[i]).rule == Rule::Ident
            &&& e == ErrorView::Validation(
                ValidationErrorView::PgParamInExtendedQuery {
                    pos: error::place(text, binds[k].start as int),
                },
            )
        },
{
    let binds = sql.inner@;
    let p = parser::not_named(binds);
    search::lemma_first_where(binds.len(), p);
    let k = search::first_where(binds.len(), p) as int;
    assert forall|i: int| 0 <= i < k implies (#[trigger] binds[i]).rule == Rule::Ident by {
        assert(!p(i));
    }
    if k < binds.len() {
        assert(p(k));
        assert(binds[k].rule != Rule::Ident);
    }
    k
}

/// The parameters of a query with named bind parameters are the names at `r.0`, in order and
/// with their places: each where it occurs first. `r.1` tells for each bind parameter the number
/// of the parameter with its name, counted from 1.
pub proof fn law_names_found(text: Seq<char>, sql: Pair) -> (r: (Seq<int>, Seq<nat>))
    ensures
        parser::extended_bind_params_of(text, sql) matches Ok((params, _)) ==> {
            let (at, numbers) = r;
            let binds = sql.inner@;
            &&& at.len() == params.len()
            &&& forall|j: int| #![trigger at[j]]
                0 <= j < at.len() ==> 0 <= at[j] < binds.len() && params[j].value == decode_utf8(
                    encode_utf8(text).subrange(
                        binds[at[j]].start as int,
                        binds[at[j]].end as int,
                    ),
                ) && params[j].pos == error::place(text, binds[at[j]].start as int)
            &&& forall|j: int, k: int| 0 <= j < k < at.len() ==> #[trigger] at[j] < #[trigger] at[k]
            &&& numbers.len() == binds.len()
            &&& forall|i: int| #![trigger numbers[i]]
                0 <= i < binds.len() ==> 1 <= numbers[i] <= params.len() && at[numbers[i] - 1] <= i
                    && params[numbers[i] - 1].value == decode_utf8(
                    encode_utf8(text).subrange(binds[i].start as int, binds[i].end as int),
                )
            &&& forall|i: int, j: int|
                0 <= i < j < params.len() ==> (#[trigger] params[i]).value != (
                #[trigger] params[j]).value
        },
{
    let binds = sql.inner@;
    let names = pair::pieces(text, binds);
    let params = parser::first_uses(names);
    let (at, of) = law_first_uses_in_order(names);
    let numbers = of.map_values(|j: int| (j + 1) as nat);
    law_first_uses(names);
    assert forall|j: int| #![trigger at[j]] 0 <= j < at.len() implies 0 <= at[j] < binds.len()
        && params[j].value == decode_utf8(
        encode_utf8(text).subrange(binds[at[j]].start as int, binds[at[j]].end as int),
    ) && params[j].pos == error::place(text, binds[at[j]].start as int) by {
        assert(params[j] == names[at[j]]);
    }
    assert forall|i: int| #![trigger numbers[i]] 0 <= i < binds.len() implies 1 <= numbers[i]
        <= params.len() && at[numbers[i] - 1] <= i && params[numbers[i] - 1].value == decode_utf8(
        encode_utf8(text).subrange(binds[i].start as int, binds[i].end as int),
    ) by {
        assert(0 <= of[i] < at.len());
        assert(params[of[i]] == names[at[of[i]]]);
        assert(names[i] == pair::piece(text, binds[i]));
    }
    (at, numbers)
}

/// The SQL of a query with named bind parameters is made up of parts: the text of the file
/// before the first of them, then by turns a mark with a number and the text of the file up to
/// the next one, or to the end. Each number is that of the parameter whose name stood there,
/// counted from 1, whether the name occurred before or not.
pub proof fn law_normalized_sql(
    text: Seq<char>,
    sql: Pair,
    numbers: Seq<nat>,
    parts: Seq<Seq<char>>,
)
    requires
        pair::sql_fits(text, sql),
        parser::extended_bind_params_of(text, sql) is Ok,
        numbers.len() == sql.inner@.len(),
        forall|i: int| #![trigger numbers[i]]
            0 <= i < numbers.len() ==> 1 <= numbers[i] <= (parser::extended_bind_params_of(
                text,
                sql,
            )->Ok_0).0.len() && (parser::extended_bind_params_of(text, sql)->Ok_0).0[numbers[i]
                - 1].value == decode_utf8(
                encode_utf8(text).subrange(
                    sql.inner@[i].start as int,
                    sql.inner@[i].end as int,
                ),
            ),
        parts.len() == 2 * sql.inner@.len() + 1,
        forall|k: int|
            0 <= k < parts.len() ==> #[trigger] parts[k] == if k % 2 == 0 {
                decode_utf8(
                    encode_utf8(text).subrange(
                        if k == 0 {
                            sql.start as int
                        } else {
                            sql.inner@[k / 2 - 1].end as int
                        },
                        if k / 2 < sql.inner@.len() {
                            sql.inner@[k / 2].start - 1
                        } else {
                            sql.end as int
                        },
                    ),
                )
            } else {
                seq!['$'] + number::decimal(numbers[k / 2])
            },
    ensures
        (parser::extended_bind_params_of(text, sql)->Ok_0).1 == parts.flatten(),
{
    let binds = sql.inner@;
    let params = parser::first_uses(pair::pieces(text, binds));
    let s = pair::piece(text, sql).value;
    let edits = parser::bind_edits(text, sql, params);
    reveal_strlit("$");
    assert("$"@ =~= seq!['$']);
    parser::lemma_bind_edits_apart(text, sql, params);
    assert forall|k: int| 0 <= k < parts.len() implies #[trigger] parts[k] == if k % 2 == 0 {
        decode_utf8(
            encode_utf8(s).subrange(
                if k == 0 {
                    0
                } else {
                    edits[k / 2 - 1].stop
                },
                if k / 2 < edits.len() {
                    edits[k / 2].start
                } else {
                    encode_utf8(s).len() as int
                },
            ),
        )
    } else {
        edits[k / 2].value
    } by {
        if k % 2 == 0 {
            let from = if k == 0 {
                sql.start as int
            } else {
                binds[k / 2 - 1].end as int
            };
            let to = if k / 2 < binds.len() {
                binds[k / 2].start - 1
            } else {
                sql.end as int
            };
            lemma_part_of_sql(text, sql, k / 2);
            lemma_slice_of_sql(text, sql, from, to);
        } else {
            let i = k / 2;
            law_named_binds(text, sql, i);
            let name = pair::piece(text, binds[i]).value;
            let n = parser::number_of(params, name);
            assert(params[numbers[i] - 1].value == name);
            assert(params[n - 1].value == name);
            assert(n == numbers[i]);
        }
    }
    replace::law_replaced_parts(s, edits, parts);
    replace::law_text_between_stays(s, edits);
}

/// The text up to the bind parameter at `i`, or behind the last one, lies within the SQL.
proof fn lemma_part_of_sql(text: Seq<char>, sql: Pair, i: int)
    requires
        pair::sql_fits(text, sql),
        0 <= i <= sql.inner@.len(),
    ensures
        sql.start <= (if i == 0 {
            sql.start as int
        } else {
            sql.inner@[i - 1].end as int
        }) <= (if i < sql.inner@.len() {
            sql.inner@[i].start - 1
        } else {
            sql.end as int
        }) <= sql.end,
{
    let binds = sql.inner@;
    if i > 0 {
        assert(pair::spans(text, binds[i - 1]));
        if i < binds.len() {
            assert(binds[i - 1].end < binds[i].start);
        }
    }
    if i < binds.len() {
        assert(pair::spans(text, binds[i]));
    }
}

/// What lies within the SQL has the same bytes in the SQL and in the file.
proof fn lemma_slice_of_sql(text: Seq<char>, sql: Pair, from: int, to: int)
    requires
        pair::spans(text, sql),
        sql.start <= from <= to <= sql.end,
    ensures
        encode_utf8(pair::piece(text, sql).value).subrange(from - sql.start, to - sql.start)
            == encode_utf8(text).subrange(from, to),
        encode_utf8(pair::piece(text, sql).value).len() == sql.end - sql.start,
{
    text::lemma_slice_bytes(text, sql.start as int, sql.end as int);
    text::lemma_boundary_in_range(text, sql.end as int);
    assert(encode_utf8(pair::piece(text, sql).value).subrange(from - sql.start, to - sql.start)
        =~= encode_utf8(text).subrange(from, to));
}

/// A query that is read has the line at which its token begins, and the name that stands first
/// in its annotation: all characters between the ends of that token, with its place. It never
/// has a named parameter struct.
pub proof fn law_query_name(text: Seq<char>, q: Pair, r: Result<ParsedQuery, Error>)
    requires
        pair::query_fits(text, q),
        parser::query_outcome(r) == parser::query_of(text, q),
    ensures
        r matches Ok(p) ==> {
            let name = q.inner@[0].inner@[0];
            &&& p.line == 1 + decode_utf8(
                encode_utf8(text).subrange(0, q.start as int),
            ).to_multiset().count('\n')
            &&& p.name.value@ == decode_utf8(
                encode_utf8(text).subrange(name.start as int, name.end as int),
            )
            &&& p.name.pos@ == error::place(text, name.start as int)
            &&& p.named_param_struct is None
        },
{
    let before = text::before(text, q.start as int);
    text::lemma_slice_all(text);
    text::lemma_boundary_in_range(text, q.start as int);
    text::lemma_slice_split(text, 0, q.start as int, text::byte_len(text));
    text::lemma_slice_bytes(text, 0, q.start as int);
    assert(text.take(before.len() as int) =~= before);
    let end = text::law_lines(text, before.len() as int);
}

/// A query without a parameter list is read exactly when all its bind parameters are names. Its
/// nullable columns are all tokens of its list of columns, in order, whether the list follows
/// the name of the query or a return struct; it has none where there is no list. Its return
/// struct is the name behind the name of the query, where no list of columns stands there.
pub proof fn law_query_without_list(text: Seq<char>, q: Pair, r: Result<ParsedQuery, Error>)
    requires
        pair::query_fits(text, q),
        parser::query_outcome(r) == parser::query_of(text, q),
        q.inner@[0].inner@.len() >= 2 ==> q.inner@[0].inner@[1].rule != Rule::ParamList,
    ensures
        r is Ok <==> forall|i: int|
            0 <= i < q.inner@[1].inner@.len() ==> (#[trigger] q.inner@[1].inner@[i]).rule
                == Rule::Ident,
        r matches Err(e) ==> parser::extended_bind_params_of(text, q.inner@[1]) matches Err(x) && x
            == e@,
        r matches Ok(p) ==> {
            let row = q.inner@[0].inner@;
            let cols = p.nullable_columns@;
            &&& row.len() < 2 ==> p.named_return_struct is None && cols.len() == 0
            &&& row.len() >= 2 && row[1].rule == Rule::NullableColumnList ==> {
                &&& p.named_return_struct is None
                &&& cols.len() == row[1].inner@.len()
                &&& forall|i: int|
                    0 <= i < cols.len() ==> (#[trigger] cols[i])@ == pair::piece(
                        text,
                        row[1].inner@[i],
                    )
            }
            &&& row.len() >= 2 && row[1].rule != Rule::NullableColumnList ==> {
                &&& p.named_return_struct matches Some(s) && s@ == pair::piece(text, row[1])
                &&& row.len() == 2 ==> cols.len() == 0
                &&& row.len() > 2 ==> {
                    &&& cols.len() == row[2].inner@.len()
                    &&& forall|i: int|
                        0 <= i < cols.len() ==> (#[trigger] cols[i])@ == pair::piece(
                            text,
                            row[2].inner@[i],
                        )
                }
            }
        },
{
    let k = law_first_index_among_names(text, q.inner@[1]);
    if let Ok(p) = r {
        let cols = p.nullable_columns@;
        assert(parser::query_of(text, q) == Ok::<_, ErrorView>(p@));
        assert(p@.nullable_columns == parsed::views(cols));
        assert(parsed::views(cols).len() == cols.len());
        assert forall|i: int| 0 <= i < cols.len() implies (#[trigger] cols[i])@
            == parsed::views(cols)[i] by {}
    }
}

/// A query with a parameter list of exactly one name, all of whose bind parameters are names, is
/// read. A list of columns right behind the parameter list gives its nullable columns; any other
/// token there gives its return struct, and a token behind that one the columns.
pub proof fn law_query_with_one_name(text: Seq<char>, q: Pair, r: Result<ParsedQuery, Error>)
    requires
        pair::query_fits(text, q),
        parser::query_outcome(r) == parser::query_of(text, q),
        q.inner@[0].inner@.len() >= 2,
        q.inner@[0].inner@[1].rule == Rule::ParamList,
        parser::idents(text, q.inner@[0].inner@[1].inner@).len() == 1,
        forall|i: int|
            0 <= i < q.inner@[1].inner@.len() ==> (#[trigger] q.inner@[1].inner@[i]).rule
                == Rule::Ident,
    ensures
        r matches Ok(p) && {
            let row = q.inner@[0].inner@;
            let cols = p.nullable_columns@;
            &&& parser::extended_bind_params_of(text, q.inner@[1]) == Ok::<_, ErrorView>(
                (p@.params, p.sql_str@),
            )
            &&& row.len() == 2 ==> p.named_return_struct is None && cols.len() == 0
            &&& row.len() > 2 && row[2].rule == Rule::NullableColumnList ==> {
                &&& p.named_return_struct is None
                &&& cols.len() == row[2].inner@.len()
                &&& forall|i: int|
                    0 <= i < cols.len() ==> (#[trigger] cols[i])@ == pair::piece(
                        text,
                        row[2].inner@[i],
                    )
            }
            &&& row.len() > 2 && row[2].rule != Rule::NullableColumnList ==> {
                &&& p.named_return_struct matches Some(s) && s@ == pair::piece(text, row[2])
                &&& row.len() == 3 ==> cols.len() == 0
                &&& row.len() > 3 ==> {
                    &&& cols.len() == row[3].inner@.len()
                    &&& forall|i: int|
                        0 <= i < cols.len() ==> (#[trigger] cols[i])@ == pair::piece(
                            text,
                            row[3].inner@[i],
                        )
                }
            }
        },
{
    let k = law_first_index_among_names(text, q.inner@[1]);
    law_param_list(text, q.inner@[0].inner@[1]);
    if let Ok(p) = r {
        let cols = p.nullable_columns@;
        assert(parser::query_of(text, q) == Ok::<_, ErrorView>(p@));
        assert(p@.nullable_columns == parsed::views(cols));
        assert(parsed::views(cols).len() == cols.len());
        assert forall|i: int| 0 <= i < cols.len() implies (#[trigger] cols[i])@
            == parsed::views(cols)[i] by {}
    }
}

/// The SQL of a query that is read, all of whose bind parameters are names, and which has no
/// parameter list or one with exactly one name: by turns the text of the file and, for each bind
/// parameter with the mark before it, a mark and the number of the parameter with that name.
pub proof fn law_query_sql(text: Seq<char>, q: Pair, p: ParsedQuery) -> (r: (
    Seq<nat>,
    Seq<Seq<char>>,
))
    requires
        pair::query_fits(text, q),
        parser::query_of(text, q) == Ok::<_, ErrorView>(p@),
        forall|i: int|
            0 <= i < q.inner@[1].inner@.len() ==> (#[trigger] q.inner@[1].inner@[i]).rule
                == Rule::Ident,
        q.inner@[0].inner@.len() >= 2 && q.inner@[0].inner@[1].rule == Rule::ParamList
            ==> parser::idents(text, q.inner@[0].inner@[1].inner@).len() == 1,
    ensures
        ({
            let (numbers, parts) = r;
            let sql = q.inner@[1];
            let binds = sql.inner@;
            &&& numbers.len() == binds.len()
            &&& forall|i: int| #![trigger numbers[i]]
                0 <= i < binds.len() ==> 1 <= numbers[i] <= p.params@.len() && p.params@[numbers[i]
                    - 1].value@ == decode_utf8(
                    encode_utf8(text).subrange(binds[i].start as int, binds[i].end as int),
                )
            &&& forall|i: int, j: int|
                0 <= i < j < p.params@.len() ==> (#[trigger] p.params@[i]).value@ != (
                #[trigger] p.params@[j]).value@
            &&& parts.len() == 2 * binds.len() + 1
            &&& forall|k: int|
                0 <= k < parts.len() ==> #[trigger] parts[k] == if k % 2 == 0 {
                    decode_utf8(
                        encode_utf8(text).subrange(
                            if k == 0 {
                                sql.start as int
                            } else {
                                binds[k / 2 - 1].end as int
                            },
                            if k / 2 < binds.len() {
                                binds[k / 2].start - 1
                            } else {
                                sql.end as int
                            },
                        ),
                    )
                } else {
                    seq!['$'] + number::decimal(numbers[k / 2])
                }
            &&& p.sql_str@ == parts.flatten()
        }),
{
    let sql = q.inner@[1];
    let k = law_first_index_among_names(text, sql);
    if q.inner@[0].inner@.len() >= 2 && q.inner@[0].inner@[1].rule == Rule::ParamList {
        law_param_list(text, q.inner@[0].inner@[1]);
        assert(!pair::indexed_only(q.inner@[0]));
    }
    let binds = sql.inner@;
    let (at, numbers) = law_names_found(text, sql);
    let parts = Seq::new(
        2 * binds.len() + 1,
        |k: int|
            if k % 2 == 0 {
                decode_utf8(
                    encode_utf8(text).subrange(
                        if k == 0 {
                            sql.start as int
                        } else {
                            binds[k / 2 - 1].end as int
                        },
                        if k / 2 < binds.len() {
                            binds[k / 2].start - 1
                        } else {
                            sql.end as int
                        },
                    ),
                )
            } else {
                seq!['$'] + number::decimal(numbers[k / 2])
            },
    );
    assert(parser::extended_bind_params_of(text, sql) == Ok::<_, ErrorView>(
        (p@.params, p.sql_str@),
    ));
    law_normalized_sql(text, sql, numbers, parts);
    parsed::law_query_view(p);
    assert forall|i: int| #![trigger numbers[i]] 0 <= i < binds.len() implies 1 <= numbers[i]
        <= p.params@.len() && p.params@[numbers[i] - 1].value@ == decode_utf8(
        encode_utf8(text).subrange(binds[i].start as int, binds[i].end as int),
    ) by {
        assert(p@.params[numbers[i] - 1].value == p.params@[numbers[i] - 1].value@);
    }
    assert forall|i: int, j: int| 0 <= i < j < p.params@.len() implies (
    #[trigger] p.params@[i]).value@ != (#[trigger] p.params@[j]).value@ by {
        assert(p@.params[i].value != p@.params[j].value);
    }
    (numbers, parts)
}

/// Where a query with indexed bind parameters is refused, the first of these is told: a name
/// that occurs twice in the parameter list, a bind parameter that is no valid index, an index
/// that is too high, a parameter that is not used.
pub proof fn law_indexed_query_errors(text: Seq<char>, q: Pair)
    requires
        takes_indices(text, q),
    ensures
        ({
            let list = q.inner@[0].inner@[1];
            let names = parser::idents(text, list.inner@);
            &&& parser::params_of(text, list) matches Err(e) ==> parser::query_of(text, q) == Err::<
                ParsedQueryView,
                _,
            >(e)
            &&& parser::params_of(text, list) is Ok ==> match parser::pg_bind_params_of(
                text,
                q.inner@[1],
            ) {
                Err(e) => parser::query_of(text, q) == Err::<ParsedQueryView, _>(e),
                Ok(binds) => {
                    &&& validate::bind_params_within(binds, names.len()) matches Err(e)
                        ==> parser::query_of(text, q) == Err::<ParsedQueryView, _>(e)
                    &&& validate::bind_params_within(binds, names.len()) is Ok
                        ==> (validate::params_used(names, binds) matches Err(e)
                        ==> parser::query_of(text, q) == Err::<ParsedQueryView, _>(e))
                },
            }
        }),
{
    law_param_list(text, q.inner@[0].inner@[1]);
}

/// A query with indexed bind parameters is read only if the SQL has, for each name of the
/// parameter list, a bind parameter that is the number of that name, counted from 1.
pub proof fn law_declared_names_are_used(text: Seq<char>, q: Pair, i: int) -> (j: int)
    requires
        takes_indices(text, q),
        parser::query_of(text, q) is Ok,
        0 <= i < parser::idents(text, q.inner@[0].inner@[1].inner@).len(),
    ensures
        0 <= j < q.inner@[1].inner@.len(),
        q.inner@[1].inner@[j].rule == Rule::Number,
        number::i16_value(pair::piece(text, q.inner@[1].inner@[j]).value) matches Some(n) && n == i
            + 1,
{
    let binds = q.inner@[1].inner@;
    let all = parser::all_indexed(text, binds);
    law_indexed_query(text, q);
    assert(validate::used(all, i));
    let j = choose|j: int| 0 <= j < all.len() && (#[trigger] all[j]).value == i + 1;
    assert(binds[j].rule == Rule::Number);
    j
}

/// And if for some name there is none, the query is refused.
pub proof fn law_unused_name_is_refused(text: Seq<char>, q: Pair, i: int)
    requires
        takes_indices(text, q),
        0 <= i < parser::idents(text, q.inner@[0].inner@[1].inner@).len(),
        forall|j: int| #![trigger q.inner@[1].inner@[j]]
            0 <= j < q.inner@[1].inner@.len() ==> match number::i16_value(
                pair::piece(text, q.inner@[1].inner@[j]).value,
            ) {
                Some(n) => n != i + 1,
                None => true,
            },
    ensures
        parser::query_of(text, q) is Err,
{
    if parser::query_of(text, q) is Ok {
        let j = law_declared_names_are_used(text, q, i);
        assert(q.inner@[1].inner@[j] == q.inner@[1].inner@[j]);
    }
}

/// A row of one token gives the query of that token, or its error, if it is a query, and nothing
/// otherwise; so does a row of none.
pub proof fn law_one_token(text: Seq<char>, p: Pair)
    ensures
        parser::queries_of(text, seq![]) == Ok::<_, ErrorView>(Seq::<ParsedQueryView>::empty()),
        parser::queries_of(text, seq![p]) == if p.rule == Rule::Query {
            match parser::query_of(text, p) {
                Ok(q) => Ok(seq![q]),
                Err(e) => Err(e),
            }
        } else {
            Ok(seq![])
        },
{
    reveal_with_fuel(Seq::filter, 2);
    reveal_with_fuel(search::first_from, 2);
    let none = Seq::<Pair>::empty().filter(parser::is_query());
    let queries = seq![p].filter(parser::is_query());
    assert(none.len() == 0);
    assert(parser::queries_of(text, seq![])->Ok_0 =~= Seq::<ParsedQueryView>::empty());
    assert(seq![p].drop_last() =~= seq![]);
    if p.rule == Rule::Query {
        assert(queries =~= seq![p]);
        assert(parser::fails(text, queries)(0) == (parser::query_of(text, p) is Err));
        if let Ok(q) = parser::query_of(text, p) {
            assert(parser::queries_of(text, seq![p])->Ok_0 =~= seq![q]);
        }
    } else {
        assert(queries =~= seq![]);
        assert(parser::queries_of(text, seq![p])->Ok_0 =~= seq![]);
    }
}

/// Results as they stand in specifications are successes with the same values, in order, or the
/// same errors.
pub proof fn law_outcomes(
    row: Result<Vec<Parsed<String>>, Error>,
    indices: Result<Vec<Parsed<i16>>, Error>,
    extended: Result<(Vec<Parsed<String>>, String), Error>,
    query: Result<ParsedQuery, Error>,
    queries: Result<Vec<ParsedQuery>, Error>,
)
    ensures
        row matches Ok(v) ==> parser::row_outcome(row) == Ok::<_, ErrorView>(parsed::views(v@)),
        row matches Err(e) ==> parser::row_outcome(row) == Err::<Seq<ParsedView<Seq<char>>>, _>(e@),
        indices matches Ok(v) ==> parser::row_outcome(indices) == Ok::<_, ErrorView>(
            parsed::views(v@),
        ),
        indices matches Err(e) ==> parser::row_outcome(indices) == Err::<Seq<ParsedView<i16>>, _>(
            e@,
        ),
        extended matches Ok((params, sql)) ==> parser::extended_outcome(extended) == Ok::<
            _,
            ErrorView,
        >((parsed::views(params@), sql@)),
        extended matches Err(e) ==> parser::extended_outcome(extended) == Err::<
            (Seq<ParsedView<Seq<char>>>, Seq<char>),
            _,
        >(e@),
        query matches Ok(q) ==> parser::query_outcome(query) == Ok::<_, ErrorView>(q@),
        query matches Err(e) ==> parser::query_outcome(query) == Err::<ParsedQueryView, _>(e@),
        queries matches Ok(v) ==> {
            &&& parser::queries_outcome(queries) matches Ok(all) && all.len() == v@.len()
                && forall|i: int| 0 <= i < all.len() ==> #[trigger] all[i] == v@[i]@
        },
        queries matches Err(e) ==> parser::queries_outcome(queries) == Err::<
            Seq<ParsedQueryView>,
            _,
        >(e@),
{
}

} // verus!
