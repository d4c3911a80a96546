//! The rules on the parameters of a query.

use crate::error;
use crate::error::{Error, ErrorView, ParsedPosition, PositionView, ValidationError, ValidationErrorView};
use crate::number;
use crate::pair::Pair;
use crate::parsed;
use crate::parsed::{Parsed, ParsedView};
use crate::search;
use crate::text;
use vstd::prelude::*;

verus! {

/// A result with its error as it stands in specifications.
pub open spec fn outcome<T>(r: Result<T, Error>) -> Result<T, ErrorView> {
    match r {
        Ok(v) => Ok(v),
        Err(e) => Err(e@),
    }
}

/// One of the pieces has the given value.
pub open spec fn has_value<V>(row: Seq<ParsedView<V>>, value: V) -> bool {
    exists|i: int| 0 <= i < row.len() && (#[trigger] row[i]).value == value
}

/// Holds at the bind parameters whose index is greater than `nb_params`.
pub open spec fn beyond(binds: Seq<ParsedView<i16>>, nb_params: nat) -> spec_fn(int) -> bool {
    |i: int| binds[i].value > nb_params
}

/// Whether each bind parameter has an index within the number of parameters; the first one
/// that has not is at fault.
pub open spec fn bind_params_within(binds: Seq<ParsedView<i16>>, nb_params: nat) -> Result<
    (),
    ErrorView,
> {
    let k = search::first_where(binds.len(), beyond(binds, nb_params));
    if k < binds.len() {
        Err(
            ErrorView::Validation(
                ValidationErrorView::MoreBindParamsThanParams {
                    nb_params,
                    pos: binds[k as int].pos,
                },
            ),
        )
    } else {
        Ok(())
    }
}

/// Checks that no bind parameter has an index that is greater than the number of parameters.
pub fn more_bind_params_than_params(bind_params: &[Parsed<i16>], nb_params: usize) -> (r: Result<
    (),
    Error,
>)
    ensures
        outcome(r) == bind_params_within(parsed::views(bind_params@), nb_params as nat),
{
    let ghost binds = parsed::views(bind_params@);
    let mut i: usize = 0;
    while i < bind_params.len()
        invariant
            binds == parsed::views(bind_params@),
            i <= bind_params@.len(),
            forall|k: int| 0 <= k < i ==> !#[trigger] beyond(binds, nb_params as nat)(k),
        decreases bind_params@.len() - i,
    {
        let p: &Parsed<i16> = &bind_params[i];
        assert(binds[i as int] == p@);
        if p.value > 0 && p.value as usize > nb_params {
            proof {
                search::lemma_is_first(binds.len(), beyond(binds, nb_params as nat), i as nat);
            }
            return Err(
                Error::Validation(
                    ValidationError::MoreBindParamsThanParams { nb_params, pos: p.pos.clone() },
                ),
            );
        }
        i = i + 1;
    }
    proof {
        search::lemma_is_first(binds.len(), beyond(binds, nb_params as nat), i as nat);
    }
    Ok(())
}

/// Some bind parameter has the index of the parameter at `i`, which is one more than `i`.
pub open spec fn used(binds: Seq<ParsedView<i16>>, i: int) -> bool {
    exists|j: int| 0 <= j < binds.len() && (#[trigger] binds[j]).value == i + 1
}

pub open spec fn unused(binds: Seq<ParsedView<i16>>) -> spec_fn(int) -> bool {
    |i: int| !used(binds, i)
}

/// Whether each parameter is used; the first one that is not is at fault.
pub open spec fn params_used(
    params: Seq<ParsedView<Seq<char>>>,
    binds: Seq<ParsedView<i16>>,
) -> Result<(), ErrorView> {
    let k = search::first_where(params.len(), unused(binds));
    if k < params.len() {
        Err(
            ErrorView::Validation(
                ValidationErrorView::UnusedParam { index: k + 1, pos: params[k as int].pos },
            ),
        )
    } else {
        Ok(())
    }
}

/// Tells whether some bind parameter has the given index.
pub(crate) fn any_index(bind_params: &[Parsed<i16>], index: i16) -> (r: bool)
    ensures
        r == has_value(parsed::views(bind_params@), index),
{
    let ghost binds = parsed::views(bind_params@);
    let mut j: usize = 0;
    while j < bind_params.len()
        invariant
            binds == parsed::views(bind_params@),
            j <= bind_params@.len(),
            forall|k: int| 0 <= k < j ==> (#[trigger] binds[k]).value != index,
        decreases bind_params@.len() - j,
    {
        assert(binds[j as int] == bind_params@[j as int]@);
        if bind_params[j].value == index {
            return true;
        }
        j = j + 1;
    }
    false
}

/// Tells whether some bind parameter has the index of the parameter at `i`.
fn is_used(bind_params: &[Parsed<i16>], i: usize) -> (r: bool)
    ensures
        r == used(parsed::views(bind_params@), i as int),
{
    let ghost binds = parsed::views(bind_params@);
    if i < 32767 {
        let index: i16 = i as i16 + 1;
        let r: bool = any_index(bind_params, index);
        proof {
            if r {
                let j = choose|j: int| 0 <= j < binds.len() && (#[trigger] binds[j]).value == index;
                assert(binds[j].value == i + 1);
            }
        }
        r
    } else {
        false
    }
}

/// Checks that every parameter is used in the query.
pub fn unused_param(params: &[Parsed<String>], bind_params: &[Parsed<i16>]) -> (r: Result<
    (),
    Error,
>)
    ensures
        outcome(r) == params_used(parsed::views(params@), parsed::views(bind_params@)),
{
    let ghost binds = parsed::views(bind_params@);
    let ghost names = parsed::views(params@);
    let mut i: usize = 0;
    while i < params.len()
        invariant
            binds == parsed::views(bind_params@),
            names == parsed::views(params@),
            i <= params@.len(),
            forall|k: int| 0 <= k < i ==> !#[trigger] unused(binds)(k),
        decreases params@.len() - i,
    {
        if !is_used(bind_params, i) {
            proof {
                assert(names[i as int] == params@[i as int]@);
                search::lemma_is_first(names.len(), unused(binds), i as nat);
            }
            return Err(
                Error::Validation(
                    ValidationError::UnusedParam { index: i + 1, pos: params[i].pos.clone() },
                ),
            );
        }
        i = i + 1;
    }
    proof {
        search::lemma_is_first(names.len(), unused(binds), i as nat);
    }
    Ok(())
}

/// Finds the first piece with the given name; the length of the row if there is none.
pub(crate) fn find_name(row: &[Parsed<String>], name: &String) -> (r: usize)
    ensures
        r <= row@.len(),
        r < row@.len() ==> parsed::views(row@)[r as int].value == name@,
        forall|k: int| 0 <= k < r ==> (#[trigger] parsed::views(row@)[k]).value != name@,
{
    let mut i: usize = 0;
    while i < row.len()
        invariant
            i <= row@.len(),
            forall|k: int| 0 <= k < i ==> (#[trigger] parsed::views(row@)[k]).value != name@,
        decreases row@.len() - i,
    {
        assert(parsed::views(row@)[i as int] == row@[i as int]@);
        if row[i].value == *name {
            return i;
        }
        i = i + 1;
    }
    i
}

/// Checks that a parameter, which stands at the token `it`, is not already in the list; gives
/// the line, the column and the text of the line it stands on.
pub fn duplicate_param(
    input: &str,
    it: &Pair,
    params: &[Parsed<String>],
    param: &str,
) -> (r: Result<(usize, usize, String), Error>)
    requires
        text::on_boundary(input@, it.start as int),
    ensures
        r is Err <==> has_value(parsed::views(params@), param@),
        r matches Ok((line, col, line_str)) ==> error::place(input@, it.start as int) == (
        PositionView { line: line as nat, col: col as nat, line_str: line_str@ }),
        r matches Err(e) ==> e@ == ErrorView::Validation(
            ValidationErrorView::DuplicateParam { pos: error::place(input@, it.start as int) },
        ),
{
    let pos: ParsedPosition = error::position_at(input, it.start);
    let name: String = param.to_owned();
    let i: usize = find_name(params, &name);
    if i < params.len() {
        Err(Error::Validation(ValidationError::DuplicateParam { pos }))
    } else {
        Ok((pos.line, pos.col, pos.line_str))
    }
}

/// The index of a bind parameter: a number of 16 bits other than zero.
pub open spec fn index_value(s: Seq<char>) -> Option<i16> {
    match number::i16_value(s) {
        Some(n) => if n == 0 {
            None
        } else {
            Some(n)
        },
        None => None,
    }
}

/// Reads the index of a bind parameter.
pub fn i16_index(it_str: &str, line: usize, col: usize, line_str: &str) -> (r: Result<i16, Error>)
    ensures
        r matches Ok(index) ==> index_value(it_str@) == Some(index),
        r is Err <==> index_value(it_str@) is None,
        r matches Err(e) ==> e@ == ErrorView::Validation(
            ValidationErrorView::InvalidI16Index {
                pos: PositionView { line: line as nat, col: col as nat, line_str: line_str@ },
            },
        ),
{
    // Check that the index can be parsed as a i16 (required by postgres wire protocol)
    match number::parse_i16(it_str) {
        // Check that the index is also non-zero (postgres bind params are 1-indexed)
        Some(index) if index != 0 => Ok(index),
        _ => Err(
            Error::Validation(
                ValidationError::InvalidI16Index {
                    pos: ParsedPosition { line, col, line_str: line_str.to_owned() },
                },
            ),
        ),
    }
}

/// The rule on bind parameters holds exactly when no index is greater than the number of
/// parameters; otherwise the error tells that number and the place of the first such index.
pub proof fn law_more_bind_params(
    bind_params: Seq<Parsed<i16>>,
    nb_params: usize,
    r: Result<(), Error>,
) -> (k: int)
    requires
        outcome(r) == bind_params_within(parsed::views(bind_params), nb_params as nat),
    ensures
        r is Ok <==> forall|i: int|
            0 <= i < bind_params.len() ==> (#[trigger] bind_params[i]).value <= nb_params,
        r matches Err(e) ==> {
            &&& 0 <= k < bind_params.len()
            &&& bind_params[k].value > nb_params
            &&& forall|i: int| 0 <= i < k ==> (#[trigger] bind_params[i]).value <= nb_params
            &&& e matches Error::Validation(
                ValidationError::MoreBindParamsThanParams { nb_params: n, pos },
            ) && n == nb_params && pos@ == bind_params[k].pos@
        },
{
    let binds = parsed::views(bind_params);
    let p = beyond(binds, nb_params as nat);
    search::lemma_first_where(binds.len(), p);
    let k = search::first_where(binds.len(), p) as int;
    assert forall|i: int| 0 <= i < k implies (#[trigger] bind_params[i]).value <= nb_params by {
        assert(!p(i));
        assert(binds[i] == bind_params[i]@);
    }
    if k < binds.len() {
        assert(binds[k] == bind_params[k]@);
    }
    k
}

/// The rule on parameters holds exactly when for each of them, such as the one at `i`, some bind
/// parameter has its number, counted from 1, as its index; otherwise the error tells the number
/// and the place of the first parameter, at `k`, that is not used.
pub proof fn law_unused_param(
    params: Seq<Parsed<String>>,
    bind_params: Seq<Parsed<i16>>,
    r: Result<(), Error>,
    i: int,
) -> (k: int)
    requires
        outcome(r) == params_used(parsed::views(params), parsed::views(bind_params)),
    ensures
        r is Ok && 0 <= i < params.len() ==> exists|j: int|
            0 <= j < bind_params.len() && (#[trigger] bind_params[j]).value == i + 1,
        r matches Err(e) ==> {
            &&& 0 <= k < params.len()
            &&& forall|j: int|
                0 <= j < bind_params.len() ==> (#[trigger] bind_params[j]).value != k + 1
            &&& 0 <= i < k ==> exists|j: int|
                0 <= j < bind_params.len() && (#[trigger] bind_params[j]).value == i + 1
            &&& e matches Error::Validation(ValidationError::UnusedParam { index, pos }) && index
                == k + 1 && pos@ == params[k].pos@
        },
{
    let binds = parsed::views(bind_params);
    let p = unused(binds);
    assert(parsed::views(params).len() == params.len());
    search::lemma_first_where(params.len(), p);
    let k = search::first_where(params.len(), p) as int;
    if 0 <= i < k {
        assert(!p(i));
        assert(used(binds, i));
        let j = choose|j: int| 0 <= j < binds.len() && (#[trigger] binds[j]).value == i + 1;
        assert(bind_params[j].value == i + 1);
    }
    if k < params.len() {
        assert(p(k));
        assert(!used(binds, k));
        assert forall|j: int| 0 <= j < bind_params.len() implies (#[trigger] bind_params[j]).value
            != k + 1 by {
            assert(binds[j].value == bind_params[j].value);
        }
        assert(parsed::views(params)[k] == params[k]@);
    }
    k
}

/// A row has a value exactly when one of its pieces has it.
pub proof fn law_has_value<V>(row: Seq<ParsedView<V>>, value: V)
    ensures
        has_value(row, value) <==> exists|i: int|
            0 <= i < row.len() && (#[trigger] row[i]).value == value,
{
}

/// An index is any number of 16 bits other than zero.
pub proof fn law_index_value(s: Seq<char>, index: i16)
    ensures
        index_value(s) == Some(index) <==> number::i16_value(s) == Some(index) && index != 0,
        index_value(s) is None <==> number::i16_value(s) is None || number::i16_value(s) == Some(
            0i16,
        ),
{
}

/// A result as it stands in specifications is a success with the same value, or the same error.
pub proof fn law_outcome<T>(r: Result<T, Error>)
    ensures
        r matches Ok(v) ==> outcome(r) == Ok::<T, ErrorView>(v),
        r matches Err(e) ==> outcome(r) == Err::<T, ErrorView>(e@),
{
}

} // verus!
