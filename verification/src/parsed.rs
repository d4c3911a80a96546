//! What is read from a query file, each piece with its place.

use crate::error::{ParsedPosition, PositionView};
use vstd::prelude::*;

verus! {

/// This data structure holds a value and the context in which it was parsed.
/// This context is used for error reporting.
#[derive(Debug, Clone)]
pub struct Parsed<T> {
    pub pos: ParsedPosition,
    pub value: T,
}

pub struct ParsedView<V> {
    pub pos: PositionView,
    pub value: V,
}

impl<T: View> View for Parsed<T> {
    type V = ParsedView<T::V>;

    open spec fn view(&self) -> ParsedView<T::V> {
        ParsedView { pos: self.pos@, value: self.value@ }
    }
}

impl<T> Parsed<T> {
    /// Applies `f` to the value and keeps the place.
    pub fn map<U, F: Fn(&T) -> U>(&self, f: F) -> (r: Parsed<U>)
        requires
            f.requires((&self.value,)),
        ensures
            r.pos == self.pos,
            f.ensures((&self.value,), r.value),
    {
        Parsed { pos: self.pos.clone(), value: f(&self.value) }
    }
}

/// The pieces of a row as they stand in specifications.
pub open spec fn views<T: View>(row: Seq<Parsed<T>>) -> Seq<ParsedView<T::V>> {
    row.map_values(|p: Parsed<T>| p@)
}

/// An optional piece as it stands in specifications.
pub open spec fn option_view<T: View>(p: Option<Parsed<T>>) -> Option<ParsedView<T::V>> {
    match p {
        Some(p) => Some(p@),
        None => None,
    }
}

/// Holds all the data known about a query after parsing it.
/// The query is not yet fully known though, as it has not yet been prepared.
#[derive(Debug, Clone)]
pub struct ParsedQuery {
    pub line: usize,
    pub name: Parsed<String>,
    pub named_param_struct: Option<Parsed<String>>,
    pub params: Vec<Parsed<String>>,
    pub named_return_struct: Option<Parsed<String>>,
    pub nullable_columns: Vec<Parsed<String>>,
    pub sql_str: String,
}

pub struct ParsedQueryView {
    pub line: nat,
    pub name: ParsedView<Seq<char>>,
    pub named_param_struct: Option<ParsedView<Seq<char>>>,
    pub params: Seq<ParsedView<Seq<char>>>,
    pub named_return_struct: Option<ParsedView<Seq<char>>>,
    pub nullable_columns: Seq<ParsedView<Seq<char>>>,
    pub sql_str: Seq<char>,
}

impl View for ParsedQuery {
    type V = ParsedQueryView;

    open spec fn view(&self) -> ParsedQueryView {
        ParsedQueryView {
            line: self.line as nat,
            name: self.name@,
            named_param_struct: option_view(self.named_param_struct),
            params: views(self.params@),
            named_return_struct: option_view(self.named_return_struct),
            nullable_columns: views(self.nullable_columns@),
            sql_str: self.sql_str@,
        }
    }
}

/// A place as it stands in specifications has the same line, column and text.
pub proof fn law_position_view(p: ParsedPosition)
    ensures
        p@.line == p.line,
        p@.col == p.col,
        p@.line_str == p.line_str@,
{
}

/// A row of pieces as it stands in specifications has the same pieces, each with the same place
/// and the same value.
pub proof fn law_views<T: View>(row: Seq<Parsed<T>>)
    ensures
        views(row).len() == row.len(),
        forall|i: int| #![trigger views(row)[i]] #![trigger row[i]]
            0 <= i < row.len() ==> views(row)[i].value == row[i].value@ && views(row)[i].pos
                == row[i].pos@,
{
}

/// A query as it stands in specifications has the same line, names, columns and SQL.
pub proof fn law_query_view(q: ParsedQuery)
    ensures
        q@.line == q.line,
        q@.name.value == q.name.value@,
        q@.name.pos == q.name.pos@,
        q@.named_param_struct is Some <==> q.named_param_struct is Some,
        q.named_param_struct matches Some(p) ==> q@.named_param_struct == Some(
            ParsedView { pos: p.pos@, value: p.value@ },
        ),
        q@.named_return_struct is Some <==> q.named_return_struct is Some,
        q.named_return_struct matches Some(p) ==> q@.named_return_struct == Some(
            ParsedView { pos: p.pos@, value: p.value@ },
        ),
        q@.params.len() == q.params@.len(),
        forall|i: int| #![trigger q.params@[i]]
            0 <= i < q.params@.len() ==> q@.params[i].value == q.params@[i].value@
                && q@.params[i].pos == q.params@[i].pos@,
        q@.nullable_columns.len() == q.nullable_columns@.len(),
        forall|i: int| #![trigger q.nullable_columns@[i]]
            0 <= i < q.nullable_columns@.len() ==> q@.nullable_columns[i].value
                == q.nullable_columns@[i].value@ && q@.nullable_columns[i].pos
                == q.nullable_columns@[i].pos@,
        q@.sql_str == q.sql_str@,
{
}

} // verus!
