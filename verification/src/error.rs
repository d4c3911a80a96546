//! What can go wrong with a query file, where, and how it is told.

use crate::number;
use crate::text;
use vstd::prelude::*;
use vstd::utf8::*;

verus! {

/// A place in a query file: line and column, both counted from 1, and the line itself.
#[derive(Debug)]
pub struct ParsedPosition {
    pub line: usize,
    pub col: usize,
    pub line_str: String,
}

pub struct PositionView {
    pub line: nat,
    pub col: nat,
    pub line_str: Seq<char>,
}

impl View for ParsedPosition {
    type V = PositionView;

    open spec fn view(&self) -> PositionView {
        PositionView { line: self.line as nat, col: self.col as nat, line_str: self.line_str@ }
    }
}

impl Clone for ParsedPosition {
    fn clone(&self) -> (r: Self)
        ensures
            r == *self,
    {
        ParsedPosition { line: self.line, col: self.col, line_str: self.line_str.clone() }
    }
}

/// The place of byte offset `pos` in `text`.
pub open spec fn place(text: Seq<char>, pos: int) -> PositionView {
    PositionView {
        line: text::line_number(text, pos),
        col: text::column(text, pos),
        line_str: text::line_around(text, pos),
    }
}

/// The place of byte offset `pos` in `input`.
pub fn position_at(input: &str, pos: usize) -> (r: ParsedPosition)
    requires
        text::on_boundary(input@, pos as int),
    ensures
        r@ == place(input@, pos as int),
{
    let (line, col): (usize, usize) = text::line_col(input, pos);
    let line_str: String = text::line_of(input, pos).to_owned();
    ParsedPosition { line, col, line_str }
}

/// A field of a row or of a parameter struct, as far as error messages show it.
#[derive(Debug)]
pub struct PreparedField {
    /// The field, spelled out on as many lines as it takes.
    pub pretty: String,
}

/// A query that breaks a rule.
#[derive(Debug)]
pub enum ValidationError {
    PgParamInExtendedQuery { pos: ParsedPosition },
    ExtendedParamInPgQuery { pos: ParsedPosition },
    InvalidI16Index { pos: ParsedPosition },
    DuplicateParam { pos: ParsedPosition },
    MoreBindParamsThanParams { nb_params: usize, pos: ParsedPosition },
    UnusedParam { index: usize, pos: ParsedPosition },
    ColumnAlreadyNullable { name: String, pos: ParsedPosition },
    InvalidNullableColumnName { name: String, pos: ParsedPosition },
    NamedRowInvalidFields {
        expected: Vec<PreparedField>,
        actual: Vec<PreparedField>,
        name: String,
        pos: ParsedPosition,
    },
    NamedParamStructInvalidFields {
        expected: Vec<PreparedField>,
        actual: Vec<PreparedField>,
        name: String,
        pos: ParsedPosition,
    },
    QueryNameAlreadyUsed { name: String, pos: ParsedPosition },
}

pub enum ValidationErrorView {
    PgParamInExtendedQuery { pos: PositionView },
    ExtendedParamInPgQuery { pos: PositionView },
    InvalidI16Index { pos: PositionView },
    DuplicateParam { pos: PositionView },
    MoreBindParamsThanParams { nb_params: nat, pos: PositionView },
    UnusedParam { index: nat, pos: PositionView },
    ColumnAlreadyNullable { name: Seq<char>, pos: PositionView },
    InvalidNullableColumnName { name: Seq<char>, pos: PositionView },
    NamedRowInvalidFields {
        expected: Seq<Seq<char>>,
        actual: Seq<Seq<char>>,
        name: Seq<char>,
        pos: PositionView,
    },
    NamedParamStructInvalidFields {
        expected: Seq<Seq<char>>,
        actual: Seq<Seq<char>>,
        name: Seq<char>,
        pos: PositionView,
    },
    QueryNameAlreadyUsed { name: Seq<char>, pos: PositionView },
}

/// The fields of a list, each spelled out.
pub open spec fn field_texts(fields: Seq<PreparedField>) -> Seq<Seq<char>> {
    fields.map_values(|f: PreparedField| f.pretty@)
}

impl View for ValidationError {
    type V = ValidationErrorView;

    open spec fn view(&self) -> ValidationErrorView {
        match *self {
            ValidationError::PgParamInExtendedQuery { pos } =>
                ValidationErrorView::PgParamInExtendedQuery { pos: pos@ },
            ValidationError::ExtendedParamInPgQuery { pos } =>
                ValidationErrorView::ExtendedParamInPgQuery { pos: pos@ },
            ValidationError::InvalidI16Index { pos } => ValidationErrorView::InvalidI16Index {
                pos: pos@,
            },
            ValidationError::DuplicateParam { pos } => ValidationErrorView::DuplicateParam {
                pos: pos@,
            },
            ValidationError::MoreBindParamsThanParams { nb_params, pos } =>
                ValidationErrorView::MoreBindParamsThanParams {
                nb_params: nb_params as nat,
                pos: pos@,
            },
            ValidationError::UnusedParam { index, pos } => ValidationErrorView::UnusedParam {
                index: index as nat,
                pos: pos@,
            },
            ValidationError::ColumnAlreadyNullable { name, pos } =>
                ValidationErrorView::ColumnAlreadyNullable { name: name@, pos: pos@ },
            ValidationError::InvalidNullableColumnName { name, pos } =>
                ValidationErrorView::InvalidNullableColumnName { name: name@, pos: pos@ },
            ValidationError::NamedRowInvalidFields { expected, actual, name, pos } =>
                ValidationErrorView::NamedRowInvalidFields {
                expected: field_texts(expected@),
                actual: field_texts(actual@),
                name: name@,
                pos: pos@,
            },
            ValidationError::NamedParamStructInvalidFields { expected, actual, name, pos } =>
                ValidationErrorView::NamedParamStructInvalidFields {
                expected: field_texts(expected@),
                actual: field_texts(actual@),
                name: name@,
                pos: pos@,
            },
            ValidationError::QueryNameAlreadyUsed { name, pos } =>
                ValidationErrorView::QueryNameAlreadyUsed { name: name@, pos: pos@ },
        }
    }
}

/// Why a query file was not read.
#[derive(Debug)]
pub enum Error {
    /// The text does not follow the grammar; holds the parser's own words.
    Parser(String),
    Validation(ValidationError),
}

pub enum ErrorView {
    Parser(Seq<char>),
    Validation(ValidationErrorView),
}

impl View for Error {
    type V = ErrorView;

    open spec fn view(&self) -> ErrorView {
        match *self {
            Error::Parser(message) => ErrorView::Parser(message@),
            Error::Validation(e) => ErrorView::Validation(e@),
        }
    }
}

/// The place that an error points at.
pub open spec fn place_of(e: ValidationErrorView) -> PositionView {
    match e {
        ValidationErrorView::PgParamInExtendedQuery { pos } => pos,
        ValidationErrorView::ExtendedParamInPgQuery { pos } => pos,
        ValidationErrorView::InvalidI16Index { pos } => pos,
        ValidationErrorView::DuplicateParam { pos } => pos,
        ValidationErrorView::MoreBindParamsThanParams { nb_params, pos } => pos,
        ValidationErrorView::UnusedParam { index, pos } => pos,
        ValidationErrorView::ColumnAlreadyNullable { name, pos } => pos,
        ValidationErrorView::InvalidNullableColumnName { name, pos } => pos,
        ValidationErrorView::NamedRowInvalidFields { expected, actual, name, pos } => pos,
        ValidationErrorView::NamedParamStructInvalidFields { expected, actual, name, pos } => pos,
        ValidationErrorView::QueryNameAlreadyUsed { name, pos } => pos,
    }
}

/// White space in the sense of Unicode.
pub open spec fn is_white(c: char) -> bool {
    ||| '\u{9}' <= c <= '\u{d}'
    ||| c == '\u{20}'
    ||| c == '\u{85}'
    ||| c == '\u{a0}'
    ||| c == '\u{1680}'
    ||| '\u{2000}' <= c <= '\u{200a}'
    ||| c == '\u{2028}'
    ||| c == '\u{2029}'
    ||| c == '\u{202f}'
    ||| c == '\u{205f}'
    ||| c == '\u{3000}'
}

/// `s` without the white space at its end.
pub open spec fn trimmed(s: Seq<char>) -> Seq<char>
    decreases s.len(),
{
    if s.len() > 0 && is_white(s.last()) {
        trimmed(s.drop_last())
    } else {
        s
    }
}

/// The texts in a row, with `sep` between any two.
pub open spec fn joined(parts: Seq<Seq<char>>, sep: Seq<char>) -> Seq<char>
    decreases parts.len(),
{
    if parts.len() == 0 {
        seq![]
    } else if parts.len() == 1 {
        parts[0]
    } else {
        joined(parts.drop_last(), sep) + sep + parts.last()
    }
}

/// `n` times the character `c`.
pub open spec fn repeated(c: char, n: nat) -> Seq<char> {
    Seq::new(n, |i: int| c)
}

/// An error message: the place, its line with a cursor under the column, and the messages.
pub open spec fn error_text(pos: PositionView, messages: Seq<Seq<char>>) -> Seq<char> {
    " --> "@ + number::decimal(pos.line) + ":"@ + number::decimal(pos.col) + "\n  | \n  | "@
        + trimmed(pos.line_str) + "\n  | "@ + repeated(' ', (pos.col - 1) as nat) + "^---"@
        + "\n  | \n  = "@ + joined(messages, "\n  = "@)
}

/// `s` with four spaces in front of each of its lines; the first character is at the start of
/// a line exactly when `fresh`.
pub open spec fn indented(s: Seq<char>, fresh: bool) -> Seq<char>
    decreases s.len(),
{
    if s.len() == 0 {
        seq![]
    } else {
        (if fresh {
            repeated(' ', 4)
        } else {
            seq![]
        }) + seq![s[0]] + indented(s.drop_first(), s[0] == '\n')
    }
}

/// The entries of a list, each indented and followed by a comma on its last line.
pub open spec fn list_entries(entries: Seq<Seq<char>>) -> Seq<char>
    decreases entries.len(),
{
    if entries.len() == 0 {
        seq![]
    } else {
        list_entries(entries.drop_last()) + indented(entries.last() + ",\n"@, true)
    }
}

/// A list, spelled out over several lines unless it is empty.
pub open spec fn list_text(entries: Seq<Seq<char>>) -> Seq<char> {
    if entries.len() == 0 {
        "[]"@
    } else {
        "[\n"@ + list_entries(entries) + "]"@
    }
}

/// The messages of a broken rule.
pub open spec fn messages_of(e: ValidationErrorView) -> Seq<Seq<char>> {
    match e {
        ValidationErrorView::PgParamInExtendedQuery { pos } => seq![
            "Indexed bind parameters (`$index`) are not allowed when using the extended syntax."@,
            "Consider using a named bind parameter like `:identifier`, or use the PostgreSQL-compatible syntax."@,
        ],
        ValidationErrorView::ExtendedParamInPgQuery { pos } => seq![
            "Named bind parameters like `:identifier` are not allowed when using the PostgreSQL-compatible syntax."@,
            "Consider using an indexed bind parameter like `$index`, or use the extended syntax."@,
        ],
        ValidationErrorView::InvalidI16Index { pos } => seq![
            "Index must be between 1 and 32767."@,
        ],
        ValidationErrorView::DuplicateParam { pos } => seq![
            "Parameter is already used in parameter list."@,
        ],
        ValidationErrorView::MoreBindParamsThanParams { nb_params, pos } => seq![
            "Index is higher than the number of parameters supplied ("@ + number::decimal(nb_params)
                + ")."@,
        ],
        ValidationErrorView::UnusedParam { index, pos } => seq![
            "Parameter `$"@ + number::decimal(index) + "` is never used in the query."@,
        ],
        ValidationErrorView::ColumnAlreadyNullable { name, pos } => seq![
            "Column `"@ + name + "` is already marked as nullable."@,
        ],
        ValidationErrorView::InvalidNullableColumnName { name, pos } => seq![
            "No column named `"@ + name + "` found for this query."@,
        ],
        ValidationErrorView::NamedRowInvalidFields { expected, actual, name, pos } => seq![
            "This query's named row struct `"@ + name
                + "` has already been used, but the fields don't match."@,
            "Expected fields: "@ + list_text(expected),
            "Got fields: "@ + list_text(actual),
        ],
        ValidationErrorView::NamedParamStructInvalidFields { expected, actual, name, pos } => seq![
            "This query's named param struct `"@ + name
                + "` has already been used, but the fields don't match."@,
            "Expected fields: "@ + list_text(expected),
            "Got fields: "@ + list_text(actual),
        ],
        ValidationErrorView::QueryNameAlreadyUsed { name, pos } => seq![
            "A query named `"@ + name + "` already exists."@,
        ],
    }
}

/// The error message of a broken rule.
pub open spec fn validation_text(e: ValidationErrorView) -> Seq<char> {
    error_text(place_of(e), messages_of(e))
}

/// Trimming takes white space off the end of a text, all of it, and nothing else.
pub proof fn law_trimmed(s: Seq<char>)
    ensures
        trimmed(s).len() <= s.len(),
        trimmed(s) == s.take(trimmed(s).len() as int),
        forall|i: int| trimmed(s).len() <= i < s.len() ==> is_white(#[trigger] s[i]),
        trimmed(s).len() > 0 ==> !is_white(trimmed(s).last()),
    decreases s.len(),
{
    if s.len() > 0 && is_white(s.last()) {
        let front = s.drop_last();
        law_trimmed(front);
        assert(trimmed(s) =~= s.take(trimmed(s).len() as int));
        assert forall|i: int| trimmed(s).len() <= i < s.len() implies is_white(#[trigger] s[i]) by {
            if i < front.len() {
                assert(is_white(front[i]));
            }
        }
    } else {
        assert(trimmed(s) =~= s.take(s.len() as int));
    }
}

fn white(c: char) -> (r: bool)
    ensures
        r == is_white(c),
{
    ('\u{9}' <= c && c <= '\u{d}') || c == '\u{20}' || c == '\u{85}' || c == '\u{a0}' || c
        == '\u{1680}' || ('\u{2000}' <= c && c <= '\u{200a}') || c == '\u{2028}' || c == '\u{2029}'
        || c == '\u{202f}' || c == '\u{205f}' || c == '\u{3000}'
}

fn trim_end(s: &str) -> (r: &str)
    ensures
        r@ == trimmed(s@),
{
    let mut end: usize = s.unicode_len();
    assert(s@.take(end as int) =~= s@);
    while end > 0 && white(s.get_char(end - 1))
        invariant
            end <= s@.len(),
            trimmed(s@) == trimmed(s@.take(end as int)),
        decreases end,
    {
        assert(s@.take(end as int).drop_last() =~= s@.take(end - 1));
        end = end - 1;
    }
    let r: &str = s.substring_char(0, end);
    assert(r@ =~= s@.take(end as int));
    r
}

fn spaces(n: usize) -> (r: String)
    ensures
        r@ == repeated(' ', n as nat),
{
    let mut r: String = String::new();
    let mut i: usize = 0;
    while i < n
        invariant
            i <= n,
            r@ =~= repeated(' ', i as nat),
        decreases n - i,
    {
        proof {
            reveal_strlit(" ");
        }
        r.append(" ");
        i = i + 1;
    }
    r
}

pub open spec fn str_views(parts: Seq<&str>) -> Seq<Seq<char>> {
    parts.map_values(|m: &str| m@)
}

fn join(parts: &[&str], sep: &str) -> (r: String)
    ensures
        r@ == joined(str_views(parts@), sep@),
{
    let mut r: String = String::new();
    let mut i: usize = 0;
    let ghost views = str_views(parts@);
    assert(views.take(0).len() == 0);
    while i < parts.len()
        invariant
            views == str_views(parts@),
            i <= parts@.len(),
            r@ == joined(views.take(i as int), sep@),
        decreases parts@.len() - i,
    {
        proof {
            assert(views.take(i + 1).drop_last() =~= views.take(i as int));
        }
        if i > 0 {
            r.append(sep);
        }
        r.append(parts[i]);
        proof {
            if i == 0 {
                assert(r@ =~= views.take(1)[0]);
            } else {
                assert(r@ =~= joined(views.take(i as int), sep@) + sep@ + views.take(
                    i + 1,
                ).last());
            }
        }
        i = i + 1;
    }
    assert(views.take(i as int) =~= views);
    r
}

/// Lays out an error message at a place.
pub fn format_err(pos: &ParsedPosition, messages: &[&str]) -> (r: String)
    requires
        pos.col >= 1,
    ensures
        r@ == error_text(pos@, str_views(messages@)),
{
    let msg: String = join(messages, "\n  = ");
    let line_str: &str = trim_end(pos.line_str.as_str());
    let cursor: String = spaces(pos.col - 1);
    let line: String = number::decimal_string(pos.line);
    let col: String = number::decimal_string(pos.col);
    let mut r: String = " --> ".to_owned();
    r.append(line.as_str());
    r.append(":");
    r.append(col.as_str());
    r.append("\n  | \n  | ");
    r.append(line_str);
    r.append("\n  | ");
    r.append(cursor.as_str());
    r.append("^---");
    r.append("\n  | \n  = ");
    r.append(msg.as_str());
    r
}

/// Appends `s` with four spaces in front of each of its lines.
fn append_indented(r: &mut String, s: &str)
    ensures
        final(r)@ == old(r)@ + indented(s@, true),
{
    let len: usize = s.unicode_len();
    let mut fresh: bool = true;
    let mut i: usize = 0;
    assert(s@.skip(0) =~= s@);
    while i < len
        invariant
            len == s@.len(),
            i <= len,
            r@ + indented(s@.skip(i as int), fresh) == old(r)@ + indented(s@, true),
        decreases len - i,
    {
        let ghost before = r@;
        let ghost rest = s@.skip(i as int);
        let pad: String = spaces(
            if fresh {
                4
            } else {
                0
            },
        );
        let c: char = s.get_char(i);
        r.append(pad.as_str());
        r.append(s.substring_char(i, i + 1));
        proof {
            assert(rest[0] == c);
            assert(rest.drop_first() =~= s@.skip(i + 1));
            assert(s@.subrange(i as int, i + 1) =~= seq![c]);
            assert(pad@ =~= if fresh {
                repeated(' ', 4)
            } else {
                seq![]
            });
            assert(r@ + indented(s@.skip(i + 1), c == '\n') =~= before + indented(rest, fresh));
        }
        fresh = c == '\n';
        i = i + 1;
    }
    assert(s@.skip(len as int) =~= seq![]);
    assert(r@ + indented(s@.skip(len as int), fresh) =~= r@);
}

/// Spells out a list of fields.
fn list_string(fields: &Vec<PreparedField>) -> (r: String)
    ensures
        r@ == list_text(field_texts(fields@)),
{
    if fields.len() == 0 {
        return "[]".to_owned();
    }
    let ghost texts = field_texts(fields@);
    let mut r: String = "[\n".to_owned();
    let mut i: usize = 0;
    assert(r@ + list_entries(texts.take(0)) =~= r@);
    while i < fields.len()
        invariant
            texts == field_texts(fields@),
            i <= fields@.len(),
            r@ == "[\n"@ + list_entries(texts.take(i as int)),
        decreases fields@.len() - i,
    {
        let mut entry: String = fields[i].pretty.clone();
        entry.append(",\n");
        append_indented(&mut r, entry.as_str());
        proof {
            assert(texts.take(i + 1).drop_last() =~= texts.take(i as int));
            assert(r@ =~= "[\n"@ + list_entries(texts.take(i + 1)));
        }
        i = i + 1;
    }
    assert(texts.take(i as int) =~= texts);
    r.append("]");
    r
}

/// `a`, `b` and `c` in a row.
fn concat3(a: &str, b: &str, c: &str) -> (r: String)
    ensures
        r@ == a@ + b@ + c@,
{
    let mut r: String = a.to_owned();
    r.append(b);
    r.append(c);
    r
}

/// Lays out an error message that consists of one text.
fn format_one(pos: &ParsedPosition, message: &str) -> (r: String)
    requires
        pos.col >= 1,
    ensures
        r@ == error_text(pos@, seq![message@]),
{
    let messages: [&str; 1] = [message];
    assert(str_views(messages@) =~= seq![message@]);
    format_err(pos, messages.as_slice())
}

/// Lays out an error message on fields that do not match.
fn format_fields(
    pos: &ParsedPosition,
    message: &str,
    expected: &Vec<PreparedField>,
    actual: &Vec<PreparedField>,
) -> (r: String)
    requires
        pos.col >= 1,
    ensures
        r@ == error_text(
            pos@,
            seq![
                message@,
                "Expected fields: "@ + list_text(field_texts(expected@)),
                "Got fields: "@ + list_text(field_texts(actual@)),
            ],
        ),
{
    let mut wanted: String = "Expected fields: ".to_owned();
    wanted.append(list_string(expected).as_str());
    let mut got: String = "Got fields: ".to_owned();
    got.append(list_string(actual).as_str());
    let messages: [&str; 3] = [message, wanted.as_str(), got.as_str()];
    assert(str_views(messages@) =~= seq![message@, wanted@, got@]);
    format_err(pos, messages.as_slice())
}

impl ValidationError {
    /// The error message of a broken rule.
    pub fn to_string(&self) -> (r: String)
        requires
            place_of(self@).col >= 1,
        ensures
            r@ == validation_text(self@),
    {
        match self {
            ValidationError::PgParamInExtendedQuery { pos } => {
                let messages: [&str; 2] = [
                    "Indexed bind parameters (`$index`) are not allowed when using the extended syntax.",
                    "Consider using a named bind parameter like `:identifier`, or use the PostgreSQL-compatible syntax.",
                ];
                assert(str_views(messages@) =~= messages_of(self@));
                format_err(pos, messages.as_slice())
            },
            ValidationError::ExtendedParamInPgQuery { pos } => {
                let messages: [&str; 2] = [
                    "Named bind parameters like `:identifier` are not allowed when using the PostgreSQL-compatible syntax.",
                    "Consider using an indexed bind parameter like `$index`, or use the extended syntax.",
                ];
                assert(str_views(messages@) =~= messages_of(self@));
                format_err(pos, messages.as_slice())
            },
            ValidationError::InvalidI16Index { pos } => {
                format_one(pos, "Index must be between 1 and 32767.")
            },
            ValidationError::DuplicateParam { pos } => {
                format_one(pos, "Parameter is already used in parameter list.")
            },
            ValidationError::MoreBindParamsThanParams { nb_params, pos } => {
                let count: String = number::decimal_string(*nb_params);
                let message: String = concat3(
                    "Index is higher than the number of parameters supplied (",
                    count.as_str(),
                    ").",
                );
                format_one(pos, message.as_str())
            },
            ValidationError::UnusedParam { index, pos } => {
                let index: String = number::decimal_string(*index);
                let message: String = concat3(
                    "Parameter `$",
                    index.as_str(),
                    "` is never used in the query.",
                );
                format_one(pos, message.as_str())
            },
            ValidationError::ColumnAlreadyNullable { name, pos } => {
                let message: String = concat3(
                    "Column `",
                    name.as_str(),
                    "` is already marked as nullable.",
                );
                format_one(pos, message.as_str())
            },
            ValidationError::InvalidNullableColumnName { name, pos } => {
                let message: String = concat3(
                    "No column named `",
                    name.as_str(),
                    "` found for this query.",
                );
                format_one(pos, message.as_str())
            },
            ValidationError::NamedRowInvalidFields { expected, actual, name, pos } => {
                let message: String = concat3(
                    "This query's named row struct `",
                    name.as_str(),
                    "` has already been used, but the fields don't match.",
                );
                format_fields(pos, message.as_str(), expected, actual)
            },
            ValidationError::NamedParamStructInvalidFields { expected, actual, name, pos } => {
                let message: String = concat3(
                    "This query's named param struct `",
                    name.as_str(),
                    "` has already been used, but the fields don't match.",
                );
                format_fields(pos, message.as_str(), expected, actual)
            },
            ValidationError::QueryNameAlreadyUsed { name, pos } => {
                let message: String = concat3("A query named `", name.as_str(), "` already exists.");
                format_one(pos, message.as_str())
            },
        }
    }
}

/// The message of an error.
pub open spec fn message_text(e: ErrorView) -> Seq<char> {
    match e {
        ErrorView::Parser(message) => message,
        ErrorView::Validation(e) => validation_text(e),
    }
}

impl Error {
    /// The message of the error.
    pub fn to_string(&self) -> (r: String)
        requires
            self@ matches ErrorView::Validation(e) ==> place_of(e).col >= 1,
        ensures
            r@ == message_text(self@),
    {
        match self {
            Error::Parser(message) => message.clone(),
            Error::Validation(e) => e.to_string(),
        }
    }
}

/// The place behind the first `at` characters of a text: its line is one more than the line
/// feeds among them, its column is one more than the characters behind the last of those, and
/// the line itself begins there and runs up to `end`, through the next line feed or to the end
/// of the text.
pub proof fn law_place(text: Seq<char>, at: int) -> (end: int)
    requires
        0 <= at <= text.len(),
    ensures
        ({
            let p = place(text, encode_utf8(text.take(at)).len() as int);
            let col = p.col as int;
            &&& p.line == 1 + text.take(at).to_multiset().count('\n')
            &&& 1 <= col <= at + 1
            &&& forall|i: int| at + 1 - col <= i < at ==> #[trigger] text[i] != '\n'
            &&& col <= at ==> text[at - col] == '\n'
            &&& at <= end <= text.len()
            &&& forall|i: int| at <= i < end - 1 ==> #[trigger] text[i] != '\n'
            &&& end < text.len() ==> at < end && text[end - 1] == '\n'
            &&& p.line_str == text.subrange(at + 1 - col, end)
        }),
{
    text::law_lines(text, at)
}

/// White space is what Unicode takes for it.
pub proof fn law_white(c: char)
    ensures
        is_white(c) <==> {
            let n = c as int;
            ||| 9 <= n <= 13
            ||| 0x2000 <= n <= 0x200a
            ||| seq![0x20int, 0x85, 0xa0, 0x1680, 0x2028, 0x2029, 0x202f, 0x205f, 0x3000].contains(n)
        },
{
    let others = seq![0x20int, 0x85, 0xa0, 0x1680, 0x2028, 0x2029, 0x202f, 0x205f, 0x3000];
    assert(others[0] == 0x20 && others[1] == 0x85 && others[2] == 0xa0 && others[3] == 0x1680
        && others[4] == 0x2028 && others[5] == 0x2029 && others[6] == 0x202f && others[7] == 0x205f
        && others[8] == 0x3000);
}

/// A text joined with others is itself where it is alone; two rows, one behind the other, are
/// joined by the separator between what each of them gives.
pub proof fn law_joined(a: Seq<Seq<char>>, b: Seq<Seq<char>>, sep: Seq<char>)
    ensures
        joined(seq![], sep).len() == 0,
        a.len() == 1 ==> joined(a, sep) == a[0],
        a.len() > 0 && b.len() > 0 ==> joined(a + b, sep) == joined(a, sep) + sep + joined(b, sep),
    decreases b.len(),
{
    if a.len() > 0 && b.len() > 0 {
        assert((a + b).drop_last() =~= a + b.drop_last());
        if b.len() == 1 {
            assert(a + b.drop_last() =~= a);
        } else {
            law_joined(a, b.drop_last(), sep);
            assert(joined(a + b, sep) =~= joined(a, sep) + sep + joined(b, sep));
        }
    }
}

/// A character repeated `n` times takes up `n` places, and nothing else stands there.
pub proof fn law_repeated(c: char, n: nat)
    ensures
        repeated(c, n).len() == n,
        forall|i: int| 0 <= i < n ==> #[trigger] repeated(c, n)[i] == c,
{
}

proof fn lemma_indented_line(line: Seq<char>, rest: Seq<char>)
    requires
        forall|i: int| 0 <= i < line.len() ==> #[trigger] line[i] != '\n',
    ensures
        indented(line + seq!['\n'] + rest, false) == line + seq!['\n'] + indented(rest, true),
        indented(line, false) == line,
    decreases line.len(),
{
    let s = line + seq!['\n'] + rest;
    if line.len() == 0 {
        assert(s.drop_first() =~= rest);
        assert(indented(s, false) =~= line + seq!['\n'] + indented(rest, true));
        assert(indented(line, false) =~= line);
    } else {
        let less = line.drop_first();
        lemma_indented_line(less, rest);
        assert(s[0] == line[0]);
        assert(s.drop_first() =~= less + seq!['\n'] + rest);
        assert(seq![line[0]] + less =~= line);
        assert(indented(s, false) =~= line + seq!['\n'] + indented(rest, true));
        assert(indented(line, false) =~= line);
    }
}

/// Indenting puts four spaces in front of the first line of a text, keeps that line with its
/// line feed, and goes on with what follows; a last line without a line feed is indented unless
/// it is empty.
pub proof fn law_indented(line: Seq<char>, rest: Seq<char>)
    requires
        forall|i: int| 0 <= i < line.len() ==> #[trigger] line[i] != '\n',
    ensures
        indented(line + seq!['\n'] + rest, true) == seq![' ', ' ', ' ', ' '] + line + seq!['\n']
            + indented(rest, true),
        indented(line, true) == if line.len() == 0 {
            line
        } else {
            seq![' ', ' ', ' ', ' '] + line
        },
{
    let s = line + seq!['\n'] + rest;
    lemma_indented_line(line, rest);
    assert(repeated(' ', 4) =~= seq![' ', ' ', ' ', ' ']);
    assert(s.len() > 0);
    assert(indented(s, true) =~= repeated(' ', 4) + indented(s, false));
    assert(indented(s, true) =~= seq![' ', ' ', ' ', ' '] + line + seq!['\n'] + indented(
        rest,
        true,
    ));
    if line.len() > 0 {
        assert(indented(line, true) =~= repeated(' ', 4) + indented(line, false));
    } else {
        assert(indented(line, true) =~= line);
    }
}

/// A list is spelled out entry by entry, each indented with a comma behind it, between brackets;
/// an empty list is a pair of brackets.
pub proof fn law_list_text(a: Seq<Seq<char>>, b: Seq<Seq<char>>, entry: Seq<char>)
    ensures
        list_entries(seq![entry]) == indented(entry + seq![',', '\n'], true),
        list_entries(a + b) == list_entries(a) + list_entries(b),
        list_text(seq![]) == seq!['[', ']'],
        a.len() > 0 ==> list_text(a) == seq!['[', '\n'] + list_entries(a) + seq![']'],
    decreases b.len(),
{
    reveal_strlit("[]");
    reveal_strlit("[\n");
    reveal_strlit("]");
    reveal_strlit(",\n");
    reveal_with_fuel(list_entries, 2);
    assert("[]"@ =~= seq!['[', ']']);
    assert("[\n"@ =~= seq!['[', '\n']);
    assert("]"@ =~= seq![']']);
    assert(",\n"@ =~= seq![',', '\n']);
    assert(seq![entry].drop_last() =~= seq![]);
    assert(list_entries(seq![entry]) =~= indented(entry + seq![',', '\n'], true));
    if b.len() == 0 {
        assert(a + b =~= a);
        assert(list_entries(a + b) =~= list_entries(a) + list_entries(b));
    } else {
        law_list_text(a, b.drop_last(), entry);
        assert((a + b).drop_last() =~= a + b.drop_last());
        assert(list_entries(a + b) =~= list_entries(a) + list_entries(b));
    }
}

/// An error message tells line and column, shows the line without the white space at its end,
/// puts the cursor under the column, and ends with the messages, each on a line of its own.
pub proof fn law_error_text(pos: PositionView, messages: Seq<Seq<char>>)
    ensures
        error_text(pos, messages) == " --> "@ + number::decimal(pos.line) + ":"@ + number::decimal(
            pos.col,
        ) + "\n  | \n  | "@ + trimmed(pos.line_str) + "\n  | "@ + Seq::new(
            (pos.col - 1) as nat,
            |i: int| ' ',
        ) + "^---"@ + "\n  | \n  = "@ + joined(messages, "\n  = "@),
{
    assert(repeated(' ', (pos.col - 1) as nat) =~= Seq::new((pos.col - 1) as nat, |i: int| ' '));
}

/// What an error says, kind by kind: the texts below, with the numbers and names that it holds;
/// and it points at the place that it holds.
pub proof fn law_messages(e: ValidationError)
    ensures
        validation_text(e@) == error_text(place_of(e@), messages_of(e@)),
        e matches ValidationError::PgParamInExtendedQuery { pos } ==> place_of(e@) == pos@
            && messages_of(e@) == seq![
            "Indexed bind parameters (`$index`) are not allowed when using the extended syntax."@,
            "Consider using a named bind parameter like `:identifier`, or use the PostgreSQL-compatible syntax."@,
        ],
        e matches ValidationError::ExtendedParamInPgQuery { pos } ==> place_of(e@) == pos@
            && messages_of(e@) == seq![
            "Named bind parameters like `:identifier` are not allowed when using the PostgreSQL-compatible syntax."@,
            "Consider using an indexed bind parameter like `$index`, or use the extended syntax."@,
        ],
        e matches ValidationError::InvalidI16Index { pos } ==> place_of(e@) == pos@ && messages_of(
            e@,
        ) == seq!["Index must be between 1 and 32767."@],
        e matches ValidationError::DuplicateParam { pos } ==> place_of(e@) == pos@ && messages_of(
            e@,
        ) == seq!["Parameter is already used in parameter list."@],
        e matches ValidationError::MoreBindParamsThanParams { nb_params, pos } ==> place_of(e@)
            == pos@ && messages_of(e@) == seq![
            "Index is higher than the number of parameters supplied ("@ + number::decimal(
                nb_params as nat,
            ) + ")."@,
        ],
        e matches ValidationError::UnusedParam { index, pos } ==> place_of(e@) == pos@
            && messages_of(e@) == seq![
            "Parameter `$"@ + number::decimal(index as nat) + "` is never used in the query."@,
        ],
        e matches ValidationError::ColumnAlreadyNullable { name, pos } ==> place_of(e@) == pos@
            && messages_of(e@) == seq!["Column `"@ + name@ + "` is already marked as nullable."@],
        e matches ValidationError::InvalidNullableColumnName { name, pos } ==> place_of(e@) == pos@
            && messages_of(e@) == seq!["No column named `"@ + name@ + "` found for this query."@],
        e matches ValidationError::NamedRowInvalidFields { expected, actual, name, pos }
            ==> place_of(e@) == pos@ && messages_of(e@) == seq![
            "This query's named row struct `"@ + name@
                + "` has already been used, but the fields don't match."@,
            "Expected fields: "@ + list_text(field_texts(expected@)),
            "Got fields: "@ + list_text(field_texts(actual@)),
        ],
        e matches ValidationError::NamedParamStructInvalidFields { expected, actual, name, pos }
            ==> place_of(e@) == pos@ && messages_of(e@) == seq![
            "This query's named param struct `"@ + name@
                + "` has already been used, but the fields don't match."@,
            "Expected fields: "@ + list_text(field_texts(expected@)),
            "Got fields: "@ + list_text(field_texts(actual@)),
        ],
        e matches ValidationError::QueryNameAlreadyUsed { name, pos } ==> place_of(e@) == pos@
            && messages_of(e@) == seq!["A query named `"@ + name@ + "` already exists."@],
{
}

/// An error of the parser is told in the parser's own words, one on a rule as that rule tells it.
pub proof fn law_message_text(e: Error)
    ensures
        e matches Error::Parser(message) ==> message_text(e@) == message@,
        e matches Error::Validation(v) ==> message_text(e@) == validation_text(v@),
{
}

/// Rows of texts as they stand in specifications have the same texts, in order.
pub proof fn law_texts(fields: Seq<PreparedField>, parts: Seq<&str>)
    ensures
        field_texts(fields).len() == fields.len(),
        forall|i: int|
            0 <= i < fields.len() ==> #[trigger] field_texts(fields)[i] == fields[i].pretty@,
        str_views(parts).len() == parts.len(),
        forall|i: int| 0 <= i < parts.len() ==> #[trigger] str_views(parts)[i] == parts[i]@,
{
}

} // verus!
