use cornucopia::error::{format_err, Error, ParsedPosition, PreparedField, ValidationError};

fn place() -> ParsedPosition {
    ParsedPosition { line: 12, col: 4, line_str: "SELECT $1; \t\r\n".to_string() }
}

const HEAD: &str = " --> 12:4\n  | \n  | SELECT $1;\n  |    ^---\n  | \n  = ";

fn check(e: ValidationError, messages: &str) {
    let text = format!("{}{}", HEAD, messages);
    assert_eq!(e.to_string(), text);
    assert_eq!(Error::Validation(e).to_string(), text);
}

#[test]
fn layout_of_a_message() {
    let pos = ParsedPosition { line: 1, col: 1, line_str: "  x\u{3000}\u{85}\n".to_string() };
    assert_eq!(
        format_err(&pos, &["one", "two", "three"]),
        " --> 1:1\n  | \n  |   x\n  | ^---\n  | \n  = one\n  = two\n  = three"
    );
    assert_eq!(format_err(&pos, &[]), " --> 1:1\n  | \n  |   x\n  | ^---\n  | \n  = ");
}

#[test]
fn white_space_at_the_end_of_the_line() {
    for c in (0..0x3100u32).filter_map(char::from_u32) {
        let line = format!("x{}", c);
        let pos = ParsedPosition { line: 1, col: 1, line_str: line.clone() };
        assert_eq!(
            format_err(&pos, &["m"]),
            format!(" --> 1:1\n  | \n  | {}\n  | ^---\n  | \n  = m", line.trim_end())
        );
    }
}

#[test]
fn indexed_bind_in_extended_syntax() {
    check(
        ValidationError::PgParamInExtendedQuery { pos: place() },
        "Indexed bind parameters (`$index`) are not allowed when using the extended syntax.\n  = Consider using a named bind parameter like `:identifier`, or use the PostgreSQL-compatible syntax.",
    );
}

#[test]
fn named_bind_in_compatible_syntax() {
    check(
        ValidationError::ExtendedParamInPgQuery { pos: place() },
        "Named bind parameters like `:identifier` are not allowed when using the PostgreSQL-compatible syntax.\n  = Consider using an indexed bind parameter like `$index`, or use the extended syntax.",
    );
}

#[test]
fn messages_on_parameters() {
    check(
        ValidationError::InvalidI16Index { pos: place() },
        "Index must be between 1 and 32767.",
    );
    check(
        ValidationError::DuplicateParam { pos: place() },
        "Parameter is already used in parameter list.",
    );
    check(
        ValidationError::MoreBindParamsThanParams { nb_params: 10, pos: place() },
        "Index is higher than the number of parameters supplied (10).",
    );
    check(
        ValidationError::UnusedParam { index: 3, pos: place() },
        "Parameter `$3` is never used in the query.",
    );
}

#[test]
fn messages_on_names() {
    check(
        ValidationError::ColumnAlreadyNullable { name: "age".to_string(), pos: place() },
        "Column `age` is already marked as nullable.",
    );
    check(
        ValidationError::InvalidNullableColumnName { name: "age".to_string(), pos: place() },
        "No column named `age` found for this query.",
    );
    check(
        ValidationError::QueryNameAlreadyUsed { name: "find".to_string(), pos: place() },
        "A query named `find` already exists.",
    );
}

#[derive(Debug)]
struct Field {
    name: String,
    inner: Vec<u8>,
}

fn fields() -> Vec<Field> {
    vec![
        Field { name: "id".to_string(), inner: vec![] },
        Field { name: "two\nlines".to_string(), inner: vec![1, 2] },
    ]
}

fn prepared(fields: &[Field]) -> Vec<PreparedField> {
    fields.iter().map(|f| PreparedField { pretty: format!("{:#?}", f) }).collect()
}

#[test]
fn messages_on_fields() {
    let some = fields();
    let none: Vec<Field> = vec![];
    assert_eq!(some[0].name, "id");
    assert_eq!(some[1].inner, [1, 2]);
    check(
        ValidationError::NamedRowInvalidFields {
            expected: prepared(&some),
            actual: prepared(&none),
            name: "Row".to_string(),
            pos: place(),
        },
        &format!(
            "This query's named row struct `Row` has already been used, but the fields don't match.\n  = Expected fields: {:#?}\n  = Got fields: {:#?}",
            some, none
        ),
    );
    check(
        ValidationError::NamedParamStructInvalidFields {
            expected: prepared(&none),
            actual: prepared(&some),
            name: "Params".to_string(),
            pos: place(),
        },
        &format!(
            "This query's named param struct `Params` has already been used, but the fields don't match.\n  = Expected fields: {:#?}\n  = Got fields: {:#?}",
            none, some
        ),
    );
}

#[test]
fn fields_with_blank_lines() {
    check(
        ValidationError::NamedRowInvalidFields {
            expected: vec![
                PreparedField { pretty: "a\n\nb".to_string() },
                PreparedField { pretty: "".to_string() },
            ],
            actual: vec![],
            name: "Row".to_string(),
            pos: place(),
        },
        "This query's named row struct `Row` has already been used, but the fields don't match.\n  = Expected fields: [\n    a\n    \n    b,\n    ,\n]\n  = Got fields: []",
    );
}

#[test]
fn message_of_the_parser() {
    assert_eq!(Error::Parser("no query".to_string()).to_string(), "no query");
}
