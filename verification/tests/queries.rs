use cornucopia::error::{Error, ValidationError};
use cornucopia::pair::{check_pairs, Pair, Rule};
use cornucopia::parsed::{Parsed, ParsedQuery};
use cornucopia::parser::{
    parse_extended_bind_params, parse_nullable_columns, parse_params, parse_pg_bind_params,
    parse_queries, parse_query,
};

fn token(rule: Rule, start: usize, end: usize, inner: Vec<Pair>) -> Pair {
    Pair { rule, start, end, inner }
}

/// The token of the `nth` occurrence of `word`.
fn word(rule: Rule, input: &str, word: &str, nth: usize) -> Pair {
    let (start, found) = input.match_indices(word).nth(nth).unwrap();
    token(rule, start, start + found.len(), vec![])
}

/// The names and indices behind `:` and `$` in `input[start..end]`.
fn binds(input: &str, start: usize, end: usize) -> Vec<Pair> {
    let bytes = input.as_bytes();
    let mut found = vec![];
    let mut i = start;
    while i < end {
        if bytes[i] == b':' || bytes[i] == b'$' {
            let rule = if bytes[i] == b':' { Rule::Ident } else { Rule::Number };
            let first = i + 1;
            i = first;
            while i < end && (bytes[i].is_ascii_alphanumeric() || bytes[i] == b'_') {
                i += 1;
            }
            found.push(token(rule, first, i, vec![]));
        } else {
            i += 1;
        }
    }
    found
}

/// The token of the SQL `sql` in `input`.
fn sql(input: &str, sql: &str) -> Pair {
    let start = input.find(sql).unwrap();
    let end = start + sql.len();
    token(Rule::Other, start, end, binds(input, start, end))
}

fn list(rule: Rule, inner: Vec<Pair>) -> Pair {
    let start = inner.first().map_or(0, |p| p.start);
    let end = inner.last().map_or(0, |p| p.end);
    token(rule, start, end, inner)
}

fn query(annotation: Vec<Pair>, sql: Pair) -> Pair {
    let start = annotation[0].start;
    let end = sql.end;
    token(Rule::Query, start, end, vec![list(Rule::Other, annotation), sql])
}

fn file(input: &str, row: Vec<Pair>) -> Vec<Pair> {
    vec![token(Rule::Other, 0, input.len(), row)]
}

fn read(input: &str, row: Vec<Pair>) -> Result<Vec<ParsedQuery>, Error> {
    let pairs = file(input, row);
    assert!(check_pairs(input, &pairs));
    parse_queries(input, Ok(pairs))
}

fn values(row: &[Parsed<String>]) -> Vec<&str> {
    row.iter().map(|p| p.value.as_str()).collect()
}

const NAMED: &str = "--! find\nSELECT * FROM a WHERE x = :name AND y = :age OR z = :name;\n";

#[test]
fn named_binds_become_numbers() {
    let input = NAMED;
    let q = query(
        vec![word(Rule::Ident, input, "find", 0)],
        sql(input, "SELECT * FROM a WHERE x = :name AND y = :age OR z = :name"),
    );
    let queries = read(input, vec![q]).unwrap();
    assert_eq!(queries.len(), 1);
    let q = &queries[0];
    assert_eq!(q.line, 1);
    assert_eq!(q.name.value, "find");
    assert_eq!(q.name.pos.line, 1);
    assert_eq!(q.name.pos.col, 5);
    assert_eq!(q.name.pos.line_str, "--! find\n");
    assert_eq!(values(&q.params), ["name", "age"]);
    assert_eq!(q.params[0].pos.line, 2);
    assert_eq!(q.params[0].pos.col, 28);
    assert_eq!(
        q.params[1].pos.line_str,
        "SELECT * FROM a WHERE x = :name AND y = :age OR z = :name;\n"
    );
    assert_eq!(q.sql_str, "SELECT * FROM a WHERE x = $1 AND y = $2 OR z = $1");
    assert!(q.named_param_struct.is_none());
    assert!(q.named_return_struct.is_none());
    assert!(q.nullable_columns.is_empty());
}

#[test]
fn text_between_binds_stays() {
    let input = "q\nä:a→:b:a ☃";
    let start = input.find('\n').unwrap() + 1;
    let s = token(Rule::Other, start, input.len(), binds(input, start, input.len()));
    let (params, text) = parse_extended_bind_params(input, &s).unwrap();
    assert_eq!(values(&params), ["a", "b"]);
    assert_eq!(text, "ä$1→$2$1 ☃");
    assert_eq!(params[1].pos.line, 2);
    assert_eq!(params[1].pos.col, 6);
    assert_eq!(params[1].pos.line_str, "ä:a→:b:a ☃");
}

#[test]
fn numbers_of_two_digits() {
    let input = ":a:b:c:d:e:f:g:h:i:j:k:a";
    let s = token(Rule::Other, 0, input.len(), binds(input, 0, input.len()));
    let (params, text) = parse_extended_bind_params(input, &s).unwrap();
    assert_eq!(params.len(), 11);
    assert_eq!(text, "$1$2$3$4$5$6$7$8$9$10$11$1");
}

#[test]
fn query_without_binds_keeps_its_sql() {
    let input = "--! all\nSELECT 1";
    let q = query(vec![word(Rule::Ident, input, "all", 0)], sql(input, "SELECT 1"));
    let queries = read(input, vec![q]).unwrap();
    assert!(queries[0].params.is_empty());
    assert_eq!(queries[0].sql_str, "SELECT 1");
}

#[test]
fn nullable_columns_of_a_named_query() {
    let input = "--! find ?{a, b}\nSELECT :x";
    let q = query(
        vec![
            word(Rule::Ident, input, "find", 0),
            list(
                Rule::NullableColumnList,
                vec![word(Rule::Ident, input, "a", 0), word(Rule::Ident, input, "b", 0)],
            ),
        ],
        sql(input, "SELECT :x"),
    );
    let queries = read(input, vec![q]).unwrap();
    assert_eq!(values(&queries[0].nullable_columns), ["a", "b"]);
    assert_eq!(queries[0].nullable_columns[1].pos.col, 15);
    assert_eq!(values(&queries[0].params), ["x"]);
    assert_eq!(queries[0].sql_str, "SELECT $1");
    assert!(queries[0].named_return_struct.is_none());
}

#[test]
fn return_struct_with_and_without_columns() {
    let input = "--! find : Row ?{a}\nSELECT :x";
    let name = || word(Rule::Ident, input, "find", 0);
    let row = || word(Rule::Ident, input, "Row", 0);
    let columns = || list(Rule::NullableColumnList, vec![word(Rule::Ident, input, "a", 0)]);
    let with = query(vec![name(), row(), columns()], sql(input, "SELECT :x"));
    let without = query(vec![name(), row()], sql(input, "SELECT :x"));
    let queries = read(input, vec![with, without]).unwrap();
    assert_eq!(queries[0].named_return_struct.as_ref().unwrap().value, "Row");
    assert_eq!(queries[0].named_return_struct.as_ref().unwrap().pos.col, 12);
    assert_eq!(values(&queries[0].nullable_columns), ["a"]);
    assert_eq!(queries[1].named_return_struct.as_ref().unwrap().value, "Row");
    assert!(queries[1].nullable_columns.is_empty());
    assert_eq!(queries[1].sql_str, "SELECT $1");
}

fn pg(input: &'static str, params: &[&str], text: &str) -> Result<Vec<ParsedQuery>, Error> {
    let mut seen: Vec<&str> = vec![];
    let mut names = vec![];
    for p in params {
        let nth = seen.iter().filter(|s| *s == p).count();
        seen.push(p);
        names.push(word(Rule::Ident, input, p, nth));
    }
    // Something that is no name stands in the list, too.
    names.push(word(Rule::Other, input, ")", 0));
    let q = query(
        vec![word(Rule::Ident, input, "find", 0), list(Rule::ParamList, names)],
        sql(input, text),
    );
    read(input, vec![q])
}

#[test]
fn indexed_query_keeps_its_sql_and_has_the_declared_parameters() {
    let queries = pg("--! find(aa, bb)\nSELECT $2, $1, $2", &["aa", "bb"], "SELECT $2, $1, $2").unwrap();
    assert_eq!(queries.len(), 1);
    assert_eq!(queries[0].name.value, "find");
    assert_eq!(queries[0].sql_str, "SELECT $2, $1, $2");
    assert_eq!(values(&queries[0].params), ["aa", "bb"]);
    assert_eq!((queries[0].params[0].pos.line, queries[0].params[0].pos.col), (1, 10));
    assert_eq!((queries[0].params[1].pos.line, queries[0].params[1].pos.col), (1, 14));
    assert_eq!(queries[0].params[1].pos.line_str, "--! find(aa, bb)\n");
    assert!(queries[0].nullable_columns.is_empty());
    assert!(queries[0].named_return_struct.is_none());
}

#[test]
fn indexed_query_with_one_parameter() {
    let queries = pg("--! find(aa)\nSELECT $1", &["aa"], "SELECT $1").unwrap();
    assert_eq!(queries[0].sql_str, "SELECT $1");
    assert_eq!(values(&queries[0].params), ["aa"]);
    assert_eq!(queries[0].params[0].pos.col, 10);
}

#[test]
fn indexed_query_without_parameters() {
    let queries = pg("--! find()\nSELECT 1", &[], "SELECT 1").unwrap();
    assert_eq!(queries[0].sql_str, "SELECT 1");
    assert!(queries[0].params.is_empty());
}

#[test]
fn columns_and_return_struct_of_an_indexed_query() {
    let input = "--! find(aa, bb) : Row ?{col, nn}\nSELECT $2, $1";
    let name = || word(Rule::Ident, input, "find", 0);
    let params = || {
        list(
            Rule::ParamList,
            vec![word(Rule::Ident, input, "aa", 0), word(Rule::Ident, input, "bb", 0)],
        )
    };
    let row = || word(Rule::Ident, input, "Row", 0);
    let columns = || {
        list(
            Rule::NullableColumnList,
            vec![word(Rule::Ident, input, "col", 0), word(Rule::Ident, input, "nn", 0)],
        )
    };
    let text = || sql(input, "SELECT $2, $1");
    let both = query(vec![name(), params(), row(), columns()], text());
    let only_columns = query(vec![name(), params(), columns()], text());
    let only_struct = query(vec![name(), params(), row()], text());
    let queries = read(input, vec![both, only_columns, only_struct]).unwrap();
    for i in [0, 1, 2] {
        assert_eq!(values(&queries[i].params), ["aa", "bb"]);
        assert_eq!(queries[i].sql_str, "SELECT $2, $1");
    }
    for i in [0, 1] {
        assert_eq!(values(&queries[i].nullable_columns), ["col", "nn"]);
        assert_eq!(queries[i].nullable_columns[1].pos.col, 31);
    }
    for i in [0, 2] {
        let found = queries[i].named_return_struct.as_ref().unwrap();
        assert_eq!((found.value.as_str(), found.pos.line, found.pos.col), ("Row", 1, 20));
    }
    assert!(queries[1].named_return_struct.is_none());
    assert!(queries[2].nullable_columns.is_empty());
}

#[test]
fn columns_and_return_struct_with_one_indexed_parameter() {
    let input = "--! find(aa) : Row ?{col}\nSELECT $1";
    let q = query(
        vec![
            word(Rule::Ident, input, "find", 0),
            list(Rule::ParamList, vec![word(Rule::Ident, input, "aa", 0)]),
            word(Rule::Ident, input, "Row", 0),
            list(Rule::NullableColumnList, vec![word(Rule::Ident, input, "col", 0)]),
        ],
        sql(input, "SELECT $1"),
    );
    let queries = read(input, vec![q]).unwrap();
    assert_eq!(values(&queries[0].params), ["aa"]);
    assert_eq!(queries[0].named_return_struct.as_ref().unwrap().value, "Row");
    assert_eq!(values(&queries[0].nullable_columns), ["col"]);
    assert_eq!(queries[0].sql_str, "SELECT $1");
}

#[test]
fn list_of_one_parameter_with_columns_and_named_binds() {
    let input = "--! find(aa) ?{col}\nSELECT :x";
    let q = query(
        vec![
            word(Rule::Ident, input, "find", 0),
            list(Rule::ParamList, vec![word(Rule::Ident, input, "aa", 0)]),
            list(Rule::NullableColumnList, vec![word(Rule::Ident, input, "col", 0)]),
        ],
        sql(input, "SELECT :x"),
    );
    let queries = read(input, vec![q]).unwrap();
    assert_eq!(values(&queries[0].params), ["x"]);
    assert_eq!(values(&queries[0].nullable_columns), ["col"]);
    assert!(queries[0].named_return_struct.is_none());
}

#[test]
fn list_of_one_parameter_with_named_binds() {
    let input = "--! find(aa) : Row ?{col}\nSELECT :x, :y";
    let q = query(
        vec![
            word(Rule::Ident, input, "find", 0),
            list(Rule::ParamList, vec![word(Rule::Ident, input, "aa", 0)]),
            word(Rule::Ident, input, "Row", 0),
            list(Rule::NullableColumnList, vec![word(Rule::Ident, input, "col", 0)]),
        ],
        sql(input, "SELECT :x, :y"),
    );
    let queries = read(input, vec![q]).unwrap();
    assert_eq!(values(&queries[0].params), ["x", "y"]);
    assert_eq!(queries[0].sql_str, "SELECT $1, $2");
    assert_eq!(queries[0].named_return_struct.as_ref().unwrap().value, "Row");
    assert_eq!(values(&queries[0].nullable_columns), ["col"]);
}

#[test]
fn list_of_one_parameter_without_binds() {
    // No bind parameter has an index, so the query counts as one with named bind parameters.
    let queries = pg("--! find(aa)\nSELECT 1", &["aa"], "SELECT 1").unwrap();
    assert!(queries[0].params.is_empty());
    assert_eq!(queries[0].sql_str, "SELECT 1");
}

#[test]
fn parameter_that_occurs_twice() {
    match pg("--! find(aa, bb, aa)\nSELECT $1", &["aa", "bb", "aa"], "SELECT $1") {
        Err(Error::Validation(ValidationError::DuplicateParam { pos })) => {
            assert_eq!((pos.line, pos.col), (1, 18));
            assert_eq!(pos.line_str, "--! find(aa, bb, aa)\n");
        }
        other => panic!("{:?}", other),
    }
}

#[test]
fn index_beyond_the_list() {
    match pg("--! find(aa, bb)\nSELECT $1, $3, $4", &["aa", "bb"], "SELECT $1, $3, $4") {
        Err(Error::Validation(ValidationError::MoreBindParamsThanParams { nb_params, pos })) => {
            assert_eq!(nb_params, 2);
            assert_eq!((pos.line, pos.col), (2, 13));
            assert_eq!(pos.line_str, "SELECT $1, $3, $4");
        }
        other => panic!("{:?}", other),
    }
}

#[test]
fn parameter_that_is_not_used() {
    match pg("--! find(aa, bb, cc)\nSELECT $3, $1", &["aa", "bb", "cc"], "SELECT $3, $1") {
        Err(Error::Validation(ValidationError::UnusedParam { index, pos })) => {
            assert_eq!(index, 2);
            assert_eq!((pos.line, pos.col), (1, 14));
        }
        other => panic!("{:?}", other),
    }
}

#[test]
fn index_out_of_range() {
    for (input, text) in [
        ("--! find(aa, bb)\nSELECT $1, $0", "SELECT $1, $0"),
        ("--! find(aa, bb)\nSELECT $1, $32768", "SELECT $1, $32768"),
    ] {
        match pg(input, &["aa", "bb"], text) {
            Err(Error::Validation(ValidationError::InvalidI16Index { pos })) => {
                assert_eq!((pos.line, pos.col), (2, 13));
            }
            other => panic!("{:?}", other),
        }
    }
}

#[test]
fn name_in_an_indexed_query() {
    match pg("--! find(aa, bb)\nSELECT $1, :bb", &["aa", "bb"], "SELECT $1, :bb") {
        Err(Error::Validation(ValidationError::ExtendedParamInPgQuery { pos })) => {
            assert_eq!((pos.line, pos.col), (2, 13));
        }
        other => panic!("{:?}", other),
    }
}

#[test]
fn mixed_binds_with_one_parameter() {
    // With a parameter list, the error is that of the PostgreSQL-compatible syntax.
    match pg("--! find(aa)\nSELECT :aa, $1", &["aa"], "SELECT :aa, $1") {
        Err(Error::Validation(ValidationError::ExtendedParamInPgQuery { pos })) => {
            assert_eq!((pos.line, pos.col), (2, 9));
        }
        other => panic!("{:?}", other),
    }
}

#[test]
fn index_in_a_named_query() {
    let input = "--! find\nSELECT :a, $1";
    let q = query(vec![word(Rule::Ident, input, "find", 0)], sql(input, "SELECT :a, $1"));
    match read(input, vec![q]) {
        Err(Error::Validation(ValidationError::PgParamInExtendedQuery { pos })) => {
            assert_eq!((pos.line, pos.col), (2, 13));
        }
        other => panic!("{:?}", other),
    }
}

#[test]
fn refused_text() {
    match parse_queries("???", Err("expected a query".to_string())) {
        Err(Error::Parser(message)) => assert_eq!(message, "expected a query"),
        other => panic!("{:?}", other),
    }
}

#[test]
fn other_tokens_do_not_matter() {
    let input = "-- note\n--! one\nSELECT 1\n--! two\nSELECT 2";
    let one = query(vec![word(Rule::Ident, input, "one", 0)], sql(input, "SELECT 1"));
    let two = query(vec![word(Rule::Ident, input, "two", 0)], sql(input, "SELECT 2"));
    let row = vec![
        token(Rule::Other, 0, 7, vec![]),
        one,
        token(Rule::Ident, 0, 0, vec![]),
        two,
        token(Rule::Other, input.len(), input.len(), vec![]),
    ];
    let queries = read(input, row).unwrap();
    let names: Vec<&str> = queries.iter().map(|q| q.name.value.as_str()).collect();
    assert_eq!(names, ["one", "two"]);
    assert_eq!(queries[0].line, 2);
    assert_eq!(queries[1].line, 4);
}

#[test]
fn empty_file() {
    assert!(read("", vec![]).unwrap().is_empty());
}

#[test]
fn first_error_wins() {
    let input = "--! one\nSELECT 1\n--! two\nSELECT $1\n--! six\nSELECT $2";
    let one = query(vec![word(Rule::Ident, input, "one", 0)], sql(input, "SELECT 1"));
    let two = query(vec![word(Rule::Ident, input, "two", 0)], sql(input, "SELECT $1"));
    let six = query(vec![word(Rule::Ident, input, "six", 0)], sql(input, "SELECT $2"));
    match read(input, vec![one, two, six]) {
        Err(Error::Validation(ValidationError::PgParamInExtendedQuery { pos })) => {
            assert_eq!(pos.line, 4);
        }
        other => panic!("{:?}", other),
    }
}

#[test]
fn one_query_by_itself() {
    let input = NAMED;
    let q = query(
        vec![word(Rule::Ident, input, "find", 0)],
        sql(input, "SELECT * FROM a WHERE x = :name AND y = :age OR z = :name"),
    );
    let q = parse_query(input, &q).unwrap();
    assert_eq!(values(&q.params), ["name", "age"]);
}

#[test]
fn lines_that_end_in_two_characters() {
    let input = "a\r\nb\rc\nd";
    let names: Vec<Pair> = ["a", "b", "c", "d"].iter().map(|w| word(Rule::Ident, input, w, 0)).collect();
    let columns = parse_nullable_columns(input, &list(Rule::NullableColumnList, names)).unwrap();
    let places: Vec<(usize, usize, &str)> =
        columns.iter().map(|c| (c.pos.line, c.pos.col, c.pos.line_str.as_str())).collect();
    assert_eq!(
        places,
        [(1, 1, "a\r\n"), (2, 1, "b\rc\n"), (2, 3, "b\rc\n"), (3, 1, "d")]
    );
    assert_eq!(values(&columns), ["a", "b", "c", "d"]);
}

#[test]
fn place_at_the_end_of_the_text() {
    let input = "ab\n";
    let end = token(Rule::Ident, 3, 3, vec![]);
    let columns = parse_nullable_columns(input, &token(Rule::Other, 0, 3, vec![end])).unwrap();
    assert_eq!((columns[0].pos.line, columns[0].pos.col), (2, 1));
    assert_eq!(columns[0].pos.line_str, "");
    assert_eq!(columns[0].value, "");
}

#[test]
fn place_on_a_line_feed() {
    let input = "ab\ncd\n";
    let feed = token(Rule::Ident, 2, 3, vec![]);
    let columns = parse_nullable_columns(input, &token(Rule::Other, 0, 3, vec![feed])).unwrap();
    assert_eq!((columns[0].pos.line, columns[0].pos.col), (1, 3));
    assert_eq!(columns[0].pos.line_str, "ab\n");
    assert_eq!(columns[0].value, "\n");
}

#[test]
fn params_leave_out_what_is_no_name() {
    let input = "(aa, bb)";
    let row = vec![
        word(Rule::Other, input, "(", 0),
        word(Rule::Ident, input, "aa", 0),
        word(Rule::Other, input, ",", 0),
        word(Rule::Ident, input, "bb", 0),
    ];
    let params = parse_params(input, &list(Rule::ParamList, row)).unwrap();
    assert_eq!(values(&params), ["aa", "bb"]);
    assert_eq!(params[1].pos.col, 6);
}

#[test]
fn indices_are_listed_once() {
    let input = "$2 $1 $2 $02 $3";
    let s = token(Rule::Other, 0, input.len(), binds(input, 0, input.len()));
    let found = parse_pg_bind_params(input, &s).unwrap();
    let indices: Vec<i16> = found.iter().map(|p| p.value).collect();
    assert_eq!(indices, [2, 1, 3]);
    let columns: Vec<usize> = found.iter().map(|p| p.pos.col).collect();
    assert_eq!(columns, [2, 5, 15]);
}

#[test]
fn tokens_that_do_not_fit() {
    let input = "é:ab";
    let bind = |start, end| token(Rule::Ident, start, end, vec![]);
    let sql = |inner| token(Rule::Other, 0, input.len(), inner);
    let name = || token(Rule::Ident, 0, 2, vec![]);
    let whole = |annotation: Vec<Pair>, s: Pair| {
        file(input, vec![token(Rule::Query, 0, 5, vec![token(Rule::Other, 0, 2, annotation), s])])
    };
    assert!(check_pairs(input, &whole(vec![name()], sql(vec![bind(3, 5)]))));
    // No token at all.
    assert!(!check_pairs(input, &vec![]));
    // No name in the annotation.
    assert!(!check_pairs(input, &whole(vec![], sql(vec![]))));
    // Something else behind the name.
    let number = token(Rule::Number, 3, 4, vec![]);
    assert!(!check_pairs(input, &whole(vec![name(), number], sql(vec![]))));
    // An end within a character.
    assert!(!check_pairs(input, &whole(vec![token(Rule::Ident, 0, 1, vec![])], sql(vec![]))));
    // No mark before the bind parameter.
    assert!(!check_pairs(input, &whole(vec![name()], sql(vec![bind(0, 2)]))));
    // A mark of two bytes.
    assert!(!check_pairs(input, &whole(vec![name()], sql(vec![bind(2, 3)]))));
    // Bind parameters without a mark between them.
    assert!(!check_pairs(input, &whole(vec![name()], sql(vec![bind(3, 4), bind(4, 5)]))));
    // Beyond the end.
    assert!(!check_pairs(input, &whole(vec![name()], sql(vec![bind(3, 6)]))));
    // Where the list does not hold exactly one name, bind parameters may stand anywhere.
    let params = |names: usize| {
        let inner = (0..names).map(|_| token(Rule::Ident, 3, 4, vec![])).collect();
        token(Rule::ParamList, 3, 4, inner)
    };
    let close = || sql(vec![bind(3, 4), bind(4, 5)]);
    assert!(check_pairs(input, &whole(vec![name(), params(0)], close())));
    assert!(!check_pairs(input, &whole(vec![name(), params(1)], close())));
    assert!(check_pairs(input, &whole(vec![name(), params(2)], close())));
    assert!(check_pairs(input, &whole(vec![name(), params(2)], sql(vec![bind(0, 2)]))));
    assert!(!check_pairs(input, &whole(vec![name(), params(2)], sql(vec![bind(0, 1)]))));
    // A query without SQL.
    let bare = token(Rule::Query, 0, 5, vec![token(Rule::Other, 0, 2, vec![name()])]);
    assert!(!check_pairs(input, &file(input, vec![bare])));
}
