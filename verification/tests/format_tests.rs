use hotchpotch::config::FormatConfig;
use hotchpotch::parser::{into_map, parse_record_str, ParseError, Parser};
use hotchpotch::ordered::objects_in_order;
use hotchpotch::serializer::{escape_str, serialize_object, serialize_record, serialize_value};
use hotchpotch::value::Value;

fn s(x: &str) -> Value {
    Value::Str(x.to_string())
}

fn f(x: &str) -> Value {
    Value::Float(x.to_string())
}

fn field(k: &str, v: Value) -> (String, Value) {
    (k.to_string(), v)
}

fn obj(entries: Vec<(&str, Value)>) -> Value {
    Value::Object(entries.into_iter().map(|(k, v)| (k.to_string(), v)).collect())
}

#[test]
fn escaping_marks_only_delimiters() {
    let cfg = FormatConfig::default();
    assert_eq!(escape_str("plain text", &cfg), "plain text");
    assert_eq!(escape_str("a;b=c", &cfg), "a\\;b\\=c");
    assert_eq!(escape_str("[x|y]{z}\\", &cfg), "\\[x\\|y\\]\\{z\\}\\\\");
    assert_eq!(escape_str("héllo|wörld", &cfg), "héllo\\|wörld");
    assert_eq!(escape_str("", &cfg), "");
}

#[test]
fn scalars_are_written_as_documented() {
    let cfg = FormatConfig::default();
    assert_eq!(serialize_value(&Value::Null, &cfg), "null");
    assert_eq!(serialize_value(&Value::Bool(true), &cfg), "true");
    assert_eq!(serialize_value(&Value::Bool(false), &cfg), "false");
    assert_eq!(serialize_value(&Value::Int(-42), &cfg), "-42");
    assert_eq!(serialize_value(&Value::Int(i64::MIN), &cfg), "-9223372036854775808");
    assert_eq!(serialize_value(&f("1.5"), &cfg), "1.5");
    assert_eq!(serialize_value(&s("175cm"), &cfg), "175cm");
    assert_eq!(serialize_value(&s("a[b"), &cfg), "a\\[b");
}

#[test]
fn lists_and_objects_are_bracketed() {
    let cfg = FormatConfig::default();
    let list = Value::List(vec![s("cycling"), s("rowing"), s("chess")]);
    assert_eq!(serialize_value(&list, &cfg), "[cycling|rowing|chess]");
    assert_eq!(serialize_value(&Value::List(vec![]), &cfg), "[]");
    let o = obj(vec![("a", Value::Int(1)), ("b", Value::List(vec![Value::Null, Value::Bool(true)]))]);
    assert_eq!(serialize_value(&o, &cfg), "{a=1;b=[null|true]}");
    assert_eq!(serialize_value(&obj(vec![]), &cfg), "{}");
    assert_eq!(serialize_value(&obj(vec![("k;y", s("v=1"))]), &cfg), "{k\\;y=v\\=1}");
}

#[test]
fn record_from_readme_is_written_in_key_order() {
    let cfg = FormatConfig::default();
    let fields = vec![
        field("name", s("adam")),
        field("hobbies", Value::List(vec![s("cycling"), s("rowing")])),
        field("age", Value::Int(30)),
    ];
    let ordered = into_map(fields);
    assert_eq!(serialize_object(&ordered, &cfg), "age=30;hobbies=[cycling|rowing];name=adam;");
}

#[test]
fn record_keeps_the_given_order() {
    let cfg = FormatConfig::default();
    let fields = vec![field("name", s("adam")), field("height", s("175cm"))];
    assert_eq!(serialize_object(&fields, &cfg), "name=adam;height=175cm;");
    assert_eq!(serialize_object(&[], &cfg), "");
}

#[test]
fn into_map_orders_keys_and_keeps_the_last_value() {
    let fields = vec![field("b", Value::Int(1)), field("a", Value::Int(2)), field("b", Value::Int(3))];
    assert_eq!(into_map(fields), vec![field("a", Value::Int(2)), field("b", Value::Int(3))]);
}

#[test]
fn readme_record_is_read() {
    let cfg = FormatConfig::default();
    let got = parse_record_str("name=adam;hobbies=[cycling|rowing];age=30;", &cfg).unwrap();
    assert_eq!(
        got,
        vec![
            field("name", s("adam")),
            field("hobbies", Value::List(vec![s("cycling"), s("rowing")])),
            field("age", Value::Int(30)),
        ]
    );
}

#[test]
fn scalars_are_coerced_in_order() {
    let cfg = FormatConfig::default();
    let got = parse_record_str(
        "a=null;b=true;c=false;d=-7;e=1.5;f=1e3;g=inf;h=x;i=;j=99999999999999999999;k=+5;l=1.;m=e5;n=1e;o=NaN",
        &cfg,
    )
    .unwrap();
    assert_eq!(
        got,
        vec![
            field("a", Value::Null),
            field("b", Value::Bool(true)),
            field("c", Value::Bool(false)),
            field("d", Value::Int(-7)),
            field("e", f("1.5")),
            field("f", f("1e3")),
            field("g", f("inf")),
            field("h", s("x")),
            field("i", s("")),
            field("j", f("99999999999999999999")),
            field("k", Value::Int(5)),
            field("l", f("1.")),
            field("m", s("e5")),
            field("n", s("1e")),
            field("o", f("NaN")),
        ]
    );
}

#[test]
fn escapes_are_removed_when_reading() {
    let cfg = FormatConfig::default();
    let got = parse_record_str("a\\;b=c\\|d;e=\\[x\\];g=end\\", &cfg).unwrap();
    assert_eq!(got, vec![field("a;b", s("c|d")), field("e", s("[x]")), field("g", s("end"))]);
    let got = parse_record_str("k=\\é\\1", &cfg).unwrap();
    assert_eq!(got, vec![field("k", s("é1"))]);
}

#[test]
fn nested_objects_are_ordered_maps() {
    let cfg = FormatConfig::default();
    let got = parse_record_str("a={b=1;a=2;b=3};c={};d=[];e=[{x=[1|2]}|[]]", &cfg).unwrap();
    assert_eq!(
        got,
        vec![
            field("a", obj(vec![("a", Value::Int(2)), ("b", Value::Int(3))])),
            field("c", obj(vec![])),
            field("d", Value::List(vec![])),
            field(
                "e",
                Value::List(vec![
                    obj(vec![("x", Value::List(vec![Value::Int(1), Value::Int(2)]))]),
                    Value::List(vec![]),
                ]),
            ),
        ]
    );
}

#[test]
fn empty_and_separator_only_texts_give_no_fields() {
    let cfg = FormatConfig::default();
    assert_eq!(parse_record_str("", &cfg).unwrap(), vec![]);
    assert_eq!(parse_record_str(";;;", &cfg).unwrap(), vec![]);
}

#[test]
fn an_empty_key_ends_the_record() {
    let cfg = FormatConfig::default();
    assert_eq!(parse_record_str("=x", &cfg).unwrap(), vec![]);
    assert_eq!(parse_record_str("a=1;=2;b=3", &cfg).unwrap(), vec![field("a", Value::Int(1))]);
}

#[test]
fn missing_kv_sep_at_end() {
    let cfg = FormatConfig::default();
    let err = parse_record_str("abc", &cfg).unwrap_err();
    assert_eq!(err, ParseError::ExpectedEof { expected: '=' });
    assert_eq!(err.message(), "Expected '=' but got EOF");
}

#[test]
fn missing_kv_sep_in_object() {
    let cfg = FormatConfig::default();
    let err = parse_record_str("a={x}", &cfg).unwrap_err();
    assert_eq!(err, ParseError::Expected { expected: '=', found: b'}', pos: 4 });
    assert_eq!(err.message(), "Expected '=' but got '}' at pos 4");
}

#[test]
fn unexpected_char_in_list() {
    let cfg = FormatConfig::default();
    let err = parse_record_str("a=[1=2]", &cfg).unwrap_err();
    assert_eq!(err, ParseError::UnexpectedInList { found: b'=', pos: 4 });
    assert_eq!(err.message(), "Unexpected '=' in list at pos 4");
}

#[test]
fn positions_count_bytes() {
    let cfg = FormatConfig::default();
    let err = parse_record_str("é=[1=2]", &cfg).unwrap_err();
    assert_eq!(err, ParseError::UnexpectedInList { found: b'=', pos: 5 });
    let err = parse_record_str("a={x=1=}", &cfg).unwrap_err();
    assert_eq!(err, ParseError::UnexpectedInObject { found: b'=', pos: 6 });
}

#[test]
fn found_byte_is_the_first_byte_of_the_char() {
    let cfg = FormatConfig::default();
    let err = parse_record_str("a={xé}", &cfg).unwrap_err();
    assert_eq!(err, ParseError::Expected { expected: '=', found: b'}', pos: 6 });
    let err = parse_record_str("a=[{x=1}é]", &cfg).unwrap_err();
    assert_eq!(err, ParseError::UnexpectedInList { found: 0xC3, pos: 8 });
    assert_eq!(err.message(), "Unexpected 'Ã' in list at pos 8");
}

#[test]
fn unterminated_list() {
    let cfg = FormatConfig::default();
    let err = parse_record_str("a=[1|2", &cfg).unwrap_err();
    assert_eq!(err, ParseError::UnterminatedList);
    assert_eq!(err.message(), "Unterminated list");
    assert_eq!(parse_record_str("a=[", &cfg).unwrap_err(), ParseError::UnterminatedList);
}

#[test]
fn unexpected_char_in_object() {
    let cfg = FormatConfig::default();
    let err = parse_record_str("a={x=1]", &cfg).unwrap_err();
    assert_eq!(err, ParseError::UnexpectedInObject { found: b']', pos: 6 });
    assert_eq!(err.message(), "Unexpected ']' in object at pos 6");
}

#[test]
fn unterminated_object() {
    let cfg = FormatConfig::default();
    let err = parse_record_str("a={x=1", &cfg).unwrap_err();
    assert_eq!(err, ParseError::UnterminatedObject);
    assert_eq!(err.message(), "Unterminated object");
}

#[test]
fn parser_reads_single_values() {
    let cfg = FormatConfig::default();
    let text: Vec<char> = "[1|{b=x;a=null}|[]]".chars().collect();
    let mut parser = Parser::new(&text, &cfg);
    let v = parser.parse_value().unwrap();
    assert_eq!(
        v,
        Value::List(vec![Value::Int(1), obj(vec![("a", Value::Null), ("b", s("x"))]), Value::List(vec![])])
    );
    let text: Vec<char> = "k=v;".chars().collect();
    let mut parser = Parser::new(&text, &cfg);
    assert_eq!(parser.parse_record().unwrap(), vec![field("k", s("v"))]);
}

#[test]
fn custom_delimiters_round_trip() {
    let cfg = FormatConfig::new(
        '&', ':', '[', ']', ',', '{', '}', '\\',
        "none".to_string(), "yes".to_string(), "no".to_string(),
    )
    .unwrap();
    let fields = vec![
        field("name", s("a&b")),
        field("tags", Value::List(vec![s("x,y"), Value::Null, Value::Bool(false)])),
    ];
    let text = serialize_object(&fields, &cfg);
    assert_eq!(text, "name:a\\&b&tags:[x\\,y,none,no]&");
    assert_eq!(parse_record_str(&text, &cfg).unwrap(), fields);
}

#[test]
fn representable_values_round_trip() {
    let cfg = FormatConfig::default();
    let fields = vec![
        field("s", s("semi;colon=eq[b]{c}|\\")),
        field("u", s("ünïcödé")),
        field("n", Value::Null),
        field("t", Value::Bool(true)),
        field("i", Value::Int(i64::MIN)),
        field("f", f("2.5")),
        field("l", Value::List(vec![s(""), s("")])),
        field("o", obj(vec![("", Value::Int(1)), ("a", Value::List(vec![])), ("b", obj(vec![]))])),
        field("k;=", s("")),
    ];
    let text = serialize_object(&fields, &cfg);
    assert_eq!(parse_record_str(&text, &cfg).unwrap(), fields);
}

#[test]
fn strings_that_look_like_other_scalars_do_not_round_trip() {
    let cfg = FormatConfig::default();
    let fields = vec![field("a", s("null")), field("b", s("12")), field("c", Value::List(vec![s("")]))];
    let text = serialize_object(&fields, &cfg);
    assert_eq!(
        parse_record_str(&text, &cfg).unwrap(),
        vec![field("a", Value::Null), field("b", Value::Int(12)), field("c", Value::List(vec![]))]
    );
}

#[test]
fn values_clone_to_equal_values() {
    let v = Value::List(vec![
        obj(vec![("a", f("1.5")), ("b", Value::List(vec![Value::Null, s("x")]))]),
        Value::Int(3),
        Value::Bool(false),
    ]);
    assert_eq!(v.clone(), v);
}

#[test]
fn values_read_back_at_the_end_and_before_kv_sep() {
    let cfg = FormatConfig::default();
    for v in [
        Value::Int(-7),
        s("a;b"),
        Value::List(vec![Value::Bool(true), s("x")]),
        obj(vec![("k", Value::Null)]),
        f("1e3"),
    ] {
        let t = serialize_value(&v, &cfg);
        for follow in ["", "=", "=rest", ";", "|", "]", "}"] {
            let text: Vec<char> = format!("{}{}", t, follow).chars().collect();
            let mut parser = Parser::new(&text, &cfg);
            assert_eq!(parser.parse_value().unwrap(), v);
        }
    }
}

#[test]
fn into_map_keeps_every_key_with_its_last_value() {
    let fields = vec![
        field("z", Value::Int(1)),
        field("m", s("first")),
        field("a", Value::Null),
        field("m", s("second")),
        field("z", Value::Bool(false)),
    ];
    assert_eq!(
        into_map(fields),
        vec![field("a", Value::Null), field("m", s("second")), field("z", Value::Bool(false))]
    );
}

#[test]
fn expect_past_the_end_reports_eof() {
    let cfg = FormatConfig::default();
    assert_eq!(
        parse_record_str("key", &cfg).unwrap_err(),
        ParseError::ExpectedEof { expected: '=' }
    );
    assert_eq!(
        parse_record_str("a={k", &cfg).unwrap_err().message(),
        "Expected '=' but got EOF"
    );
}

#[test]
fn record_is_written_sorted_by_key_with_last_values() {
    let cfg = FormatConfig::default();
    let fields = vec![
        field("name", s("adam")),
        field("hobbies", Value::List(vec![s("cycling"), s("rowing")])),
        field("age", Value::Int(30)),
        field("name", s("eve")),
    ];
    assert_eq!(serialize_record(fields, &cfg), "age=30;hobbies=[cycling|rowing];name=eve;");
    assert_eq!(serialize_record(vec![], &cfg), "");
}

#[test]
fn object_key_order_is_checked_at_every_depth() {
    assert!(objects_in_order(&obj(vec![("a", Value::Int(1)), ("b", obj(vec![("x", Value::Null)]))])));
    assert!(!objects_in_order(&obj(vec![("b", Value::Int(1)), ("a", Value::Int(2))])));
    assert!(!objects_in_order(&obj(vec![("a", Value::Int(1)), ("a", Value::Int(2))])));
    assert!(!objects_in_order(&Value::List(vec![
        Value::Int(1),
        obj(vec![("z", Value::Null), ("y", Value::Null)]),
    ])));
    assert!(objects_in_order(&Value::List(vec![s("x"), obj(vec![])])));
}
