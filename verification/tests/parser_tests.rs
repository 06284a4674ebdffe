use course_projects::dataset::Value;
use course_projects::query::{Aggregation, Condition};
use course_projects::query_parser::{
    parse_condition, parse_query_from_string, parse_value, tokenize, tokenize_with_classes,
    try_parse_condition, try_parse_query_from_string, try_parse_query_tokens, value_from_token,
};

fn toks(v: &[&str]) -> Vec<String> {
    v.iter().map(|x| x.to_string()).collect()
}

#[test]
fn tokenize_example() {
    assert_eq!(
        tokenize("FILTER section == \"A1\" GROUP BY grade COUNT name"),
        toks(&["FILTER", "section", "==", "\"A1\"", "GROUP", "BY", "grade", "COUNT", "name"])
    );
}

#[test]
fn tokenize_punctuation_and_skipped_characters() {
    assert_eq!(tokenize("!(a==b)"), toks(&["!", "(", "a", "==", "b", ")"]));
    // A lone `=` and unknown characters are skipped; tabs separate tokens.
    assert_eq!(tokenize("a = b\t;c"), toks(&["a", "b", "c"]));
    // An unterminated quote runs to the end and is closed.
    assert_eq!(tokenize("\"open end"), toks(&["\"open end\""]));
    // Quotes keep spaces inside.
    assert_eq!(tokenize("\"A B\" x_1"), toks(&["\"A B\"", "x_1"]));
    assert_eq!(tokenize(""), toks(&[]));
}

#[test]
fn tokenize_unicode_words() {
    // `é` and `٣` are alphanumeric in Unicode, `€` is not.
    assert_eq!(tokenize("café ٣€x"), toks(&["café", "٣", "x"]));
}

#[test]
fn tokenize_with_given_classes() {
    let chars: Vec<char> = "ab c".chars().collect();
    let classes = vec![true, false, false, true];
    assert_eq!(tokenize_with_classes(&chars, &classes), toks(&["a", "c"]));
}

#[test]
fn parse_value_forms() {
    let t = toks(&["\"A1\"", "42", "-7", "+3", "abc", "99999999999", "\"\""]);
    assert_eq!(parse_value(&t, 0), (Value::String("A1".to_string()), 1));
    assert_eq!(parse_value(&t, 1), (Value::Integer(42), 2));
    assert_eq!(parse_value(&t, 2), (Value::Integer(-7), 3));
    assert_eq!(parse_value(&t, 3), (Value::Integer(3), 4));
    assert_eq!(parse_value(&t, 4), (Value::String("abc".to_string()), 5));
    assert_eq!(parse_value(&t, 5), (Value::String("99999999999".to_string()), 6));
    assert_eq!(parse_value(&t, 6), (Value::String(String::new()), 7));
}

#[test]
fn value_from_token_uses_the_parse_result() {
    assert_eq!(value_from_token(&"12".to_string(), Some(12)), Value::Integer(12));
    assert_eq!(value_from_token(&"x".to_string(), None), Value::String("x".to_string()));
}

fn show(c: &Condition) -> String {
    match c {
        Condition::Equal(col, v) => format!("{} = {:?}", col, v),
        Condition::Not(i) => format!("not({})", show(i)),
        Condition::And(l, r) => format!("and({}, {})", show(l), show(r)),
        Condition::Or(l, r) => format!("or({}, {})", show(l), show(r)),
    }
}

#[test]
fn parse_condition_forms() {
    let t = tokenize("(!(band == \"Meshuggah\") AND !(band == \"Vildhjarta\")) GROUP");
    let (c, pos) = parse_condition(&t, 0);
    assert_eq!(
        show(&c),
        "and(not(band = String(\"Meshuggah\")), not(band = String(\"Vildhjarta\")))"
    );
    assert_eq!(t[pos], "GROUP");
    let t = tokenize("(section == \"A1\" OR section == 3)");
    let (c, pos) = parse_condition(&t, 0);
    assert_eq!(show(&c), "or(section = String(\"A1\"), section = Integer(3))");
    assert_eq!(pos, t.len());
}

#[test]
fn malformed_conditions_are_refused() {
    for bad in [
        "! section == 1",
        "(a == 1 XOR b == 2)",
        "(a == 1 AND b == 2",
        "a = 1",
        "a ==",
        "",
        "!(a == 1",
    ] {
        assert!(try_parse_condition(&tokenize(bad), 0).is_none(), "{}", bad);
    }
    // A lone quote character cannot be read as a value.
    let t = vec!["a".to_string(), "==".to_string(), "\"".to_string()];
    assert!(try_parse_condition(&t, 0).is_none());
}

#[test]
fn parse_query_examples() {
    let q = parse_query_from_string("FILTER section == \"A1\" GROUP BY grade COUNT name".to_string());
    assert_eq!(show(q.get_filter()), "section = String(\"A1\")");
    assert_eq!(q.get_group_by(), "grade");
    assert!(matches!(q.get_aggregate(), Aggregation::Count(c) if c == "name"));

    let q = parse_query_from_string(
        "FILTER (section == \"A1\" OR section == \"B1\") GROUP BY section AVERAGE grade".to_string(),
    );
    assert_eq!(show(q.get_filter()), "or(section = String(\"A1\"), section = String(\"B1\"))");
    assert!(matches!(q.get_aggregate(), Aggregation::Average(c) if c == "grade"));

    let q = parse_query_from_string(
        "FILTER (!(band == \"Meshuggah\") AND !(band == \"Vildhjarta\")) GROUP BY album AVERAGE rating"
            .to_string(),
    );
    assert_eq!(q.get_group_by(), "album");
    assert!(matches!(q.get_aggregate(), Aggregation::Average(c) if c == "rating"));

    let q = parse_query_from_string("FILTER x == 1 GROUP BY y SUM z".to_string());
    assert!(matches!(q.get_aggregate(), Aggregation::Sum(c) if c == "z"));
    assert_eq!(show(q.get_filter()), "x = Integer(1)");
}

#[test]
fn malformed_queries_are_refused() {
    for bad in [
        "x == 1 GROUP BY y SUM z",
        "FILTER x == 1 GROUP y SUM z",
        "FILTER x == 1 GROUP BY y MAX z",
        "FILTER x == 1 GROUP BY y SUM",
        "FILTER GROUP BY y SUM z",
    ] {
        assert!(try_parse_query_from_string(bad.to_string()).is_none(), "{}", bad);
    }
    assert!(try_parse_query_tokens(&toks(&["FILTER"])).is_none());
}

#[test]
fn retokenizing_joined_tokens_gives_them_back() {
    for s in [
        "FILTER (!(band == \"Meshuggah\") AND x_1==2) GROUP BY album AVERAGE rating",
        "a = b\t;c \"open end",
        "\"A B\"(x)!==",
        "café ٣€x",
        "",
    ] {
        let ts = tokenize(s);
        assert_eq!(tokenize(&ts.join(" ")), ts, "{}", s);
    }
}

#[test]
fn condition_depends_only_on_its_tokens() {
    let t = tokenize("GROUP (a == 1 AND !(b == x)) BY");
    let (c, k) = parse_condition(&t, 1);
    assert_eq!(k, t.len() - 1);
    let mut u = toks(&["FILTER", "(", "=="]);
    let n = u.len();
    u.extend(t[1..k].iter().cloned());
    u.extend(toks(&[")", "junk"]));
    let (c2, k2) = parse_condition(&u, n);
    assert_eq!(show(&c), show(&c2));
    assert_eq!(k2, n + (k - 1));
}
