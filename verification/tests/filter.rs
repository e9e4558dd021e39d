use nbtx::filter::{lookup_compound_field, parse_where_expr, WhereClause, WhereOp, WhereValue};
use nbtx::tree::NbtValue;

fn float_text(t: &str) -> bool {
    t.parse::<f64>().is_ok()
}

fn parse(raw: &str) -> Result<Vec<WhereClause>, String> {
    parse_where_expr(raw, &float_text)
}

fn number(v: &WhereValue) -> Option<&str> {
    match v {
        WhereValue::Number(t) => Some(t.as_str()),
        WhereValue::Text(_) => None,
    }
}

fn text(v: &WhereValue) -> Option<&str> {
    match v {
        WhereValue::Text(t) => Some(t.as_str()),
        WhereValue::Number(_) => None,
    }
}

#[test]
fn where_clauses_join_with_ampersands() {
    let clauses = parse("id==123&&count<999").expect("where should parse");
    assert_eq!(clauses.len(), 2);
    assert_eq!(clauses[0].field_path, vec!["id".to_string()]);
    assert_eq!(clauses[0].op, WhereOp::Eq);
    assert_eq!(number(&clauses[0].value), Some("123"));
    assert_eq!(clauses[1].field_path, vec!["count".to_string()]);
    assert_eq!(clauses[1].op, WhereOp::Lt);
    assert_eq!(number(&clauses[1].value), Some("999"));
}

#[test]
fn where_regex_clause_compiles_its_pattern() {
    let clauses = parse("name~=^foo.*").expect("where regex should parse");
    assert_eq!(clauses[0].op, WhereOp::Regex);
    assert_eq!(text(&clauses[0].value), Some("^foo.*"));
    let pattern = clauses[0].value_regex.as_ref().expect("pattern compiled");
    assert!(pattern.is_match("foobar"));
    assert!(!pattern.is_match("barfoo"));
}

#[test]
fn where_operators_are_found_in_order() {
    let clauses = parse("missing!=1 && a<=2 && b>=3 && c>4 && d == 'x y' && e.f . g==\"q\"").unwrap();
    let ops: Vec<WhereOp> = clauses.iter().map(|c| c.op).collect();
    assert_eq!(ops, vec![WhereOp::Ne, WhereOp::Le, WhereOp::Ge, WhereOp::Gt, WhereOp::Eq, WhereOp::Eq]);
    assert_eq!(text(&clauses[4].value), Some("x y"));
    assert_eq!(clauses[5].field_path, vec!["e".to_string(), "f".to_string(), "g".to_string()]);
    assert_eq!(text(&clauses[5].value), Some("q"));
}

#[test]
fn where_errors() {
    assert_eq!(parse("").err().unwrap(), "empty where clause");
    assert_eq!(parse("a==1&&").err().unwrap(), "empty where clause");
    assert_eq!(parse("abc").err().unwrap(), "invalid where clause: abc");
    assert_eq!(parse(" ==1").err().unwrap(), "invalid where clause: ==1");
    assert_eq!(parse("a==").err().unwrap(), "invalid where clause: a==");
    assert_eq!(parse(". . ==1").err().unwrap(), "invalid where field path: . .");
    assert_eq!(parse("a~=1").err().unwrap(), "where regex operator expects text value");
    assert!(parse("a~=(").err().unwrap().starts_with("invalid where regex: "));
}

#[test]
fn lookup_compound_field_follows_names() {
    let element = NbtValue::Compound(vec![(
        "a".to_string(),
        NbtValue::Compound(vec![("b".to_string(), NbtValue::Int(5))]),
    )]);
    let path = vec!["a".to_string(), "b".to_string()];
    match lookup_compound_field(&element, &path) {
        Some(NbtValue::Int(5)) => {},
        _ => panic!("a.b holds 5"),
    }
    assert!(lookup_compound_field(&element, &vec!["x".to_string()]).is_none());
    assert!(lookup_compound_field(&element, &vec!["a".to_string(), "b".to_string(), "c".to_string()]).is_none());
}
