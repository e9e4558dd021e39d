use nbtx::component::NbtComponent;
use nbtx::filter::{parse_where_expr, WhereClause};
use nbtx::where_match::where_matches_all;
use nbtx::where_delete::delete_where_in_lists;
use nbtx::path::parse_path;
use nbtx::reader::Reader;
use nbtx::scan::{resolve_list_targets_from_scan, scan_paths};
use nbtx::select::parse_path_selector;
use nbtx::stream::{edit_found, transform_raw, Plan};
use nbtx::tag_id;
use nbtx::tree::NbtValue;
use nbtx::writer::{RootType, Writer};
use nbtx::PlatformType;
use std::collections::BTreeMap;

const JAVA: PlatformType = PlatformType::JavaEdition;

fn sample() -> Vec<u8> {
    let mut writer = Writer::new(Vec::new(), JAVA, RootType::Compound);
    writer.write("items", NbtComponent::List { id: tag_id::COMPOUND, length: 3 }).unwrap();
    for (id, count) in [(123, 12), (123, 1000), (456, 1)] {
        writer.write("", NbtComponent::Compound).unwrap();
        writer.write("id", NbtComponent::Int(id)).unwrap();
        writer.write("count", NbtComponent::Int(count)).unwrap();
        writer.end().unwrap();
    }
    writer.end().unwrap();
    writer.finish().unwrap();
    writer.into_bytes()
}

fn item_pairs(bytes: Vec<u8>) -> Vec<(i32, i32)> {
    let mut reader = Reader::try_new(bytes, JAVA).expect("document reads");
    let mut items: BTreeMap<usize, (Option<i32>, Option<i32>)> = BTreeMap::new();
    while reader.has_next() {
        let (path, component) = reader.next().expect("entry reads");
        if !path.starts_with("items[") {
            continue;
        }
        let close = path.find(']').expect("index closes");
        let index: usize = path[6..close].parse().expect("index parses");
        if let NbtComponent::Int(n) = component {
            if path.ends_with(".id") {
                items.entry(index).or_insert((None, None)).0 = Some(n);
            }
            if path.ends_with(".count") {
                items.entry(index).or_insert((None, None)).1 = Some(n);
            }
        }
    }
    items.into_values().map(|(id, count)| (id.unwrap(), count.unwrap())).collect()
}

fn number_order(value: &NbtValue, text: &str) -> Option<i8> {
    let expected: f64 = text.parse().ok()?;
    let actual = match value {
        NbtValue::Byte(n) => *n as f64,
        NbtValue::Short(n) => *n as f64,
        NbtValue::Int(n) => *n as f64,
        NbtValue::Long(n) => *n as f64,
        NbtValue::Float(bits) => f32::from_bits(*bits) as f64,
        NbtValue::Double(bits) => f64::from_bits(*bits),
        _ => return None,
    };
    Some(match actual.partial_cmp(&expected) {
        Some(std::cmp::Ordering::Less) => -1,
        Some(std::cmp::Ordering::Equal) => 0,
        Some(std::cmp::Ordering::Greater) => 1,
        None => 2,
    })
}

fn where_expr(raw: &str) -> Vec<WhereClause> {
    parse_where_expr(raw, &|t: &str| t.parse::<f64>().is_ok()).expect("where should parse")
}

fn holds(element: &NbtValue, clauses: &[WhereClause]) -> bool {
    where_matches_all(element, clauses, &number_order)
}

fn sample_list_of_compounds() -> NbtValue {
    NbtValue::List {
        id: tag_id::COMPOUND,
        elements: vec![
            NbtValue::Compound(vec![("id".to_string(), NbtValue::Int(123)), ("count".to_string(), NbtValue::Int(12))]),
            NbtValue::Compound(vec![
                ("id".to_string(), NbtValue::Int(123)),
                ("count".to_string(), NbtValue::Int(1000)),
            ]),
            NbtValue::Compound(vec![("id".to_string(), NbtValue::Int(456)), ("count".to_string(), NbtValue::Int(1))]),
        ],
    }
}

#[test]
fn where_expr_filters_list_compounds() {
    let clauses = where_expr("id==123&&count<999");
    let mut list = sample_list_of_compounds();
    let NbtValue::List { elements, .. } = &mut list else {
        panic!("expected list");
    };
    elements.retain(|element| !holds(element, &clauses));
    assert_eq!(elements.len(), 2);
}

#[test]
fn where_regex_matches_string_field() {
    let clauses = where_expr("name~=^foo.*");
    let element = NbtValue::Compound(vec![
        ("name".to_string(), NbtValue::String("foobar".to_string())),
        ("count".to_string(), NbtValue::Int(1)),
    ]);
    assert!(holds(&element, &clauses));
}

#[test]
fn where_ne_does_not_match_missing_field() {
    let clauses = where_expr("missing!=1");
    let element = NbtValue::Compound(vec![("id".to_string(), NbtValue::Int(123))]);
    assert!(!holds(&element, &clauses));
}

#[test]
fn where_compares_text_and_kinds() {
    let element = NbtValue::Compound(vec![
        ("name".to_string(), NbtValue::String("Steve".to_string())),
        ("hp".to_string(), NbtValue::Double(20.0f64.to_bits())),
        ("nan".to_string(), NbtValue::Float(f32::NAN.to_bits())),
    ]);
    assert!(holds(&element, &where_expr("name==\"Steve\"")));
    assert!(!holds(&element, &where_expr("name!=\"Steve\"")));
    assert!(holds(&element, &where_expr("hp>=20&&hp<=20.0&&hp>19.5")));
    assert!(!holds(&element, &where_expr("name==1")));
    assert!(!holds(&element, &where_expr("hp==\"20\"")));
    assert!(!holds(&element, &where_expr("name<1")));
    assert!(!holds(&element, &where_expr("hp~=\"2\"")));
    assert!(holds(&element, &where_expr("nan!=1")));
    assert!(!holds(&element, &where_expr("nan==1")));
    assert!(!holds(&element, &where_expr("nan<1")));
}

/// Deletes the list elements that the where expression picks, in the lists
/// that the selected paths lead to, as the editor does while streaming.
fn delete_where(path: &str, where_text: &str) -> Vec<u8> {
    let input = sample();
    let selector = parse_path_selector(path).expect("selector parses");
    let scan = scan_paths(input.clone(), JAVA, &selector).expect("scan runs");
    assert!(!scan.matched_paths.is_empty());
    let clauses = parse_where_expr(where_text, &|t: &str| t.parse::<f64>().is_ok()).expect("where parses");
    let lists = resolve_list_targets_from_scan(&scan);
    assert!(!lists.is_empty());
    let plan = Plan::Delete { targets: Vec::new(), lists: Some(lists) };
    let decide = |element: &NbtValue| holds(element, &clauses);
    let (out, counts) = transform_raw(input, JAVA, &plan, &decide).expect("edit runs");
    assert!(edit_found(&plan, &counts));
    out
}

#[test]
fn delete_where_keeps_list_and_removes_matching_compounds() {
    let pairs = item_pairs(delete_where("items", "id==123&&count<999"));
    assert_eq!(pairs.len(), 2);
    assert!(pairs.contains(&(123, 1000)));
    assert!(pairs.contains(&(456, 1)));
}

#[test]
fn delete_where_can_target_list_via_descendant_regex() {
    let pairs = item_pairs(delete_where(r"re:^items\[\d+\]\.id$", "id==123&&count<999"));
    assert_eq!(pairs.len(), 2);
    assert!(pairs.contains(&(123, 1000)));
    assert!(pairs.contains(&(456, 1)));
}

#[test]
fn delete_where_on_list_path_does_not_remove_list_container() {
    let pairs = item_pairs(delete_where(r"re:^items$", "id==123&&count<999"));
    assert_eq!(pairs.len(), 2);
    assert!(pairs.contains(&(123, 1000)));
    assert!(pairs.contains(&(456, 1)));
}

#[test]
fn delete_where_in_memory_removes_picked_compounds() {
    let clauses = where_expr("id==123&&count<999");
    let decide = |element: &NbtValue| holds(element, &clauses);
    let mut document = NbtValue::Compound(vec![
        ("items".to_string(), sample_list_of_compounds()),
        ("nums".to_string(), NbtValue::List { id: tag_id::INT, elements: vec![NbtValue::Int(1)] }),
        ("name".to_string(), NbtValue::String("x".to_string())),
    ]);
    let lists = vec![parse_path("items").unwrap(), parse_path("nums").unwrap()];
    assert_eq!(delete_where_in_lists(&mut document, &lists, &decide), Ok(1));
    match &document {
        NbtValue::Compound(fields) => match &fields[0].1 {
            NbtValue::List { elements, .. } => assert_eq!(elements.len(), 2),
            _ => panic!("items stays a list"),
        },
        _ => panic!("root stays a compound"),
    }

    let all = |_: &NbtValue| true;
    let mut document = NbtValue::Compound(vec![("items".to_string(), sample_list_of_compounds())]);
    assert_eq!(delete_where_in_lists(&mut document, &vec![parse_path("items").unwrap()], &all), Ok(3));
    assert_eq!(
        format!("{:?}", document),
        format!("{:?}", NbtValue::Compound(vec![("items".to_string(), NbtValue::List { id: tag_id::END, elements: vec![] })]))
    );

    let mut document = NbtValue::Compound(vec![("name".to_string(), NbtValue::String("x".to_string()))]);
    assert_eq!(
        delete_where_in_lists(&mut document, &vec![parse_path("name").unwrap()], &all),
        Err("path is not a list: name".to_string())
    );
    assert_eq!(
        delete_where_in_lists(&mut document, &vec![parse_path("gone").unwrap()], &all),
        Err("path not found during delete: field not found: gone".to_string())
    );
}
