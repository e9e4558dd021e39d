use nbtx::delete_run::{delete_matched, stream_delete_plan};
use nbtx::edit::{create_at_path, delete_at_path, delete_paths, find_ref, replace_at_path};
use nbtx::path::parse_path;
use nbtx::stream::Plan;
use nbtx::tag_id;
use nbtx::tree::NbtValue;

fn doc() -> NbtValue {
    NbtValue::Compound(vec![
        (
            "items".to_string(),
            NbtValue::List {
                id: tag_id::INT,
                elements: vec![NbtValue::Int(1), NbtValue::Int(2), NbtValue::Int(3)],
            },
        ),
        ("name".to_string(), NbtValue::String("x".to_string())),
        ("name".to_string(), NbtValue::String("y".to_string())),
    ])
}

fn show(v: &NbtValue) -> String {
    format!("{:?}", v)
}

#[test]
fn find_and_replace() {
    let mut d = doc();
    let found = find_ref(&d, &parse_path("items[1]").unwrap()).expect("element exists");
    assert_eq!(show(found), show(&NbtValue::Int(2)));
    assert_eq!(find_ref(&d, &parse_path("items[5]").unwrap()).unwrap_err(), "list index out of range: 5");
    assert_eq!(find_ref(&d, &parse_path("nope").unwrap()).unwrap_err(), "field not found: nope");
    assert_eq!(find_ref(&d, &parse_path("name.x").unwrap()).unwrap_err(), "path expects compound field 'x'");
    assert_eq!(find_ref(&d, &parse_path("name[0]").unwrap()).unwrap_err(), "path expects list index [0]");
    replace_at_path(&mut d, &parse_path("items[0]").unwrap(), NbtValue::Int(10)).unwrap();
    let found = find_ref(&d, &parse_path("items[0]").unwrap()).unwrap();
    assert_eq!(show(found), show(&NbtValue::Int(10)));
}

#[test]
fn delete_groups_by_parent() {
    let mut d = doc();
    let deleted = delete_paths(
        &mut d,
        vec![parse_path("items[0]").unwrap(), parse_path("items[2]").unwrap(), parse_path("name").unwrap()],
    )
    .expect("deletes");
    assert_eq!(deleted, 4);
    let expected = NbtValue::Compound(vec![(
        "items".to_string(),
        NbtValue::List { id: tag_id::INT, elements: vec![NbtValue::Int(2)] },
    )]);
    assert_eq!(show(&d), show(&expected));
    let deleted = delete_paths(&mut d, vec![parse_path("items[0]").unwrap()]).unwrap();
    assert_eq!(deleted, 1);
    let expected = NbtValue::Compound(vec![(
        "items".to_string(),
        NbtValue::List { id: tag_id::END, elements: vec![] },
    )]);
    assert_eq!(show(&d), show(&expected));
}

#[test]
fn delete_errors() {
    let mut d = doc();
    assert_eq!(delete_paths(&mut d, vec![]).unwrap(), 0);
    assert_eq!(delete_paths(&mut d, vec![vec![]]).unwrap_err(), "cannot delete root value");
    assert_eq!(
        delete_paths(&mut d, vec![parse_path("items[3]").unwrap()]).unwrap_err(),
        "list index out of range: 3"
    );
    assert_eq!(
        delete_paths(&mut d, vec![parse_path("items.x").unwrap()]).unwrap_err(),
        "cannot delete compound field from list parent"
    );
    assert_eq!(
        delete_paths(&mut d, vec![parse_path("[0]").unwrap()]).unwrap_err(),
        "cannot delete list index from compound parent"
    );
    assert_eq!(
        delete_paths(&mut d, vec![parse_path("name.a").unwrap()]).unwrap_err(),
        "delete target parent is not compound or list"
    );
    assert_eq!(show(&d), show(&doc()));
}

#[test]
fn create_makes_containers_on_the_way() {
    let mut d = NbtValue::Compound(vec![]);
    create_at_path(&mut d, &parse_path("a.b[0].c").unwrap(), NbtValue::Int(5)).expect("creates");
    let expected = NbtValue::Compound(vec![(
        "a".to_string(),
        NbtValue::Compound(vec![(
            "b".to_string(),
            NbtValue::List {
                id: tag_id::COMPOUND,
                elements: vec![NbtValue::Compound(vec![("c".to_string(), NbtValue::Int(5))])],
            },
        )]),
    )]);
    assert_eq!(show(&d), show(&expected));
    assert_eq!(
        create_at_path(&mut d, &parse_path("a.b[0].c").unwrap(), NbtValue::Int(6)).unwrap_err(),
        "path already exists: c"
    );
    assert_eq!(
        create_at_path(&mut d, &parse_path("a.b[2]").unwrap(), NbtValue::Int(6)).unwrap_err(),
        "cannot create sparse list index: 2"
    );
    assert_eq!(
        create_at_path(&mut d, &parse_path("a.b[1]").unwrap(), NbtValue::Int(6)).unwrap_err(),
        "list element type mismatch, expected id 10, got 3"
    );
    assert_eq!(create_at_path(&mut d, &[], NbtValue::Int(6)).unwrap_err(), "path cannot be empty");
}

#[test]
fn a_read_after_a_write_gives_what_was_written() {
    let mut d = doc();
    let p = parse_path("items[1]").unwrap();
    replace_at_path(&mut d, &p, NbtValue::Int(42)).unwrap();
    assert_eq!(show(find_ref(&d, &p).unwrap()), show(&NbtValue::Int(42)));

    let q = parse_path("extra[0].deep").unwrap();
    create_at_path(&mut d, &q, NbtValue::Byte(5)).unwrap();
    assert_eq!(show(find_ref(&d, &q).unwrap()), show(&NbtValue::Byte(5)));
}

#[test]
fn delete_at_path_removes_one_value() {
    let mut d = doc();
    delete_at_path(&mut d, &parse_path("items[1]").unwrap()).unwrap();
    delete_at_path(&mut d, &parse_path("name").unwrap()).unwrap();
    let expected = NbtValue::Compound(vec![
        (
            "items".to_string(),
            NbtValue::List { id: tag_id::INT, elements: vec![NbtValue::Int(1), NbtValue::Int(3)] },
        ),
        ("name".to_string(), NbtValue::String("y".to_string())),
    ]);
    assert_eq!(show(&d), show(&expected));

    let mut one = NbtValue::Compound(vec![(
        "l".to_string(),
        NbtValue::List { id: tag_id::INT, elements: vec![NbtValue::Int(1)] },
    )]);
    delete_at_path(&mut one, &parse_path("l[0]").unwrap()).unwrap();
    assert_eq!(show(find_ref(&one, &parse_path("l").unwrap()).unwrap()), show(&NbtValue::List { id: tag_id::END, elements: vec![] }));
}

#[test]
fn delete_at_path_errors() {
    let mut d = doc();
    assert_eq!(delete_at_path(&mut d, &[]), Err("cannot delete root value".to_string()));
    assert_eq!(delete_at_path(&mut d, &parse_path("nope").unwrap()), Err("field not found: nope".to_string()));
    assert_eq!(delete_at_path(&mut d, &parse_path("items[9]").unwrap()), Err("list index out of range: 9".to_string()));
    assert_eq!(delete_at_path(&mut d, &parse_path("name[0]").unwrap()), Err("path expects list index [0]".to_string()));
    assert_eq!(show(&d), show(&doc()));
}

#[test]
fn deleting_what_was_created_gives_the_tree_back() {
    let original = show(&doc());

    let mut d = doc();
    create_at_path(&mut d, &parse_path("fresh").unwrap(), NbtValue::Int(7)).expect("new field");
    assert_ne!(show(&d), original);
    delete_at_path(&mut d, &parse_path("fresh").unwrap()).expect("field deleted");
    assert_eq!(show(&d), original);

    let mut d = doc();
    create_at_path(&mut d, &parse_path("items[3]").unwrap(), NbtValue::Int(4)).expect("new element");
    delete_at_path(&mut d, &parse_path("items[3]").unwrap()).expect("element deleted");
    assert_eq!(show(&d), original);

    // an empty list of a kind other than TAG_End becomes a TAG_End list
    let mut d = NbtValue::Compound(vec![("l".to_string(), NbtValue::List { id: tag_id::INT, elements: vec![] })]);
    create_at_path(&mut d, &parse_path("l[0]").unwrap(), NbtValue::Int(1)).expect("first element");
    delete_at_path(&mut d, &parse_path("l[0]").unwrap()).expect("element deleted");
    assert_eq!(show(&d), show(&NbtValue::Compound(vec![("l".to_string(), NbtValue::List { id: tag_id::END, elements: vec![] })])));
}

#[test]
fn delete_matched_keeps_the_most_specific_paths() {
    let mut d = doc();
    let matched = vec![parse_path("items").unwrap(), parse_path("items[0]").unwrap()];
    assert_eq!(delete_matched(&mut d, matched), Ok(1));
    let expected = NbtValue::List { id: tag_id::INT, elements: vec![NbtValue::Int(2), NbtValue::Int(3)] };
    assert_eq!(show(find_ref(&d, &parse_path("items").unwrap()).unwrap()), show(&expected));

    let mut d = doc();
    assert_eq!(delete_matched(&mut d, vec![]), Err(None));
    assert_eq!(show(&d), show(&doc()));
    assert_eq!(delete_matched(&mut d, vec![vec![]]), Err(Some("cannot delete root value".to_string())));
    assert_eq!(delete_matched(&mut d, vec![parse_path("nope").unwrap()]), Err(None));
    assert_eq!(
        delete_matched(&mut d, vec![parse_path("nope.x").unwrap()]),
        Err(Some("field not found: nope".to_string()))
    );
    assert_eq!(show(&d), show(&doc()));
}

#[test]
fn stream_delete_plan_names_the_kept_path_texts() {
    let matched = vec![parse_path("name").unwrap(), parse_path("items[1]").unwrap(), parse_path("items").unwrap()];
    match stream_delete_plan(matched) {
        Ok(Plan::Delete { targets, lists }) => {
            assert_eq!(targets, vec!["items[1]".to_string(), "name".to_string()]);
            assert!(lists.is_none());
        }
        _ => panic!("a delete plan"),
    }
    assert!(matches!(stream_delete_plan(vec![]), Err(None)));
    assert!(matches!(stream_delete_plan(vec![vec![]]), Err(Some(e)) if e == "cannot delete root value"));
}
