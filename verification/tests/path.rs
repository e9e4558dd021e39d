use nbtx::path::{
    append_field_path, append_index_path, is_ancestor_path, normalize_delete_paths, parse_path, path_segments_to_string,
    PathSegment,
};

#[test]
fn normalize_delete_paths_prefers_more_specific_match() {
    let broad = parse_path("items").expect("path should parse");
    let specific = parse_path("items[0].id").expect("path should parse");
    let normalized = normalize_delete_paths(vec![broad, specific.clone()]);
    assert_eq!(normalized, vec![specific]);
}

#[test]
fn parse_path_reads_fields_and_indices() {
    let segments = parse_path("a.b[2].c").expect("path should parse");
    assert_eq!(
        segments,
        vec![
            PathSegment::Field("a".to_string()),
            PathSegment::Field("b".to_string()),
            PathSegment::Index(2),
            PathSegment::Field("c".to_string()),
        ]
    );
    assert_eq!(parse_path("").unwrap(), Vec::<PathSegment>::new());
    assert_eq!(
        parse_path("[0][1]").unwrap(),
        vec![PathSegment::Index(0), PathSegment::Index(1)]
    );
    assert_eq!(
        parse_path("a[0].b").unwrap(),
        vec![PathSegment::Field("a".to_string()), PathSegment::Index(0), PathSegment::Field("b".to_string())]
    );
    assert_eq!(parse_path("a[+7]").unwrap_err(), "invalid list index near position 2");
}

#[test]
fn parse_path_errors() {
    assert_eq!(parse_path(".a").unwrap_err(), "invalid path near position 0");
    assert_eq!(parse_path("a[]").unwrap_err(), "invalid list index near position 2");
    assert_eq!(parse_path("a[1").unwrap_err(), "invalid list index near position 2");
    assert_eq!(parse_path("a[1x]").unwrap_err(), "invalid list index near position 2");
    assert_eq!(
        parse_path("a[99999999999999999999999]").unwrap_err(),
        "invalid list index near position 2"
    );
}

#[test]
fn rendering_and_reading_back() {
    let segments = vec![
        PathSegment::Field("Rank".to_string()),
        PathSegment::Field("Names".to_string()),
        PathSegment::Index(12),
        PathSegment::Field("first".to_string()),
    ];
    let text = path_segments_to_string(&segments);
    assert_eq!(text, "Rank.Names[12].first");
    assert_eq!(parse_path(&text).unwrap(), segments);
    assert_eq!(append_field_path("", "a"), "a");
    assert_eq!(append_field_path("a", "b"), "a.b");
    assert_eq!(append_index_path("a", 3), "a[3]");
}

#[test]
fn normalize_orders_and_keeps_most_specific() {
    let paths = vec![
        parse_path("b").unwrap(),
        parse_path("a").unwrap(),
        parse_path("a.x").unwrap(),
        parse_path("c[1]").unwrap(),
        parse_path("a").unwrap(),
    ];
    let normalized = normalize_delete_paths(paths);
    assert_eq!(
        normalized,
        vec![
            parse_path("a.x").unwrap(),
            parse_path("c[1]").unwrap(),
            parse_path("b").unwrap(),
        ]
    );
    assert!(is_ancestor_path(&parse_path("a").unwrap(), &parse_path("a.x").unwrap()));
    assert!(!is_ancestor_path(&parse_path("a.x").unwrap(), &parse_path("a").unwrap()));
}

#[test]
fn rendered_paths_parse_back() {
    for text in ["a", "a.b", "list[2].name", "[0][1]", "x[10].y.z[3]", "Rank.Winner", "NameList[2]"] {
        let segs = parse_path(text).unwrap();
        let shown = path_segments_to_string(&segs);
        assert_eq!(shown, text);
        assert_eq!(parse_path(&shown).unwrap(), segs);
    }
}

#[test]
fn parse_path_takes_any_field_name_before_an_index() {
    assert_eq!(
        parse_path("éé[10]").unwrap(),
        vec![PathSegment::Field("éé".to_string()), PathSegment::Index(10)]
    );
    assert_eq!(
        parse_path("名前.é[3].ü").unwrap(),
        vec![
            PathSegment::Field("名前".to_string()),
            PathSegment::Field("é".to_string()),
            PathSegment::Index(3),
            PathSegment::Field("ü".to_string()),
        ]
    );
    assert_eq!(parse_path("é[x]").unwrap_err(), "invalid list index near position 2");
}
