use console_core::fields::{
    format_location, truncate_registry_path, u64_to_dec, i64_to_dec, Field, FieldValue, Location,
    Metadata, WireField, WireMetadata, WireName, WireValue,
};
use console_core::intern::Strings;

fn meta(id: u64, target: &str, names: &[&str]) -> (Metadata, Strings) {
    let mut strings = Strings::new();
    let wire = WireMetadata {
        target: target.to_string(),
        field_names: names.iter().map(|n| n.to_string()).collect(),
    };
    let m = Metadata::from_proto(wire, id, &mut strings);
    (m, strings)
}

#[test]
fn decode_resolves_indexed_name() {
    let (m, mut strings) = meta(1, "mod", &["task.name", "x"]);
    let wf = WireField {
        name: Some(WireName::Index(0)),
        metadata_id: Some(1),
        value: Some(WireValue::Str("worker".to_string())),
    };
    let f = Field::from_proto(wf, &m, &mut strings).expect("field should decode");
    assert_eq!(f.name.text, "task.name");
    assert_eq!(f.value.render(), "worker");
}

#[test]
fn decode_resolves_inline_name() {
    let (m, mut strings) = meta(1, "mod", &[]);
    let wf = WireField {
        name: Some(WireName::Str("custom".to_string())),
        metadata_id: Some(1),
        value: Some(WireValue::U64(7)),
    };
    let f = Field::from_proto(wf, &m, &mut strings).expect("field should decode");
    assert_eq!(f.name.text, "custom");
    assert_eq!(f.value.render(), "7");
}

#[test]
fn decode_drops_metadata_id_mismatch() {
    let (m, mut strings) = meta(1, "mod", &["task.name"]);
    let wf = WireField {
        name: Some(WireName::Index(0)),
        metadata_id: Some(2),
        value: Some(WireValue::U64(7)),
    };
    assert!(Field::from_proto(wf, &m, &mut strings).is_none());
}

#[test]
fn decode_drops_missing_metadata_id_for_indexed_name() {
    let (m, mut strings) = meta(1, "mod", &["task.name"]);
    let wf = WireField {
        name: Some(WireName::Index(0)),
        metadata_id: None,
        value: Some(WireValue::U64(7)),
    };
    assert!(Field::from_proto(wf, &m, &mut strings).is_none());
}

#[test]
fn decode_drops_out_of_range_index() {
    let (m, mut strings) = meta(1, "mod", &["task.name"]);
    let wf = WireField {
        name: Some(WireName::Index(5)),
        metadata_id: Some(1),
        value: Some(WireValue::U64(7)),
    };
    assert!(Field::from_proto(wf, &m, &mut strings).is_none());
}

#[test]
fn decode_drops_empty_string_values() {
    let (m, mut strings) = meta(1, "mod", &["a", "b"]);
    let wf = WireField {
        name: Some(WireName::Index(0)),
        metadata_id: Some(1),
        value: Some(WireValue::Str(String::new())),
    };
    assert!(Field::from_proto(wf, &m, &mut strings).is_none());
    let wf = WireField {
        name: Some(WireName::Index(1)),
        metadata_id: Some(1),
        value: Some(WireValue::Debug(String::new())),
    };
    assert!(Field::from_proto(wf, &m, &mut strings).is_none());
}

#[test]
fn decode_drops_missing_name_or_value() {
    let (m, mut strings) = meta(1, "mod", &["a"]);
    let wf = WireField {
        name: None,
        metadata_id: Some(1),
        value: Some(WireValue::U64(1)),
    };
    assert!(Field::from_proto(wf, &m, &mut strings).is_none());
    let wf = WireField {
        name: Some(WireName::Index(0)),
        metadata_id: Some(1),
        value: None,
    };
    assert!(Field::from_proto(wf, &m, &mut strings).is_none());
}

#[test]
fn decode_preserves_nonempty_values() {
    let (m, mut strings) = meta(1, "mod", &["a"]);
    let wf = WireField {
        name: Some(WireName::Index(0)),
        metadata_id: Some(1),
        value: Some(WireValue::Str("hello".to_string())),
    };
    let f = Field::from_proto(wf, &m, &mut strings).unwrap();
    assert!(matches!(f.value, FieldValue::Str(_)));
    assert_eq!(f.value.render(), "hello");
}

#[test]
fn spawn_location_truncates_registry_path() {
    let (m, mut strings) = meta(1, "mod", &["spawn.location"]);
    let path = "/home/u/.cargo/registry/src/github.com-1ecc6299db9ec823/tokio-1.0.0/src/task.rs";
    let wf = WireField {
        name: Some(WireName::Index(0)),
        metadata_id: Some(1),
        value: Some(WireValue::Str(path.to_string())),
    };
    let f = Field::from_proto(wf, &m, &mut strings).unwrap();
    // the value is re-tagged as opaque text, with the cache prefix aliased
    assert!(matches!(f.value, FieldValue::Debug(_)));
    assert_eq!(f.value.render(), "<cargo>/tokio-1.0.0/src/task.rs");
}

#[test]
fn spawn_location_truncates_git_checkout_path() {
    let got = truncate_registry_path(
        "/home/u/.cargo/git/checkouts/console-abc123/src/lib.rs".to_string(),
    );
    assert_eq!(got, "<cargo>/console-abc123/src/lib.rs");
}

#[test]
fn truncate_leaves_other_paths_alone() {
    let got = truncate_registry_path("/home/u/project/src/main.rs".to_string());
    assert_eq!(got, "/home/u/project/src/main.rs");
}

#[test]
fn non_spawn_location_paths_are_not_truncated() {
    let (m, mut strings) = meta(1, "mod", &["some.file"]);
    let path = "/home/u/.cargo/registry/src/github.com-1ecc6299db9ec823/tokio-1.0.0/src/task.rs";
    let wf = WireField {
        name: Some(WireName::Index(0)),
        metadata_id: Some(1),
        value: Some(WireValue::Str(path.to_string())),
    };
    let f = Field::from_proto(wf, &m, &mut strings).unwrap();
    assert_eq!(f.value.render(), path);
}

#[test]
fn formatting_sorts_name_first_location_last() {
    let (m, mut strings) = meta(
        1,
        "mod",
        &["zebra", "task.name", "alpha", "spawn.location"],
    );
    let mut fields = Vec::new();
    for (i, v) in ["z", "worker", "a", "loc"].iter().enumerate() {
        let wf = WireField {
            name: Some(WireName::Index(i as u64)),
            metadata_id: Some(1),
            value: Some(WireValue::Str(v.to_string())),
        };
        fields.push(Field::from_proto(wf, &m, &mut strings).unwrap());
    }
    let rows = Field::make_formatted(&mut fields);
    assert_eq!(
        rows,
        vec![
            "task.name=worker ".to_string(),
            "alpha=a ".to_string(),
            "zebra=z ".to_string(),
            "spawn.location=loc ".to_string(),
        ]
    );
}

#[test]
fn formatting_is_invariant_under_input_order() {
    let (m, mut strings) = meta(1, "mod", &["b", "task.name", "a"]);
    let build = |order: &[usize], strings: &mut Strings| -> Vec<String> {
        let vals = ["bee", "worker", "ay"];
        let mut fields = Vec::new();
        for &i in order {
            let wf = WireField {
                name: Some(WireName::Index(i as u64)),
                metadata_id: Some(1),
                value: Some(WireValue::Str(vals[i].to_string())),
            };
            fields.push(Field::from_proto(wf, &m, strings).unwrap());
        }
        Field::make_formatted(&mut fields)
    };
    let a = build(&[0, 1, 2], &mut strings);
    let b = build(&[2, 0, 1], &mut strings);
    let c = build(&[1, 2, 0], &mut strings);
    assert_eq!(a, b);
    assert_eq!(a, c);
    assert_eq!(a[0], "task.name=worker ");
}

#[test]
fn values_render_exactly() {
    assert_eq!(u64_to_dec(0), "0");
    assert_eq!(u64_to_dec(5), "5");
    assert_eq!(u64_to_dec(1234567890), "1234567890");
    assert_eq!(u64_to_dec(u64::MAX), "18446744073709551615");
    assert_eq!(i64_to_dec(-42), "-42");
    assert_eq!(i64_to_dec(0), "0");
    assert_eq!(i64_to_dec(i64::MIN), "-9223372036854775808");
    assert_eq!(FieldValue::Bool(true).render(), "true");
    assert_eq!(FieldValue::Bool(false).render(), "false");
    assert_eq!(FieldValue::I64(-7).render(), "-7");
    assert_eq!(FieldValue::Debug("dbg".to_string()).render(), "dbg");
}

#[test]
fn ensure_nonempty_filters_only_empty_text() {
    assert!(FieldValue::Str(String::new()).ensure_nonempty().is_none());
    assert!(FieldValue::Debug(String::new()).ensure_nonempty().is_none());
    assert!(FieldValue::Str("x".to_string()).ensure_nonempty().is_some());
    assert!(FieldValue::U64(0).ensure_nonempty().is_some());
    assert!(FieldValue::Bool(false).ensure_nonempty().is_some());
}

#[test]
fn location_formats_module_over_file() {
    let loc = Location {
        file: Some("/x/y.rs".to_string()),
        module: Some("app::web".to_string()),
        line: Some(10),
        column: Some(5),
    };
    assert_eq!(format_location(Some(loc)), "app::web:10:5 ");
}

#[test]
fn location_formats_truncated_file() {
    let loc = Location {
        file: Some(
            "/h/.cargo/registry/src/github.com-1ecc6299db9ec823/tokio-1.0.0/src/task.rs"
                .to_string(),
        ),
        module: None,
        line: Some(3),
        column: None,
    };
    assert_eq!(format_location(Some(loc)), "<cargo>/tokio-1.0.0/src/task.rs:3 ");
}

#[test]
fn location_formats_unknown() {
    assert_eq!(format_location(None), "<unknown location>");
    let loc = Location { file: None, module: None, line: Some(3), column: Some(4) };
    assert_eq!(format_location(Some(loc)), "<unknown location> ");
}

#[test]
fn interning_canonicalizes_and_counts() {
    let mut strings = Strings::new();
    let a = strings.intern("alpha".to_string());
    let b = strings.intern("alpha".to_string());
    assert_eq!(a.id, b.id);
    assert_eq!(strings.refs_of(&"alpha".to_string()), Some(2));
    let c = strings.intern("beta".to_string());
    assert_ne!(a.id, c.id);
}

#[test]
fn sole_reference_is_swept_shared_reference_survives() {
    let mut strings = Strings::new();
    let a = strings.intern("shared".to_string());
    let _b = strings.intern("shared".to_string());
    let c = strings.intern("sole".to_string());
    // one of the two holders of "shared" lets go, the only holder of "sole" too
    strings.release(a.id);
    strings.release(c.id);
    strings.sweep();
    assert!(strings.contains_text(&"shared".to_string()));
    assert!(!strings.contains_text(&"sole".to_string()));
}
