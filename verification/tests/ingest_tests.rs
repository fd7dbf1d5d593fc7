use nt4_logging::float_bits::{f32_bits_to_f64_bits, i32_to_f64_bits};
use nt4_logging::ingest::{ingest_struct, ingest_struct_array, process_schema_topic,
    schema_topic_suffix};
use nt4_logging::log_store::LogStore;
use nt4_logging::schema::SchemaRegistry;
use nt4_logging::strutil::{is_space, str_eq};

fn bits(x: f64) -> u64 {
    x.to_bits()
}

#[test]
fn schema_prefix_is_recognized() {
    assert_eq!(schema_topic_suffix("/.schema/struct:Pose2d"), Some("struct:Pose2d"));
    assert_eq!(schema_topic_suffix("/.schema/"), Some(""));
    assert_eq!(schema_topic_suffix("/robot/pose"), None);
    assert_eq!(schema_topic_suffix("short"), None);
}

#[test]
fn schema_topics_feed_the_registry() {
    let mut reg = SchemaRegistry::new();
    assert!(process_schema_topic(
        &mut reg,
        "/.schema/struct:Pose2d",
        "double x; double y;"
    ));
    assert!(!process_schema_topic(&mut reg, "/robot/pose", "double x;"));
    let s = reg.get("struct:Pose2d").expect("schema registered");
    assert_eq!(s.name, "struct:Pose2d");
    assert_eq!(s.fields.len(), 2);
    assert_eq!(s.size, 16);
}

#[test]
fn struct_payload_fans_out_into_flattened_topics() {
    let mut reg = SchemaRegistry::new();
    process_schema_topic(&mut reg, "/.schema/struct:Pose2d", "double x; double y;");
    let mut store = LogStore::new();
    let mut data: Vec<u8> = Vec::new();
    data.extend_from_slice(&8.0f64.to_le_bytes());
    data.extend_from_slice(&3.0f64.to_le_bytes());
    let wrote = ingest_struct(&mut store, &reg, "/robot/pose", "Pose2d", 100, &data);
    assert_eq!(wrote, 2);
    assert_eq!(store.get_raw("/robot/pose", 100), Some(data.clone()));
    assert_eq!(store.get_double("/robot/pose/x", 100, bits(0.0)), bits(8.0));
    assert_eq!(store.get_double("/robot/pose/y", 100, bits(0.0)), bits(3.0));
    let info = store.get_topics_info();
    assert!(info.contains(&("/robot/pose".to_string(), "struct:Pose2d".to_string())));
}

#[test]
fn struct_payload_without_schema_stores_raw_only() {
    let reg = SchemaRegistry::new();
    let mut store = LogStore::new();
    let data = vec![1u8, 2, 3, 4];
    let wrote = ingest_struct(&mut store, &reg, "/t", "Unknown", 5, &data);
    assert_eq!(wrote, 0);
    assert_eq!(store.get_raw("/t", 5), Some(data));
    assert!(!store.has_topic("/t/x"));
}

#[test]
fn mixed_struct_fields_convert_to_store_kinds() {
    // Floats widen exactly, integers become doubles, booleans pass.
    let mut reg = SchemaRegistry::new();
    process_schema_topic(
        &mut reg,
        "/.schema/struct:Mix",
        "float f; bool armed; int32 count;",
    );
    let mut store = LogStore::new();
    let mut data: Vec<u8> = Vec::new();
    data.extend_from_slice(&1.5f32.to_le_bytes());
    data.push(1);
    data.extend_from_slice(&(-7i32).to_le_bytes());
    ingest_struct(&mut store, &reg, "/m", "Mix", 10, &data);
    assert_eq!(store.get_double("/m/f", 10, bits(0.0)), bits(1.5));
    assert_eq!(store.get_boolean("/m/armed", 10, false), true);
    assert_eq!(store.get_double("/m/count", 10, bits(0.0)), bits(-7.0));
}

#[test]
fn three_record_struct_array_becomes_two_columns() {
    // A buffer of 3 records of a 2-field, 8-byte schema decodes into
    // two arrays of length 3, one array-typed update per field.
    let mut reg = SchemaRegistry::new();
    process_schema_topic(&mut reg, "/.schema/struct:P", "float a; int32 b;");
    let mut store = LogStore::new();
    let mut data: Vec<u8> = Vec::new();
    for i in 0..3 {
        data.extend_from_slice(&(i as f32).to_le_bytes());
        data.extend_from_slice(&(10 * i as i32).to_le_bytes());
    }
    assert_eq!(data.len(), 24);
    ingest_struct_array(&mut store, &reg, "/arr", "P", 50, &data);
    assert_eq!(store.get_raw("/arr", 50), Some(data));
    let a = store.get_double_array("/arr/a", 50, vec![]);
    assert_eq!(a, vec![bits(0.0), bits(1.0), bits(2.0)]);
    // An integer-first column is dropped, as the element-kind inference
    // only admits float-like and boolean columns.
    assert!(!store.has_topic("/arr/b"));
    let info = store.get_topics_info();
    assert!(info.contains(&("/arr".to_string(), "struct:P[]".to_string())));
}

#[test]
fn boolean_struct_array_column() {
    let mut reg = SchemaRegistry::new();
    process_schema_topic(&mut reg, "/.schema/struct:B", "bool up;");
    let mut store = LogStore::new();
    let data = vec![1u8, 0, 1];
    ingest_struct_array(&mut store, &reg, "/b", "B", 7, &data);
    assert_eq!(store.get_boolean_array("/b/up", 7, vec![]), vec![true, false, true]);
}

#[test]
fn trailing_partial_record_is_ignored() {
    let mut reg = SchemaRegistry::new();
    process_schema_topic(&mut reg, "/.schema/struct:D", "double v;");
    let mut store = LogStore::new();
    let mut data: Vec<u8> = Vec::new();
    data.extend_from_slice(&1.0f64.to_le_bytes());
    data.extend_from_slice(&[1, 2, 3]);
    ingest_struct_array(&mut store, &reg, "/d", "D", 1, &data);
    assert_eq!(store.get_double_array("/d/v", 1, vec![]), vec![bits(1.0)]);
}

#[test]
fn float_widening_is_exact() {
    for x in [
        0.0f32,
        -0.0,
        1.0,
        -1.5,
        3.14159274,
        f32::MIN_POSITIVE,
        f32::MAX,
        f32::MIN,
        1.0e-40, // subnormal
        -1.0e-42,
        f32::INFINITY,
        f32::NEG_INFINITY,
    ] {
        assert_eq!(
            f32_bits_to_f64_bits(x.to_bits()),
            (x as f64).to_bits(),
            "widening {x}"
        );
    }
    // A NaN widens to a NaN.
    let widened = f64::from_bits(f32_bits_to_f64_bits(f32::NAN.to_bits()));
    assert!(widened.is_nan());
}

#[test]
fn i32_conversion_is_exact() {
    for v in [0i32, 1, -1, 7, -7, 1000000, i32::MAX, i32::MIN] {
        assert_eq!(i32_to_f64_bits(v), (v as f64).to_bits(), "converting {v}");
    }
}

#[test]
fn string_helpers() {
    assert!(str_eq("abc", "abc"));
    assert!(!str_eq("abc", "abd"));
    assert!(!str_eq("abc", "ab"));
    assert!(str_eq("", ""));
    assert!(is_space(' '));
    assert!(is_space('\t'));
    assert!(is_space('\u{2028}'));
    assert!(!is_space('a'));
}

#[test]
fn str_eq_handles_multibyte_characters() {
    assert!(str_eq("héllo", "héllo"));
    assert!(!str_eq("héllo", "hello"));
    assert!(!str_eq("日本", "日本語"));
}
