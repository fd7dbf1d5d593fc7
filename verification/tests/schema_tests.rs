use nt4_logging::schema::{calculate_size, decode_struct, Schema, SchemaRegistry, StructValue};

#[test]
fn parses_type_name_statements() {
    let s = Schema::new("Pose2d".to_string(), "double x; double y;");
    assert_eq!(s.name, "Pose2d");
    assert_eq!(s.fields.len(), 2);
    assert_eq!(s.fields[0].type_str, "double");
    assert_eq!(s.fields[0].name, "x");
    assert_eq!(s.fields[0].array_size, None);
    assert_eq!(s.fields[1].type_str, "double");
    assert_eq!(s.fields[1].name, "y");
    assert_eq!(s.size, 16);
}

#[test]
fn skips_malformed_statements() {
    // A statement with fewer than two tokens is skipped, extra tokens
    // are ignored, and surrounding whitespace does not matter.
    let s = Schema::new("S".to_string(), "  double   x ;; bool ;\tint32 count extra; ");
    assert_eq!(s.fields.len(), 2);
    assert_eq!(s.fields[0].type_str, "double");
    assert_eq!(s.fields[0].name, "x");
    assert_eq!(s.fields[1].type_str, "int32");
    assert_eq!(s.fields[1].name, "count");
    assert_eq!(s.size, 12);
}

#[test]
fn empty_definition_yields_no_fields() {
    let s = Schema::new("E".to_string(), "");
    assert_eq!(s.fields.len(), 0);
    assert_eq!(s.size, 0);
}

#[test]
fn type_size_table() {
    assert_eq!(Schema::get_type_size("double"), 8);
    assert_eq!(Schema::get_type_size("float64"), 8);
    assert_eq!(Schema::get_type_size("float"), 4);
    assert_eq!(Schema::get_type_size("float32"), 4);
    assert_eq!(Schema::get_type_size("bool"), 1);
    assert_eq!(Schema::get_type_size("boolean"), 1);
    assert_eq!(Schema::get_type_size("int8"), 1);
    assert_eq!(Schema::get_type_size("uint8"), 1);
    assert_eq!(Schema::get_type_size("int16"), 2);
    assert_eq!(Schema::get_type_size("uint16"), 2);
    assert_eq!(Schema::get_type_size("int32"), 4);
    assert_eq!(Schema::get_type_size("uint32"), 4);
    assert_eq!(Schema::get_type_size("int"), 4);
    assert_eq!(Schema::get_type_size("int64"), 8);
    assert_eq!(Schema::get_type_size("uint64"), 8);
    assert_eq!(Schema::get_type_size("long"), 8);
    assert_eq!(Schema::get_type_size("Rotation2d"), 0);
}

#[test]
fn unknown_types_count_zero_at_parse_time() {
    let s = Schema::new("Pose".to_string(), "Translation2d t; double rot;");
    assert_eq!(s.size, 8);
}

#[test]
fn registry_resolves_nested_sizes() {
    let mut reg = SchemaRegistry::new();
    let inner = Schema::new("Translation2d".to_string(), "double x; double y;");
    let outer = Schema::new("Pose2d".to_string(), "Translation2d translation; double rotation;");
    reg.insert("Translation2d".to_string(), inner);
    let size = calculate_size(&outer, &reg);
    assert_eq!(size, 24);
}

#[test]
fn unresolved_nested_size_is_zero() {
    let reg = SchemaRegistry::new();
    let outer = Schema::new("Pose2d".to_string(), "Translation2d translation;");
    assert_eq!(calculate_size(&outer, &reg), 0);
}

#[test]
fn registry_redefinition_wins_silently() {
    let mut reg = SchemaRegistry::new();
    reg.insert("S".to_string(), Schema::new("S".to_string(), "double x;"));
    reg.insert("S".to_string(), Schema::new("S".to_string(), "double x; double y;"));
    let s = reg.get("S").expect("registered");
    assert_eq!(s.fields.len(), 2);
    reg.clear();
    assert!(reg.get("S").is_none());
}

#[test]
fn pose2d_scenario_decodes_exactly() {
    // Schema "double x; double y;" against 16 bytes holding 8.0 and 3.0
    // little-endian yields [("x", 8.0), ("y", 3.0)].
    let schema = Schema::new("Pose2d".to_string(), "double x; double y;");
    let reg = SchemaRegistry::new();
    let mut data: Vec<u8> = Vec::new();
    data.extend_from_slice(&8.0f64.to_le_bytes());
    data.extend_from_slice(&3.0f64.to_le_bytes());
    let decoded = decode_struct(&schema, &data, &reg);
    assert_eq!(decoded.len(), 2);
    assert_eq!(decoded[0].0, "x");
    assert_eq!(decoded[0].1, StructValue::Double(8.0f64.to_bits()));
    assert_eq!(decoded[1].0, "y");
    assert_eq!(decoded[1].1, StructValue::Double(3.0f64.to_bits()));
}

#[test]
fn primitive_round_trip_recovers_values() {
    // Encode a mixed primitive record by hand and decode it back,
    // bit-exactly for the floating-point fields.
    let schema = Schema::new(
        "Mix".to_string(),
        "double d; float f; bool b; int32 i;",
    );
    let reg = SchemaRegistry::new();
    let d = -12345.6789f64;
    let f = 2.5f32;
    let i = -42i32;
    let mut data: Vec<u8> = Vec::new();
    data.extend_from_slice(&d.to_le_bytes());
    data.extend_from_slice(&f.to_le_bytes());
    data.push(1);
    data.extend_from_slice(&i.to_le_bytes());
    let decoded = decode_struct(&schema, &data, &reg);
    assert_eq!(
        decoded,
        vec![
            ("d".to_string(), StructValue::Double(d.to_bits())),
            ("f".to_string(), StructValue::Float(f.to_bits())),
            ("b".to_string(), StructValue::Boolean(true)),
            ("i".to_string(), StructValue::Int(i)),
        ]
    );
}

#[test]
fn nested_schema_decodes_to_flattened_paths() {
    // A schema with one nested-struct field decodes to outer/inner
    // paths at the offsets the nested layout dictates.
    let mut reg = SchemaRegistry::new();
    reg.insert(
        "Translation2d".to_string(),
        Schema::new("Translation2d".to_string(), "double x; double y;"),
    );
    let outer = Schema::new("Pose2d".to_string(), "Translation2d translation; double rotation;");
    let mut data: Vec<u8> = Vec::new();
    data.extend_from_slice(&1.0f64.to_le_bytes());
    data.extend_from_slice(&2.0f64.to_le_bytes());
    data.extend_from_slice(&0.5f64.to_le_bytes());
    let decoded = decode_struct(&outer, &data, &reg);
    assert_eq!(
        decoded,
        vec![
            ("translation/x".to_string(), StructValue::Double(1.0f64.to_bits())),
            ("translation/y".to_string(), StructValue::Double(2.0f64.to_bits())),
            ("rotation".to_string(), StructValue::Double(0.5f64.to_bits())),
        ]
    );
}

#[test]
fn truncated_data_yields_partial_result() {
    let schema = Schema::new("S".to_string(), "double a; double b;");
    let reg = SchemaRegistry::new();
    let mut data: Vec<u8> = Vec::new();
    data.extend_from_slice(&4.0f64.to_le_bytes());
    data.extend_from_slice(&[0, 0, 0]);
    let decoded = decode_struct(&schema, &data, &reg);
    assert_eq!(decoded.len(), 1);
    assert_eq!(decoded[0].0, "a");
}

#[test]
fn unknown_type_token_stops_decoding() {
    // A token that is neither a primitive nor a registered schema ends
    // the decode, keeping the fields already decoded.
    let schema = Schema::new("S".to_string(), "double a; Mystery m; double b;");
    let reg = SchemaRegistry::new();
    let mut data: Vec<u8> = Vec::new();
    data.extend_from_slice(&4.0f64.to_le_bytes());
    data.extend_from_slice(&5.0f64.to_le_bytes());
    data.extend_from_slice(&6.0f64.to_le_bytes());
    let decoded = decode_struct(&schema, &data, &reg);
    assert_eq!(decoded.len(), 1);
    assert_eq!(decoded[0].0, "a");
    assert_eq!(decoded[0].1, StructValue::Double(4.0f64.to_bits()));
}

#[test]
fn self_referential_schema_is_cut_off() {
    // A schema that references itself cannot be sized or decoded
    // meaningfully; resolution is cut off instead of recursing forever.
    let mut reg = SchemaRegistry::new();
    reg.insert("A".to_string(), Schema::new("A".to_string(), "A inner; double x;"));
    let a = Schema::new("A".to_string(), "A inner; double x;");
    // Resolution spends one budget unit per nesting level, so the
    // cycle contributes the double twice more before the cut-off.
    assert_eq!(calculate_size(&a, &reg), 24);
    let data = [0u8; 64];
    let decoded = decode_struct(&a, &data, &reg);
    // Whatever the cut-off yields, it is finite and only holds fields
    // of the schema's shape.
    for (path, _) in &decoded {
        assert!(path.ends_with('x') || path.ends_with("inner"));
    }
}

#[test]
fn unicode_whitespace_separates_tokens() {
    // The tokenizer splits on any Unicode whitespace, as the wire
    // format's definition strings may use exotic spaces.
    let s = Schema::new("S".to_string(), "double\u{3000}x;\u{2028}bool b;");
    assert_eq!(s.fields.len(), 2);
    assert_eq!(s.fields[0].name, "x");
    assert_eq!(s.fields[1].name, "b");
}
