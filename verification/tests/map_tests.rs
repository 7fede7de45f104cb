use brushgeom::level::LevelMap;

const CUBE_MAP: &str = r#"
    // Game: Generic
    // Format: Standard
    // entity 0
    {
    "classname" "worldspawn"
    // brush 0
    {
    ( -64 -16 -64 ) ( -64 -16 -63 ) ( -64 -17 -64 ) __TB_empty 0 0 90 1 1
    ( 64 -64 64 ) ( 64 -64 65 ) ( 65 -64 64 ) __TB_empty 0 0 0 1 1
    ( -64 -16 -64 ) ( -64 -17 -64 ) ( -63 -16 -64 ) __TB_empty 0 0 0 1 -1
    ( 64 -48 64 ) ( 65 -48 64 ) ( 64 -49 64 ) __TB_empty 0 0 0 1 -1
    ( -64 64 -64 ) ( -63 64 -64 ) ( -64 64 -63 ) __TB_empty 0 0 0 1 1
    ( 64 -48 64 ) ( 64 -49 64 ) ( 64 -48 65 ) __TB_empty 0 0 90 1 1
    }
    }
"#;

fn parse_ok(map: &str) -> LevelMap {
    match LevelMap::from_str(map) {
        Ok(m) => m,
        Err(e) => panic!("parse failed at {} in rule {}", e.offset, e.rule),
    }
}

#[test]
fn map_empty() {
    let m = parse_ok(&String::default());
    assert_eq!(m.entities.len(), 0);
}

#[test]
fn map_entity() {
    let m = parse_ok("{}");
    assert_eq!(m.entities.len(), 1);
    assert_eq!(m.entities[0].properties.len(), 0);
    assert_eq!(m.entities[0].brushes.len(), 0);
}

#[test]
fn map_property() {
    let m = parse_ok("{\"hello\" \"world\"}");
    assert_eq!(m.entities.len(), 1);
    assert_eq!(m.entities[0].properties.len(), 1);
    assert_eq!(m.entities[0].properties[0].0, "hello");
    assert_eq!(m.entities[0].properties[0].1, "world");
}

#[test]
fn map_brush() {
    let m = parse_ok(
        "{{( -64 -64 -16 ) ( -64 -63 -16 ) ( -64 -64 -15 ) __TB_empty 0 0 0 1 1 }}",
    );
    assert_eq!(m.entities.len(), 1);
    assert_eq!(m.entities[0].brushes.len(), 1);
    assert_eq!(m.entities[0].brushes[0].planes.len(), 1);
    let p = &m.entities[0].brushes[0].planes[0];
    assert_eq!(p.texture, "__TB_empty");
    assert_eq!(p.points[0].x, -64);
    assert_eq!(p.points[1].z, -16);
    assert_eq!(p.points[2].z, -15);
    assert_eq!(p.y_scale.mantissa, 1);
}

#[test]
fn map_cube() {
    let m = parse_ok(CUBE_MAP);
    assert_eq!(m.entities.len(), 1);
}

#[test]
fn mod_map_empty() {
    parse_ok(&String::default());
}

#[test]
fn mod_map_entity() {
    parse_ok("{}");
}

#[test]
fn mod_map_property() {
    parse_ok("{\"hello\" \"world\"}");
}

#[test]
fn mod_map_brush() {
    parse_ok("{{( -64 -64 -16 ) ( -64 -63 -16 ) ( -64 -64 -15 ) __TB_empty 0 0 0 1 1 }}");
}

#[test]
fn mod_map_cube() {
    parse_ok(CUBE_MAP);
}

// one entity with a classname and one six-plane brush, decoded exactly
#[test]
fn cube_worldspawn_structure() {
    let m = parse_ok(CUBE_MAP);
    assert_eq!(m.entities.len(), 1);
    let e = &m.entities[0];
    assert_eq!(e.properties.len(), 1);
    assert_eq!(e.properties[0].0, "classname");
    assert_eq!(e.properties[0].1, "worldspawn");
    assert_eq!(e.brushes.len(), 1);
    assert_eq!(e.brushes[0].planes.len(), 6);
}

#[test]
fn decimal_attributes_kept_exactly() {
    let m = parse_ok("{{( 0 0 0 ) ( 0 1 0 ) ( 0 0 1 ) stone 0.5 -12.25 90 1 -1 }}");
    let p = &m.entities[0].brushes[0].planes[0];
    assert_eq!(p.x_offset.mantissa, 5);
    assert_eq!(p.x_offset.frac_digits, 1);
    assert_eq!(p.y_offset.mantissa, -1225);
    assert_eq!(p.y_offset.frac_digits, 2);
    assert_eq!(p.rotation.mantissa, 90);
    assert_eq!(p.rotation.frac_digits, 0);
    assert_eq!(p.x_scale.mantissa, 1);
    assert_eq!(p.y_scale.mantissa, -1);
}

#[test]
fn coordinate_with_zero_fraction_is_accepted() {
    let m = parse_ok("{{( 64.00 0 0 ) ( 64.00 1.0 0 ) ( 64 0 1 ) stone 0 0 0 1 1 }}");
    let p = &m.entities[0].brushes[0].planes[0];
    assert_eq!(p.points[0].x, 64);
    assert_eq!(p.points[1].y, 1);
}

#[test]
fn fractional_coordinate_is_rejected() {
    assert!(LevelMap::from_str("{{( 64.5 0 0 ) ( 0 1 0 ) ( 0 0 1 ) stone 0 0 0 1 1 }}").is_err());
}

#[test]
fn coordinate_out_of_bound_is_rejected() {
    assert!(LevelMap::from_str("{{( 4097 0 0 ) ( 0 1 0 ) ( 0 0 1 ) stone 0 0 0 1 1 }}").is_err());
    assert!(LevelMap::from_str("{{( 4096 0 0 ) ( 0 1 0 ) ( 0 0 1 ) stone 0 0 0 1 1 }}").is_ok());
}

#[test]
fn unclosed_entity_is_rejected() {
    assert!(LevelMap::from_str("{").is_err());
    assert!(LevelMap::from_str("{\"a\" \"b\"").is_err());
}

#[test]
fn unclosed_string_is_rejected() {
    assert!(LevelMap::from_str("{\"a\" \"b}").is_err());
}

#[test]
fn trailing_garbage_is_rejected() {
    assert!(LevelMap::from_str("{} x").is_err());
}

#[test]
fn non_ascii_input_is_rejected() {
    let e = LevelMap::from_str("{\"clé\" \"valeur\"}").unwrap_err();
    assert_eq!(e.rule, "ascii");
}

#[test]
fn comments_are_whitespace() {
    let m = parse_ok("// a map\n{ // entity\n \"a\" \"b\" // prop\n } // done");
    assert_eq!(m.entities.len(), 1);
    assert_eq!(m.entities[0].properties.len(), 1);
}

#[test]
fn repeated_keys_are_kept_in_order() {
    let m = parse_ok("{\"k\" \"one\" \"k\" \"two\"}");
    assert_eq!(m.entities[0].properties.len(), 2);
    assert_eq!(m.entities[0].properties[1].1, "two");
}

// property lookup behaves like a mapping: the last value for a key wins
#[test]
fn property_lookup_takes_the_last_value() {
    let m = parse_ok("{\"k\" \"one\" \"j\" \"x\" \"k\" \"two\"}");
    let e = &m.entities[0];
    assert_eq!(e.property(&String::from("k")), Some(&String::from("two")));
    assert_eq!(e.property(&String::from("j")), Some(&String::from("x")));
    assert_eq!(e.property(&String::from("missing")), None);
}

#[test]
fn classname_is_found_by_lookup() {
    let m = parse_ok(CUBE_MAP);
    assert_eq!(
        m.entities[0].property(&String::from("classname")),
        Some(&String::from("worldspawn"))
    );
}

#[test]
fn error_reports_offset() {
    let e = LevelMap::from_str("{}  {  ?").unwrap_err();
    assert!(e.offset >= 4);
}

#[test]
fn several_entities_parse_in_order() {
    let m = parse_ok("{\"a\" \"1\"} {\"b\" \"2\"} {}");
    assert_eq!(m.entities.len(), 3);
    assert_eq!(m.entities[0].properties[0].0, "a");
    assert_eq!(m.entities[1].properties[0].0, "b");
    assert_eq!(m.entities[2].properties.len(), 0);
}

#[test]
fn properties_and_brushes_may_interleave() {
    let m = parse_ok(
        "{ \"before\" \"x\" {( 0 0 0 ) ( 0 1 0 ) ( 0 0 1 ) a 0 0 0 1 1 } \"after\" \"y\" }",
    );
    assert_eq!(m.entities[0].properties.len(), 2);
    assert_eq!(m.entities[0].brushes.len(), 1);
}
