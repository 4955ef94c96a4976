use hexcam::codec::{parse_level, reload_level, render_level};
use hexcam::level::Level;

#[test]
fn test_level_save_and_load_roundtrip() {
    // Create test levels
    let default_level = Level::new("Default Level".to_string(), 10, 10);
    let small_level = Level::new("Small Test Level".to_string(), 5, 5);
    let large_level = Level::new("Large Test Level".to_string(), 15, 15);

    // Serialize all levels and load them back
    let mut levels = Vec::new();
    for level in [&default_level, &small_level, &large_level] {
        let doc = render_level(level);
        let reloaded = parse_level(&doc).expect("rendered level should parse");
        levels.push(reloaded);
    }

    assert_eq!(levels.len(), 3, "Should have loaded 3 levels");

    let level_names: Vec<&str> = levels.iter().map(|l| l.name.as_str()).collect();
    assert!(
        level_names.contains(&"Default Level"),
        "Should contain Default Level"
    );
    assert!(
        level_names.contains(&"Small Test Level"),
        "Should contain Small Test Level"
    );
    assert!(
        level_names.contains(&"Large Test Level"),
        "Should contain Large Test Level"
    );

    let loaded_default = levels
        .iter()
        .find(|l| l.name == "Default Level")
        .expect("Default level should be found");

    assert_eq!(loaded_default.width, 10, "Default level width should be 10");
    assert_eq!(
        loaded_default.height, 10,
        "Default level height should be 10"
    );
    assert_eq!(
        loaded_default.heights.len(),
        100,
        "Default level heights should be 10x10"
    );

    // height data is preserved exactly, including first and last grid cells
    assert_eq!(
        loaded_default.heights, default_level.heights,
        "Heights should be identical"
    );
    assert_eq!(loaded_default.heights[0], 1_000_000, "First height should be ~1.0");
    assert_eq!(loaded_default.heights[99], 4_000_000, "Last height should be ~4.0");
}

#[test]
fn reload_level_returns_the_level_itself() {
    let level = Level::new("Round Trip".to_string(), 7, 4);
    let back = reload_level(&level);
    assert_eq!(back.name, level.name);
    assert_eq!(back.width, level.width);
    assert_eq!(back.height, level.height);
    assert_eq!(back.heights, level.heights);
}

#[test]
fn reload_then_save_is_byte_identical() {
    let level = Level::new("Default Level".to_string(), 10, 10);
    let doc = render_level(&level);
    let reloaded = parse_level(&doc).expect("parse");
    let doc2 = render_level(&reloaded);
    assert_eq!(doc, doc2);
}

#[test]
fn rendered_document_has_expected_text() {
    let level = Level::new("Tiny".to_string(), 2, 1);
    let doc = String::from_utf8(render_level(&level)).expect("utf8");
    assert_eq!(
        doc,
        "name = \"Tiny\"\nwidth = 2\nheight = 1\nheights = [[1.000000, 2.500000]]\n"
    );
}

#[test]
fn rendered_document_is_valid_toml() {
    let level = Level::new("Tiny".to_string(), 2, 1);
    let doc = String::from_utf8(render_level(&level)).expect("utf8");
    let table: toml::Table = toml::from_str(&doc).expect("valid toml");
    assert_eq!(table["name"].as_str(), Some("Tiny"));
    assert_eq!(table["width"].as_integer(), Some(2));
    assert_eq!(table["height"].as_integer(), Some(1));
    let rows = table["heights"].as_array().expect("rows");
    assert_eq!(rows.len(), 1);
    let row = rows[0].as_array().expect("row");
    assert!((row[0].as_float().unwrap() - 1.0).abs() < 1e-9);
    assert!((row[1].as_float().unwrap() - 2.5).abs() < 1e-9);
}

#[test]
fn negative_heights_roundtrip() {
    let level = Level {
        name: "Depths".to_string(),
        width: 2,
        height: 2,
        heights: vec![-1_500_000, 0, 2_000_001, -999_999_999],
    };
    let doc = render_level(&level);
    let reloaded = parse_level(&doc).expect("parse");
    assert_eq!(reloaded.heights, level.heights);
}

#[test]
fn utf8_name_roundtrips() {
    let level = Level::new("H\u{e9}llo \u{2603}".to_string(), 2, 2);
    let doc = render_level(&level);
    let reloaded = parse_level(&doc).expect("parse");
    assert_eq!(reloaded.name, "H\u{e9}llo \u{2603}");
}

#[test]
fn malformed_documents_are_rejected() {
    // empty document
    assert!(parse_level(&Vec::new()).is_none());
    // wrong opening keyword
    assert!(parse_level(&b"nope = \"x\"\n".to_vec()).is_none());
    // unterminated name
    assert!(parse_level(&b"name = \"x".to_vec()).is_none());
    // zero width
    assert!(parse_level(
        &b"name = \"x\"\nwidth = 0\nheight = 1\nheights = [[1.000000]]\n".to_vec()
    )
    .is_none());
    // width beyond the storable extent
    assert!(parse_level(
        &b"name = \"x\"\nwidth = 257\nheight = 1\nheights = [[1.000000]]\n".to_vec()
    )
    .is_none());
    // height with the wrong number of fractional digits
    assert!(parse_level(
        &b"name = \"x\"\nwidth = 1\nheight = 1\nheights = [[1.0]]\n".to_vec()
    )
    .is_none());
    // leading zero in a dimension
    assert!(parse_level(
        &b"name = \"x\"\nwidth = 01\nheight = 1\nheights = [[1.000000]]\n".to_vec()
    )
    .is_none());
    // negative zero height is not canonical
    assert!(parse_level(
        &b"name = \"x\"\nwidth = 1\nheight = 1\nheights = [[-0.000000]]\n".to_vec()
    )
    .is_none());
    // trailing bytes after the document
    assert!(parse_level(
        &b"name = \"x\"\nwidth = 1\nheight = 1\nheights = [[1.000000]]\nx".to_vec()
    )
    .is_none());
    // control character inside the name
    let mut doc = b"name = \"x".to_vec();
    doc.push(0x07);
    doc.extend_from_slice(b"\"\nwidth = 1\nheight = 1\nheights = [[1.000000]]\n");
    assert!(parse_level(&doc).is_none());
    // too few cells in a row
    assert!(parse_level(
        &b"name = \"x\"\nwidth = 2\nheight = 1\nheights = [[1.000000]]\n".to_vec()
    )
    .is_none());
}

#[test]
fn canonical_document_parses_to_exact_values() {
    let doc = b"name = \"Step\"\nwidth = 2\nheight = 1\nheights = [[0.000000, -3.141592]]\n"
        .to_vec();
    let level = parse_level(&doc).expect("parse");
    assert_eq!(level.name, "Step");
    assert_eq!(level.width, 2);
    assert_eq!(level.height, 1);
    assert_eq!(level.heights, vec![0, -3_141_592]);
    // the proved canonicity: re-rendering reproduces the document
    assert_eq!(render_level(&level), doc);
}
