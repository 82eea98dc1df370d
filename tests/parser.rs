use isotiles::parser::{new_library, parse_component, parse_group_label, parse_style, register_shape, ParseError};
use isotiles::path::PathError;
use isotiles::shapes::Shape;
use isotiles::vector::{Vec2, Vec3};

// path coordinates are held in thousandths
fn v(x: i32, y: i32) -> Vec2 {
    Vec2 { x: x * 1000, y: y * 1000 }
}

#[test]
fn test_parse_component_abs() {
    let parsed = parse_component("M 46 33 65 38 V 19 L 51 4 38 18 Z", "fill:#80ff80").unwrap();
    assert_eq!(parsed.normal, Vec3 { x: 0, y: 127, z: 0 });
    assert_eq!(parsed.primitives.len(), 1);
    assert_eq!(parsed.primitives[0].points, vec![v(46, 33), v(65, 38), v(65, 19), v(51, 4), v(38, 18)]);
}

#[test]
fn test_parse_component_rel() {
    let parsed = parse_component("m 46 33 19 5 v -19 l -14 -15 -13 14 z", "fill:#80ff80").unwrap();
    assert_eq!(parsed.normal, Vec3 { x: 0, y: 127, z: 0 });
    assert_eq!(parsed.primitives.len(), 1);
    assert_eq!(parsed.primitives[0].points, vec![v(46, 33), v(65, 38), v(65, 19), v(51, 4), v(38, 18)]);
}

#[test]
fn test_parse_component_multiple() {
    let parsed = parse_component(
        "m 46 33 19 5 v -19 l -14 -15 -13 14 z M 11 59 32 45 h -9 L 16 30 v 4 z",
        "fill:#80ff80",
    )
    .unwrap();
    assert_eq!(parsed.normal, Vec3 { x: 0, y: 127, z: 0 });
    assert_eq!(parsed.primitives.len(), 2);
    assert_eq!(parsed.primitives[0].points, vec![v(46, 33), v(65, 38), v(65, 19), v(51, 4), v(38, 18)]);
    assert_eq!(parsed.primitives[1].points, vec![v(11, 59), v(32, 45), v(23, 45), v(16, 30), v(16, 34)]);
}

#[test]
fn component_path_error_is_reported() {
    assert_eq!(parse_component("M 1;5 2 3 4 z", "fill:#80ff80").unwrap_err(), ParseError::Path(PathError::UnexpectedChar));
}

#[test]
fn style_channels_become_normal() {
    // blue goes to x, green to y, red to z, each less 128
    assert_eq!(parse_style("fill:#ff8000").unwrap(), Vec3 { x: -128, y: 0, z: 127 });
    assert_eq!(parse_style("stroke:none;fill:#80ff80;opacity:1").unwrap(), Vec3 { x: 0, y: 127, z: 0 });
}

#[test]
fn style_without_fill_is_refused() {
    assert_eq!(parse_style("stroke:#000000").unwrap_err(), ParseError::MissingFill);
    assert_eq!(parse_style("fill:#80ff8").unwrap_err(), ParseError::MissingFill);
}

#[test]
fn style_with_bar_in_colour_is_refused() {
    assert_eq!(parse_style("fill:#8|ff80").unwrap_err(), ParseError::BadColour);
}

#[test]
fn group_label_lists_binary_ids() {
    assert_eq!(parse_group_label("00000001;11111111").unwrap(), vec![1u8, 255u8]);
    assert_eq!(parse_group_label("+101").unwrap(), vec![5u8]);
}

#[test]
fn group_label_errors() {
    assert_eq!(parse_group_label("2").unwrap_err(), ParseError::BadTileId);
    assert_eq!(parse_group_label("100000000").unwrap_err(), ParseError::BadTileId);
    assert_eq!(parse_group_label("1;;1").unwrap_err(), ParseError::BadTileId);
    assert_eq!(parse_group_label("").unwrap_err(), ParseError::BadTileId);
}

#[test]
fn register_fills_every_listed_id() {
    let mut lib = new_library();
    assert_eq!(lib.len(), 256);
    let face = parse_component("M 0 0 4 0 4 4 0 4 z", "fill:#80ff80").unwrap();
    let shape = Shape::new(vec![face]);
    register_shape(&mut lib, &vec![3u8, 7u8], &shape);
    assert!(lib[3].is_some());
    assert!(lib[7].is_some());
    assert!(lib[4].is_none());
    assert_eq!(lib[7].as_ref().unwrap().components[0].primitives[0].points, vec![v(0, 0), v(4, 0), v(4, 4), v(0, 4)]);
}

#[test]
fn short_polygon_is_refused() {
    assert_eq!(parse_component("M 0 0 4 0 z", "fill:#80ff80").unwrap_err(), ParseError::DegeneratePolygon);
    assert_eq!(parse_component("M 0 0 4 0 4 4 z z", "fill:#80ff80").unwrap_err(), ParseError::DegeneratePolygon);
}
