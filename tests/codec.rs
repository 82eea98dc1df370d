use isotiles::codec::{encode_points, parse_path, polygon_text, render_commands};
use isotiles::path::{Command, CommandType, PathError};
use isotiles::shapes::{ShapeComponent, ShapePrimitive};
use isotiles::vector::{Vec2, Vec3};

// path coordinates are held in thousandths
fn v(x: i32, y: i32) -> Vec2 {
    Vec2 { x: x * 1000, y: y * 1000 }
}

fn raw(x: i32, y: i32) -> Vec2 {
    Vec2 { x, y }
}

#[test]
fn encoder_compacts_greedily() {
    let pts = vec![v(46, 33), v(65, 38), v(65, 19), v(51, 4), v(38, 18)];
    let text = polygon_text(&pts);
    assert_eq!(text, "M46 33 65 38 V19 L51 4 38 18 z");
}

#[test]
fn encoder_uses_horizontal_and_vertical_runs() {
    let pts = vec![v(0, 0), v(10, 0), v(20, 0), v(20, 10), v(20, 20), v(0, 20)];
    assert_eq!(polygon_text(&pts), "M0 0 H10 20 V10 20 H0 z");
    let cmds = encode_points(&pts);
    assert_eq!(cmds[0].cmd_type, CommandType::MoveToAbs);
    assert_eq!(cmds[cmds.len() - 1].cmd_type, CommandType::ClosePath);
}

#[test]
fn round_trip_gives_back_the_polygon() {
    let polys = vec![
        vec![v(46, 33), v(65, 38), v(65, 19), v(51, 4), v(38, 18)],
        vec![v(0, 0), v(10, 0), v(10, 10), v(0, 10)],
        vec![v(-5, -7), v(3, 9), v(3, 9), v(3, -2), raw(-2147483648, 2147483647)],
        vec![raw(1, 1)],
        vec![raw(1500, -20), raw(12345, 600), raw(-7, 0)],
    ];
    for pts in polys {
        let text = polygon_text(&pts);
        let back = parse_path(&text).unwrap();
        assert_eq!(back, vec![pts.clone()]);
        let again = polygon_text(&back[0]);
        assert_eq!(again, text);
    }
}

#[test]
fn negative_numbers_are_written_with_a_sign() {
    let pts = vec![v(-1, -2), v(-3, -5), v(-3, -7)];
    assert_eq!(polygon_text(&pts), "M-1 -2 -3 -5 V-7 z");
}

#[test]
fn render_writes_letters_and_numbers() {
    let cmds = vec![
        Command { cmd_type: CommandType::MoveToRel, params: vec![1000, -2000] },
        Command { cmd_type: CommandType::HorizRel, params: vec![30000] },
        Command { cmd_type: CommandType::ClosePath, params: vec![] },
    ];
    let text: String = render_commands(&cmds).into_iter().collect();
    assert_eq!(text, "m1 -2 h30 z");
}

#[test]
fn decoder_splits_at_close() {
    let polys = parse_path("M 0 0 L 1 0 1 1 Z M 5,5 6,5 6,6 z 7 7").unwrap_err();
    assert_eq!(polys, PathError::ParameterCount);
    let polys = parse_path("M 0 0 L 1 0 1 1 Z M 5,5 6,5 6,6").unwrap();
    assert_eq!(polys, vec![vec![v(0, 0), v(1, 0), v(1, 1)], vec![v(5, 5), v(6, 5), v(6, 6)]]);
}

#[test]
fn close_returns_to_subpath_start() {
    let polys = parse_path("m 10 10 5 0 z l 0 5 5 0 z").unwrap();
    assert_eq!(polys, vec![vec![v(10, 10), v(15, 10)], vec![v(10, 15), v(15, 15)]]);
}

#[test]
fn decoder_errors() {
    assert_eq!(parse_path("M 1;5 2").unwrap_err(), PathError::UnexpectedChar);
    assert_eq!(parse_path("Q 1 2").unwrap_err(), PathError::UnexpectedChar);
    assert_eq!(parse_path("M - 2").unwrap_err(), PathError::MissingDigits);
    assert_eq!(parse_path("M 99999999999 0").unwrap_err(), PathError::NumberOutOfRange);
    assert_eq!(parse_path("5 5").unwrap_err(), PathError::MissingCommand);
    assert_eq!(parse_path("M 1 2 3").unwrap_err(), PathError::ParameterCount);
    assert_eq!(parse_path("V").unwrap_err(), PathError::ParameterCount);
    assert_eq!(parse_path("M 2147484 0").unwrap_err(), PathError::NumberOutOfRange);
    assert_eq!(parse_path("m 2147483 0 l 1 0").unwrap_err(), PathError::CoordinateOutOfRange);
}

#[test]
fn empty_text_has_no_polygon() {
    assert_eq!(parse_path("").unwrap(), Vec::<Vec<Vec2>>::new());
    assert_eq!(parse_path("  ,\n").unwrap(), Vec::<Vec<Vec2>>::new());
}

#[test]
fn component_text_concatenates_polygons() {
    let c = ShapeComponent {
        normal: Vec3 { x: 0, y: 0, z: 1 },
        primitives: vec![
            ShapePrimitive { points: vec![v(0, 0), v(4, 0), v(4, 4)] },
            ShapePrimitive { points: vec![v(9, 9), v(10, 12), v(11, 14)] },
        ],
    };
    let d = c.generate_d();
    assert_eq!(d, "M0 0 H4 V4 zM9 9 10 12 11 14 z");
    assert_eq!(parse_path(&d).unwrap(), vec![vec![v(0, 0), v(4, 0), v(4, 4)], vec![v(9, 9), v(10, 12), v(11, 14)]]);
    let empty = ShapePrimitive { points: vec![] };
    assert_eq!(empty.generate_d(), "V0 z");
}

#[test]
fn command_shift_moves_absolute_coordinates() {
    let mut c = Command::new('M', vec![1, 2, 3, 4, 5]).unwrap();
    c.shift(10, 100);
    assert_eq!(c.params, vec![11, 102, 13, 104, 5]);
    let mut h = Command::new('H', vec![1, 2]).unwrap();
    h.shift(10, 100);
    assert_eq!(h.params, vec![11, 12]);
    let mut rel = Command::new('l', vec![1, 2]).unwrap();
    rel.shift(10, 100);
    assert_eq!(rel.params, vec![1, 2]);
    assert!(rel.is_relative());
    assert!(Command::new('x', vec![]).is_none());
}

#[test]
fn opcodes_round_trip() {
    for c in ['M', 'm', 'L', 'l', 'V', 'v', 'H', 'h', 'z'] {
        let t = CommandType::from_opcode(c).unwrap();
        assert_eq!(t.to_opcode(), c);
    }
    assert_eq!(CommandType::from_opcode('Z'), Some(CommandType::ClosePath));
    assert_eq!(CommandType::from_opcode('C'), None);
    assert!(CommandType::VertRel.is_relative());
    assert!(!CommandType::VertAbs.is_relative());
}

#[test]
fn decimals_are_read_in_thousandths() {
    let polys = parse_path("M 46.302083 -1.5 L 2. 0.25 -0.007 3").unwrap();
    assert_eq!(polys, vec![vec![raw(46302, -1500), raw(2000, 250), raw(-7, 3000)]]);
}

#[test]
fn decimals_are_written_without_trailing_zeros() {
    let pts = vec![raw(46302, -1500), raw(2000, 250), raw(-7, 3000)];
    assert_eq!(polygon_text(&pts), "M46.302 -1.5 2 0.25 -0.007 3 z");
}
