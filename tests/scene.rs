use isotiles::parser::{new_library, parse_component, register_shape};
use isotiles::scene::{composite, dimensions_from_cube, painter_order, SceneError, Step};
use isotiles::shapes::Shape;
use isotiles::vector::Vec2;

// path coordinates are held in thousandths
fn v(x: i32, y: i32) -> Vec2 {
    Vec2 { x: x * 1000, y: y * 1000 }
}

fn cube() -> Shape {
    Shape::new(vec![
        parse_component("M 0 5 10 0 20 5 10 10 z", "fill:#80ff80").unwrap(),
        parse_component("M 0 5 10 10 V 22 L 0 17 z", "fill:#ff8080").unwrap(),
        parse_component("M 10 10 20 5 V 17 L 10 22 z", "fill:#8080ff").unwrap(),
    ])
}

fn square() -> Shape {
    Shape::new(vec![parse_component("M 0 0 H 4 V 4 H 0 z", "fill:#80ff80").unwrap()])
}

#[test]
fn painter_order_of_two_cube() {
    let order = painter_order(2, 2, 2);
    assert_eq!(
        order,
        vec![
            (0, 0, 0),
            (0, 0, 1),
            (0, 1, 0),
            (1, 0, 0),
            (0, 1, 1),
            (1, 0, 1),
            (1, 1, 0),
            (1, 1, 1),
        ]
    );
}

#[test]
fn painter_order_of_flat_grid() {
    assert_eq!(painter_order(3, 1, 1), vec![(0, 0, 0), (1, 0, 0), (2, 0, 0)]);
    assert_eq!(painter_order(0, 4, 4), vec![]);
}

#[test]
fn cube_gives_projection_steps() {
    let (x, y, z) = dimensions_from_cube(&cube()).unwrap();
    assert_eq!(x, Step { dx: 10000, dy: 5000 });
    assert_eq!(y, Step { dx: 0, dy: -12000 });
    assert_eq!(z, Step { dx: -10000, dy: 5000 });
}

#[test]
fn single_cell_scene() {
    let mut lib = new_library();
    register_shape(&mut lib, &vec![255u8], &cube());
    register_shape(&mut lib, &vec![1u8], &square());
    let grid = vec![vec![vec![1u8]]];
    let scene = composite(&grid, &lib, &vec![]).unwrap();
    assert_eq!(scene.shapes.len(), 1);
    assert_eq!(scene.shapes[0].components.len(), 1);
    assert_eq!(scene.shapes[0].components[0].primitives.len(), 1);
    assert_eq!(scene.shapes[0].components[0].primitives[0].points, vec![v(0, 1), v(4, 1), v(4, 5), v(0, 5)]);
    assert_eq!(scene.width, 20000);
    assert_eq!(scene.height, 22000);
}

#[test]
fn empty_cells_and_unknown_ids_place_nothing() {
    let mut lib = new_library();
    register_shape(&mut lib, &vec![255u8], &cube());
    let grid = vec![vec![vec![0u8, 9u8]]];
    let scene = composite(&grid, &lib, &vec![]).unwrap();
    assert_eq!(scene.shapes.len(), 0);
}

#[test]
fn front_tile_trims_tile_behind() {
    let mut lib = new_library();
    register_shape(&mut lib, &vec![255u8], &cube());
    register_shape(&mut lib, &vec![1u8], &cube());
    // the cell in front covers the one behind it completely along the view
    let grid = vec![vec![vec![1u8]], vec![vec![1u8]]];
    let scene = composite(&grid, &lib, &vec![]).unwrap();
    assert!(scene.shapes.len() >= 1);
    let total: usize = scene.shapes.iter().map(|s| s.components.len()).sum();
    assert!(total <= 6);
}

#[test]
fn grouped_cells_share_one_instance() {
    let mut lib = new_library();
    register_shape(&mut lib, &vec![255u8], &cube());
    register_shape(&mut lib, &vec![1u8], &square());
    let grid = vec![vec![vec![1u8]], vec![vec![1u8]]];
    let groups = vec![vec![(0usize, 0usize, 0usize), (1usize, 0usize, 0usize)]];
    let scene = composite(&grid, &lib, &groups).unwrap();
    assert_eq!(scene.shapes.len(), 1);
    // the shared instance stays where the first cell put it
    assert_eq!(scene.shapes[0].components[0].primitives[0].points, vec![v(0, 1), v(4, 1), v(4, 5), v(0, 5)]);
}

#[test]
fn missing_reference_cube_is_an_error() {
    let mut lib = new_library();
    register_shape(&mut lib, &vec![1u8], &square());
    let grid = vec![vec![vec![1u8]]];
    assert_eq!(composite(&grid, &lib, &vec![]).unwrap_err(), SceneError::BadReference);
}

#[test]
fn empty_tile_is_an_error() {
    let mut lib = new_library();
    register_shape(&mut lib, &vec![255u8], &cube());
    register_shape(&mut lib, &vec![2u8], &Shape::new(vec![]));
    let grid = vec![vec![vec![2u8]]];
    assert_eq!(composite(&grid, &lib, &vec![]).unwrap_err(), SceneError::EmptyTile);
}

#[test]
fn tile_pushed_out_of_range_is_an_error() {
    let wide = Shape::new(vec![
        parse_component("M 0 5 10 0 20 5 10 10 z", "fill:#80ff80").unwrap(),
        parse_component("M 0 5 10 10 V 22 L 0 17 z", "fill:#ff8080").unwrap(),
        parse_component("M 10 10 2000000 5 V 17 L 10 22 z", "fill:#8080ff").unwrap(),
    ]);
    let mut lib = new_library();
    register_shape(&mut lib, &vec![255u8], &wide);
    register_shape(&mut lib, &vec![1u8], &square());
    let ok_grid = vec![vec![vec![0u8]], vec![vec![1u8]], vec![vec![0u8]]];
    assert!(composite(&ok_grid, &lib, &vec![]).is_ok());
    let grid = vec![vec![vec![0u8]], vec![vec![0u8]], vec![vec![1u8]]];
    assert_eq!(composite(&grid, &lib, &vec![]).unwrap_err(), SceneError::OutOfRange);
}
