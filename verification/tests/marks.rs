use gol::{draw_world, Marks, WindowBuffer, World, WorldError};
use rand::rngs::StdRng;
use rand::SeedableRng;

#[test]
fn queries_report_state_and_count() {
    let mut world = World::new(4, 4).unwrap();
    world.birth_cell(1, 1).unwrap();
    world.birth_cell(2, 1).unwrap();
    assert_eq!(world.is_alive(1, 1), Ok(true));
    assert_eq!(world.is_alive(0, 0), Ok(false));
    assert_eq!(world.live_neighbour_count(1, 1), Ok(1));
    assert_eq!(world.live_neighbour_count(1, 2), Ok(2));
    assert_eq!(world.live_neighbour_count(3, 3), Ok(0));
    assert_eq!(world.is_alive(4, 0), Err(WorldError::OutOfBounds));
    assert_eq!(world.live_neighbour_count(0, 4), Err(WorldError::OutOfBounds));
}

#[test]
fn marks_collect_while_the_button_is_held() {
    let mut world = World::new(4, 4).unwrap();
    let before = world.clone();
    let mut marks = Marks::new();
    assert!(!marks.is_pressed());
    assert_eq!(marks.cells(), &Vec::new());
    marks.mouse(&mut world, 1, 1, false);
    assert!(!marks.is_pressed());
    assert_eq!(marks.cells(), &Vec::new());
    marks.mouse(&mut world, 1, 1, true);
    marks.mouse(&mut world, 2, 1, true);
    marks.mouse(&mut world, 1, 1, true);
    assert!(marks.is_pressed());
    assert_eq!(marks.cells(), &vec![(1, 1), (2, 1)]);
    assert_eq!(before, world);
}

#[test]
fn release_toggles_each_marked_cell_once() {
    let mut world = World::new(4, 4).unwrap();
    world.birth_cell(2, 1).unwrap();
    let mut marks = Marks::new();
    for (x, y) in [(1, 1), (2, 1), (1, 1), (9, 9), (3, 3)] {
        marks.mouse(&mut world, x, y, true);
    }
    marks.mouse(&mut world, 0, 0, false);
    assert!(!marks.is_pressed());
    assert_eq!(marks.cells(), &Vec::new());
    let mut expected = World::new(4, 4).unwrap();
    expected.birth_cell(1, 1).unwrap();
    expected.birth_cell(3, 3).unwrap();
    assert_eq!(world, expected);
    marks.mouse(&mut world, 0, 0, false);
    assert_eq!(world, expected);
}

#[test]
fn marks_outside_the_world_are_not_drawn() {
    let mut world = World::new(2, 2).unwrap();
    let mut marks = Marks::new();
    marks.mouse(&mut world, 5, 0, true);
    marks.mouse(&mut world, 1, 1, true);
    let mut buffer = WindowBuffer::new(2, 2);
    let mut rng = StdRng::seed_from_u64(0);
    draw_world(&world, &mut buffer, marks.cells(), false, &mut rng);
    assert_eq!(buffer.buffer(), &vec![0, 0, 0, 0xffffff]);
}
