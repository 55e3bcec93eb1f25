use gol::{World, WorldError};

const OFFSETS: [(i8, i8); 8] = [
    (-1, -1),
    (-1, 0),
    (-1, 1),
    (0, -1),
    (0, 1),
    (1, -1),
    (1, 0),
    (1, 1),
];

fn count_at(world: &World, x: usize, y: usize) -> u8 {
    world.cell(x, y).unwrap().live_neighbours_count
}

fn alive_at(world: &World, x: usize, y: usize) -> bool {
    world.cell(x, y).unwrap().alive
}

/// The number of live cells among the eight wrapped neighbours, counted
/// afresh from the cells' states.
fn recount(world: &World, x: usize, y: usize) -> u8 {
    let w = world.width() as i64;
    let h = world.height() as i64;
    let mut n = 0;
    for (dx, dy) in &OFFSETS {
        let nx = (x as i64 + *dx as i64).rem_euclid(w) as usize;
        let ny = (y as i64 + *dy as i64).rem_euclid(h) as usize;
        if alive_at(world, nx, ny) {
            n += 1;
        }
    }
    n
}

fn assert_counts_exact(world: &World) {
    for y in 0..world.height() {
        for x in 0..world.width() {
            assert_eq!(count_at(world, x, y), recount(world, x, y));
        }
    }
}

fn live_cells(world: &World) -> Vec<(usize, usize)> {
    let mut cells = Vec::new();
    for y in 0..world.height() {
        for x in 0..world.width() {
            if alive_at(world, x, y) {
                cells.push((x, y));
            }
        }
    }
    cells
}

#[test]
fn test_live_neighbours_count() {
    let mut world = World::new(3, 3).unwrap();

    assert_eq!(world.cell(1, 1).unwrap().live_neighbours_count, 0);

    let mut i = 0;
    for (x_offset, y_offset) in &OFFSETS {
        let x = 1 + *x_offset;
        let y = 1 + *y_offset;

        i += 1;
        world.birth_cell(x as usize, y as usize).unwrap();
        assert_eq!(world.cell(1, 1).unwrap().live_neighbours_count, i);
    }
}

#[test]
fn test_block() {
    let mut world = World::new(4, 4).unwrap();

    world
        .seed_from_string(
            "- - - -
             - # # -
             - # # -
             - - - -"
                .to_string(),
        )
        .unwrap();

    let old_world = world.clone();

    world.simulate();

    assert_eq!(old_world, world);
}

#[test]
fn test_block_wrapping_y() {
    let mut world = World::new(4, 4).unwrap();

    world
        .seed_from_string(
            "- # # -
             - - - -
             - - - -
             - # # -"
                .to_string(),
        )
        .unwrap();

    let old_world = world.clone();

    world.simulate();

    assert_eq!(old_world, world);
}

#[test]
fn test_block_wrapping_x() {
    let mut world = World::new(4, 4).unwrap();

    world
        .seed_from_string(
            "- - - -
             # - - #
             # - - #
             - - - -"
                .to_string(),
        )
        .unwrap();

    let old_world = world.clone();

    world.simulate();
    world.simulate();

    assert_eq!(old_world, world);
}

#[test]
fn test_block_wrapping_birth() {
    let mut world = World::new(4, 4).unwrap();

    world
        .seed_from_string(
            "- - - -
             - - - -
             - - - -
             # # # -"
                .to_string(),
        )
        .unwrap();

    println!("{}", world.to_text());

    world.simulate();

    let mut expected_world = World::new(4, 4).unwrap();
    expected_world
        .seed_from_string(
            "- # - -
             - - - -
             - # - -
             - # - -"
                .to_string(),
        )
        .unwrap();

    assert!(world == expected_world, "the roof");
}

#[test]
fn test_yyy() {
    let mut world = World::new(5, 5).unwrap();
    world
        .seed_from_string(
            "# - - - -
             - - - - -
             - - - - -
             - - - - -
             - - - - -"
                .to_string(),
        )
        .unwrap();
    println!("{}", world.to_text());

    let mut world = World::new(5, 5).unwrap();
    world
        .seed_from_string(
            "- - - - #
             - - - - -
             - - - - -
             - - - - -
             - - - - -"
                .to_string(),
        )
        .unwrap();
    println!("{}", world.to_text());

    let mut world = World::new(5, 5).unwrap();
    world
        .seed_from_string(
            "- - - - -
             - - - - -
             - - - - -
             - - - - -
             - - - - #"
                .to_string(),
        )
        .unwrap();
    println!("{}", world.to_text());

    let mut world = World::new(5, 5).unwrap();
    world
        .seed_from_string(
            "- - - - -
             - - - - -
             - - - - -
             - - - - -
             # - - - -"
                .to_string(),
        )
        .unwrap();
    println!("{}", world.to_text());
    world.kill_cell(0, 4).unwrap();
    println!("{}", world.to_text());

    assert_eq!(world.cell(2, 2).unwrap().live_neighbours_count, 0);
}

#[test]
fn new_world_is_dead_everywhere() {
    let world = World::new(7, 3).unwrap();
    assert_eq!(world.width(), 7);
    assert_eq!(world.height(), 3);
    for y in 0..3 {
        for x in 0..7 {
            assert!(!alive_at(&world, x, y));
            assert_eq!(count_at(&world, x, y), 0);
        }
    }
}

#[test]
fn new_world_rejects_zero_dimensions() {
    assert_eq!(World::new(0, 5).err(), Some(WorldError::InvalidDimensions));
    assert_eq!(World::new(5, 0).err(), Some(WorldError::InvalidDimensions));
    assert_eq!(World::new(0, 0).err(), Some(WorldError::InvalidDimensions));
    assert!(World::new(1, 1).is_ok());
}

#[test]
fn queries_are_bounds_checked() {
    let world = World::new(4, 3).unwrap();
    assert_eq!(world.cell(4, 0), Err(WorldError::OutOfBounds));
    assert_eq!(world.cell(0, 3), Err(WorldError::OutOfBounds));
    assert!(world.cell(3, 2).is_ok());
}

#[test]
fn birth_raises_the_eight_neighbours() {
    let mut world = World::new(5, 5).unwrap();
    world.birth_cell(2, 2).unwrap();
    for y in 0..5 {
        for x in 0..5 {
            let near = (1..=3).contains(&x) && (1..=3).contains(&y) && (x, y) != (2, 2);
            assert_eq!(count_at(&world, x, y), if near { 1 } else { 0 });
            assert_eq!(alive_at(&world, x, y), (x, y) == (2, 2));
        }
    }
}

#[test]
fn birth_of_a_live_cell_changes_nothing() {
    let mut world = World::new(5, 5).unwrap();
    world.birth_cell(2, 2).unwrap();
    let before = world.clone();
    world.birth_cell(2, 2).unwrap();
    assert_eq!(before, world);
    world.kill_cell(0, 0).unwrap();
    assert_eq!(before, world);
}

#[test]
fn counts_stay_exact_through_mutations() {
    let mut world = World::new(6, 5).unwrap();
    let moves = [(0, 0), (5, 4), (5, 0), (0, 4), (2, 2), (3, 2), (2, 3), (0, 0), (1, 1), (5, 4)];
    for (x, y) in moves {
        world.toggle_cell(x, y).unwrap();
        assert_counts_exact(&world);
    }
    for _ in 0..6 {
        world.simulate();
        assert_counts_exact(&world);
    }
}

#[test]
fn birth_then_kill_restores_the_grid() {
    let mut world = World::new(5, 4).unwrap();
    world
        .seed_from_string("# - - # -\n- # - - -\n- - - - #\n# - - - -".to_string())
        .unwrap();
    let before = world.clone();
    for y in 0..4 {
        for x in 0..5 {
            if !alive_at(&world, x, y) {
                world.birth_cell(x, y).unwrap();
                assert_ne!(before, world);
                world.kill_cell(x, y).unwrap();
                assert_eq!(before, world);
            }
        }
    }
}

#[test]
fn toggle_twice_restores_the_grid() {
    let mut world = World::new(5, 4).unwrap();
    world
        .seed_from_string("# - - # -\n- # - - -\n- - - - #\n# - - - -".to_string())
        .unwrap();
    let before = world.clone();
    for y in 0..4 {
        for x in 0..5 {
            world.toggle_cell(x, y).unwrap();
            assert_eq!(alive_at(&world, x, y), !alive_at(&before, x, y));
            world.toggle_cell(x, y).unwrap();
            assert_eq!(before, world);
        }
    }
}

#[test]
fn block_with_margin_is_still() {
    let mut world = World::new(6, 7).unwrap();
    for (x, y) in [(2, 3), (3, 3), (2, 4), (3, 4)] {
        world.birth_cell(x, y).unwrap();
    }
    let before = world.clone();
    world.simulate();
    assert_eq!(before, world);
    assert_eq!(live_cells(&world), vec![(2, 3), (3, 3), (2, 4), (3, 4)]);
}

#[test]
fn corners_are_diagonal_neighbours() {
    let mut world = World::new(4, 4).unwrap();
    world.birth_cell(0, 0).unwrap();
    assert_eq!(count_at(&world, 3, 3), 1);
    assert_eq!(count_at(&world, 3, 0), 1);
    assert_eq!(count_at(&world, 0, 3), 1);
    world.birth_cell(3, 3).unwrap();
    assert_eq!(count_at(&world, 0, 0), 1);
    world.birth_cell(3, 0).unwrap();
    assert_eq!(count_at(&world, 0, 0), 2);
    world.birth_cell(0, 3).unwrap();
    for (x, y) in [(0, 0), (3, 0), (0, 3), (3, 3)] {
        assert_eq!(count_at(&world, x, y), 3);
    }
    assert_eq!(count_at(&world, 1, 1), 1);
    assert_eq!(count_at(&world, 2, 2), 1);
}

fn glider_after_four_steps(width: usize, height: usize) {
    let mut world = World::new(width, height).unwrap();
    world
        .seed_from_string(
            "- - # - -
             # - # - -
             - # # - -
             - - - - -
             - - - - -"
                .to_string(),
        )
        .unwrap();
    assert_eq!(live_cells(&world), vec![(2, 0), (0, 1), (2, 1), (1, 2), (2, 2)]);
    for _ in 0..4 {
        world.simulate();
        assert_eq!(live_cells(&world).len(), 5);
    }
    assert_eq!(live_cells(&world), vec![(3, 1), (1, 2), (3, 2), (2, 3), (3, 3)]);
    assert_counts_exact(&world);
}

#[test]
fn glider_moves_one_cell_diagonally() {
    glider_after_four_steps(8, 8);
    glider_after_four_steps(10, 12);
}

#[test]
fn glider_wraps_around_the_edges() {
    let mut world = World::new(8, 8).unwrap();
    world
        .seed_from_string("- - #\n# - #\n- # #".to_string())
        .unwrap();
    for _ in 0..32 {
        world.simulate();
    }
    assert_eq!(live_cells(&world), vec![(2, 0), (0, 1), (2, 1), (1, 2), (2, 2)]);
}

#[test]
fn blinker_oscillates() {
    let mut world = World::new(5, 5).unwrap();
    world
        .seed_from_string("- - - - -\n- - - - -\n- # # # -".to_string())
        .unwrap();
    world.simulate();
    assert_eq!(live_cells(&world), vec![(2, 1), (2, 2), (2, 3)]);
    world.simulate();
    assert_eq!(live_cells(&world), vec![(1, 2), (2, 2), (3, 2)]);
}

#[test]
fn lonely_and_crowded_cells_die() {
    let mut world = World::new(5, 5).unwrap();
    world.birth_cell(2, 2).unwrap();
    world.simulate();
    assert_eq!(live_cells(&world), vec![]);

    let mut world = World::new(6, 6).unwrap();
    world
        .seed_from_string("- - - - - -\n- # # # - -\n- # # # - -\n- # # # - -".to_string())
        .unwrap();
    assert_eq!(count_at(&world, 2, 2), 8);
    world.simulate();
    assert!(!alive_at(&world, 2, 2));
    assert!(alive_at(&world, 1, 1));
    assert!(!alive_at(&world, 2, 1));
    assert!(alive_at(&world, 2, 0));
}

#[test]
fn out_of_bounds_coordinates_are_rejected() {
    let mut world = World::new(4, 3).unwrap();
    world.birth_cell(1, 1).unwrap();
    let before = world.clone();
    assert_eq!(world.birth_cell(4, 0), Err(WorldError::OutOfBounds));
    assert_eq!(before, world);
    assert_eq!(world.birth_cell(0, 3), Err(WorldError::OutOfBounds));
    assert_eq!(world.kill_cell(4, 1), Err(WorldError::OutOfBounds));
    assert_eq!(world.kill_cell(1, 3), Err(WorldError::OutOfBounds));
    assert_eq!(world.toggle_cell(4, 3), Err(WorldError::OutOfBounds));
    assert_eq!(world.toggle_cell(usize::MAX, 0), Err(WorldError::OutOfBounds));
    assert_eq!(before, world);
}

#[test]
fn oversized_patterns_are_rejected() {
    let mut world = World::new(4, 3).unwrap();
    world.birth_cell(3, 2).unwrap();
    let before = world.clone();
    assert_eq!(
        world.seed_from_string("# # # # #".to_string()),
        Err(WorldError::MalformedPattern)
    );
    assert_eq!(before, world);
    assert_eq!(
        world.seed_from_string("#\n#\n#\n#".to_string()),
        Err(WorldError::MalformedPattern)
    );
    assert_eq!(before, world);
    assert_eq!(
        world.seed_from_string("# # -\n# #\n# # -".to_string()),
        Err(WorldError::MalformedPattern)
    );
    assert_eq!(before, world);
    assert_eq!(world.seed_from_string("# # # #\n- - - -\n# - - #".to_string()), Ok(()));
    assert_eq!(
        live_cells(&world),
        vec![(0, 0), (1, 0), (2, 0), (3, 0), (0, 2), (3, 2)]
    );
}

#[test]
fn seeding_only_adds_live_cells() {
    let mut world = World::new(4, 4).unwrap();
    world.birth_cell(3, 3).unwrap();
    world.birth_cell(0, 0).unwrap();
    world.seed_from_string("- #\n# -".to_string()).unwrap();
    assert_eq!(live_cells(&world), vec![(0, 0), (1, 0), (0, 1), (3, 3)]);
    assert_counts_exact(&world);
}

#[test]
fn tokens_other_than_a_single_hash_are_dead() {
    let mut world = World::new(4, 2).unwrap();
    world.seed_from_string("## x # .\n#  # -".to_string()).unwrap();
    assert_eq!(live_cells(&world), vec![(2, 0), (0, 1), (2, 1)]);

    let mut world = World::new(1, 1).unwrap();
    world.seed_from_string("".to_string()).unwrap();
    assert_eq!(live_cells(&world), vec![]);
    world.seed_from_string(" \n\t #\u{3000}\n ".to_string()).unwrap();
    assert_eq!(live_cells(&world), vec![(0, 0)]);
}

#[test]
fn narrow_grids_count_a_cell_once_for_each_offset() {
    let mut world = World::new(1, 1).unwrap();
    world.birth_cell(0, 0).unwrap();
    assert_eq!(count_at(&world, 0, 0), 8);
    world.simulate();
    assert!(!alive_at(&world, 0, 0));
    assert_eq!(count_at(&world, 0, 0), 0);

    let mut world = World::new(2, 2).unwrap();
    world.birth_cell(0, 0).unwrap();
    assert_eq!(count_at(&world, 0, 0), 0);
    assert_eq!(count_at(&world, 1, 0), 2);
    assert_eq!(count_at(&world, 0, 1), 2);
    assert_eq!(count_at(&world, 1, 1), 4);
    assert_counts_exact(&world);
    world.kill_cell(0, 0).unwrap();
    assert_eq!(world, World::new(2, 2).unwrap());

    let mut world = World::new(1, 3).unwrap();
    world.birth_cell(0, 1).unwrap();
    assert_eq!(count_at(&world, 0, 0), 3);
    assert_eq!(count_at(&world, 0, 1), 2);
    assert_eq!(count_at(&world, 0, 2), 3);
    world.simulate();
    assert_eq!(live_cells(&world), vec![(0, 0), (0, 1), (0, 2)]);
    assert_counts_exact(&world);
}

#[test]
fn text_of_a_grid() {
    let mut world = World::new(3, 2).unwrap();
    world.birth_cell(1, 0).unwrap();
    assert_eq!(world.to_text(), "\n1 # 1 \n2 2 2 \n");
    let mut copy = World::new(3, 2).unwrap();
    copy.seed_from_string(world.to_text()).unwrap();
    assert_eq!(copy, world);
}

#[test]
fn text_reads_back_as_the_same_grid() {
    let mut world = World::new(9, 7).unwrap();
    world
        .seed_from_string("- - # - - - - - #\n# - # - - - - - -\n- # # - - - - # #".to_string())
        .unwrap();
    for _ in 0..5 {
        world.simulate();
        let mut copy = World::new(9, 7).unwrap();
        copy.seed_from_string(world.to_text()).unwrap();
        assert_eq!(copy, world);
    }
}
