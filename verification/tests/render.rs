use gol::random::random_rows;
use gol::{draw_world, WindowBuffer, World};
use rand::rngs::StdRng;
use rand::SeedableRng;

#[test]
fn new_buffer_is_black() {
    let buffer = WindowBuffer::new(4, 3);
    assert_eq!(buffer.width(), 4);
    assert_eq!(buffer.height(), 3);
    assert_eq!(buffer.buffer(), &vec![0u32; 12]);
    assert_eq!(WindowBuffer::new(0, 9).buffer().len(), 0);
}

#[test]
fn set_pixel_then_clear() {
    let mut buffer = WindowBuffer::new(4, 3);
    buffer.set_pixel(1, 2, 0xabcdef);
    buffer.set_pixel(0, 0, 7);
    buffer.set_pixel(3, 2, 9);
    let mut expected = vec![0u32; 12];
    expected[9] = 0xabcdef;
    expected[0] = 7;
    expected[11] = 9;
    assert_eq!(buffer.buffer(), &expected);
    buffer.clear();
    assert_eq!(buffer.buffer(), &vec![0u32; 12]);
}

#[test]
fn draws_live_and_marked_cells() {
    let mut world = World::new(3, 2).unwrap();
    world.birth_cell(1, 0).unwrap();
    world.birth_cell(2, 1).unwrap();
    let mut buffer = WindowBuffer::new(3, 2);
    buffer.set_pixel(0, 0, 5);
    let mut rng = StdRng::seed_from_u64(1);
    draw_world(&world, &mut buffer, &vec![(0, 1), (2, 1)], false, &mut rng);
    assert_eq!(buffer.buffer(), &vec![0, 0xff0000, 0, 0xffffff, 0, 0xffffff]);
    draw_world(&world, &mut buffer, &Vec::new(), false, &mut rng);
    assert_eq!(buffer.buffer(), &vec![0, 0xff0000, 0, 0, 0, 0xff0000]);
}

#[test]
fn random_colours_leave_dead_cells_black() {
    let mut world = World::new(3, 2).unwrap();
    world.birth_cell(1, 0).unwrap();
    let mut buffer = WindowBuffer::new(3, 2);
    let mut rng = StdRng::seed_from_u64(7);
    let mut seen = Vec::new();
    for _ in 0..8 {
        draw_world(&world, &mut buffer, &vec![(0, 0)], true, &mut rng);
        let pixels = buffer.buffer();
        assert_eq!(pixels[0], 0xffffff);
        assert_eq!(&pixels[2..], &[0, 0, 0, 0]);
        seen.push(pixels[1]);
    }
    seen.dedup();
    assert!(seen.len() > 1);
}

#[test]
fn random_rows_have_the_size_asked_for() {
    let mut rng = StdRng::seed_from_u64(3);
    let rows = random_rows(&mut rng, 5, 4, 1, 2);
    assert_eq!(rows.len(), 4);
    for row in &rows {
        assert_eq!(row.len(), 5);
    }
    assert_eq!(random_rows(&mut rng, 3, 2, 0, 7), vec![vec![false; 3]; 2]);
    assert_eq!(random_rows(&mut rng, 3, 2, 7, 7), vec![vec![true; 3]; 2]);
    assert_eq!(random_rows(&mut rng, 0, 2, 1, 2), vec![Vec::<bool>::new(); 2]);
}

#[test]
fn random_seeding_at_the_extremes() {
    let mut rng = StdRng::seed_from_u64(11);
    let mut world = World::new(6, 5).unwrap();
    world.birth_cell(2, 2).unwrap();
    let before = world.clone();
    world.seed_random(&mut rng, 0, 1);
    assert_eq!(before, world);
    world.seed_random(&mut rng, 3, 3);
    for y in 0..5 {
        for x in 0..6 {
            let cell = world.cell(x, y).unwrap();
            assert!(cell.alive);
            assert_eq!(cell.live_neighbours_count, 8);
        }
    }
}

#[test]
fn random_seeding_keeps_live_cells_and_counts() {
    let mut rng = StdRng::seed_from_u64(42);
    let mut world = World::new(20, 20).unwrap();
    world.birth_cell(19, 19).unwrap();
    world.seed_random(&mut rng, 1, 2);
    assert!(world.cell(19, 19).unwrap().alive);
    let mut alive = 0;
    for y in 0..20usize {
        for x in 0..20usize {
            let cell = world.cell(x, y).unwrap();
            if cell.alive {
                alive += 1;
            }
            let mut around = 0;
            for (dx, dy) in [(19, 19), (19, 0), (19, 1), (0, 19), (0, 1), (1, 19), (1, 0), (1, 1)] {
                if world.cell((x + dx) % 20, (y + dy) % 20).unwrap().alive {
                    around += 1;
                }
            }
            assert_eq!(cell.live_neighbours_count, around);
        }
    }
    assert!(alive > 100 && alive < 300);
}

#[test]
fn same_seed_gives_the_same_grid() {
    let mut first = World::new(12, 9).unwrap();
    let mut second = World::new(12, 9).unwrap();
    first.seed_random(&mut StdRng::seed_from_u64(5), 1, 3);
    second.seed_random(&mut StdRng::seed_from_u64(5), 1, 3);
    assert_eq!(first, second);
}
