use wireworld::environment::Environment;
use wireworld::grid::CellType;

#[test]
fn test_basic_electron_head_basic_propagation() {
    let mut env = Environment::new_empty(5, 1);
    env.bulk_set_readable(vec![
        (0, 0, CellType::ElectronHead),
        (1, 0, CellType::Conductor),
        (2, 0, CellType::Conductor),
        (3, 0, CellType::Conductor),
        (4, 0, CellType::Conductor),
    ]);

    env.advance();

    assert_eq!(env.get_cell(0, 0), CellType::ElectronTail);
    assert_eq!(env.get_cell(1, 0), CellType::ElectronHead);
    assert_eq!(env.get_cell(2, 0), CellType::Conductor);
    assert_eq!(env.get_cell(3, 0), CellType::Conductor);
    assert_eq!(env.get_cell(4, 0), CellType::Conductor);

    env.advance();

    assert_eq!(env.get_cell(0, 0), CellType::Conductor);
    assert_eq!(env.get_cell(1, 0), CellType::ElectronTail);
    assert_eq!(env.get_cell(2, 0), CellType::ElectronHead);
    assert_eq!(env.get_cell(3, 0), CellType::Conductor);
    assert_eq!(env.get_cell(4, 0), CellType::Conductor);

    env.advance();

    assert_eq!(env.get_cell(0, 0), CellType::Conductor);
    assert_eq!(env.get_cell(1, 0), CellType::Conductor);
    assert_eq!(env.get_cell(2, 0), CellType::ElectronTail);
    assert_eq!(env.get_cell(3, 0), CellType::ElectronHead);
    assert_eq!(env.get_cell(4, 0), CellType::Conductor);

    env.advance();

    assert_eq!(env.get_cell(0, 0), CellType::Conductor);
    assert_eq!(env.get_cell(1, 0), CellType::Conductor);
    assert_eq!(env.get_cell(2, 0), CellType::Conductor);
    assert_eq!(env.get_cell(3, 0), CellType::ElectronTail);
    assert_eq!(env.get_cell(4, 0), CellType::ElectronHead);
}

#[test]
fn test_basic_electron_head_corner_propagation() {
    let mut env = Environment::new_empty(5, 3);
    env.bulk_set_readable(vec![
        (0, 0, CellType::ElectronHead),
        (1, 0, CellType::Conductor),
        (2, 0, CellType::Conductor),
        (2, 1, CellType::Conductor),
        (2, 2, CellType::Conductor),
        (1, 2, CellType::Conductor),
        (0, 2, CellType::Conductor),
    ]);

    env.advance();

    assert_eq!(env.get_cell(0, 0), CellType::ElectronTail);
    assert_eq!(env.get_cell(1, 0), CellType::ElectronHead);
    assert_eq!(env.get_cell(2, 0), CellType::Conductor);
    assert_eq!(env.get_cell(2, 1), CellType::Conductor);
    assert_eq!(env.get_cell(2, 2), CellType::Conductor);
    assert_eq!(env.get_cell(1, 2), CellType::Conductor);
    assert_eq!(env.get_cell(0, 2), CellType::Conductor);

    env.advance();

    assert_eq!(env.get_cell(0, 0), CellType::Conductor);
    assert_eq!(env.get_cell(1, 0), CellType::ElectronTail);
    assert_eq!(env.get_cell(2, 0), CellType::ElectronHead);
    assert_eq!(env.get_cell(2, 1), CellType::ElectronHead);
    assert_eq!(env.get_cell(2, 2), CellType::Conductor);
    assert_eq!(env.get_cell(1, 2), CellType::Conductor);
    assert_eq!(env.get_cell(0, 2), CellType::Conductor);

    env.advance();

    assert_eq!(env.get_cell(0, 0), CellType::Conductor);
    assert_eq!(env.get_cell(1, 0), CellType::Conductor);
    assert_eq!(env.get_cell(2, 0), CellType::ElectronTail);
    assert_eq!(env.get_cell(2, 1), CellType::ElectronTail);
    assert_eq!(env.get_cell(2, 2), CellType::ElectronHead);
    assert_eq!(env.get_cell(1, 2), CellType::ElectronHead);
    assert_eq!(env.get_cell(0, 2), CellType::Conductor);

    env.advance();

    assert_eq!(env.get_cell(0, 0), CellType::Conductor);
    assert_eq!(env.get_cell(1, 0), CellType::Conductor);
    assert_eq!(env.get_cell(2, 0), CellType::Conductor);
    assert_eq!(env.get_cell(2, 1), CellType::Conductor);
    assert_eq!(env.get_cell(2, 2), CellType::ElectronTail);
    assert_eq!(env.get_cell(1, 2), CellType::ElectronTail);
    assert_eq!(env.get_cell(0, 2), CellType::ElectronHead);
}

fn snapshot(env: &Environment) -> Vec<Vec<CellType>> {
    let (w, h) = env.get_dimensions();
    (0..h).map(|y| (0..w).map(|x| env.get_cell(x, y)).collect()).collect()
}

/// A 3x3 grid whose center is a conductor surrounded by `heads` electron
/// heads, the rest of the ring conductors.
fn conductor_with_heads(heads: usize) -> Environment {
    let mut env = Environment::new_empty(3, 3);
    let ring = [(0, 0), (1, 0), (2, 0), (0, 1), (2, 1), (0, 2), (1, 2), (2, 2)];
    let mut seeds = vec![(1, 1, CellType::Conductor)];
    for (i, &(x, y)) in ring.iter().enumerate() {
        let c = if i < heads { CellType::ElectronHead } else { CellType::Conductor };
        seeds.push((x, y, c));
    }
    env.bulk_set_readable(seeds);
    env
}

#[test]
fn conductor_fires_on_one_or_two_heads_only() {
    for heads in 0..=8 {
        let mut env = conductor_with_heads(heads);
        env.advance();
        let expected = if heads == 1 || heads == 2 { CellType::ElectronHead } else { CellType::Conductor };
        assert_eq!(env.get_cell(1, 1), expected, "heads = {}", heads);
    }
}

#[test]
fn fixed_transitions_ignore_neighbors() {
    let mut env = Environment::new_empty(3, 1);
    env.bulk_set_readable(vec![
        (0, 0, CellType::Empty),
        (1, 0, CellType::ElectronHead),
        (2, 0, CellType::ElectronTail),
    ]);
    env.advance();
    assert_eq!(env.get_cell(0, 0), CellType::Empty);
    assert_eq!(env.get_cell(1, 0), CellType::ElectronTail);
    assert_eq!(env.get_cell(2, 0), CellType::Conductor);
    env.advance();
    assert_eq!(env.get_cell(0, 0), CellType::Empty);
    assert_eq!(env.get_cell(1, 0), CellType::Conductor);
    assert_eq!(env.get_cell(2, 0), CellType::Conductor);
}

#[test]
fn chain_advances_in_lockstep() {
    let mut env = Environment::new_empty(6, 1);
    env.bulk_set_readable(vec![
        (0, 0, CellType::ElectronHead),
        (1, 0, CellType::Conductor),
        (2, 0, CellType::Conductor),
        (3, 0, CellType::Conductor),
        (4, 0, CellType::Conductor),
        (5, 0, CellType::Conductor),
    ]);
    env.advance();
    let row = &snapshot(&env)[0];
    assert_eq!(row.iter().filter(|c| **c == CellType::ElectronHead).count(), 1);
    assert_eq!(row[1], CellType::ElectronHead);
    assert_eq!(row[2], CellType::Conductor);
}

#[test]
fn empty_grid_stays_empty() {
    let mut env = Environment::new_empty(4, 3);
    for _ in 0..10 {
        env.advance();
        assert!(snapshot(&env).iter().all(|r| r.iter().all(|c| *c == CellType::Empty)));
    }
}

#[test]
fn out_of_bounds_seed_is_skipped_and_others_apply() {
    let mut env = Environment::new_empty(3, 2);
    let skipped = env.bulk_set_readable(vec![
        (0, 0, CellType::Conductor),
        (3, 0, CellType::ElectronHead),
        (2, 1, CellType::ElectronTail),
        (0, 2, CellType::Conductor),
    ]);
    assert_eq!(skipped, vec![(3, 0, CellType::ElectronHead), (0, 2, CellType::Conductor)]);
    assert_eq!(env.get_cell(0, 0), CellType::Conductor);
    assert_eq!(env.get_cell(2, 1), CellType::ElectronTail);
    assert_eq!(env.get_cell(1, 0), CellType::Empty);
    assert_eq!(env.get_dimensions(), (3, 2));
}

#[test]
fn later_seed_wins() {
    let mut env = Environment::new_empty(2, 2);
    let skipped = env.bulk_set_readable(vec![(1, 1, CellType::Conductor), (1, 1, CellType::ElectronHead)]);
    assert!(skipped.is_empty());
    assert_eq!(env.get_cell(1, 1), CellType::ElectronHead);
}

fn checkerboard(x: usize, y: usize) -> CellType {
    if (x + y) % 2 == 0 { CellType::Conductor } else { CellType::Empty }
}

#[test]
fn new_uses_producer_and_dimensions() {
    let env = Environment::new(4, 2, checkerboard);
    assert_eq!(env.get_dimensions(), (4, 2));
    assert_eq!(env.get_cell(0, 0), CellType::Conductor);
    assert_eq!(env.get_cell(1, 0), CellType::Empty);
    assert_eq!(env.get_cell(3, 1), CellType::Conductor);
}

#[test]
fn set_cell_writes_only_the_write_buffer() {
    let mut env = Environment::new_empty(2, 2);
    env.set_cell(0, 0, CellType::ElectronHead);
    assert_eq!(env.get_cell(0, 0), CellType::Empty);
    env.advance();
    assert_eq!(env.get_cell(0, 0), CellType::Empty);
}

#[test]
fn render_text_glyphs_and_lines() {
    let mut env = Environment::new_empty(3, 2);
    env.bulk_set_readable(vec![
        (0, 0, CellType::ElectronHead),
        (1, 0, CellType::ElectronTail),
        (2, 0, CellType::Conductor),
        (1, 1, CellType::Conductor),
    ]);
    assert_eq!(env.render_text(), "#~+\n + \n");
}
