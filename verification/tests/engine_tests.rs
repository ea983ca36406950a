use chunked_cells::coords::{pos, Pos};
use chunked_cells::engine::LeddooAtomic;
use chunked_cells::grid::{Cell, Chunk};
use chunked_cells::rule::{CountRange, Rule};

fn range_of(counts: &[u8]) -> CountRange {
    CountRange::of_counts(&counts.to_vec(), 27)
}

/// 8-connectivity restricted to the x-y plane.
fn plane8() -> Vec<Pos> {
    let mut v = Vec::new();
    for dx in -1..=1 {
        for dy in -1..=1 {
            if (dx, dy) != (0, 0) {
                v.push(pos(dx, dy, 0));
            }
        }
    }
    v
}

/// Full 26-connectivity.
fn moore26() -> Vec<Pos> {
    let mut v = Vec::new();
    for dx in -1..=1 {
        for dy in -1..=1 {
            for dz in -1..=1 {
                if (dx, dy, dz) != (0, 0, 0) {
                    v.push(pos(dx, dy, dz));
                }
            }
        }
    }
    v
}

fn blinker_rule() -> Rule {
    Rule {
        states: 1,
        bounding_size: 3,
        birth_rule: range_of(&[3]),
        survival_rule: range_of(&[2, 3]),
        neighbour_offsets: plane8(),
    }
}

#[test]
fn offsets_check_accepts_unit_offsets() {
    let rule = blinker_rule();
    assert!(rule.check_offsets());
    let mut bad = blinker_rule();
    bad.neighbour_offsets.push(pos(2, 0, 0));
    assert!(!bad.check_offsets());
}

#[test]
fn count_range_membership() {
    let r = range_of(&[2, 3]);
    assert!(!r.in_range(0));
    assert!(!r.in_range(1));
    assert!(r.in_range(2));
    assert!(r.in_range(3));
    assert!(!r.in_range(4));
    assert!(!r.in_range(200));
}

#[test]
fn new_engine_is_empty() {
    let e = LeddooAtomic::new();
    assert_eq!(e.size(), 0);
    assert_eq!(e.cell_count(), 0);
}

#[test]
fn set_size_rounds_up_to_chunks() {
    let mut e = LeddooAtomic::new(); // chunk edge 32
    assert_eq!(e.set_size(33), 64);
    assert_eq!(e.size(), 64);
    let mut f = LeddooAtomic::with_chunk_size(3);
    assert_eq!(f.set_size(7), 9);
    assert_eq!(f.size(), 9);
}

#[test]
fn center_is_half_the_edge() {
    let mut e = LeddooAtomic::with_chunk_size(2);
    e.set_size(4);
    let c = e.center();
    assert_eq!((c.x, c.y, c.z), (2, 2, 2));
}

// Birth determinism: a dead cell whose count satisfies the birth predicate
// becomes mature and emits exactly one spawn; one whose count fails it
// emits nothing and stays dead.
#[test]
fn value_phase_birth() {
    let rule = Rule {
        states: 5,
        bounding_size: 4,
        birth_rule: range_of(&[1]),
        survival_rule: range_of(&[2]),
        neighbour_offsets: moore26(),
    };
    let mut chunk = Chunk(vec![
        Cell { value: 0, neighbours: 1 },
        Cell { value: 0, neighbours: 0 },
        Cell { value: 0, neighbours: 1 },
    ]);
    let mut spawns = Vec::new();
    let mut deaths = Vec::new();
    LeddooAtomic::update_values(&mut chunk, &rule, &mut spawns, &mut deaths);
    assert_eq!(chunk.0[0], Cell { value: 5, neighbours: 1 });
    assert_eq!(chunk.0[1], Cell { value: 0, neighbours: 0 });
    assert_eq!(chunk.0[2], Cell { value: 5, neighbours: 1 });
    assert_eq!(spawns, vec![0, 2]);
    assert_eq!(deaths, Vec::<usize>::new());
}

// Decay determinism: a mature cell failing survival decrements once and
// emits exactly one death; a decaying cell decrements and emits nothing.
#[test]
fn value_phase_decay() {
    let rule = Rule {
        states: 5,
        bounding_size: 4,
        birth_rule: range_of(&[1]),
        survival_rule: range_of(&[2]),
        neighbour_offsets: moore26(),
    };
    let mut chunk = Chunk(vec![
        Cell { value: 5, neighbours: 2 }, // mature, survives
        Cell { value: 5, neighbours: 0 }, // mature, dies
        Cell { value: 3, neighbours: 2 }, // decaying: steps down, no event
        Cell { value: 1, neighbours: 0 }, // decaying: reaches zero, no event
    ]);
    let mut spawns = Vec::new();
    let mut deaths = Vec::new();
    LeddooAtomic::update_values(&mut chunk, &rule, &mut spawns, &mut deaths);
    assert_eq!(chunk.0[0], Cell { value: 5, neighbours: 2 });
    assert_eq!(chunk.0[1], Cell { value: 4, neighbours: 0 });
    assert_eq!(chunk.0[2], Cell { value: 2, neighbours: 2 });
    assert_eq!(chunk.0[3], Cell { value: 0, neighbours: 0 });
    assert_eq!(spawns, Vec::<usize>::new());
    assert_eq!(deaths, vec![1]);
}

#[test]
fn seeding_sets_cells_and_counters() {
    let rule = blinker_rule();
    let mut e = LeddooAtomic::with_chunk_size(3);
    e.set_size(3);
    let line = vec![pos(0, 1, 1), pos(1, 1, 1), pos(2, 1, 1)];
    e.spawn_noise(&rule, &line);
    assert_eq!(e.cell_count(), 3);
    // a seeded cell is mature; on the 3-wide torus its two row mates are its
    // only mature plane neighbours
    assert_eq!(e.cell_at(pos(1, 1, 1)), Cell { value: 1, neighbours: 2 });
    assert_eq!(e.cell_at(pos(0, 1, 1)), Cell { value: 1, neighbours: 2 });
    // a dead cell above the line sees the whole row: three mature neighbours
    assert_eq!(e.cell_at(pos(0, 0, 1)), Cell { value: 0, neighbours: 3 });
    assert_eq!(e.cell_at(pos(2, 2, 1)), Cell { value: 0, neighbours: 3 });
    // other planes see nothing
    assert_eq!(e.cell_at(pos(1, 1, 0)), Cell { value: 0, neighbours: 0 });
    // a second seeding of a live cell changes nothing
    e.spawn_noise(&rule, &vec![pos(1, 1, 1)]);
    assert_eq!(e.cell_count(), 3);
    assert_eq!(e.cell_at(pos(1, 1, 1)), Cell { value: 1, neighbours: 2 });
    assert!(e.validate(&rule));
}

// Scenario: one chunk of edge 3, states 1, plane 8-connectivity, birth {3},
// survival {2,3}, a 3-cell line at the centre row.  On the 3-torus the line
// closes into a ring: after one generation the whole plane is live, after
// two it is empty again.
#[test]
fn blinker_plane_oscillation() {
    let rule = blinker_rule();
    let mut e = LeddooAtomic::with_chunk_size(3);
    e.set_size(3);
    e.spawn_noise(&rule, &vec![pos(0, 1, 1), pos(1, 1, 1), pos(2, 1, 1)]);

    e.update(&rule);
    assert_eq!(e.cell_count(), 9);
    for x in 0..3 {
        for y in 0..3 {
            let cell = e.cell_at(pos(x, y, 1));
            assert_eq!(cell.value, 1, "live plane cell at ({x},{y})");
            assert_eq!(cell.neighbours, 8, "full plane counter at ({x},{y})");
            assert_eq!(e.cell_at(pos(x, y, 0)).value, 0);
            assert_eq!(e.cell_at(pos(x, y, 2)).value, 0);
        }
    }
    assert!(e.validate(&rule));

    e.update(&rule);
    assert_eq!(e.cell_count(), 0);
    for x in 0..3 {
        for y in 0..3 {
            for z in 0..3 {
                assert_eq!(e.cell_at(pos(x, y, z)), Cell { value: 0, neighbours: 0 });
            }
        }
    }
    assert!(e.validate(&rule));
}

// Neighbor-count invariant: after seeding and after each completed
// generation, every maintained counter equals an independent recount.
#[test]
fn counters_stay_valid_across_generations() {
    let rule = Rule {
        states: 2,
        bounding_size: 8,
        birth_rule: range_of(&[4, 5]),
        survival_rule: range_of(&[2, 3, 4, 5]),
        neighbour_offsets: moore26(),
    };
    let mut e = LeddooAtomic::with_chunk_size(4);
    e.set_size(8);
    let mut seeds = Vec::new();
    // a fixed blob of seeds around the centre, crossing a chunk border
    for x in 2..6 {
        for y in 3..6 {
            for z in 3..5 {
                if (x + 2 * y + 3 * z) % 3 != 0 {
                    seeds.push(pos(x, y, z));
                }
            }
        }
    }
    e.spawn_noise(&rule, &seeds);
    assert!(e.validate(&rule));
    for _ in 0..4 {
        e.update(&rule);
        assert!(e.validate(&rule));
    }
}

// Resize clears state: after a resize that changes the grid, no cell is
// live and no neighbour counter is nonzero.
#[test]
fn resize_clears_state() {
    let rule = blinker_rule();
    let mut e = LeddooAtomic::with_chunk_size(3);
    e.set_size(3);
    e.spawn_noise(&rule, &vec![pos(0, 1, 1), pos(1, 1, 1), pos(2, 1, 1)]);
    assert_eq!(e.cell_count(), 3);

    let effective = e.set_size(6);
    assert_eq!(effective, 6);
    assert_eq!(e.cell_count(), 0);
    for x in 0..6 {
        for y in 0..6 {
            for z in 0..6 {
                let cell = e.cell_at(pos(x, y, z));
                assert_eq!(cell.value, 0);
                assert_eq!(cell.neighbours, 0);
            }
        }
    }
}

#[test]
fn resize_to_same_radius_keeps_state() {
    let rule = blinker_rule();
    let mut e = LeddooAtomic::with_chunk_size(3);
    e.set_size(3);
    e.spawn_noise(&rule, &vec![pos(1, 1, 1)]);
    assert_eq!(e.cell_count(), 1);
    assert_eq!(e.set_size(3), 3);
    assert_eq!(e.cell_count(), 1);
    assert_eq!(e.cell_at(pos(1, 1, 1)).value, 1);
}

#[test]
fn update_sizes_an_empty_engine() {
    let rule = blinker_rule();
    let mut e = LeddooAtomic::with_chunk_size(3);
    e.update(&rule);
    assert_eq!(e.size(), 3);
    assert_eq!(e.cell_count(), 0);
}

#[test]
fn reset_empties_the_grid() {
    let rule = blinker_rule();
    let mut e = LeddooAtomic::with_chunk_size(3);
    e.set_size(3);
    e.spawn_noise(&rule, &vec![pos(1, 1, 1)]);
    e.reset();
    assert_eq!(e.size(), 0);
    assert_eq!(e.cell_count(), 0);
}

#[test]
fn validate_detects_a_corrupt_counter() {
    let rule = blinker_rule();
    let mut e = LeddooAtomic::with_chunk_size(3);
    e.set_size(3);
    e.spawn_noise(&rule, &vec![pos(1, 1, 1)]);
    assert!(e.validate(&rule));
    e.chunks.chunks[0].0[0].neighbours = 7;
    assert!(!e.validate(&rule));
}

// Default chunk edge: a seed blob deep inside one chunk exercises the
// interior propagation path, a corner blob the wrapped cross-chunk path.
#[test]
fn counters_stay_valid_at_default_chunk_size() {
    let rule = Rule {
        states: 3,
        bounding_size: 32,
        birth_rule: range_of(&[5, 6, 7]),
        survival_rule: range_of(&[4, 5, 6, 7]),
        neighbour_offsets: moore26(),
    };
    let mut e = LeddooAtomic::new();
    e.set_size(32);
    let mut seeds = Vec::new();
    for x in 14..19 {
        for y in 14..19 {
            for z in 14..19 {
                if (x + y + z) % 2 == 0 {
                    seeds.push(pos(x, y, z));
                }
            }
        }
    }
    for d in -2..=2 {
        seeds.push(pos(d, d, -d));
    }
    e.spawn_noise(&rule, &seeds);
    assert!(e.validate(&rule));
    for _ in 0..2 {
        e.update(&rule);
        assert!(e.validate(&rule));
    }
}
