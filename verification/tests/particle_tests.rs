use sph_fluid::chunk::{CellCoord, ChunkPosition};
use sph_fluid::kernel::{
    classify_neighbor, derivative_applies, influence_applies, rejects_squared_distance, Reach,
    COINCIDENCE, INFLUENCE_RADIUS,
};
use sph_fluid::lookup::EntityLookupChunk;
use sph_fluid::particle::{
    floor_pressure, settle_axis, settle_particle, spawn_code, spawn_particle,
    update_particle_pos, AxisOutcome, Placement, Settled, DAMPENING, HIGH_BOUND, LOW_BOUND,
    PRESSURE_FLOOR,
};

fn pressure(density: f32, multiplier: f32) -> f32 {
    let target = 0.0f32;
    f32::from_bits(floor_pressure(((density - target) * multiplier).to_bits()))
}

/// The density kernel, with its branch picked by the library.
fn influence(distance: f32) -> f32 {
    if !influence_applies(distance.to_bits()) {
        return 0.0;
    }
    let x = f32::from_bits(INFLUENCE_RADIUS) - distance;
    x * x * x
}

/// The kernel's derivative, with its branch picked by the library.
fn derivative(distance: f32) -> f32 {
    if !derivative_applies(distance.to_bits()) {
        return 0.0;
    }
    3.0 * (f32::from_bits(INFLUENCE_RADIUS) - distance).powi(2)
}

#[test]
fn rule_constants_are_the_numbers_they_name() {
    assert_eq!(LOW_BOUND, 0.5f32.to_bits());
    assert_eq!(HIGH_BOUND, 62.5f32.to_bits());
    assert_eq!(DAMPENING, 0.7f32.to_bits());
    assert_eq!(PRESSURE_FLOOR, 0.01f32.to_bits());
    assert_eq!(INFLUENCE_RADIUS, 1.0f32.to_bits());
    assert_eq!(COINCIDENCE, 0.000001f32.to_bits());
}

#[test]
fn settle_axis_leaves_inner_coordinates_alone() {
    for v in [0.5f32, 0.50001, 1.0, 31.7, 62.4999, 62.5] {
        assert_eq!(
            settle_axis(v.to_bits()),
            AxisOutcome { coordinate: v.to_bits(), bounced: false },
            "value {v}"
        );
    }
}

#[test]
fn settle_axis_turns_back_at_the_low_wall() {
    for v in [0.49999997f32, 0.0, -0.0, -3.0, f32::NEG_INFINITY] {
        assert_eq!(
            settle_axis(v.to_bits()),
            AxisOutcome { coordinate: 0.5f32.to_bits(), bounced: true },
            "value {v}"
        );
    }
}

#[test]
fn settle_axis_turns_back_at_the_high_wall() {
    for v in [62.500004f32, 63.0, 64.0, 1.0e9, f32::INFINITY] {
        assert_eq!(
            settle_axis(v.to_bits()),
            AxisOutcome { coordinate: 62.5f32.to_bits(), bounced: true },
            "value {v}"
        );
    }
}

#[test]
fn settle_axis_passes_on_what_is_not_a_number() {
    let nan = f32::NAN.to_bits();
    assert_eq!(settle_axis(nan), AxisOutcome { coordinate: nan, bounced: false });
}

#[test]
fn boundary_reflection() {
    let n = 64.0f32;
    let position = n - 1.0 - 0.5 + 0.2;
    let mut velocity = 0.5f32;
    let outcome = settle_axis((position + velocity).to_bits());
    if outcome.bounced {
        velocity *= -f32::from_bits(DAMPENING);
    }
    assert!(outcome.bounced);
    assert_eq!(f32::from_bits(outcome.coordinate), n - 1.5);
    assert_eq!(velocity, -0.35);
}

#[test]
fn update_particle_pos_moves_the_identifier_with_the_particle() {
    let mut grid = EntityLookupChunk::default();
    grid.insert(42, 10, 10);
    grid.insert(43, 10, 10);
    let mut cached = ChunkPosition { pos: CellCoord { x: 10, y: 10 } };
    let settled =
        settle_particle(&mut grid, 42, &mut cached, 10.7f32.to_bits(), 9.2f32.to_bits());
    assert_eq!(settled.x, AxisOutcome { coordinate: 10.7f32.to_bits(), bounced: false });
    assert_eq!(settled.y, AxisOutcome { coordinate: 9.2f32.to_bits(), bounced: false });
    assert_eq!(cached.pos, CellCoord { x: 11, y: 9 });
    assert_eq!(grid.cell_entities(10, 10), Some(vec![43]));
    assert_eq!(grid.cell_entities(11, 9), Some(vec![42]));
}

#[test]
fn update_particle_pos_settles_at_the_walls() {
    let mut grid = EntityLookupChunk::default();
    grid.insert(42, 63, 1);
    let mut cached = ChunkPosition { pos: CellCoord { x: 63, y: 1 } };
    let settled =
        settle_particle(&mut grid, 42, &mut cached, 63.2f32.to_bits(), (-0.3f32).to_bits());
    assert_eq!(settled.x, AxisOutcome { coordinate: 62.5f32.to_bits(), bounced: true });
    assert_eq!(settled.y, AxisOutcome { coordinate: 0.5f32.to_bits(), bounced: true });
    assert_eq!(cached.pos, CellCoord { x: 63, y: 1 });
    assert_eq!(grid.cell_entities(63, 1), Some(vec![42]));
}

#[test]
fn idempotent_membership() {
    let mut grid = EntityLookupChunk::default();
    let mut id = 0u64;
    for x in 0..64 {
        for y in 0..64 {
            grid.insert(id, x, y);
            id += 1;
        }
    }
    let before: Vec<Option<Vec<u64>>> =
        (0..4096usize).map(|i| grid.cell_entities(i % 64, i / 64)).collect();
    // Particle 0 at cell (20, 30) moves a little and stays in its cell.
    let particle = (20 * 64 + 30) as u64;
    let mut cached = ChunkPosition { pos: CellCoord { x: 20, y: 30 } };
    settle_particle(&mut grid, particle, &mut cached, 20.3f32.to_bits(), 29.6f32.to_bits());
    assert_eq!(cached.pos, CellCoord { x: 20, y: 30 });
    let after: Vec<Option<Vec<u64>>> =
        (0..4096usize).map(|i| grid.cell_entities(i % 64, i / 64)).collect();
    assert_eq!(before, after);
}

#[test]
fn pressure_floor() {
    assert_eq!(pressure(5.0, 0.001), 0.01);
    assert_eq!(pressure(50.0, 0.001), 0.05);
    assert_eq!(pressure(0.0, 0.001), 0.0);
}

#[test]
fn pressure_floor_keeps_the_sign() {
    assert_eq!(pressure(-5.0, 0.001), -0.01);
    assert_eq!(pressure(-50.0, 0.001), -0.05);
    assert_eq!(floor_pressure(0.01f32.to_bits()), 0.01f32.to_bits());
    assert_eq!(floor_pressure((-0.01f32).to_bits()), (-0.01f32).to_bits());
    assert_eq!(floor_pressure(0.010000001f32.to_bits()), 0.010000001f32.to_bits());
    assert_eq!(floor_pressure(1.0e-40f32.to_bits()), 0.01f32.to_bits());
    assert_eq!(floor_pressure(f32::INFINITY.to_bits()), f32::INFINITY.to_bits());
    assert_eq!(floor_pressure(f32::NEG_INFINITY.to_bits()), f32::NEG_INFINITY.to_bits());
}

#[test]
fn pressure_of_zero_or_of_no_number_is_zero() {
    assert_eq!(floor_pressure(0.0f32.to_bits()), 0);
    assert_eq!(floor_pressure((-0.0f32).to_bits()), 0);
    assert_eq!(floor_pressure(f32::NAN.to_bits()), 0);
    assert_eq!(floor_pressure((-f32::NAN).to_bits()), 0);
    assert_eq!(pressure(f32::NAN, 0.001), 0.0);
}

#[test]
fn spawn_codes_alternate() {
    assert_eq!(spawn_code(0, 0, 0), 0);
    assert_eq!(spawn_code(1, 0, 0), 1);
    assert_eq!(spawn_code(0, 1, 0), 1);
    assert_eq!(spawn_code(1, 1, 0), 0);
    assert_eq!(spawn_code(63, 62, 0), 1);
    assert_eq!(spawn_code(3, 4, 1), 0);
    assert_eq!(spawn_code(usize::MAX, usize::MAX, 1), 1);
}

#[test]
fn kernel_shape() {
    assert_eq!(influence(0.0), 1.0);
    assert_eq!(influence(1.0), 0.0);
    assert_eq!(influence(0.5), 0.125);
    assert_eq!(influence(-0.1), 0.0);
    assert_eq!(influence(1.1), 0.0);
    assert_eq!(influence(f32::NAN), 0.0);
    let mut previous = influence(0.0);
    for step in 1..=100 {
        let next = influence(step as f32 / 100.0);
        assert!(next < previous);
        previous = next;
    }
}

#[test]
fn kernel_derivative() {
    assert_eq!(derivative(0.5), 0.75);
    assert_eq!(derivative(0.0), 0.0);
    assert_eq!(derivative(-0.0), 0.0);
    assert_eq!(derivative(-0.5), 0.0);
    assert_eq!(derivative(1.5), 0.0);
    assert_eq!(derivative(1.0), 0.0);
    assert_eq!(derivative(f32::NAN), 0.0);
}

#[test]
fn kernel_support_is_the_closed_unit_interval() {
    assert!(influence_applies(0.0f32.to_bits()));
    assert!(influence_applies((-0.0f32).to_bits()));
    assert!(influence_applies(1.0f32.to_bits()));
    assert!(!influence_applies(1.0000001f32.to_bits()));
    assert!(!influence_applies((-1.0e-45f32).to_bits()));
    assert!(!influence_applies(f32::NAN.to_bits()));
    assert!(derivative_applies(1.0e-45f32.to_bits()));
    assert!(derivative_applies(1.0f32.to_bits()));
    assert!(!derivative_applies(0.0f32.to_bits()));
    assert!(!derivative_applies(f32::NAN.to_bits()));
}

#[test]
fn squared_distances_from_one_on_are_rejected() {
    assert!(rejects_squared_distance(1.0f32.to_bits()));
    assert!(rejects_squared_distance(2.0f32.to_bits()));
    assert!(rejects_squared_distance(f32::INFINITY.to_bits()));
    assert!(!rejects_squared_distance(0.99999994f32.to_bits()));
    assert!(!rejects_squared_distance(0.0f32.to_bits()));
    assert!(!rejects_squared_distance(f32::NAN.to_bits()));
}

#[test]
fn neighbours_are_sorted_by_distance() {
    assert_eq!(classify_neighbor(1.0f32.to_bits()), Reach::Beyond);
    assert_eq!(classify_neighbor(5.0f32.to_bits()), Reach::Beyond);
    assert_eq!(classify_neighbor(0.0f32.to_bits()), Reach::Coincident);
    assert_eq!(classify_neighbor(0.000001f32.to_bits()), Reach::Coincident);
    assert_eq!(classify_neighbor(0.0000011f32.to_bits()), Reach::Apart);
    assert_eq!(classify_neighbor(0.5f32.to_bits()), Reach::Apart);
    assert_eq!(classify_neighbor(0.99999994f32.to_bits()), Reach::Apart);
    assert_eq!(classify_neighbor(f32::NAN.to_bits()), Reach::Apart);
}

#[test]
fn two_particles_half_a_cell_apart() {
    // Identifiers 1 and 2, both of mass one, at rest.
    let positions = [(10.0f32, 10.0f32), (10.5f32, 10.0f32)];
    let mass = [1.0f32, 1.0f32];
    let multiplier = 0.001f32;
    let gravity = 0.0f32;
    let mut grid = EntityLookupChunk::default();
    let mut cached = [ChunkPosition::default(), ChunkPosition::default()];
    for i in 0..2 {
        let at = sph_fluid::chunk::Chunk::<u8>::get_chunk_pos(
            positions[i].0.to_bits(),
            positions[i].1.to_bits(),
        )
        .unwrap();
        grid.insert(i as u64 + 1, at.x as usize, at.y as usize);
        cached[i].pos = at;
    }
    assert_eq!(cached[0].pos, CellCoord { x: 10, y: 10 });
    assert_eq!(cached[1].pos, CellCoord { x: 11, y: 10 });

    // Local density: each particle finds itself and the other.
    let mut density = [0.0f32; 2];
    let mut from_other = [0.0f32; 2];
    for i in 0..2 {
        let near = grid
            .entities_near(positions[i].0.to_bits(), positions[i].1.to_bits())
            .unwrap();
        let mut found = near.clone();
        found.sort();
        assert_eq!(found, vec![1, 2]);
        for id in near {
            let j = (id - 1) as usize;
            let dx = positions[j].0 - positions[i].0;
            let dy = positions[j].1 - positions[i].1;
            let dist_sq = dx * dx + dy * dy;
            if rejects_squared_distance(dist_sq.to_bits()) {
                continue;
            }
            let w = influence(dist_sq.sqrt()) * mass[j];
            density[i] += w;
            if j != i {
                from_other[i] += w;
            }
        }
    }
    assert_eq!(from_other, [0.125, 0.125]);
    assert_eq!(density, [1.125, 1.125]);

    // Acceleration: the pressure gradient over the own density.
    let mut acceleration = [(0.0f32, 0.0f32); 2];
    for i in 0..2 {
        let near = grid
            .entities_near(positions[i].0.to_bits(), positions[i].1.to_bits())
            .unwrap();
        let mut force = (0.0f32, 0.0f32);
        for id in near {
            let j = (id - 1) as usize;
            let dx = positions[j].0 - positions[i].0;
            let dy = positions[j].1 - positions[i].1;
            let dist = (dx * dx + dy * dy).sqrt();
            match classify_neighbor(dist.to_bits()) {
                Reach::Beyond => {}
                Reach::Coincident => assert_eq!(i, j),
                Reach::Apart => {
                    assert_ne!(i, j);
                    let weight = pressure(density[j], multiplier) / density[j] * mass[j];
                    let slope = derivative(dist);
                    force.0 += -(dx / dist) * slope * weight;
                    force.1 += -(dy / dist) * slope * weight;
                }
            }
        }
        acceleration[i] = (force.0 / density[i], force.1 / density[i] - gravity);
    }
    assert!(acceleration[0].0 < 0.0);
    assert!(acceleration[1].0 > 0.0);
    assert_eq!(acceleration[0].1, 0.0 - gravity);
    assert_eq!(acceleration[1].1, 0.0 - gravity);
    assert_eq!(acceleration[0].0, -acceleration[1].0);
}

#[test]
fn spawn_particle_files_under_the_cell_of_the_position() {
    let mut grid = EntityLookupChunk::default();
    let placed = spawn_particle(
        &mut grid,
        77,
        5.4f32.to_bits(),
        6.6f32.to_bits(),
    );
    assert_eq!(
        placed,
        Some(Placement {
            entity: 77,
            x: 5.4f32.to_bits(),
            y: 6.6f32.to_bits(),
            chunk_position: ChunkPosition { pos: CellCoord { x: 5, y: 7 } },
        })
    );
    assert_eq!(grid.cell_entities(5, 7), Some(vec![77]));
}

#[test]
fn spawn_particle_outside_the_grid_changes_nothing() {
    let mut grid = EntityLookupChunk::default();
    for (x, y) in [
        (63.5f32, 1.0f32),
        (1.0, 64.2),
        (-0.5, 1.0),
        (1.0, 70.0),
        (f32::NAN, 1.0),
        (1.0, f32::INFINITY),
    ] {
        assert_eq!(
            spawn_particle(&mut grid, 77, x.to_bits(), y.to_bits()),
            None
        );
    }
    for x in 0..64 {
        for y in 0..64 {
            assert_eq!(grid.cell_entities(x, y), Some(vec![]));
        }
    }
}

#[test]
fn scattered_particles_start_in_their_own_cells() {
    let mut grid = EntityLookupChunk::default();
    let mut state: u32 = 4242;
    let mut entity = 0u64;
    for x in 0..64u32 {
        for y in 0..64u32 {
            state = state.wrapping_mul(1_664_525).wrapping_add(1_013_904_223);
            let jx = ((state >> 8) as f32 / 16_777_216.0 - 0.5) * 0.8;
            state = state.wrapping_mul(1_664_525).wrapping_add(1_013_904_223);
            let jy = ((state >> 8) as f32 / 16_777_216.0 - 0.5) * 0.8;
            let placed = spawn_particle(
                &mut grid,
                entity,
                (x as f32 + jx).to_bits(),
                (y as f32 + jy).to_bits(),
            )
            .unwrap();
            assert_eq!(placed.chunk_position.pos, CellCoord { x, y });
            entity += 1;
        }
    }
    for x in 0..64usize {
        for y in 0..64usize {
            assert_eq!(grid.cell_entities(x, y), Some(vec![(x * 64 + y) as u64]));
        }
    }
}

#[test]
fn update_particle_pos_settles_every_particle() {
    let mut grid = EntityLookupChunk::default();
    let starts = [(10.0f32, 10.0f32), (10.2, 10.1), (62.0, 0.8), (30.0, 30.0)];
    let mut particles: Vec<Placement> = Vec::new();
    for (i, (x, y)) in starts.iter().enumerate() {
        particles.push(
            spawn_particle(&mut grid, i as u64, x.to_bits(), y.to_bits())
                .unwrap(),
        );
    }
    // The particles move.
    let moves = [(0.7f32, -0.3f32), (0.0, 0.0), (1.2, -0.9), (-0.4, 0.6)];
    for (p, (dx, dy)) in particles.iter_mut().zip(moves.iter()) {
        p.x = (f32::from_bits(p.x) + dx).to_bits();
        p.y = (f32::from_bits(p.y) + dy).to_bits();
    }
    let outcomes = update_particle_pos(&mut grid, &mut particles);

    let free = |v: f32| AxisOutcome { coordinate: v.to_bits(), bounced: false };
    let turned = |v: f32| AxisOutcome { coordinate: v.to_bits(), bounced: true };
    assert_eq!(
        outcomes,
        vec![
            Settled { x: free(10.7), y: free(9.7) },
            Settled { x: free(10.2), y: free(10.1) },
            Settled { x: turned(62.5), y: turned(0.5) },
            Settled { x: free(29.6), y: free(30.6) },
        ]
    );
    let cells: Vec<CellCoord> = particles.iter().map(|p| p.chunk_position.pos).collect();
    assert_eq!(
        cells,
        vec![
            CellCoord { x: 11, y: 10 },
            CellCoord { x: 10, y: 10 },
            CellCoord { x: 63, y: 1 },
            CellCoord { x: 30, y: 31 },
        ]
    );
    for (p, o) in particles.iter().zip(outcomes.iter()) {
        assert_eq!(p.x, o.x.coordinate);
        assert_eq!(p.y, o.y.coordinate);
    }
    assert_eq!(grid.cell_entities(10, 10), Some(vec![1]));
    assert_eq!(grid.cell_entities(11, 10), Some(vec![0]));
    assert_eq!(grid.cell_entities(62, 1), Some(vec![]));
    assert_eq!(grid.cell_entities(63, 1), Some(vec![2]));
    assert_eq!(grid.cell_entities(30, 30), Some(vec![]));
    assert_eq!(grid.cell_entities(30, 31), Some(vec![3]));
}

#[test]
fn the_grid_stays_a_partition_over_many_steps() {
    let mut grid = EntityLookupChunk::default();
    let mut particles: Vec<Placement> = Vec::new();
    let mut entity = 0u64;
    for x in 0..64u32 {
        for y in 0..64u32 {
            if (x + y) % 3 == 0 {
                particles.push(
                    spawn_particle(
                        &mut grid,
                        entity,
                        (x as f32).to_bits(),
                        (y as f32).to_bits(),
                    )
                    .unwrap(),
                );
                entity += 1;
            }
        }
    }
    let count = particles.len();
    let mut state: u32 = 99;
    for _tick in 0..20 {
        for p in particles.iter_mut() {
            state = state.wrapping_mul(1_664_525).wrapping_add(1_013_904_223);
            let dx = ((state >> 8) as f32 / 16_777_216.0 - 0.5) * 6.0;
            state = state.wrapping_mul(1_664_525).wrapping_add(1_013_904_223);
            let dy = ((state >> 8) as f32 / 16_777_216.0 - 0.5) * 6.0;
            p.x = (f32::from_bits(p.x) + dx).to_bits();
            p.y = (f32::from_bits(p.y) + dy).to_bits();
        }
        let outcomes = update_particle_pos(&mut grid, &mut particles);
        assert_eq!(outcomes.len(), count);
        let mut total = 0;
        for x in 0..64 {
            for y in 0..64 {
                total += grid.cell_entities(x, y).unwrap().len();
            }
        }
        assert_eq!(total, count);
        for p in particles.iter() {
            let x = f32::from_bits(p.x);
            let y = f32::from_bits(p.y);
            assert!((0.5..=62.5).contains(&x) && (0.5..=62.5).contains(&y));
            let at = p.chunk_position.pos;
            assert_eq!(at, CellCoord { x: x.round() as u32, y: y.round() as u32 });
            assert!(grid.contains(p.entity, at.x as usize, at.y as usize));
        }
    }
}
