//! The rules of a simulation step that decide without arithmetic on
//! measured quantities: where a particle comes to rest at the walls, which
//! cell it is then filed under, and how a pressure is kept away from zero.
//!
//! Quantities are single-precision patterns, read as in [`crate::binary32`].

use vstd::prelude::*;
use vstd::arithmetic::power2::{pow2, lemma2_to64, lemma_pow2_adds, lemma_pow2_pos};
use crate::binary32::{
    abs,
    is_nan,
    less,
    magnitude,
    nan,
    nearest_integer,
    negative,
    scaled,
    unit,
    lemma_half,
    lemma_magnitude_order,
    lemma_magnitude_zero,
    lemma_nearest_integer_bounds,
    lemma_reading,
    HALF,
    SIGN_BIT,
};
use crate::chunk::{
    cell_index,
    cell_of,
    home_cell,
    in_cell_domain,
    valid_cell,
    CellCoord,
    Chunk,
    ChunkPosition,
    CHUNK_CELLS,
    CHUNK_SIZE,
};
use crate::entity_set::EntitySet;
use crate::lookup::{
    is_partition_of,
    moved,
    lemma_insert_fresh,
    lemma_move_keeps_partition,
    EntityLookupChunk,
};

verus! {

/// The lowest coordinate a particle may have on either axis: one half.
pub const LOW_BOUND: u32 = HALF;

/// The highest coordinate a particle may have on either axis: the grid's
/// side minus one and a half.
pub const HIGH_BOUND: u32 = 0x427a_0000;

/// The share of its speed that a particle keeps when a wall turns it back:
/// the single-precision number nearest to seven tenths.
pub const DAMPENING: u32 = 0x3f33_3333;

/// The least magnitude of a pressure that is not zero: the single-precision
/// number nearest to one hundredth.
pub const PRESSURE_FLOOR: u32 = 0x3c23_d70a;

/// Where a coordinate has come to after one axis of a move, and whether the
/// wall turned the particle back.
#[derive(Clone, Copy, Debug, PartialEq, Eq, Structural)]
pub struct AxisOutcome {
    pub coordinate: u32,
    pub bounced: bool,
}

/// Where a particle has come to after a move, and on which axes a wall
/// turned it back.
#[derive(Clone, Copy, Debug, PartialEq, Eq, Structural)]
pub struct Settled {
    pub x: AxisOutcome,
    pub y: AxisOutcome,
}

/// What the grid keeps of a particle: its identifier, its position as two
/// single-precision patterns, and the cell it is filed under.
#[derive(Clone, Copy, Debug, PartialEq, Eq, Structural)]
pub struct Placement {
    pub entity: u64,
    pub x: u32,
    pub y: u32,
    pub chunk_position: ChunkPosition,
}

impl Placement {
    /// Place of the recorded cell in the cell array.
    pub open spec fn cell(self) -> int {
        cell_index(self.chunk_position.pos.x as int, self.chunk_position.pos.y as int)
    }

    /// The recorded cell is a cell of the grid.
    pub open spec fn in_grid(self) -> bool {
        valid_cell(self.chunk_position.pos.x as int, self.chunk_position.pos.y as int)
    }

    /// The recorded cell is a cell of the grid, and the one that the
    /// position falls into.
    pub open spec fn cell_is_current(self) -> bool {
        self.in_grid() && cell_of(self.x, self.y) == Some(self.chunk_position.pos)
    }

    /// The particle once the walls have been applied to its position and
    /// its cell has been found again.
    pub open spec fn settled(self) -> Placement {
        let x = settled_axis(self.x).coordinate;
        let y = settled_axis(self.y).coordinate;
        Placement {
            entity: self.entity,
            x,
            y,
            chunk_position: ChunkPosition {
                pos: CellCoord { x: nearest_integer(x) as u32, y: nearest_integer(y) as u32 },
            },
        }
    }

    /// What the walls did on the two axes.
    pub open spec fn outcome(self) -> Settled {
        Settled { x: settled_axis(self.x), y: settled_axis(self.y) }
    }
}

/// The identifiers of the particles.
pub open spec fn entities(particles: Seq<Placement>) -> Set<u64> {
    Set::new(
        |id: u64| exists|i: int| 0 <= i < particles.len() && #[trigger] particles[i].entity == id,
    )
}

/// The grid and the particles agree: no two particles share an identifier,
/// every particle is filed under the cell it records, and the grid holds
/// every particle's identifier exactly once and nothing else.
pub open spec fn filed(cells: Seq<Set<u64>>, particles: Seq<Placement>) -> bool {
    &&& cells.len() == CHUNK_CELLS
    &&& forall|i: int, j: int|
        0 <= i < j < particles.len() ==> #[trigger] particles[i].entity
            != #[trigger] particles[j].entity
    &&& forall|i: int|
        0 <= i < particles.len() ==> (#[trigger] particles[i]).in_grid()
            && cells[particles[i].cell()].contains(particles[i].entity)
    &&& is_partition_of(cells, entities(particles))
}

/// The cells after the first `count` particles have been settled one after
/// the other, each moving from the cell it recorded to the cell of its
/// settled position.
pub open spec fn after_moves(cells: Seq<Set<u64>>, particles: Seq<Placement>, count: nat) -> Seq<
    Set<u64>,
>
    decreases count,
{
    if count == 0 {
        cells
    } else {
        let p = particles[count - 1];
        moved(after_moves(cells, particles, (count - 1) as nat), p.entity, p.cell(), p.settled().cell())
    }
}

/// The coordinate is a number below [`LOW_BOUND`].
pub open spec fn below_low_bound(bits: u32) -> bool {
    !nan(bits) && 2 * scaled(bits) < unit()
}

/// The coordinate is a number above [`HIGH_BOUND`].
pub open spec fn above_high_bound(bits: u32) -> bool {
    !nan(bits) && 2 * scaled(bits) > (2 * CHUNK_SIZE - 3) * unit()
}

/// The rule of the walls for one axis: a coordinate that has left the
/// permitted interval is put on the bound it crossed, and the particle is
/// turned back; any other coordinate stays as it is.
pub open spec fn settled_axis(bits: u32) -> AxisOutcome {
    if below_low_bound(bits) {
        AxisOutcome { coordinate: LOW_BOUND, bounced: true }
    } else if above_high_bound(bits) {
        AxisOutcome { coordinate: HIGH_BOUND, bounced: true }
    } else {
        AxisOutcome { coordinate: bits, bounced: false }
    }
}

/// The rule that keeps a pressure away from zero. What is not a number
/// counts as zero, and zero stays zero. Any other value whose magnitude is at
/// most [`PRESSURE_FLOOR`] becomes the floor with the value's sign. Larger
/// values stay as they are.
pub open spec fn floored_pressure(bits: u32) -> u32 {
    if nan(bits) || magnitude(bits) == 0 {
        0
    } else if magnitude(bits) <= magnitude(PRESSURE_FLOOR) {
        if negative(bits) {
            (PRESSURE_FLOOR + SIGN_BIT) as u32
        } else {
            PRESSURE_FLOOR
        }
    } else {
        bits
    }
}

/// [`HIGH_BOUND`] is the grid's side minus one and a half.
pub proof fn lemma_high_bound()
    ensures
        2 * scaled(HIGH_BOUND) == (2 * CHUNK_SIZE - 3) * unit(),
{
    lemma_reading(HIGH_BOUND, 132, 0x7a_0000);
    lemma2_to64();
    lemma_pow2_adds(18, 131);
    assert(unit() == 0x4_0000 * pow2(131));
    assert((2 * CHUNK_SIZE - 3) * unit() == 125 * unit());
}

/// [`DAMPENING`] lies strictly between zero and one.
pub proof fn lemma_dampening()
    ensures
        0 < scaled(DAMPENING) < unit(),
{
    lemma_reading(DAMPENING, 126, 0x33_3333);
    lemma2_to64();
    lemma_pow2_adds(24, 125);
    lemma_pow2_pos(125);
    assert(unit() == 0x100_0000 * pow2(125));
}

/// A coordinate that is a number lies, once settled, within the two bounds;
/// it has a cell coordinate, and that names a cell of the grid.
pub proof fn lemma_settled_in_grid(bits: u32)
    requires
        !nan(bits),
    ensures
        !nan(settled_axis(bits).coordinate),
        unit() <= 2 * scaled(settled_axis(bits).coordinate) <= (2 * CHUNK_SIZE - 3) * unit(),
        in_cell_domain(settled_axis(bits).coordinate),
        1 <= nearest_integer(settled_axis(bits).coordinate) <= CHUNK_SIZE - 1,
{
    let at = settled_axis(bits).coordinate;
    let u = unit();
    let n = nearest_integer(at);
    lemma_half();
    lemma_high_bound();
    lemma_pow2_pos(149);
    assert((2 * CHUNK_SIZE - 3) * u == 125 * u);
    assert((2 * CHUNK_SIZE + 1) * u == 129 * u);
    assert(u <= 2 * scaled(at) <= 125 * u);
    lemma_nearest_integer_bounds(at);
    assert(n >= 1) by (nonlinear_arith)
        requires
            u < (2 * n + 1) * u,
            u > 0,
    ;
    assert(n <= 63) by (nonlinear_arith)
        requires
            (2 * n - 1) * u <= 125 * u,
            u > 0,
    ;
}

/// Files a new particle at the position `(x, y)` under the cell of that
/// position and returns what the grid keeps of it. Where the position has no
/// cell in the grid, nothing changes and `None` is returned.
pub fn spawn_particle(grid: &mut EntityLookupChunk, entity: u64, x: u32, y: u32) -> (placed: Option<
    Placement,
>)
    ensures
        match home_cell(x, y) {
            Some(c) => {
                &&& placed == Some(
                    Placement { entity, x, y, chunk_position: ChunkPosition { pos: c } },
                )
                &&& final(grid)@ == old(grid)@.update(
                    cell_index(c.x as int, c.y as int),
                    old(grid)@[cell_index(c.x as int, c.y as int)].insert(entity),
                )
            },
            None => placed.is_none() && *final(grid) == *old(grid),
        },
        placed matches Some(p) ==> p.cell_is_current(),
        forall|particles: Seq<Placement>|
            placed.is_some() && #[trigger] filed(old(grid)@, particles) && !entities(
                particles,
            ).contains(entity) ==> filed(final(grid)@, particles.push(placed.unwrap())),
{
    match Chunk::<EntitySet>::get_chunk_pos(x, y) {
        Some(c) => {
            match grid.insert(entity, c.x as usize, c.y as usize) {
                Some(_) => {
                    let p = Placement { entity, x, y, chunk_position: ChunkPosition { pos: c } };
                    proof {
                        assert forall|particles: Seq<Placement>|
                            #[trigger] filed(old(grid)@, particles) && !entities(
                                particles,
                            ).contains(entity) implies filed(grid@, particles.push(p)) by {
                            lemma_spawn_keeps_filed(old(grid)@, particles, p);
                        }
                    }
                    Some(p)
                },
                None => None,
            }
        },
        None => None,
    }
}

/// A settled coordinate is at rest: settling it again changes nothing and
/// turns nothing back.
pub proof fn lemma_settled_stays(bits: u32)
    ensures
        settled_axis(settled_axis(bits).coordinate) == (AxisOutcome {
            coordinate: settled_axis(bits).coordinate,
            bounced: false,
        }),
{
    lemma_half();
    lemma_high_bound();
    lemma_pow2_pos(149);
    assert((2 * CHUNK_SIZE - 3) * unit() == 125 * unit());
}

/// A pressure that is a number other than zero keeps its sign, and its
/// magnitude is afterwards neither below the floor nor below what it was.
pub proof fn lemma_floor_keeps_sign(bits: u32)
    requires
        !nan(bits),
        magnitude(bits) != 0,
    ensures
        !nan(floored_pressure(bits)),
        negative(floored_pressure(bits)) == negative(bits),
        magnitude(floored_pressure(bits)) >= magnitude(PRESSURE_FLOOR),
        magnitude(floored_pressure(bits)) >= magnitude(bits),
{
}

/// Settles one coordinate of a particle after it has moved.
pub fn settle_axis(coordinate: u32) -> (outcome: AxisOutcome)
    ensures
        outcome == settled_axis(coordinate),
{
    proof {
        lemma_half();
        lemma_high_bound();
    }
    if less(coordinate, LOW_BOUND) {
        AxisOutcome { coordinate: LOW_BOUND, bounced: true }
    } else if less(HIGH_BOUND, coordinate) {
        AxisOutcome { coordinate: HIGH_BOUND, bounced: true }
    } else {
        AxisOutcome { coordinate, bounced: false }
    }
}

/// The last stage of a step for one particle, which has moved to `(x, y)`:
/// settles both coordinates at the walls, finds the cell of the settled
/// position, moves the particle's identifier to that cell if it has
/// changed, and records the cell in `chunk_pos`.
///
/// Both coordinates must be numbers, and the recorded cell a cell of the
/// grid. The settled position then always has a cell of the grid.
pub fn settle_particle(
    grid: &mut EntityLookupChunk,
    entity: u64,
    chunk_pos: &mut ChunkPosition,
    x: u32,
    y: u32,
) -> (settled: Settled)
    requires
        !nan(x),
        !nan(y),
        valid_cell(old(chunk_pos).pos.x as int, old(chunk_pos).pos.y as int),
    ensures
        settled.x == settled_axis(x),
        settled.y == settled_axis(y),
        cell_of(settled.x.coordinate, settled.y.coordinate) == Some(final(chunk_pos).pos),
        valid_cell(final(chunk_pos).pos.x as int, final(chunk_pos).pos.y as int),
        final(grid)@ == moved(
            old(grid)@,
            entity,
            cell_index(old(chunk_pos).pos.x as int, old(chunk_pos).pos.y as int),
            cell_index(final(chunk_pos).pos.x as int, final(chunk_pos).pos.y as int),
        ),
        final(chunk_pos).pos == old(chunk_pos).pos ==> *final(grid) == *old(grid),
        forall|ids: Set<u64>|
            #[trigger] is_partition_of(old(grid)@, ids) && old(grid).cell_set(
                old(chunk_pos).pos.x as int,
                old(chunk_pos).pos.y as int,
            ).contains(entity) ==> is_partition_of(final(grid)@, ids),
{
    let settled = Settled { x: settle_axis(x), y: settle_axis(y) };
    proof {
        lemma_settled_in_grid(x);
        lemma_settled_in_grid(y);
    }
    let previous = chunk_pos.pos;
    match Chunk::<EntitySet>::get_chunk_pos(settled.x.coordinate, settled.y.coordinate) {
        Some(current) => {
            grid.relocate(entity, previous, current);
            chunk_pos.pos = current;
        },
        None => {},
    }
    settled
}

/// A coordinate within two fifths of a whole number `c` has `c` as its
/// nearest integer: particles scattered that far around the centres of the
/// cells start in the cells they were scattered around.
pub proof fn lemma_scatter_keeps_cell(bits: u32, c: int)
    requires
        !nan(bits),
        0 <= c < CHUNK_SIZE,
        (5 * c - 2) * unit() <= 5 * scaled(bits) <= (5 * c + 2) * unit(),
    ensures
        in_cell_domain(bits),
        nearest_integer(bits) == c,
{
    let u = unit();
    let s = scaled(bits);
    let n = nearest_integer(bits);
    lemma_pow2_pos(149);
    lemma_nearest_integer_bounds(bits);
    assert((2 * CHUNK_SIZE + 1) * u == 129 * u);
    assert(n == c) by (nonlinear_arith)
        requires
            (2 * n - 1) * u <= 2 * s,
            2 * s < (2 * n + 1) * u,
            (5 * c - 2) * u <= 5 * s,
            5 * s <= (5 * c + 2) * u,
            u > 0,
    ;
    assert(-u < 2 * s && 2 * s < 129 * u) by (nonlinear_arith)
        requires
            (5 * c - 2) * u <= 5 * s,
            5 * s <= (5 * c + 2) * u,
            0 <= c < 64,
            u > 0,
    ;
}

/// Filing a new particle under the cell it records keeps the grid and the
/// particles in agreement.
pub proof fn lemma_spawn_keeps_filed(cells: Seq<Set<u64>>, particles: Seq<Placement>, p: Placement)
    requires
        filed(cells, particles),
        !entities(particles).contains(p.entity),
        p.in_grid(),
    ensures
        filed(cells.update(p.cell(), cells[p.cell()].insert(p.entity)), particles.push(p)),
{
    let after = cells.update(p.cell(), cells[p.cell()].insert(p.entity));
    let grown = particles.push(p);
    assert(entities(grown) =~= entities(particles).insert(p.entity)) by {
        assert forall|id: u64| entities(grown).contains(id) == entities(particles).insert(
            p.entity,
        ).contains(id) by {
            if entities(grown).contains(id) {
                let i = choose|i: int| 0 <= i < grown.len() && #[trigger] grown[i].entity == id;
                if i < particles.len() {
                    assert(particles[i].entity == id);
                }
            }
            if entities(particles).contains(id) {
                let i = choose|i: int|
                    0 <= i < particles.len() && #[trigger] particles[i].entity == id;
                assert(grown[i].entity == id);
            }
            if id == p.entity {
                assert(grown[particles.len() as int].entity == id);
            }
        }
    }
    lemma_insert_fresh(cells, entities(particles), p.entity, p.cell());
    assert forall|i: int, j: int| 0 <= i < j < grown.len() implies #[trigger] grown[i].entity
        != #[trigger] grown[j].entity by {
        if j < particles.len() {
            assert(particles[i].entity != particles[j].entity);
        } else {
            assert(particles[i].entity == grown[i].entity);
        }
    }
    assert forall|i: int| 0 <= i < grown.len() implies (#[trigger] grown[i]).in_grid()
        && after[grown[i].cell()].contains(grown[i].entity) by {
        if i < particles.len() {
            assert(particles[i].in_grid());
        }
    }
}

/// Settling one particle that is filed under the cell it records keeps the
/// grid and the particles in agreement.
pub proof fn lemma_settle_keeps_filed(cells: Seq<Set<u64>>, particles: Seq<Placement>, k: int)
    requires
        filed(cells, particles),
        0 <= k < particles.len(),
        !nan(particles[k].x),
        !nan(particles[k].y),
    ensures
        filed(
            moved(cells, particles[k].entity, particles[k].cell(), particles[k].settled().cell()),
            particles.update(k, particles[k].settled()),
        ),
        particles[k].settled().cell_is_current(),
{
    let p = particles[k];
    let q = p.settled();
    let after = moved(cells, p.entity, p.cell(), q.cell());
    let others = particles.update(k, q);
    lemma_settled_in_grid(p.x);
    lemma_settled_in_grid(p.y);
    assert(q.cell_is_current());
    assert(entities(others) =~= entities(particles)) by {
        assert forall|id: u64| entities(others).contains(id) == entities(particles).contains(
            id,
        ) by {
            if entities(others).contains(id) {
                let i = choose|i: int| 0 <= i < others.len() && #[trigger] others[i].entity == id;
                assert(particles[i].entity == id);
            }
            if entities(particles).contains(id) {
                let i = choose|i: int|
                    0 <= i < particles.len() && #[trigger] particles[i].entity == id;
                assert(others[i].entity == id);
            }
        }
    }
    lemma_move_keeps_partition(cells, entities(particles), p.entity, p.cell(), q.cell());
    assert forall|i: int| 0 <= i < others.len() implies (#[trigger] others[i]).in_grid()
        && after[others[i].cell()].contains(others[i].entity) by {
        if i != k {
            assert(particles[i].in_grid());
            assert(particles[i].entity != p.entity) by {
                if i < k {
                    assert(particles[i].entity != particles[k].entity);
                } else {
                    assert(particles[k].entity != particles[i].entity);
                }
            }
        }
    }
    assert forall|i: int, j: int| 0 <= i < j < others.len() implies #[trigger] others[i].entity
        != #[trigger] others[j].entity by {
        assert(particles[i].entity != particles[j].entity);
    }
}

/// The last stage of a step for all particles. On entry every particle
/// holds the position it has moved to and the cell it was filed under
/// before. Each particle in turn is settled at the walls and filed under
/// the cell of its settled position. What the walls did is returned,
/// particle by particle.
///
/// All coordinates must be numbers, and all recorded cells cells of the
/// grid. Where the grid and the particles agreed before, they agree after.
pub fn update_particle_pos(grid: &mut EntityLookupChunk, particles: &mut Vec<Placement>) -> (outcomes:
    Vec<Settled>)
    requires
        forall|i: int|
            0 <= i < old(particles)@.len() ==> {
                &&& !nan((#[trigger] old(particles)@[i]).x)
                &&& !nan(old(particles)@[i].y)
                &&& old(particles)@[i].in_grid()
            },
    ensures
        final(particles)@.len() == old(particles)@.len(),
        outcomes@.len() == old(particles)@.len(),
        forall|i: int|
            0 <= i < old(particles)@.len() ==> {
                &&& #[trigger] final(particles)@[i] == old(particles)@[i].settled()
                &&& final(particles)@[i].cell_is_current()
                &&& outcomes@[i] == old(particles)@[i].outcome()
            },
        final(grid)@ == after_moves(old(grid)@, old(particles)@, old(particles)@.len()),
        filed(old(grid)@, old(particles)@) ==> filed(final(grid)@, final(particles)@),
        (forall|i: int|
            0 <= i < old(particles)@.len() ==> (#[trigger] final(particles)@[i]).chunk_position
                == old(particles)@[i].chunk_position) ==> *final(grid) == *old(grid),
{
    let ghost before = particles@;
    let ghost start = grid@;
    let count = particles.len();
    let mut outcomes: Vec<Settled> = Vec::new();
    let mut i: usize = 0;
    while i < count
        invariant
            i <= count,
            count == before.len(),
            particles@.len() == count,
            outcomes@.len() == i,
            forall|j: int|
                0 <= j < count ==> {
                    &&& !nan((#[trigger] before[j]).x)
                    &&& !nan(before[j].y)
                    &&& before[j].in_grid()
                },
            forall|j: int|
                0 <= j < i ==> {
                    &&& #[trigger] particles@[j] == before[j].settled()
                    &&& particles@[j].cell_is_current()
                    &&& outcomes@[j] == before[j].outcome()
                },
            forall|j: int| i <= j < count ==> #[trigger] particles@[j] == before[j],
            grid@ == after_moves(start, before, i as nat),
            grid@.len() == CHUNK_CELLS,
            filed(start, before) ==> filed(grid@, particles@),
            (forall|j: int|
                0 <= j < i ==> (#[trigger] particles@[j]).chunk_position
                    == before[j].chunk_position) ==> *grid == *old(grid),
        decreases count - i,
    {
        let ghost cells = grid@;
        let ghost current = particles@;
        let mut particle = particles[i];
        let settled = settle_particle(
            grid,
            particle.entity,
            &mut particle.chunk_position,
            particle.x,
            particle.y,
        );
        particle.x = settled.x.coordinate;
        particle.y = settled.y.coordinate;
        particles[i] = particle;
        outcomes.push(settled);
        proof {
            let p = before[i as int];
            assert(current[i as int] == p);
            assert(particle == p.settled());
            assert(particles@ =~= current.update(i as int, p.settled()));
            if filed(start, before) {
                lemma_settle_keeps_filed(cells, current, i as int);
            }
            if forall|j: int|
                0 <= j < i + 1 ==> (#[trigger] particles@[j]).chunk_position
                    == before[j].chunk_position {
                assert forall|j: int| 0 <= j < i implies (#[trigger] current[j]).chunk_position
                    == before[j].chunk_position by {
                    assert(particles@[j] == current[j]);
                }
                assert(particles@[i as int].chunk_position == before[i as int].chunk_position);
            }
        }
        i += 1;
    }
    outcomes
}

/// Keeps a pressure away from zero, as [`floored_pressure`] says.
pub fn floor_pressure(val: u32) -> (pressure: u32)
    ensures
        pressure == floored_pressure(val),
{
    if is_nan(val) {
        return 0;
    }
    let size: u32 = abs(val);
    proof {
        lemma_magnitude_zero(val);
        lemma_magnitude_order(size, PRESSURE_FLOOR);
    }
    if size == 0 {
        0
    } else if size <= PRESSURE_FLOOR {
        if val >= SIGN_BIT {
            PRESSURE_FLOOR + SIGN_BIT
        } else {
            PRESSURE_FLOOR
        }
    } else {
        val
    }
}

/// The kind of particle that starts in layer `z` of cell `(x, y)`: kinds
/// zero and one alternate like the squares of a chessboard.
pub fn spawn_code(x: usize, y: usize, z: usize) -> (code: usize)
    ensures
        code == (x + y + z) % 2,
{
    (x % 2 + y % 2 + z % 2) % 2
}

} // verus!
