//! The generation engine: the two-phase update of the chunked automaton,
//! seeding, and the diagnostic recount of the neighbour counters.
//!
//! A generation first ages every cell from its own state and neighbour
//! counter alone (the value phase), recording the offsets that came to life
//! and the offsets that began to decay; it then walks those events and
//! adjusts the neighbour counter of every cell around each event (the
//! propagation phase).

use vstd::prelude::*;
use crate::coords::{
    Pos, MAX_DOMAIN_EDGE, dims_ok, domain_spec, chunk_count_spec, cells_per_chunk_spec,
    total_cells_spec, chunk_of_index, offset_of_index, pos_to_index_spec, index_to_x_spec,
    index_to_y_spec, index_to_z_spec, wrap_spec, lemma_dims_products, lemma_recompose,
    lemma_split_bounds, lin3, delin3_x, delin3_y, delin3_z, cells_per_chunk_ex, wrap_pos,
    pos_to_index_ex, index_to_pos_ex, index_to_chunk_index, index_to_chunk_offset,
    lemma_pos_index_roundtrip, lemma_delin3_inverse,
};
use crate::grid::{
    Cell, Chunk, Chunks, chunk_list_wf, flat_of, is_border_spec, lemma_flat_at,
    lemma_flat_update,
};
use crate::rule::{Rule, offset_small};

verus! {

/// Whether a cell is at the age that contributes to neighbour counters.
pub open spec fn is_mature(cell: Cell, rule: Rule) -> bool {
    cell.value == rule.states
}

/// Whether the value phase brings this dead cell to life.
pub open spec fn is_spawn(cell: Cell, rule: Rule) -> bool {
    cell.value == 0 && rule.birth_rule.in_range_spec(cell.neighbours as int)
}

/// Whether the value phase moves this mature cell into decay.
pub open spec fn is_death(cell: Cell, rule: Rule) -> bool {
    cell.value != 0 && is_mature(cell, rule) && !rule.survival_rule.in_range_spec(
        cell.neighbours as int,
    )
}

/// One cell after the value phase: birth to full age, survival, or a decay
/// step of exactly one.
pub open spec fn step_cell(cell: Cell, rule: Rule) -> Cell {
    if cell.value == 0 {
        if rule.birth_rule.in_range_spec(cell.neighbours as int) {
            Cell { value: rule.states, neighbours: cell.neighbours }
        } else {
            cell
        }
    } else if cell.value < rule.states || !rule.survival_rule.in_range_spec(
        cell.neighbours as int,
    ) {
        Cell { value: (cell.value - 1) as u8, neighbours: cell.neighbours }
    } else {
        cell
    }
}

/// Every cell of a sequence after the value phase.
pub open spec fn step_values_spec(cells: Seq<Cell>, rule: Rule) -> Seq<Cell> {
    Seq::new(cells.len(), |i: int| step_cell(cells[i], rule))
}

/// The in-chunk offsets, in increasing order, whose cells the value phase
/// brings to life.
pub open spec fn spawn_offsets(cells: Seq<Cell>, rule: Rule) -> Seq<usize>
    decreases cells.len(),
{
    if cells.len() == 0 {
        Seq::empty()
    } else {
        let prefix = spawn_offsets(cells.drop_last(), rule);
        if is_spawn(cells.last(), rule) {
            prefix.push((cells.len() - 1) as usize)
        } else {
            prefix
        }
    }
}

/// The in-chunk offsets, in increasing order, whose cells the value phase
/// moves into decay.
pub open spec fn death_offsets(cells: Seq<Cell>, rule: Rule) -> Seq<usize>
    decreases cells.len(),
{
    if cells.len() == 0 {
        Seq::empty()
    } else {
        let prefix = death_offsets(cells.drop_last(), rule);
        if is_death(cells.last(), rule) {
            prefix.push((cells.len() - 1) as usize)
        } else {
            prefix
        }
    }
}

/// Every recorded spawn offset indexes a cell of the sequence it came from.
pub proof fn lemma_spawn_offsets_range(cells: Seq<Cell>, rule: Rule)
    ensures
        forall|k: int|
            0 <= k < spawn_offsets(cells, rule).len() ==> (#[trigger] spawn_offsets(cells, rule)[k])
                < cells.len(),
    decreases cells.len(),
{
    if cells.len() > 0 {
        lemma_spawn_offsets_range(cells.drop_last(), rule);
        let prefix = spawn_offsets(cells.drop_last(), rule);
        assert forall|k: int|
            0 <= k < spawn_offsets(cells, rule).len() implies (spawn_offsets(cells, rule)[k])
            < cells.len() by {
            if is_spawn(cells.last(), rule) {
                assert(spawn_offsets(cells, rule) == prefix.push((cells.len() - 1) as usize));
                if k < prefix.len() {
                    assert(spawn_offsets(cells, rule)[k] == prefix[k]);
                    assert(prefix[k] < cells.drop_last().len());
                }
            } else {
                assert(spawn_offsets(cells, rule) == prefix);
                assert(prefix[k] < cells.drop_last().len());
            }
        }
    }
}

/// Every recorded death offset indexes a cell of the sequence it came from.
pub proof fn lemma_death_offsets_range(cells: Seq<Cell>, rule: Rule)
    ensures
        forall|k: int|
            0 <= k < death_offsets(cells, rule).len() ==> (#[trigger] death_offsets(cells, rule)[k])
                < cells.len(),
    decreases cells.len(),
{
    if cells.len() > 0 {
        lemma_death_offsets_range(cells.drop_last(), rule);
        let prefix = death_offsets(cells.drop_last(), rule);
        assert forall|k: int|
            0 <= k < death_offsets(cells, rule).len() implies (death_offsets(cells, rule)[k])
            < cells.len() by {
            if is_death(cells.last(), rule) {
                assert(death_offsets(cells, rule) == prefix.push((cells.len() - 1) as usize));
                if k < prefix.len() {
                    assert(death_offsets(cells, rule)[k] == prefix[k]);
                    assert(prefix[k] < cells.drop_last().len());
                }
            } else {
                assert(death_offsets(cells, rule) == prefix);
                assert(prefix[k] < cells.drop_last().len());
            }
        }
    }
}

/// A neighbour counter after one increment, with the wrap-around of the
/// underlying atomic addition.
pub open spec fn add_wrap(n: u8) -> u8 {
    if n == 255 {
        0
    } else {
        (n + 1) as u8
    }
}

/// A neighbour counter after one decrement.
pub open spec fn sub_wrap(n: u8) -> u8 {
    if n == 0 {
        255
    } else {
        (n - 1) as u8
    }
}

/// One cell with its neighbour counter moved by one.
pub open spec fn bump_cell(cell: Cell, inc: bool) -> Cell {
    Cell {
        value: cell.value,
        neighbours: if inc {
            add_wrap(cell.neighbours)
        } else {
            sub_wrap(cell.neighbours)
        },
    }
}

/// Flat index of the wrapped neighbour of position `(px, py, pz)` along
/// offset `d`.
pub open spec fn target_of(px: int, py: int, pz: int, d: Pos, r: int, c: int) -> int {
    pos_to_index_spec(
        wrap_spec(px + d.x, domain_spec(r, c)),
        wrap_spec(py + d.y, domain_spec(r, c)),
        wrap_spec(pz + d.z, domain_spec(r, c)),
        r,
        c,
    )
}

/// The grid after bumping, for one source position, the neighbour counter
/// of every cell the offset list reaches, in order.
pub open spec fn apply_dirs(
    cells: Seq<Cell>,
    dirs: Seq<Pos>,
    px: int,
    py: int,
    pz: int,
    inc: bool,
    r: int,
    c: int,
) -> Seq<Cell>
    decreases dirs.len(),
{
    if dirs.len() == 0 {
        cells
    } else {
        let prev = apply_dirs(cells, dirs.drop_last(), px, py, pz, inc, r, c);
        let t = target_of(px, py, pz, dirs.last(), r, c);
        prev.update(t, bump_cell(prev[t], inc))
    }
}

/// The wrapped neighbour of any source position is a cell of the grid.
pub proof fn lemma_target_range(px: int, py: int, pz: int, d: Pos, r: int, c: int)
    requires
        dims_ok(r, c),
        r >= 1,
    ensures
        0 <= target_of(px, py, pz, d, r, c) < total_cells_spec(r, c),
{
    lemma_dims_products(r, c);
    let s = domain_spec(r, c);
    vstd::arithmetic::div_mod::lemma_mod_bound(px + d.x, s);
    vstd::arithmetic::div_mod::lemma_mod_bound(py + d.y, s);
    vstd::arithmetic::div_mod::lemma_mod_bound(pz + d.z, s);
    lemma_pos_index_roundtrip(
        wrap_spec(px + d.x, s),
        wrap_spec(py + d.y, s),
        wrap_spec(pz + d.z, s),
        r,
        c,
    );
}

/// Propagation never changes the length of the grid nor any cell's age.
pub proof fn lemma_apply_dirs_shape(
    cells: Seq<Cell>,
    dirs: Seq<Pos>,
    px: int,
    py: int,
    pz: int,
    inc: bool,
    r: int,
    c: int,
)
    requires
        dims_ok(r, c),
        r >= 1,
        cells.len() == total_cells_spec(r, c),
    ensures
        apply_dirs(cells, dirs, px, py, pz, inc, r, c).len() == cells.len(),
        forall|i: int|
            0 <= i < cells.len() ==> (#[trigger] apply_dirs(cells, dirs, px, py, pz, inc, r, c)[i])
                .value == cells[i].value,
    decreases dirs.len(),
{
    if dirs.len() > 0 {
        lemma_apply_dirs_shape(cells, dirs.drop_last(), px, py, pz, inc, r, c);
        lemma_target_range(px, py, pz, dirs.last(), r, c);
    }
}

/// A sequence of `n` dead cells with clear counters.
pub open spec fn default_cells(n: int) -> Seq<Cell> {
    Seq::new(n as nat, |i: int| Cell { value: 0, neighbours: 0 })
}

/// The cells of chunk `ci` within a flat grid sequence.
pub open spec fn chunk_slice(cells: Seq<Cell>, ci: int, c: int) -> Seq<Cell> {
    cells.subrange(
        ci * cells_per_chunk_spec(c),
        ci * cells_per_chunk_spec(c) + cells_per_chunk_spec(c),
    )
}

/// The grid after propagating, in order, every recorded event offset of one
/// chunk.
pub open spec fn apply_events(
    cells: Seq<Cell>,
    ci: int,
    offs: Seq<usize>,
    dirs: Seq<Pos>,
    inc: bool,
    r: int,
    c: int,
) -> Seq<Cell>
    decreases offs.len(),
{
    if offs.len() == 0 {
        cells
    } else {
        let prev = apply_events(cells, ci, offs.drop_last(), dirs, inc, r, c);
        let gi = ci * cells_per_chunk_spec(c) + offs.last();
        apply_dirs(
            prev,
            dirs,
            index_to_x_spec(gi, r, c),
            index_to_y_spec(gi, r, c),
            index_to_z_spec(gi, r, c),
            inc,
            r,
            c,
        )
    }
}

/// The grid after the propagation phase of the first `n` chunks: for each
/// chunk, first its spawns, then its deaths, with the event lists drawn
/// from the grid `start` as it stood before the value phase.
pub open spec fn apply_phase2(
    cells: Seq<Cell>,
    start: Seq<Cell>,
    rule: Rule,
    n: int,
    r: int,
    c: int,
) -> Seq<Cell>
    decreases n,
{
    if n <= 0 {
        cells
    } else {
        let prev = apply_phase2(cells, start, rule, n - 1, r, c);
        let slice = chunk_slice(start, n - 1, c);
        apply_events(
            apply_events(
                prev,
                n - 1,
                spawn_offsets(slice, rule),
                rule.neighbour_offsets@,
                true,
                r,
                c,
            ),
            n - 1,
            death_offsets(slice, rule),
            rule.neighbour_offsets@,
            false,
            r,
            c,
        )
    }
}

/// One whole generation of a grid that starts as `start`: the value phase
/// over every cell, then the propagation phase over every chunk's events.
pub open spec fn generation_spec(start: Seq<Cell>, rule: Rule, r: int, c: int) -> Seq<Cell> {
    apply_phase2(step_values_spec(start, rule), start, rule, chunk_count_spec(r), r, c)
}

/// The flat slice of chunk `ci` is that chunk's own cell list.
pub proof fn lemma_chunk_slice(cs: Seq<Chunk>, r: int, c: int, ci: int)
    requires
        chunk_list_wf(cs, r, c),
        0 <= ci < cs.len(),
    ensures
        chunk_slice(flat_of(cs, c), ci, c) =~= cs[ci].0@,
{
    let cpc = cells_per_chunk_spec(c);
    lemma_dims_products(r, c);
    assert(0 <= ci * cpc && ci * cpc + cpc <= cs.len() * cpc) by (nonlinear_arith)
        requires
            0 <= ci < cs.len(),
            1 <= cpc,
    ;
    assert forall|o: int| 0 <= o < cpc implies chunk_slice(flat_of(cs, c), ci, c)[o] == cs[ci].0@[o]
        by {
        lemma_flat_at(cs, r, c, ci, o);
    }
}

/// Move the neighbour counter of cell `o2` of chunk `cj` by one.
fn bump_at(chunks: &mut Vec<Chunk>, r: usize, c: usize, cj: usize, o2: usize, inc: bool)
    requires
        chunk_list_wf(old(chunks)@, r as int, c as int),
        cj < old(chunks)@.len(),
        o2 < cells_per_chunk_spec(c as int),
    ensures
        chunk_list_wf(final(chunks)@, r as int, c as int),
        final(chunks)@.len() == old(chunks)@.len(),
        ({
            let gi = cj as int * cells_per_chunk_spec(c as int) + o2 as int;
            flat_of(final(chunks)@, c as int) == flat_of(old(chunks)@, c as int).update(
                gi,
                bump_cell(flat_of(old(chunks)@, c as int)[gi], inc),
            )
        }),
{
    let cell = chunks[cj].0[o2];
    let nb: u8 = if inc {
        if cell.neighbours == 255 {
            0
        } else {
            cell.neighbours + 1
        }
    } else {
        if cell.neighbours == 0 {
            255
        } else {
            cell.neighbours - 1
        }
    };
    let ch = &mut chunks[cj];
    ch.0[o2] = Cell { value: cell.value, neighbours: nb };
    proof {
        lemma_flat_at(old(chunks)@, r as int, c as int, cj as int, o2 as int);
        lemma_flat_update(
            old(chunks)@,
            chunks@,
            r as int,
            c as int,
            cj as int,
            o2 as int,
            Cell { value: cell.value, neighbours: nb },
        );
    }
}

/// For a source cell farther than the border radius from every chunk face,
/// each neighbour offset stays inside the same chunk: the wrapped global
/// resolution and the plain chunk-local resolution name the same cell.
/// This is the fact that lets the propagation phase touch interior cells
/// without any cross-chunk synchronization.
pub proof fn lemma_interior_target(gi: int, d: Pos, r: int, c: int)
    requires
        dims_ok(r, c),
        r >= 1,
        0 <= gi < total_cells_spec(r, c),
        offset_small(d),
        !is_border_spec(
            delin3_x(offset_of_index(gi, c), c),
            delin3_y(offset_of_index(gi, c), c),
            delin3_z(offset_of_index(gi, c), c),
            1,
            c,
        ),
    ensures
        0 <= delin3_x(offset_of_index(gi, c), c) + d.x < c,
        0 <= delin3_y(offset_of_index(gi, c), c) + d.y < c,
        0 <= delin3_z(offset_of_index(gi, c), c) + d.z < c,
        target_of(
            index_to_x_spec(gi, r, c),
            index_to_y_spec(gi, r, c),
            index_to_z_spec(gi, r, c),
            d,
            r,
            c,
        ) == chunk_of_index(gi, c) * cells_per_chunk_spec(c) + lin3(
            delin3_x(offset_of_index(gi, c), c) + d.x,
            delin3_y(offset_of_index(gi, c), c) + d.y,
            delin3_z(offset_of_index(gi, c), c) + d.z,
            c,
        ),
{
    lemma_dims_products(r, c);
    let cpc = cells_per_chunk_spec(c);
    let s = domain_spec(r, c);
    lemma_split_bounds(gi, cpc, chunk_count_spec(r));
    let ci = chunk_of_index(gi, c);
    let off = offset_of_index(gi, c);
    lemma_delin3_inverse(ci, r);
    lemma_delin3_inverse(off, c);
    let cx = delin3_x(ci, r);
    let cy = delin3_y(ci, r);
    let cz = delin3_z(ci, r);
    let lx = delin3_x(off, c);
    let ly = delin3_y(off, c);
    let lz = delin3_z(off, c);
    let nx = cx * c + (lx + d.x);
    let ny = cy * c + (ly + d.y);
    let nz = cz * c + (lz + d.z);
    assert(0 <= nx < r * c && 0 <= ny < r * c && 0 <= nz < r * c) by (nonlinear_arith)
        requires
            0 <= cx < r,
            0 <= cy < r,
            0 <= cz < r,
            0 <= lx + d.x < c,
            0 <= ly + d.y < c,
            0 <= lz + d.z < c,
            1 <= c,
            nx == cx * c + (lx + d.x),
            ny == cy * c + (ly + d.y),
            nz == cz * c + (lz + d.z),
    ;
    vstd::arithmetic::div_mod::lemma_fundamental_div_mod_converse(nx, s, 0, nx);
    vstd::arithmetic::div_mod::lemma_fundamental_div_mod_converse(ny, s, 0, ny);
    vstd::arithmetic::div_mod::lemma_fundamental_div_mod_converse(nz, s, 0, nz);
    assert(wrap_spec(index_to_x_spec(gi, r, c) + d.x, s) == nx);
    lemma_recompose(cx, lx + d.x, c);
    lemma_recompose(cy, ly + d.y, c);
    lemma_recompose(cz, lz + d.z, c);
}

/// The chunked grid together with the generation engine that drives it.
pub struct LeddooAtomic {
    pub chunks: Chunks,
}

impl LeddooAtomic {
    /// Shape invariant of the engine's grid.
    pub open spec fn wf(&self) -> bool {
        self.chunks.wf()
    }

    /// All cells in global index order.
    pub open spec fn flat(&self) -> Seq<Cell> {
        self.chunks.flat()
    }

    /// An empty engine with the default chunk edge length.
    pub fn new() -> (e: LeddooAtomic)
        ensures
            e.wf(),
            e.chunks.chunk_size == crate::grid::CHUNK_SIZE,
            e.chunks.chunk_radius == 0,
            e.flat().len() == 0,
    {
        LeddooAtomic { chunks: Chunks::new() }
    }

    /// An empty engine with a chosen chunk edge length.
    pub fn with_chunk_size(chunk_size: usize) -> (e: LeddooAtomic)
        requires
            1 <= chunk_size <= crate::coords::MAX_CHUNK_EDGE,
        ensures
            e.wf(),
            e.chunks.chunk_size == chunk_size,
            e.chunks.chunk_radius == 0,
            e.flat().len() == 0,
    {
        LeddooAtomic { chunks: Chunks::with_chunk_size(chunk_size) }
    }

    /// Resize the domain, as `Chunks::set_size` does.
    pub fn set_size(&mut self, new_size: usize) -> (effective: usize)
        requires
            old(self).wf(),
            new_size + old(self).chunks.chunk_size <= MAX_DOMAIN_EDGE + 1,
        ensures
            final(self).wf(),
            final(self).chunks.chunk_size == old(self).chunks.chunk_size,
            final(self).chunks.size_spec() >= new_size,
            effective == final(self).chunks.size_spec(),
            final(self).chunks.chunk_radius == (new_size + old(self).chunks.chunk_size - 1) as int
                / old(self).chunks.chunk_size as int,
            final(self).chunks.chunk_radius == old(self).chunks.chunk_radius ==> *final(self)
                == *old(self),
            final(self).chunks.chunk_radius != old(self).chunks.chunk_radius ==> forall|i: int|
                0 <= i < final(self).flat().len() ==> #[trigger] final(self).flat()[i] == (Cell {
                    value: 0,
                    neighbours: 0,
                }),
    {
        self.chunks.set_size(new_size)
    }

    /// Domain edge length.
    pub fn size(&self) -> (s: usize)
        requires
            self.wf(),
        ensures
            s == self.chunks.size_spec(),
    {
        self.chunks.size()
    }

    /// Centre of the domain: half the edge length on each axis.
    pub fn center(&self) -> (p: Pos)
        requires
            self.wf(),
        ensures
            p.x == self.chunks.size_spec() / 2,
            p.y == self.chunks.size_spec() / 2,
            p.z == self.chunks.size_spec() / 2,
    {
        proof {
            lemma_dims_products(self.chunks.chunk_radius as int, self.chunks.chunk_size as int);
        }
        let half = (self.size() / 2) as i32;
        Pos { x: half, y: half, z: half }
    }

    /// The propagation phase for one event: bump the neighbour counter of
    /// every cell the rule's offsets reach from the event's cell.  A border
    /// source resolves each neighbour through the full wrap-and-global-index
    /// path; an interior source stays inside its own chunk, which the
    /// interior-target lemma proves equal to the full path.
    pub fn update_neighbors(
        chunks: &mut Vec<Chunk>,
        chunk_index: usize,
        chunk_radius: usize,
        chunk_size: usize,
        rule: &Rule,
        offset: usize,
        inc: bool,
    )
        requires
            chunk_list_wf(old(chunks)@, chunk_radius as int, chunk_size as int),
            chunk_radius >= 1,
            chunk_index < old(chunks)@.len(),
            offset < cells_per_chunk_spec(chunk_size as int),
            rule.offsets_ok(),
        ensures
            chunk_list_wf(final(chunks)@, chunk_radius as int, chunk_size as int),
            ({
                let gi = chunk_index as int * cells_per_chunk_spec(chunk_size as int)
                    + offset as int;
                flat_of(final(chunks)@, chunk_size as int) == apply_dirs(
                    flat_of(old(chunks)@, chunk_size as int),
                    rule.neighbour_offsets@,
                    index_to_x_spec(gi, chunk_radius as int, chunk_size as int),
                    index_to_y_spec(gi, chunk_radius as int, chunk_size as int),
                    index_to_z_spec(gi, chunk_radius as int, chunk_size as int),
                    inc,
                    chunk_radius as int,
                    chunk_size as int,
                )
            }),
    {
        let r = chunk_radius;
        let c = chunk_size;
        let cpc = cells_per_chunk_ex(c);
        proof {
            lemma_dims_products(r as int, c as int);
            lemma_flat_at(old(chunks)@, r as int, c as int, chunk_index as int, offset as int);
        }
        let gi = chunk_index * cpc + offset;
        let pos = index_to_pos_ex(gi, r, c);
        let local = Chunk::index_to_pos(offset, c);
        let dirs_len = rule.neighbour_offsets.len();
        let ghost old_flat = flat_of(old(chunks)@, c as int);
        let ghost dirs = rule.neighbour_offsets@;
        let ghost px = pos.x as int;
        let ghost py = pos.y as int;
        let ghost pz = pos.z as int;
        proof {
            assert(offset_of_index(gi as int, c as int) == offset as int);
            assert(chunk_of_index(gi as int, c as int) == chunk_index as int);
        }
        if Chunk::is_border_pos(local, 1, c) {
            let size = r * c;
            let mut k: usize = 0;
            while k < dirs_len
                invariant
                    chunk_list_wf(chunks@, r as int, c as int),
                    chunks@.len() == old(chunks)@.len(),
                    k <= dirs_len,
                    dirs_len == dirs.len(),
                    dirs == rule.neighbour_offsets@,
                    rule.offsets_ok(),
                    r >= 1,
                    size == domain_spec(r as int, c as int),
                    1 <= size <= MAX_DOMAIN_EDGE,
                    cpc == cells_per_chunk_spec(c as int),
                    old_flat == flat_of(old(chunks)@, c as int),
                    old_flat.len() == total_cells_spec(r as int, c as int),
                    px == pos.x as int,
                    py == pos.y as int,
                    pz == pos.z as int,
                    0 <= px < size,
                    0 <= py < size,
                    0 <= pz < size,
                    flat_of(chunks@, c as int) == apply_dirs(
                        old_flat,
                        dirs.take(k as int),
                        px,
                        py,
                        pz,
                        inc,
                        r as int,
                        c as int,
                    ),
                decreases dirs_len - k,
            {
                let d = rule.neighbour_offsets[k];
                let npos = wrap_pos(
                    Pos { x: pos.x + d.x, y: pos.y + d.y, z: pos.z + d.z },
                    size as i32,
                );
                let idx = pos_to_index_ex(npos, r, c);
                let cj = index_to_chunk_index(idx, c);
                let o2 = index_to_chunk_offset(idx, c);
                proof {
                    lemma_dims_products(r as int, c as int);
                    lemma_split_bounds(
                        idx as int,
                        cells_per_chunk_spec(c as int),
                        chunk_count_spec(r as int),
                    );
                    assert(cj as int * cells_per_chunk_spec(c as int) + o2 as int == idx as int)
                        by (nonlinear_arith)
                        requires
                            cj as int == idx as int / cells_per_chunk_spec(c as int),
                            o2 as int == idx as int % cells_per_chunk_spec(c as int),
                            cells_per_chunk_spec(c as int) >= 1,
                            idx as int == cells_per_chunk_spec(c as int) * (idx as int
                                / cells_per_chunk_spec(c as int)) + idx as int
                                % cells_per_chunk_spec(c as int),
                    ;
                    assert(idx as int == target_of(px, py, pz, d, r as int, c as int));
                    assert(dirs.take(k as int + 1).drop_last() =~= dirs.take(k as int));
                    assert(dirs.take(k as int + 1).last() == d);
                }
                bump_at(chunks, r, c, cj, o2, inc);
                k += 1;
            }
            proof {
                assert(dirs.take(dirs_len as int) =~= dirs);
            }
        } else {
            let mut k: usize = 0;
            while k < dirs_len
                invariant
                    chunk_list_wf(chunks@, r as int, c as int),
                    chunks@.len() == old(chunks)@.len(),
                    k <= dirs_len,
                    dirs_len == dirs.len(),
                    dirs == rule.neighbour_offsets@,
                    rule.offsets_ok(),
                    r >= 1,
                    cpc == cells_per_chunk_spec(c as int),
                    1 <= c <= crate::coords::MAX_CHUNK_EDGE,
                    chunk_index < chunks@.len(),
                    offset < cpc,
                    gi == chunk_index as int * cpc as int + offset as int,
                    gi < total_cells_spec(r as int, c as int),
                    chunk_of_index(gi as int, c as int) == chunk_index as int,
                    offset_of_index(gi as int, c as int) == offset as int,
                    local.x == delin3_x(offset as int, c as int),
                    local.y == delin3_y(offset as int, c as int),
                    local.z == delin3_z(offset as int, c as int),
                    !is_border_spec(
                        local.x as int,
                        local.y as int,
                        local.z as int,
                        1,
                        c as int,
                    ),
                    px == index_to_x_spec(gi as int, r as int, c as int),
                    py == index_to_y_spec(gi as int, r as int, c as int),
                    pz == index_to_z_spec(gi as int, r as int, c as int),
                    old_flat == flat_of(old(chunks)@, c as int),
                    flat_of(chunks@, c as int) == apply_dirs(
                        old_flat,
                        dirs.take(k as int),
                        px,
                        py,
                        pz,
                        inc,
                        r as int,
                        c as int,
                    ),
                decreases dirs_len - k,
            {
                let d = rule.neighbour_offsets[k];
                proof {
                    lemma_dims_products(r as int, c as int);
                    lemma_interior_target(gi as int, d, r as int, c as int);
                }
                let nl = Pos { x: local.x + d.x, y: local.y + d.y, z: local.z + d.z };
                let o2 = Chunk::pos_to_index(nl, c);
                proof {
                    assert(chunk_index as int * cpc as int + o2 as int == target_of(
                        px,
                        py,
                        pz,
                        d,
                        r as int,
                        c as int,
                    ));
                    assert(dirs.take(k as int + 1).drop_last() =~= dirs.take(k as int));
                    assert(dirs.take(k as int + 1).last() == d);
                }
                bump_at(chunks, r, c, chunk_index, o2, inc);
                k += 1;
            }
            proof {
                assert(dirs.take(dirs_len as int) =~= dirs);
            }
        }
    }

    /// Propagate, in order, every event offset of one chunk.
    fn propagate_events(
        chunks: &mut Vec<Chunk>,
        chunk_index: usize,
        chunk_radius: usize,
        chunk_size: usize,
        rule: &Rule,
        offs: &Vec<usize>,
        inc: bool,
    )
        requires
            chunk_list_wf(old(chunks)@, chunk_radius as int, chunk_size as int),
            chunk_radius >= 1,
            chunk_index < old(chunks)@.len(),
            rule.offsets_ok(),
            forall|k: int|
                0 <= k < offs@.len() ==> (#[trigger] offs@[k]) < cells_per_chunk_spec(
                    chunk_size as int,
                ),
        ensures
            chunk_list_wf(final(chunks)@, chunk_radius as int, chunk_size as int),
            flat_of(final(chunks)@, chunk_size as int) == apply_events(
                flat_of(old(chunks)@, chunk_size as int),
                chunk_index as int,
                offs@,
                rule.neighbour_offsets@,
                inc,
                chunk_radius as int,
                chunk_size as int,
            ),
    {
        let ghost old_flat = flat_of(old(chunks)@, chunk_size as int);
        let ghost dirs = rule.neighbour_offsets@;
        let len = offs.len();
        let mut k: usize = 0;
        while k < len
            invariant
                chunk_list_wf(chunks@, chunk_radius as int, chunk_size as int),
                chunks@.len() == old(chunks)@.len(),
                chunk_radius >= 1,
                chunk_index < chunks@.len(),
                rule.offsets_ok(),
                dirs == rule.neighbour_offsets@,
                k <= len,
                len == offs@.len(),
                forall|t: int|
                    0 <= t < offs@.len() ==> (#[trigger] offs@[t]) < cells_per_chunk_spec(
                        chunk_size as int,
                    ),
                old_flat == flat_of(old(chunks)@, chunk_size as int),
                flat_of(chunks@, chunk_size as int) == apply_events(
                    old_flat,
                    chunk_index as int,
                    offs@.take(k as int),
                    dirs,
                    inc,
                    chunk_radius as int,
                    chunk_size as int,
                ),
            decreases len - k,
        {
            let off = offs[k];
            proof {
                assert(offs@.take(k as int + 1).drop_last() =~= offs@.take(k as int));
                assert(offs@.take(k as int + 1).last() == off);
            }
            Self::update_neighbors(chunks, chunk_index, chunk_radius, chunk_size, rule, off, inc);
            k += 1;
        }
        proof {
            assert(offs@.take(len as int) =~= offs@);
        }
    }

    /// Advance the automaton by one full generation: size the grid to the
    /// rule's bounding size, run the value phase over every chunk while
    /// collecting its spawn and death events, then propagate every event
    /// into the neighbour counters, chunk by chunk, spawns before deaths.
    pub fn update(&mut self, rule: &Rule)
        requires
            old(self).wf(),
            rule.offsets_ok(),
            0 <= rule.bounding_size,
            rule.bounding_size as int + old(self).chunks.chunk_size as int <= MAX_DOMAIN_EDGE
                + 1,
        ensures
            final(self).wf(),
            final(self).chunks.chunk_size == old(self).chunks.chunk_size,
            final(self).chunks.chunk_radius == (rule.bounding_size as int + old(
                self,
            ).chunks.chunk_size as int - 1) / old(self).chunks.chunk_size as int,
            ({
                let start = if final(self).chunks.chunk_radius == old(self).chunks.chunk_radius {
                    old(self).flat()
                } else {
                    default_cells(final(self).chunks.total_spec())
                };
                final(self).flat() == generation_spec(
                    start,
                    *rule,
                    final(self).chunks.chunk_radius as int,
                    final(self).chunks.chunk_size as int,
                )
            }),
    {
        self.set_size(rule.bounding_size as usize);
        let r = self.chunks.chunk_radius;
        let c = self.chunks.chunk_size;
        let cpc = cells_per_chunk_ex(c);
        let count = self.chunks.chunks.len();
        let ghost start = self.flat();
        let ghost dirs = rule.neighbour_offsets@;
        proof {
            lemma_dims_products(r as int, c as int);
            assert forall|j: int| 0 <= j < count implies (#[trigger] self.chunks.chunks@[j]).0@
                == chunk_slice(start, j, c as int) by {
                lemma_chunk_slice(self.chunks.chunks@, r as int, c as int, j);
            }
            if self.chunks.chunk_radius != old(self).chunks.chunk_radius {
                assert(count as int == chunk_count_spec(r as int));
                assert(start.len() == count as int * cpc as int);
                assert(start.len() == total_cells_spec(r as int, c as int));
                assert(forall|i: int|
                    0 <= i < start.len() ==> #[trigger] start[i] == (Cell {
                        value: 0,
                        neighbours: 0,
                    }));
                assert(start =~= default_cells(total_cells_spec(r as int, c as int)));
            }
        }
        let mut all_spawns: Vec<Vec<usize>> = Vec::new();
        let mut all_deaths: Vec<Vec<usize>> = Vec::new();
        let mut ci: usize = 0;
        while ci < count
            invariant
                self.chunks.wf(),
                self.chunks.chunk_radius == r,
                self.chunks.chunk_size == c,
                count == self.chunks.chunks@.len(),
                ci <= count,
                cpc == cells_per_chunk_spec(c as int),
                start.len() == count * cpc,
                c == old(self).chunks.chunk_size,
                r as int == (rule.bounding_size as int + c as int - 1) / c as int,
                r == old(self).chunks.chunk_radius ==> start == old(self).flat(),
                r != old(self).chunks.chunk_radius ==> start == default_cells(
                    total_cells_spec(r as int, c as int),
                ),
                forall|j: int|
                    ci <= j < count ==> (#[trigger] self.chunks.chunks@[j]).0@ == chunk_slice(
                        start,
                        j,
                        c as int,
                    ),
                forall|j: int|
                    0 <= j < ci ==> (#[trigger] self.chunks.chunks@[j]).0@ == step_values_spec(
                        chunk_slice(start, j, c as int),
                        *rule,
                    ),
                all_spawns@.len() == ci,
                all_deaths@.len() == ci,
                forall|j: int|
                    0 <= j < ci ==> (#[trigger] all_spawns@[j])@ == spawn_offsets(
                        chunk_slice(start, j, c as int),
                        *rule,
                    ),
                forall|j: int|
                    0 <= j < ci ==> (#[trigger] all_deaths@[j])@ == death_offsets(
                        chunk_slice(start, j, c as int),
                        *rule,
                    ),
            decreases count - ci,
        {
            let mut sp: Vec<usize> = Vec::new();
            let mut dt: Vec<usize> = Vec::new();
            let ghost pre = self.chunks.chunks@;
            let ch = &mut self.chunks.chunks[ci];
            Self::update_values(ch, rule, &mut sp, &mut dt);
            proof {
                assert(self.chunks.chunks@[ci as int].0@ =~= step_values_spec(
                    chunk_slice(start, ci as int, c as int),
                    *rule,
                ));
            }
            all_spawns.push(sp);
            all_deaths.push(dt);
            ci += 1;
        }
        proof {
            lemma_dims_products(r as int, c as int);
            assert forall|i: int|
                0 <= i < start.len() implies flat_of(self.chunks.chunks@, c as int)[i]
                == step_cell(start[i], *rule) by {
                lemma_split_bounds(i, cpc as int, count as int);
                let j = chunk_of_index(i, c as int);
                let o = offset_of_index(i, c as int);
                lemma_flat_at(self.chunks.chunks@, r as int, c as int, j, o);
                assert(cpc as int * j == j * cpc as int) by (nonlinear_arith);
            }
            assert(flat_of(self.chunks.chunks@, c as int) =~= step_values_spec(start, *rule));
        }
        let ghost mid = step_values_spec(start, *rule);
        let mut cj: usize = 0;
        while cj < count
            invariant
                self.chunks.wf(),
                self.chunks.chunk_radius == r,
                self.chunks.chunk_size == c,
                count == self.chunks.chunks@.len(),
                cj <= count,
                cpc == cells_per_chunk_spec(c as int),
                start.len() == count * cpc,
                c == old(self).chunks.chunk_size,
                r as int == (rule.bounding_size as int + c as int - 1) / c as int,
                r == old(self).chunks.chunk_radius ==> start == old(self).flat(),
                r != old(self).chunks.chunk_radius ==> start == default_cells(
                    total_cells_spec(r as int, c as int),
                ),
                rule.offsets_ok(),
                dirs == rule.neighbour_offsets@,
                mid == step_values_spec(start, *rule),
                all_spawns@.len() == count,
                all_deaths@.len() == count,
                forall|j: int|
                    0 <= j < count ==> (#[trigger] all_spawns@[j])@ == spawn_offsets(
                        chunk_slice(start, j, c as int),
                        *rule,
                    ),
                forall|j: int|
                    0 <= j < count ==> (#[trigger] all_deaths@[j])@ == death_offsets(
                        chunk_slice(start, j, c as int),
                        *rule,
                    ),
                flat_of(self.chunks.chunks@, c as int) == apply_phase2(
                    mid,
                    start,
                    *rule,
                    cj as int,
                    r as int,
                    c as int,
                ),
            decreases count - cj,
        {
            proof {
                assert(chunk_count_spec(r as int) == (r as int) * (r as int) * (r as int));
                assert(1 <= r as int) by (nonlinear_arith)
                    requires
                        0 <= r as int,
                        (r as int) * (r as int) * (r as int) >= 1,
                ;
                let slice = chunk_slice(start, cj as int, c as int);
                lemma_dims_products(r as int, c as int);
                assert(cj as int * cpc as int + cpc as int <= count as int * cpc as int) by (
                nonlinear_arith)
                    requires
                        0 <= (cj as int) < (count as int),
                        1 <= cpc as int,
                ;
                assert(slice.len() == cpc);
                lemma_spawn_offsets_range(slice, *rule);
                lemma_death_offsets_range(slice, *rule);
            }
            Self::propagate_events(&mut self.chunks.chunks, cj, r, c, rule, &all_spawns[cj], true);
            Self::propagate_events(&mut self.chunks.chunks, cj, r, c, rule, &all_deaths[cj], false);
            cj += 1;
        }
        proof {
            lemma_dims_products(r as int, c as int);
            assert(count as int == chunk_count_spec(r as int));
            if self.chunks.chunk_radius == old(self).chunks.chunk_radius {
                assert(start == old(self).flat());
            } else {
                assert(start =~= default_cells(total_cells_spec(r as int, c as int)));
            }
        }
    }

    /// The value phase over one chunk: age every cell from its own state,
    /// and append the offsets of the cells that came to life and of those
    /// that began to decay.
    pub fn update_values(
        chunk: &mut Chunk,
        rule: &Rule,
        spawns: &mut Vec<usize>,
        deaths: &mut Vec<usize>,
    )
        ensures
            final(chunk).0.len() == old(chunk).0.len(),
            forall|o: int|
                0 <= o < old(chunk).0.len() ==> final(chunk).0@[o] == step_cell(
                    #[trigger] old(chunk).0@[o],
                    *rule,
                ),
            final(spawns)@ == old(spawns)@ + spawn_offsets(old(chunk).0@, *rule),
            final(deaths)@ == old(deaths)@ + death_offsets(old(chunk).0@, *rule),
    {
        let len = chunk.0.len();
        let mut o: usize = 0;
        while o < len
            invariant
                o <= len,
                chunk.0.len() == len,
                len == old(chunk).0.len(),
                forall|j: int|
                    0 <= j < o ==> chunk.0@[j] == step_cell(#[trigger] old(chunk).0@[j], *rule),
                forall|j: int| o <= j < len ==> chunk.0@[j] == #[trigger] old(chunk).0@[j],
                spawns@ == old(spawns)@ + spawn_offsets(old(chunk).0@.take(o as int), *rule),
                deaths@ == old(deaths)@ + death_offsets(old(chunk).0@.take(o as int), *rule),
            decreases len - o,
        {
            let cell = chunk.0[o];
            proof {
                assert(old(chunk).0@.take(o as int + 1).drop_last() =~= old(chunk).0@.take(
                    o as int,
                ));
                assert(old(chunk).0@.take(o as int + 1).last() == old(chunk).0@[o as int]);
            }
            if cell.value == 0 {
                if rule.birth_rule.in_range(cell.neighbours) {
                    chunk.0[o] = Cell { value: rule.states, neighbours: cell.neighbours };
                    spawns.push(o);
                }
            } else {
                if cell.value < rule.states || !rule.survival_rule.in_range(cell.neighbours) {
                    if cell.value == rule.states {
                        deaths.push(o);
                    }
                    chunk.0[o] = Cell { value: cell.value - 1, neighbours: cell.neighbours };
                }
            }
            o += 1;
        }
        proof {
            assert(old(chunk).0@.take(len as int) =~= old(chunk).0@);
        }
    }

    /// Number of cells whose age is nonzero.
    pub fn cell_count(&self) -> (n: usize)
        requires
            self.wf(),
        ensures
            n == live_count(self.flat()),
    {
        let r = self.chunks.chunk_radius;
        let c = self.chunks.chunk_size;
        let cpc = cells_per_chunk_ex(c);
        let count = self.chunks.chunks.len();
        proof {
            lemma_dims_products(r as int, c as int);
            assert(self.flat().take(0) =~= Seq::<Cell>::empty());
        }
        let mut result: usize = 0;
        let mut ci: usize = 0;
        while ci < count
            invariant
                self.wf(),
                self.chunks.chunk_radius == r,
                self.chunks.chunk_size == c,
                count == self.chunks.chunks@.len(),
                ci <= count,
                cpc == cells_per_chunk_spec(c as int),
                self.flat().len() == count * cpc,
                result <= ci * cpc,
                result == live_count(self.flat().take(ci as int * cpc as int)),
            decreases count - ci,
        {
            proof {
                lemma_dims_products(r as int, c as int);
                assert((ci as int + 1) * cpc as int <= count as int * cpc as int && ci as int
                    * cpc as int + cpc as int == (ci as int + 1) * cpc as int) by (
                nonlinear_arith)
                    requires
                        0 <= (ci as int) < (count as int),
                        1 <= cpc as int,
                ;
            }
            let mut o: usize = 0;
            while o < cpc
                invariant
                    self.wf(),
                    self.chunks.chunk_radius == r,
                    self.chunks.chunk_size == c,
                    count == self.chunks.chunks@.len(),
                    ci < count,
                    o <= cpc,
                    cpc == cells_per_chunk_spec(c as int),
                    self.flat().len() == count * cpc,
                    ci * cpc + o <= count * cpc,
                    ci as int * cpc as int + cpc as int <= count as int * cpc as int,
                    count as int * cpc as int <= 0x40000000,
                    result <= ci * cpc + o,
                    result == live_count(self.flat().take(ci as int * cpc as int + o as int)),
                decreases cpc - o,
            {
                let cell = self.chunks.chunks[ci].0[o];
                proof {
                    lemma_flat_at(
                        self.chunks.chunks@,
                        r as int,
                        c as int,
                        ci as int,
                        o as int,
                    );
                    let k = ci as int * cpc as int + o as int;
                    assert(self.flat().take(k + 1).drop_last() =~= self.flat().take(k));
                    assert(self.flat().take(k + 1).last() == self.flat()[k]);
                }
                if cell.value != 0 {
                    result += 1;
                }
                o += 1;
            }
            ci += 1;
        }
        proof {
            assert(self.flat().take(count as int * cpc as int) =~= self.flat());
        }
        result
    }

    /// Diagnostic recount: recompute every cell's neighbour count from the
    /// grid and report whether each maintained counter agrees with it.
    pub fn validate(&self, rule: &Rule) -> (ok: bool)
        requires
            self.wf(),
            rule.offsets_ok(),
        ensures
            ok == counts_valid(
                self.flat(),
                *rule,
                self.chunks.chunk_radius as int,
                self.chunks.chunk_size as int,
            ),
    {
        let r = self.chunks.chunk_radius;
        let c = self.chunks.chunk_size;
        let cpc = cells_per_chunk_ex(c);
        let count = self.chunks.chunks.len();
        proof {
            lemma_dims_products(r as int, c as int);
            assert(count as int * cpc as int == total_cells_spec(r as int, c as int));
        }
        let total = count * cpc;
        let size = self.chunks.chunk_radius * self.chunks.chunk_size;
        let dirs_len = rule.neighbour_offsets.len();
        let ghost dirs = rule.neighbour_offsets@;
        let ghost cells = self.flat();
        let mut index: usize = 0;
        while index < total
            invariant
                self.wf(),
                self.chunks.chunk_radius == r,
                self.chunks.chunk_size == c,
                count == self.chunks.chunks@.len(),
                index <= total,
                cpc == cells_per_chunk_spec(c as int),
                total == total_cells_spec(r as int, c as int),
                size == domain_spec(r as int, c as int),
                dirs_len == dirs.len(),
                dirs == rule.neighbour_offsets@,
                rule.offsets_ok(),
                cells == self.flat(),
                cells.len() == total,
                forall|j: int|
                    0 <= j < index ==> (#[trigger] cells[j]).neighbours as int == count_mature(
                        cells,
                        dirs,
                        index_to_x_spec(j, r as int, c as int),
                        index_to_y_spec(j, r as int, c as int),
                        index_to_z_spec(j, r as int, c as int),
                        *rule,
                        r as int,
                        c as int,
                    ),
            decreases total - index,
        {
            proof {
                lemma_dims_products(r as int, c as int);
                if r == 0 {
                    assert(total_cells_spec(r as int, c as int) == 0);
                    assert(false);
                }
            }
            let pos = self.chunks.index_to_pos(index);
            let mut cnt: usize = 0;
            let mut k: usize = 0;
            while k < dirs_len
                invariant
                    self.wf(),
                    self.chunks.chunk_radius == r,
                    self.chunks.chunk_size == c,
                    count == self.chunks.chunks@.len(),
                    r >= 1,
                    k <= dirs_len,
                    cnt <= k,
                    cpc == cells_per_chunk_spec(c as int),
                    size == domain_spec(r as int, c as int),
                    1 <= size,
                    dirs_len == dirs.len(),
                    dirs == rule.neighbour_offsets@,
                    rule.offsets_ok(),
                    cells == self.flat(),
                    cells.len() == total_cells_spec(r as int, c as int),
                    0 <= pos.x < size,
                    0 <= pos.y < size,
                    0 <= pos.z < size,
                    cnt == count_mature(
                        cells,
                        dirs.take(k as int),
                        pos.x as int,
                        pos.y as int,
                        pos.z as int,
                        *rule,
                        r as int,
                        c as int,
                    ),
                decreases dirs_len - k,
            {
                let d = rule.neighbour_offsets[k];
                let npos = wrap_pos(
                    Pos { x: pos.x + d.x, y: pos.y + d.y, z: pos.z + d.z },
                    size as i32,
                );
                let idx = self.chunks.pos_to_index(npos);
                let cj = index_to_chunk_index(idx, c);
                let o2 = index_to_chunk_offset(idx, c);
                proof {
                    lemma_dims_products(r as int, c as int);
                    lemma_split_bounds(
                        idx as int,
                        cells_per_chunk_spec(c as int),
                        chunk_count_spec(r as int),
                    );
                    lemma_flat_at(self.chunks.chunks@, r as int, c as int, cj as int, o2 as int);
                    assert(cj as int * cells_per_chunk_spec(c as int) + o2 as int == idx as int)
                        by (nonlinear_arith)
                        requires
                            cj as int == idx as int / cells_per_chunk_spec(c as int),
                            o2 as int == idx as int % cells_per_chunk_spec(c as int),
                            cells_per_chunk_spec(c as int) >= 1,
                            idx as int == cells_per_chunk_spec(c as int) * (idx as int
                                / cells_per_chunk_spec(c as int)) + idx as int
                                % cells_per_chunk_spec(c as int),
                    ;
                    assert(idx as int == target_of(
                        pos.x as int,
                        pos.y as int,
                        pos.z as int,
                        d,
                        r as int,
                        c as int,
                    ));
                    assert(dirs.take(k as int + 1).drop_last() =~= dirs.take(k as int));
                    assert(dirs.take(k as int + 1).last() == d);
                }
                if self.chunks.chunks[cj].0[o2].value == rule.states {
                    cnt += 1;
                }
                k += 1;
            }
            proof {
                assert(dirs.take(dirs_len as int) =~= dirs);
            }
            let cj = index_to_chunk_index(index, c);
            let o2 = index_to_chunk_offset(index, c);
            proof {
                lemma_split_bounds(
                    index as int,
                    cells_per_chunk_spec(c as int),
                    chunk_count_spec(r as int),
                );
                lemma_flat_at(self.chunks.chunks@, r as int, c as int, cj as int, o2 as int);
                assert(cj as int * cells_per_chunk_spec(c as int) + o2 as int == index as int)
                    by (nonlinear_arith)
                    requires
                        cj as int == index as int / cells_per_chunk_spec(c as int),
                        o2 as int == index as int % cells_per_chunk_spec(c as int),
                        cells_per_chunk_spec(c as int) >= 1,
                        index as int == cells_per_chunk_spec(c as int) * (index as int
                            / cells_per_chunk_spec(c as int)) + index as int
                            % cells_per_chunk_spec(c as int),
                ;
            }
            let cell = self.chunks.chunks[cj].0[o2];
            if (cell.neighbours as usize) != cnt {
                return false;
            }
            index += 1;
        }
        true
    }

    /// Seed the grid: for each given position, in order, wrap it into the
    /// domain and, if that cell is dead, set it to the mature age and
    /// propagate the spawn into the surrounding neighbour counters, exactly
    /// as the propagation phase would.
    pub fn spawn_noise(&mut self, rule: &Rule, positions: &Vec<Pos>)
        requires
            old(self).wf(),
            old(self).chunks.chunk_radius >= 1,
            rule.offsets_ok(),
        ensures
            final(self).wf(),
            final(self).chunks.chunk_radius == old(self).chunks.chunk_radius,
            final(self).chunks.chunk_size == old(self).chunks.chunk_size,
            final(self).flat() == seed_all(
                old(self).flat(),
                positions@,
                *rule,
                old(self).chunks.chunk_radius as int,
                old(self).chunks.chunk_size as int,
            ),
    {
        let r = self.chunks.chunk_radius;
        let c = self.chunks.chunk_size;
        let cpc = cells_per_chunk_ex(c);
        let size = self.chunks.size();
        let ghost start = self.flat();
        let ghost ps = positions@;
        proof {
            lemma_dims_products(r as int, c as int);
        }
        let n = positions.len();
        let mut k: usize = 0;
        while k < n
            invariant
                self.wf(),
                self.chunks.chunk_radius == r,
                self.chunks.chunk_size == c,
                r >= 1,
                k <= n,
                n == ps.len(),
                ps == positions@,
                cpc == cells_per_chunk_spec(c as int),
                size == domain_spec(r as int, c as int),
                1 <= size,
                rule.offsets_ok(),
                start == old(self).flat(),
                self.flat() == seed_all(start, ps.take(k as int), *rule, r as int, c as int),
            decreases n - k,
        {
            let p = positions[k];
            let w = wrap_pos(p, size as i32);
            let idx = self.chunks.pos_to_index(w);
            let cj = index_to_chunk_index(idx, c);
            let o2 = index_to_chunk_offset(idx, c);
            proof {
                lemma_dims_products(r as int, c as int);
                lemma_split_bounds(
                    idx as int,
                    cells_per_chunk_spec(c as int),
                    chunk_count_spec(r as int),
                );
                lemma_flat_at(self.chunks.chunks@, r as int, c as int, cj as int, o2 as int);
                assert(cj as int * cells_per_chunk_spec(c as int) + o2 as int == idx as int) by (
                nonlinear_arith)
                    requires
                        cj as int == idx as int / cells_per_chunk_spec(c as int),
                        o2 as int == idx as int % cells_per_chunk_spec(c as int),
                        cells_per_chunk_spec(c as int) >= 1,
                        idx as int == cells_per_chunk_spec(c as int) * (idx as int
                            / cells_per_chunk_spec(c as int)) + idx as int
                            % cells_per_chunk_spec(c as int),
                ;
                assert(ps.take(k as int + 1).drop_last() =~= ps.take(k as int));
                assert(ps.take(k as int + 1).last() == p);
            }
            let cell = self.chunks.chunks[cj].0[o2];
            if cell.value == 0 {
                let ghost pre = self.chunks.chunks@;
                let ch = &mut self.chunks.chunks[cj];
                ch.0[o2] = Cell { value: rule.states, neighbours: cell.neighbours };
                proof {
                    lemma_flat_update(
                        pre,
                        self.chunks.chunks@,
                        r as int,
                        c as int,
                        cj as int,
                        o2 as int,
                        Cell { value: rule.states, neighbours: cell.neighbours },
                    );
                }
                Self::update_neighbors(&mut self.chunks.chunks, cj, r, c, rule, o2, true);
            }
            k += 1;
        }
        proof {
            assert(ps.take(n as int) =~= ps);
        }
    }

    /// The cell at a position, wrapped into the domain.
    pub fn cell_at(&self, p: Pos) -> (cell: Cell)
        requires
            self.wf(),
            self.chunks.chunk_radius >= 1,
        ensures
            ({
                let s = domain_spec(self.chunks.chunk_radius as int, self.chunks.chunk_size as int);
                cell == self.flat()[pos_to_index_spec(
                    wrap_spec(p.x as int, s),
                    wrap_spec(p.y as int, s),
                    wrap_spec(p.z as int, s),
                    self.chunks.chunk_radius as int,
                    self.chunks.chunk_size as int,
                )]
            }),
    {
        let r = self.chunks.chunk_radius;
        let c = self.chunks.chunk_size;
        proof {
            lemma_dims_products(r as int, c as int);
        }
        let size = self.chunks.size();
        let w = wrap_pos(p, size as i32);
        let idx = self.chunks.pos_to_index(w);
        let cj = index_to_chunk_index(idx, c);
        let o2 = index_to_chunk_offset(idx, c);
        proof {
            lemma_split_bounds(
                idx as int,
                cells_per_chunk_spec(c as int),
                chunk_count_spec(r as int),
            );
            lemma_flat_at(self.chunks.chunks@, r as int, c as int, cj as int, o2 as int);
            assert(cj as int * cells_per_chunk_spec(c as int) + o2 as int == idx as int) by (
            nonlinear_arith)
                requires
                    cj as int == idx as int / cells_per_chunk_spec(c as int),
                    o2 as int == idx as int % cells_per_chunk_spec(c as int),
                    cells_per_chunk_spec(c as int) >= 1,
                    idx as int == cells_per_chunk_spec(c as int) * (idx as int
                        / cells_per_chunk_spec(c as int)) + idx as int % cells_per_chunk_spec(
                        c as int,
                    ),
            ;
        }
        self.chunks.chunks[cj].0[o2]
    }

    /// Drop the whole grid back to an empty domain, keeping the chunk edge.
    pub fn reset(&mut self)
        requires
            old(self).wf(),
        ensures
            final(self).wf(),
            final(self).chunks.chunk_size == old(self).chunks.chunk_size,
            final(self).chunks.chunk_radius == 0,
            final(self).flat().len() == 0,
    {
        self.chunks = Chunks::with_chunk_size(self.chunks.chunk_size);
    }
}

/// Number of cells of a grid whose age is nonzero.
pub open spec fn live_count(cells: Seq<Cell>) -> int
    decreases cells.len(),
{
    if cells.len() == 0 {
        0
    } else {
        live_count(cells.drop_last()) + if cells.last().value != 0 {
            1int
        } else {
            0int
        }
    }
}

/// Number of mature cells among the wrapped neighbours of one position.
pub open spec fn count_mature(
    cells: Seq<Cell>,
    dirs: Seq<Pos>,
    px: int,
    py: int,
    pz: int,
    rule: Rule,
    r: int,
    c: int,
) -> int
    decreases dirs.len(),
{
    if dirs.len() == 0 {
        0
    } else {
        count_mature(cells, dirs.drop_last(), px, py, pz, rule, r, c) + if cells[target_of(
            px,
            py,
            pz,
            dirs.last(),
            r,
            c,
        )].value == rule.states {
            1int
        } else {
            0int
        }
    }
}

/// The neighbour-count invariant: every maintained counter equals the
/// number of mature cells among that cell's wrapped neighbours.
pub open spec fn counts_valid(cells: Seq<Cell>, rule: Rule, r: int, c: int) -> bool {
    forall|i: int|
        0 <= i < cells.len() ==> (#[trigger] cells[i]).neighbours as int == count_mature(
            cells,
            rule.neighbour_offsets@,
            index_to_x_spec(i, r, c),
            index_to_y_spec(i, r, c),
            index_to_z_spec(i, r, c),
            rule,
            r,
            c,
        )
}

/// The grid after seeding one position: if the wrapped cell is dead, it
/// becomes mature and its spawn is propagated; otherwise nothing changes.
pub open spec fn seed_one(cells: Seq<Cell>, p: Pos, rule: Rule, r: int, c: int) -> Seq<Cell> {
    let s = domain_spec(r, c);
    let gi = pos_to_index_spec(
        wrap_spec(p.x as int, s),
        wrap_spec(p.y as int, s),
        wrap_spec(p.z as int, s),
        r,
        c,
    );
    if cells[gi].value == 0 {
        apply_dirs(
            cells.update(gi, Cell { value: rule.states, neighbours: cells[gi].neighbours }),
            rule.neighbour_offsets@,
            index_to_x_spec(gi, r, c),
            index_to_y_spec(gi, r, c),
            index_to_z_spec(gi, r, c),
            true,
            r,
            c,
        )
    } else {
        cells
    }
}

/// The grid after seeding a list of positions in order.
pub open spec fn seed_all(cells: Seq<Cell>, ps: Seq<Pos>, rule: Rule, r: int, c: int) -> Seq<
    Cell,
>
    decreases ps.len(),
{
    if ps.len() == 0 {
        cells
    } else {
        seed_one(seed_all(cells, ps.drop_last(), rule, r, c), ps.last(), rule, r, c)
    }
}

} // verus!
