//! The chunked toroidal grid: cells, chunks, and the chunk collection with
//! its sizing and coordinate-mapping operations.

use vstd::prelude::*;
use crate::coords::{
    Pos, MAX_CHUNK_EDGE, MAX_DOMAIN_EDGE, dims_ok, domain_spec, chunk_count_spec,
    cells_per_chunk_spec, total_cells_spec, chunk_of_index, offset_of_index, pos_to_index_spec,
    index_to_x_spec, index_to_y_spec, index_to_z_spec, lemma_dims_products, lemma_recompose,
    lin3, delin3_x, delin3_y, delin3_z, cells_per_chunk_ex, lin3_ex, pos_to_index_ex,
    index_to_pos_ex, lemma_split_bounds,
};

verus! {

/// Default chunk edge length.
pub const CHUNK_SIZE: usize = 32;

/// Number of cells in a chunk of the default edge length.
pub const CHUNK_CELL_COUNT: usize = CHUNK_SIZE * CHUNK_SIZE * CHUNK_SIZE;

/// One automaton cell: a decaying age and a maintained neighbour counter.
#[derive(Clone, Copy, PartialEq, Eq, Structural, Debug)]
pub struct Cell {
    pub value: u8,
    pub neighbours: u8,
}

impl Cell {
    /// Whether the cell holds no age at all.
    pub fn is_dead(&self) -> (r: bool)
        ensures
            r == (self.value == 0),
    {
        self.value == 0
    }
}

impl Default for Cell {
    /// A dead cell with a clear neighbour counter.
    fn default() -> (c: Cell)
        ensures
            c.value == 0,
            c.neighbours == 0,
    {
        Cell { value: 0, neighbours: 0 }
    }
}

/// A fixed-size block of cells: the unit of parallel work.
pub struct Chunk(pub Vec<Cell>);

/// Whether a chunk-local coordinate lies within `border` cells of a face of
/// a chunk with edge `c`.
pub open spec fn is_border_spec(lx: int, ly: int, lz: int, border: int, c: int) -> bool {
    ||| lx < border
    ||| lx >= c - border
    ||| ly < border
    ||| ly >= c - border
    ||| lz < border
    ||| lz >= c - border
}

impl Chunk {
    /// Chunk-local coordinate of an in-chunk offset.
    pub fn index_to_pos(offset: usize, chunk_size: usize) -> (p: Pos)
        requires
            1 <= chunk_size <= MAX_CHUNK_EDGE,
            offset < cells_per_chunk_spec(chunk_size as int),
        ensures
            p.x == delin3_x(offset as int, chunk_size as int),
            p.y == delin3_y(offset as int, chunk_size as int),
            p.z == delin3_z(offset as int, chunk_size as int),
            0 <= p.x < chunk_size,
            0 <= p.y < chunk_size,
            0 <= p.z < chunk_size,
    {
        proof {
            lemma_dims_products(1, chunk_size as int);
            crate::coords::lemma_delin3_inverse(offset as int, chunk_size as int);
        }
        let c = chunk_size;
        let lx = offset % c;
        let ly = (offset / c) % c;
        let lz = offset / c / c;
        Pos { x: lx as i32, y: ly as i32, z: lz as i32 }
    }

    /// In-chunk offset of a chunk-local coordinate.
    pub fn pos_to_index(local: Pos, chunk_size: usize) -> (offset: usize)
        requires
            1 <= chunk_size <= MAX_CHUNK_EDGE,
            0 <= local.x < chunk_size,
            0 <= local.y < chunk_size,
            0 <= local.z < chunk_size,
        ensures
            offset == lin3(local.x as int, local.y as int, local.z as int, chunk_size as int),
            offset < cells_per_chunk_spec(chunk_size as int),
    {
        lin3_ex(local.x as usize, local.y as usize, local.z as usize, chunk_size)
    }

    /// Whether a chunk-local coordinate is within `border` cells of a chunk
    /// face, so that its neighbours may lie in another chunk.
    pub fn is_border_pos(local: Pos, border: i32, chunk_size: usize) -> (r: bool)
        requires
            chunk_size <= MAX_CHUNK_EDGE,
            0 <= border,
        ensures
            r == is_border_spec(
                local.x as int,
                local.y as int,
                local.z as int,
                border as int,
                chunk_size as int,
            ),
    {
        let c = chunk_size as i32;
        local.x < border || local.x >= c - border || local.y < border || local.y >= c - border
            || local.z < border || local.z >= c - border
    }
}

/// Shape invariant of a raw chunk list for the given dimensions.
pub open spec fn chunk_list_wf(cs: Seq<Chunk>, r: int, c: int) -> bool {
    &&& dims_ok(r, c)
    &&& cs.len() == chunk_count_spec(r)
    &&& forall|i: int|
        0 <= i < cs.len() ==> (#[trigger] cs[i]).0.len() == cells_per_chunk_spec(c)
}

/// The cells of a chunk list as one flat sequence in global index order.
pub open spec fn flat_of(cs: Seq<Chunk>, c: int) -> Seq<Cell> {
    Seq::new(
        (cs.len() * cells_per_chunk_spec(c)) as nat,
        |i: int| cs[chunk_of_index(i, c)].0[offset_of_index(i, c)],
    )
}

/// The flat cell of global index `ci * cells_per_chunk + o` is cell `o` of
/// chunk `ci`.
pub proof fn lemma_flat_at(cs: Seq<Chunk>, r: int, c: int, ci: int, o: int)
    requires
        chunk_list_wf(cs, r, c),
        0 <= ci < cs.len(),
        0 <= o < cells_per_chunk_spec(c),
    ensures
        0 <= ci * cells_per_chunk_spec(c) + o < flat_of(cs, c).len(),
        flat_of(cs, c)[ci * cells_per_chunk_spec(c) + o] == cs[ci].0[o],
        chunk_of_index(ci * cells_per_chunk_spec(c) + o, c) == ci,
        offset_of_index(ci * cells_per_chunk_spec(c) + o, c) == o,
{
    let cpc = cells_per_chunk_spec(c);
    lemma_dims_products(r, c);
    lemma_recompose(ci, o, cpc);
    assert(0 <= ci * cpc + o < cs.len() * cpc && (cs.len() - 1) * cpc + o < cs.len() * cpc) by (
    nonlinear_arith)
        requires
            0 <= ci < cs.len(),
            0 <= o < cpc,
            1 <= cpc,
    ;
}

/// Replacing one cell of one chunk updates exactly one entry of the flat
/// sequence.
pub proof fn lemma_flat_update(cs: Seq<Chunk>, cs2: Seq<Chunk>, r: int, c: int, ci: int, o: int, v: Cell)
    requires
        chunk_list_wf(cs, r, c),
        0 <= ci < cs.len(),
        0 <= o < cells_per_chunk_spec(c),
        cs2.len() == cs.len(),
        cs2[ci].0@ == cs[ci].0@.update(o, v),
        forall|j: int| 0 <= j < cs.len() && j != ci ==> cs2[j] == cs[j],
    ensures
        chunk_list_wf(cs2, r, c),
        flat_of(cs2, c) =~= flat_of(cs, c).update(ci * cells_per_chunk_spec(c) + o, v),
{
    let cpc = cells_per_chunk_spec(c);
    let gi = ci * cpc + o;
    lemma_flat_at(cs, r, c, ci, o);
    assert forall|j: int| 0 <= j < cs2.len() implies (#[trigger] cs2[j]).0.len() == cpc by {}
    assert forall|i: int| 0 <= i < flat_of(cs, c).len() implies flat_of(cs2, c)[i] == flat_of(
        cs,
        c,
    ).update(gi, v)[i] by {
        vstd::arithmetic::div_mod::lemma_fundamental_div_mod(i, cpc);
        vstd::arithmetic::div_mod::lemma_mod_bound(i, cpc);
        lemma_split_bounds(i, cpc, cs.len() as int);
        if i == gi {
            lemma_flat_at(cs2, r, c, ci, o);
        } else {
            if chunk_of_index(i, c) == ci && offset_of_index(i, c) == o {
                assert(i == cpc * chunk_of_index(i, c) + offset_of_index(i, c));
                assert(cpc * ci == ci * cpc) by (nonlinear_arith);
                assert(false);
            }
        }
    }
}

/// The chunk collection covering the whole toroidal domain.
pub struct Chunks {
    pub chunks: Vec<Chunk>,
    pub chunk_size: usize,
    pub chunk_radius: usize,
    pub chunk_count: usize,
}

impl Chunks {
    /// Shape invariant of the grid.
    pub open spec fn wf(&self) -> bool {
        &&& chunk_list_wf(self.chunks@, self.chunk_radius as int, self.chunk_size as int)
        &&& self.chunk_count == chunk_count_spec(self.chunk_radius as int)
    }

    /// Domain edge length.
    pub open spec fn size_spec(&self) -> int {
        domain_spec(self.chunk_radius as int, self.chunk_size as int)
    }

    /// Number of cells in the whole grid.
    pub open spec fn total_spec(&self) -> int {
        total_cells_spec(self.chunk_radius as int, self.chunk_size as int)
    }

    /// All cells in global index order.
    pub open spec fn flat(&self) -> Seq<Cell> {
        flat_of(self.chunks@, self.chunk_size as int)
    }

    /// An empty grid with the default chunk edge length.
    pub fn new() -> (g: Chunks)
        ensures
            g.wf(),
            g.chunk_size == CHUNK_SIZE,
            g.chunk_radius == 0,
            g.flat().len() == 0,
    {
        Chunks { chunks: Vec::new(), chunk_size: CHUNK_SIZE, chunk_radius: 0, chunk_count: 0 }
    }

    /// An empty grid with a chosen chunk edge length.
    pub fn with_chunk_size(chunk_size: usize) -> (g: Chunks)
        requires
            1 <= chunk_size <= MAX_CHUNK_EDGE,
        ensures
            g.wf(),
            g.chunk_size == chunk_size,
            g.chunk_radius == 0,
            g.flat().len() == 0,
    {
        Chunks { chunks: Vec::new(), chunk_size, chunk_radius: 0, chunk_count: 0 }
    }

    /// Domain edge length.
    pub fn size(&self) -> (s: usize)
        requires
            self.wf(),
        ensures
            s == self.size_spec(),
    {
        proof {
            lemma_dims_products(self.chunk_radius as int, self.chunk_size as int);
        }
        self.chunk_radius * self.chunk_size
    }

    /// Resize the domain to cover at least `new_size` cells per axis,
    /// rounding up to whole chunks.  A resize to the current chunk radius
    /// keeps the grid as it is; any other resize reallocates and clears
    /// every cell.
    pub fn set_size(&mut self, new_size: usize) -> (effective: usize)
        requires
            old(self).wf(),
            new_size + old(self).chunk_size <= MAX_DOMAIN_EDGE + 1,
        ensures
            final(self).wf(),
            final(self).chunk_size == old(self).chunk_size,
            final(self).size_spec() >= new_size,
            effective == final(self).size_spec(),
            final(self).chunk_radius == (new_size + old(self).chunk_size - 1) as int / old(
                self,
            ).chunk_size as int,
            final(self).chunk_radius == old(self).chunk_radius ==> *final(self) == *old(self),
            final(self).chunk_radius != old(self).chunk_radius ==> forall|i: int|
                0 <= i < final(self).flat().len() ==> #[trigger] final(self).flat()[i]
                    == (Cell { value: 0, neighbours: 0 }),
    {
        let c = self.chunk_size;
        let radius = (new_size + c - 1) / c;
        proof {
            let ci = c as int;
            let ni = new_size as int;
            let ri = radius as int;
            vstd::arithmetic::div_mod::lemma_fundamental_div_mod(ni + ci - 1, ci);
            vstd::arithmetic::div_mod::lemma_mod_bound(ni + ci - 1, ci);
            assert(ri * ci <= ni + ci - 1 && ni <= ri * ci) by (nonlinear_arith)
                requires
                    1 <= ci,
                    0 <= ni,
                    ni + ci - 1 == ci * ri + (ni + ci - 1) % ci,
                    0 <= (ni + ci - 1) % ci < ci,
            ;
            lemma_dims_products(ri, ci);
        }
        if radius == self.chunk_radius {
            return self.size();
        }
        let cpc = cells_per_chunk_ex(c);
        proof {
            let ri = radius as int;
            assert(0 <= ri * ri <= 0x100000 && 0 <= ri * ri * ri <= 0x40000000) by (
            nonlinear_arith)
                requires
                    0 <= ri <= 1024,
            ;
        }
        let count = radius * radius * radius;
        let mut chunks: Vec<Chunk> = Vec::new();
        let mut ci: usize = 0;
        while ci < count
            invariant
                ci <= count,
                chunks@.len() == ci,
                forall|j: int| 0 <= j < ci ==> (#[trigger] chunks@[j]).0.len() == cpc,
                forall|j: int, o: int|
                    0 <= j < ci && 0 <= o < cpc ==> (#[trigger] chunks@[j].0[o]) == (Cell {
                        value: 0,
                        neighbours: 0,
                    }),
                cpc == cells_per_chunk_spec(c as int),
            decreases count - ci,
        {
            let mut cells: Vec<Cell> = Vec::new();
            let mut o: usize = 0;
            while o < cpc
                invariant
                    o <= cpc,
                    cells@.len() == o,
                    forall|k: int|
                        0 <= k < o ==> (#[trigger] cells@[k]) == (Cell {
                            value: 0,
                            neighbours: 0,
                        }),
                decreases cpc - o,
            {
                cells.push(Cell { value: 0, neighbours: 0 });
                o += 1;
            }
            chunks.push(Chunk(cells));
            ci += 1;
        }
        self.chunks = chunks;
        self.chunk_radius = radius;
        self.chunk_count = count;
        proof {
            let cint = c as int;
            let g = *self;
            assert forall|i: int| 0 <= i < g.flat().len() implies #[trigger] g.flat()[i] == (Cell {
                value: 0,
                neighbours: 0,
            }) by {
                lemma_split_bounds(i, cells_per_chunk_spec(cint), g.chunks@.len() as int);
            }
        }
        self.size()
    }

    /// Flat index of an already wrapped position.
    pub fn pos_to_index(&self, p: Pos) -> (i: usize)
        requires
            self.wf(),
            0 <= p.x < self.size_spec(),
            0 <= p.y < self.size_spec(),
            0 <= p.z < self.size_spec(),
        ensures
            i == pos_to_index_spec(
                p.x as int,
                p.y as int,
                p.z as int,
                self.chunk_radius as int,
                self.chunk_size as int,
            ),
            i < self.total_spec(),
    {
        pos_to_index_ex(p, self.chunk_radius, self.chunk_size)
    }

    /// Position of a flat index.
    pub fn index_to_pos(&self, index: usize) -> (p: Pos)
        requires
            self.wf(),
            index < self.total_spec(),
        ensures
            p.x == index_to_x_spec(index as int, self.chunk_radius as int, self.chunk_size as int),
            p.y == index_to_y_spec(index as int, self.chunk_radius as int, self.chunk_size as int),
            p.z == index_to_z_spec(index as int, self.chunk_radius as int, self.chunk_size as int),
            0 <= p.x < self.size_spec(),
            0 <= p.y < self.size_spec(),
            0 <= p.z < self.size_spec(),
    {
        index_to_pos_ex(index, self.chunk_radius, self.chunk_size)
    }
}

} // verus!
