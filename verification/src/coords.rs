//! Pure coordinate arithmetic for the toroidal chunked grid.
//!
//! A domain of edge length `size = chunk_radius * chunk_size` wraps around on
//! all three axes.  A global cell position maps to a flat index, which splits
//! into a chunk ordinal and an in-chunk offset; these free functions and the
//! lemmas about them carry the whole geometry of the engine.

use vstd::prelude::*;

verus! {

/// Largest accepted chunk edge length.
pub const MAX_CHUNK_EDGE: usize = 64;

/// Largest accepted edge length of the whole domain; keeps the flat cell
/// index below `2^30`, inside `usize` on every machine.
pub const MAX_DOMAIN_EDGE: usize = 1024;

/// A 3-dimensional integer position or offset vector.
#[derive(Clone, Copy, PartialEq, Eq, Structural, Debug)]
pub struct Pos {
    pub x: i32,
    pub y: i32,
    pub z: i32,
}

pub fn pos(x: i32, y: i32, z: i32) -> (p: Pos)
    ensures
        p == (Pos { x, y, z }),
{
    Pos { x, y, z }
}

/// Canonical residue of `p` modulo a positive domain edge `s`.
pub open spec fn wrap_spec(p: int, s: int) -> int
    recommends
        s >= 1,
{
    p % s
}

/// Toroidal wrap of one coordinate into `[0, s)`.
pub fn wrap(p: i32, s: i32) -> (r: i32)
    requires
        1 <= s,
    ensures
        r == wrap_spec(p as int, s as int),
        0 <= r < s,
{
    let m: i32 = p % s;
    proof {
        let pi = p as int;
        let si = s as int;
        vstd::arithmetic::div_mod::lemma_mod_bound(pi, si);
        if m < 0 {
            let q = (-pi) / si;
            vstd::arithmetic::div_mod::lemma_fundamental_div_mod(-pi, si);
            assert(m == pi + si * q);
            assert(pi == (-q - 1) * si + (m + si)) by (nonlinear_arith)
                requires
                    m == pi + si * q,
            ;
            vstd::arithmetic::div_mod::lemma_fundamental_div_mod_converse(pi, si, -q - 1, m + si);
        } else if p < 0 {
            let q = (-pi) / si;
            vstd::arithmetic::div_mod::lemma_fundamental_div_mod(-pi, si);
            assert(m == pi + si * q);
            assert(pi == (-q) * si + m) by (nonlinear_arith)
                requires
                    m == pi + si * q,
            ;
            vstd::arithmetic::div_mod::lemma_fundamental_div_mod_converse(pi, si, -q, m as int);
        }
    }
    if m < 0 {
        m + s
    } else {
        m
    }
}

/// Componentwise toroidal wrap of a position into `[0, s)^3`.
pub fn wrap_pos(p: Pos, s: i32) -> (r: Pos)
    requires
        1 <= s,
    ensures
        r.x == wrap_spec(p.x as int, s as int),
        r.y == wrap_spec(p.y as int, s as int),
        r.z == wrap_spec(p.z as int, s as int),
        0 <= r.x < s,
        0 <= r.y < s,
        0 <= r.z < s,
{
    Pos { x: wrap(p.x, s), y: wrap(p.y, s), z: wrap(p.z, s) }
}

/// Linearization of a coordinate triple inside an `n`-edged cube.
pub open spec fn lin3(a: int, b: int, c: int, n: int) -> int {
    a + n * (b + n * c)
}

/// First axis of the inverse of `lin3`.
pub open spec fn delin3_x(i: int, n: int) -> int {
    i % n
}

/// Second axis of the inverse of `lin3`.
pub open spec fn delin3_y(i: int, n: int) -> int {
    (i / n) % n
}

/// Third axis of the inverse of `lin3`.
pub open spec fn delin3_z(i: int, n: int) -> int {
    i / n / n
}

pub proof fn lemma_lin3_bounds(a: int, b: int, c: int, n: int)
    requires
        0 <= a < n,
        0 <= b < n,
        0 <= c < n,
    ensures
        0 <= lin3(a, b, c, n) < n * n * n,
{
    assert(0 <= lin3(a, b, c, n) < n * n * n) by (nonlinear_arith)
        requires
            0 <= a < n,
            0 <= b < n,
            0 <= c < n,
    ;
}

/// `lin3` followed by the three `delin3` projections returns the triple.
pub proof fn lemma_lin3_inverse(a: int, b: int, c: int, n: int)
    requires
        0 <= a < n,
        0 <= b < n,
        0 <= c < n,
    ensures
        delin3_x(lin3(a, b, c, n), n) == a,
        delin3_y(lin3(a, b, c, n), n) == b,
        delin3_z(lin3(a, b, c, n), n) == c,
{
    let i = lin3(a, b, c, n);
    assert(i == (b + n * c) * n + a) by (nonlinear_arith)
        requires
            i == a + n * (b + n * c),
    ;
    vstd::arithmetic::div_mod::lemma_fundamental_div_mod_converse(i, n, b + n * c, a);
    assert(i % n == a);
    assert(i / n == b + n * c);
    assert(b + n * c == c * n + b) by (nonlinear_arith);
    vstd::arithmetic::div_mod::lemma_fundamental_div_mod_converse(b + n * c, n, c, b);
}

/// The three `delin3` projections followed by `lin3` return the index.
pub proof fn lemma_delin3_inverse(i: int, n: int)
    requires
        1 <= n,
        0 <= i < n * n * n,
    ensures
        0 <= delin3_x(i, n) < n,
        0 <= delin3_y(i, n) < n,
        0 <= delin3_z(i, n) < n,
        lin3(delin3_x(i, n), delin3_y(i, n), delin3_z(i, n), n) == i,
{
    let a = i % n;
    let q = i / n;
    vstd::arithmetic::div_mod::lemma_fundamental_div_mod(i, n);
    vstd::arithmetic::div_mod::lemma_mod_bound(i, n);
    assert(0 <= q < n * n) by (nonlinear_arith)
        requires
            0 <= i < n * n * n,
            1 <= n,
            i == n * q + a,
            0 <= a < n,
    ;
    let b = q % n;
    let c = q / n;
    vstd::arithmetic::div_mod::lemma_fundamental_div_mod(q, n);
    vstd::arithmetic::div_mod::lemma_mod_bound(q, n);
    assert(0 <= c < n) by (nonlinear_arith)
        requires
            0 <= q < n * n,
            1 <= n,
            q == n * c + b,
            0 <= b < n,
    ;
    assert(a + n * (b + n * c) == a + n * q) by (nonlinear_arith)
        requires
            q == n * c + b,
    ;
}

/// Number of cells in one chunk of edge `c`.
pub open spec fn cells_per_chunk_spec(c: int) -> int {
    c * c * c
}

/// Number of chunks in a grid of `r` chunks per axis.
pub open spec fn chunk_count_spec(r: int) -> int {
    r * r * r
}

/// Edge length of the whole domain.
pub open spec fn domain_spec(r: int, c: int) -> int {
    r * c
}

/// Number of cells in the whole grid.
pub open spec fn total_cells_spec(r: int, c: int) -> int {
    chunk_count_spec(r) * cells_per_chunk_spec(c)
}

/// Chunk ordinal holding a flat grid index.
pub open spec fn chunk_of_index(i: int, c: int) -> int {
    i / cells_per_chunk_spec(c)
}

/// In-chunk offset of a flat grid index.
pub open spec fn offset_of_index(i: int, c: int) -> int {
    i % cells_per_chunk_spec(c)
}

/// Flat index of a wrapped position: the owning chunk is linearized over the
/// chunk lattice, the in-chunk coordinate over the chunk's own cube.
pub open spec fn pos_to_index_spec(x: int, y: int, z: int, r: int, c: int) -> int {
    lin3(x / c, y / c, z / c, r) * cells_per_chunk_spec(c) + lin3(x % c, y % c, z % c, c)
}

/// First coordinate of the position of a flat index.
pub open spec fn index_to_x_spec(i: int, r: int, c: int) -> int {
    delin3_x(chunk_of_index(i, c), r) * c + delin3_x(offset_of_index(i, c), c)
}

/// Second coordinate of the position of a flat index.
pub open spec fn index_to_y_spec(i: int, r: int, c: int) -> int {
    delin3_y(chunk_of_index(i, c), r) * c + delin3_y(offset_of_index(i, c), c)
}

/// Third coordinate of the position of a flat index.
pub open spec fn index_to_z_spec(i: int, r: int, c: int) -> int {
    delin3_z(chunk_of_index(i, c), r) * c + delin3_z(offset_of_index(i, c), c)
}

/// Whether side lengths are inside the accepted machine bounds.
pub open spec fn dims_ok(r: int, c: int) -> bool {
    &&& 1 <= c <= MAX_CHUNK_EDGE
    &&& 0 <= r
    &&& domain_spec(r, c) <= MAX_DOMAIN_EDGE
}

/// Numeric bounds on the derived grid quantities that keep every index
/// computation inside `usize` and `i32`.
pub proof fn lemma_dims_products(r: int, c: int)
    requires
        dims_ok(r, c),
    ensures
        1 <= cells_per_chunk_spec(c) <= 0x40000,
        0 <= chunk_count_spec(r) <= 0x40000000,
        0 <= domain_spec(r, c) <= 1024,
        0 <= r <= 1024,
        0 <= total_cells_spec(r, c) <= 0x40000000,
        total_cells_spec(r, c) == chunk_count_spec(r) * cells_per_chunk_spec(c),
        r >= 1 ==> chunk_count_spec(r) >= 1 && total_cells_spec(r, c) >= 1 && domain_spec(r, c)
            >= 1,
        r == 0 ==> total_cells_spec(r, c) == 0 && domain_spec(r, c) == 0,
{
    assert(1 <= c * c * c <= 0x40000 && 0 <= r <= 1024 && 0 <= r * r * r <= 0x40000000 && 0 <= (r
        * r * r) * (c * c * c) && (r * r * r) * (c * c * c) == (r * c) * (r * c) * (r * c) && (r
        * c) * (r * c) * (r * c) <= 0x40000000 && (r >= 1 ==> r * r * r >= 1 && (r * r * r) * (c
        * c * c) >= 1 && r * c >= 1) && (r == 0 ==> (r * r * r) * (c * c * c) == 0 && r * c == 0)) by (
    nonlinear_arith)
        requires
            1 <= c <= 64,
            0 <= r,
            0 <= r * c <= 1024,
    ;
}

/// Splitting a coordinate by a positive edge: bounds of quotient and
/// remainder, and the recomposition identity.
pub proof fn lemma_split_bounds(x: int, c: int, r: int)
    requires
        1 <= c,
        0 <= x < r * c,
    ensures
        0 <= x / c < r,
        0 <= x % c < c,
        x == (x / c) * c + x % c,
{
    vstd::arithmetic::div_mod::lemma_fundamental_div_mod(x, c);
    vstd::arithmetic::div_mod::lemma_mod_bound(x, c);
    assert(0 <= x / c < r && x == (x / c) * c + x % c) by (nonlinear_arith)
        requires
            1 <= c,
            0 <= x < r * c,
            x == c * (x / c) + x % c,
            0 <= x % c < c,
    ;
}

/// The recomposition `q * c + l` splits back into `q` and `l`.
pub proof fn lemma_recompose(q: int, l: int, c: int)
    requires
        1 <= c,
        0 <= q,
        0 <= l < c,
    ensures
        (q * c + l) / c == q,
        (q * c + l) % c == l,
{
    vstd::arithmetic::div_mod::lemma_fundamental_div_mod_converse(q * c + l, c, q, l);
}

/// Exec linearization of a triple inside an `n`-edged cube.
pub fn lin3_ex(a: usize, b: usize, c: usize, n: usize) -> (i: usize)
    requires
        1 <= n <= MAX_DOMAIN_EDGE,
        a < n,
        b < n,
        c < n,
    ensures
        i == lin3(a as int, b as int, c as int, n as int),
        i < chunk_count_spec(n as int),
{
    proof {
        let ni = n as int;
        let ai = a as int;
        let bi = b as int;
        let ci = c as int;
        lemma_lin3_bounds(ai, bi, ci, ni);
        assert(0 <= ni * ci && ni * ci <= 0x100000 && 0 <= bi + ni * ci && bi + ni * ci
            <= 0x100400 && 0 <= ni * (bi + ni * ci) && ni * (bi + ni * ci) <= 0x40000000 && ai
            + ni * (bi + ni * ci) < 0x40000000) by (nonlinear_arith)
            requires
                1 <= ni <= 1024,
                0 <= ai < ni,
                0 <= bi < ni,
                0 <= ci < ni,
        ;
    }
    a + n * (b + n * c)
}

/// Exec number of cells per chunk.
pub fn cells_per_chunk_ex(c: usize) -> (n: usize)
    requires
        1 <= c <= MAX_CHUNK_EDGE,
    ensures
        n == cells_per_chunk_spec(c as int),
{
    proof {
        let ci = c as int;
        assert(1 <= ci * ci && ci * ci <= 4096 && 1 <= ci * ci * ci && ci * ci * ci <= 0x40000)
            by (nonlinear_arith)
            requires
                1 <= ci <= 64,
        ;
    }
    c * c * c
}

/// Exec flat index of an already wrapped position.
pub fn pos_to_index_ex(p: Pos, chunk_radius: usize, chunk_size: usize) -> (i: usize)
    requires
        dims_ok(chunk_radius as int, chunk_size as int),
        0 <= p.x < chunk_radius as int * chunk_size as int,
        0 <= p.y < chunk_radius as int * chunk_size as int,
        0 <= p.z < chunk_radius as int * chunk_size as int,
    ensures
        i == pos_to_index_spec(
            p.x as int,
            p.y as int,
            p.z as int,
            chunk_radius as int,
            chunk_size as int,
        ),
        i < total_cells_spec(chunk_radius as int, chunk_size as int),
{
    let r = chunk_radius;
    let c = chunk_size;
    let x = p.x as usize;
    let y = p.y as usize;
    let z = p.z as usize;
    proof {
        lemma_dims_products(r as int, c as int);
        assert(r >= 1);
        lemma_split_bounds(x as int, c as int, r as int);
        lemma_split_bounds(y as int, c as int, r as int);
        lemma_split_bounds(z as int, c as int, r as int);
    }
    let ci = lin3_ex(x / c, y / c, z / c, r);
    let off = lin3_ex(x % c, y % c, z % c, c);
    let ccc = cells_per_chunk_ex(c);
    proof {
        let cii = ci as int;
        let offi = off as int;
        let ccci = ccc as int;
        let cnt = chunk_count_spec(r as int);
        assert(0 <= cii * ccci && cii * ccci + offi < cnt * ccci && cii * ccci
            <= 0x1000000000000000) by (nonlinear_arith)
            requires
                0 <= cii < cnt,
                0 <= offi < ccci,
                1 <= ccci <= 0x40000,
                0 <= cnt <= 0x40000000000,
        ;
    }
    ci * ccc + off
}

/// Exec position of a flat index, componentwise.
pub fn index_to_pos_ex(i: usize, chunk_radius: usize, chunk_size: usize) -> (p: Pos)
    requires
        dims_ok(chunk_radius as int, chunk_size as int),
        i < total_cells_spec(chunk_radius as int, chunk_size as int),
    ensures
        p.x == index_to_x_spec(i as int, chunk_radius as int, chunk_size as int),
        p.y == index_to_y_spec(i as int, chunk_radius as int, chunk_size as int),
        p.z == index_to_z_spec(i as int, chunk_radius as int, chunk_size as int),
        0 <= p.x < chunk_radius as int * chunk_size as int,
        0 <= p.y < chunk_radius as int * chunk_size as int,
        0 <= p.z < chunk_radius as int * chunk_size as int,
{
    let r = chunk_radius;
    let c = chunk_size;
    proof {
        lemma_dims_products(r as int, c as int);
        assert(r >= 1);
        lemma_index_pos_roundtrip(i as int, r as int, c as int);
        lemma_split_bounds(i as int, cells_per_chunk_spec(c as int), chunk_count_spec(r as int));
    }
    let ccc = cells_per_chunk_ex(c);
    let ci = i / ccc;
    let off = i % ccc;
    proof {
        lemma_delin3_inverse(ci as int, r as int);
        lemma_delin3_inverse(off as int, c as int);
    }
    let cx = ci % r;
    let cy = (ci / r) % r;
    let cz = ci / r / r;
    let lx = off % c;
    let ly = (off / c) % c;
    let lz = off / c / c;
    proof {
        let ri = r as int;
        let cint = c as int;
        assert(((cx as int) * cint + (lx as int)) < ri * cint && ((cy as int) * cint + (
        ly as int)) < ri * cint && ((cz as int) * cint + (lz as int)) < ri * cint) by (
        nonlinear_arith)
            requires
                0 <= (cx as int) < ri,
                0 <= (cy as int) < ri,
                0 <= (cz as int) < ri,
                0 <= (lx as int) < cint,
                0 <= (ly as int) < cint,
                0 <= (lz as int) < cint,
                1 <= cint,
        ;
    }
    Pos { x: (cx * c + lx) as i32, y: (cy * c + ly) as i32, z: (cz * c + lz) as i32 }
}

/// Exec chunk ordinal of a flat index.
pub fn index_to_chunk_index(index: usize, chunk_size: usize) -> (r: usize)
    requires
        1 <= chunk_size <= MAX_CHUNK_EDGE,
    ensures
        r == chunk_of_index(index as int, chunk_size as int),
{
    let ccc = cells_per_chunk_ex(chunk_size);
    proof {
        lemma_dims_products(1, chunk_size as int);
        vstd::arithmetic::div_mod::lemma_div_pos_is_pos(index as int, ccc as int);
    }
    index / ccc
}

/// Exec in-chunk offset of a flat index.
pub fn index_to_chunk_offset(index: usize, chunk_size: usize) -> (r: usize)
    requires
        1 <= chunk_size <= MAX_CHUNK_EDGE,
    ensures
        r == offset_of_index(index as int, chunk_size as int),
        r < cells_per_chunk_spec(chunk_size as int),
{
    let ccc = cells_per_chunk_ex(chunk_size);
    proof {
        lemma_dims_products(1, chunk_size as int);
        vstd::arithmetic::div_mod::lemma_mod_bound(index as int, ccc as int);
    }
    index % ccc
}

/// A wrapped position maps to a flat index inside the grid, and that index
/// maps back to the same position.
pub proof fn lemma_pos_index_roundtrip(x: int, y: int, z: int, r: int, c: int)
    requires
        dims_ok(r, c),
        0 <= x < r * c,
        0 <= y < r * c,
        0 <= z < r * c,
    ensures
        0 <= pos_to_index_spec(x, y, z, r, c) < total_cells_spec(r, c),
        index_to_x_spec(pos_to_index_spec(x, y, z, r, c), r, c) == x,
        index_to_y_spec(pos_to_index_spec(x, y, z, r, c), r, c) == y,
        index_to_z_spec(pos_to_index_spec(x, y, z, r, c), r, c) == z,
{
    let ccc = cells_per_chunk_spec(c);
    lemma_dims_products(r, c);
    lemma_split_bounds(x, c, r);
    lemma_split_bounds(y, c, r);
    lemma_split_bounds(z, c, r);
    let ci = lin3(x / c, y / c, z / c, r);
    let off = lin3(x % c, y % c, z % c, c);
    lemma_lin3_bounds(x / c, y / c, z / c, r);
    lemma_lin3_bounds(x % c, y % c, z % c, c);
    let i = ci * ccc + off;
    lemma_recompose(ci, off, ccc);
    assert(chunk_of_index(i, c) == ci);
    assert(offset_of_index(i, c) == off);
    lemma_lin3_inverse(x / c, y / c, z / c, r);
    lemma_lin3_inverse(x % c, y % c, z % c, c);
    assert(i < total_cells_spec(r, c)) by (nonlinear_arith)
        requires
            0 <= ci < chunk_count_spec(r),
            0 <= off < ccc,
            1 <= ccc,
            i == ci * ccc + off,
            total_cells_spec(r, c) == chunk_count_spec(r) * ccc,
    ;
}

/// A flat index inside the grid maps to an in-range position, and that
/// position maps back to the same index.
pub proof fn lemma_index_pos_roundtrip(i: int, r: int, c: int)
    requires
        dims_ok(r, c),
        0 <= i < total_cells_spec(r, c),
    ensures
        0 <= index_to_x_spec(i, r, c) < r * c,
        0 <= index_to_y_spec(i, r, c) < r * c,
        0 <= index_to_z_spec(i, r, c) < r * c,
        pos_to_index_spec(
            index_to_x_spec(i, r, c),
            index_to_y_spec(i, r, c),
            index_to_z_spec(i, r, c),
            r,
            c,
        ) == i,
{
    let ccc = cells_per_chunk_spec(c);
    lemma_dims_products(r, c);
    lemma_split_bounds(i, ccc, chunk_count_spec(r));
    let ci = i / ccc;
    let off = i % ccc;
    lemma_delin3_inverse(ci, r);
    lemma_delin3_inverse(off, c);
    let cx = delin3_x(ci, r);
    let cy = delin3_y(ci, r);
    let cz = delin3_z(ci, r);
    let lx = delin3_x(off, c);
    let ly = delin3_y(off, c);
    let lz = delin3_z(off, c);
    let x = cx * c + lx;
    let y = cy * c + ly;
    let z = cz * c + lz;
    lemma_recompose(cx, lx, c);
    lemma_recompose(cy, ly, c);
    lemma_recompose(cz, lz, c);
    assert(x < r * c && y < r * c && z < r * c) by (nonlinear_arith)
        requires
            0 <= cx < r,
            0 <= cy < r,
            0 <= cz < r,
            0 <= lx < c,
            0 <= ly < c,
            0 <= lz < c,
            1 <= c,
            x == cx * c + lx,
            y == cy * c + ly,
            z == cz * c + lz,
    ;
}

} // verus!
