//! Laws of the engine, stated and proved once for all inputs: edge-wrap
//! resolution, determinism of birth and decay with their event records, and
//! commutation of counter bumps, the order-independence of the propagation
//! phase.

use vstd::prelude::*;
use crate::coords::{
    Pos, cells_per_chunk_spec, chunk_count_spec, dims_ok, domain_spec, pos_to_index_spec,
    total_cells_spec, wrap_spec, lemma_dims_products,
};
use crate::grid::Cell;
use crate::rule::Rule;
use crate::engine::{
    apply_dirs, apply_events, apply_phase2, bump_cell, count_mature, counts_valid,
    default_cells, generation_spec, is_death, is_spawn, lemma_apply_dirs_shape,
    lemma_target_range, spawn_offsets, death_offsets, step_cell, step_values_spec, target_of,
};

verus! {

/// Law: wrapping is the identity inside the domain, moving one step past
/// the far edge lands on coordinate zero, and one step before coordinate
/// zero lands on the far edge.  Wrapping is componentwise, so this one
/// coordinate statement covers all three axes.
pub proof fn lemma_wrap_edges(p: int, s: int)
    requires
        1 <= s,
    ensures
        0 <= p < s ==> wrap_spec(p, s) == p,
        wrap_spec((s - 1) + 1, s) == 0,
        wrap_spec(0 - 1, s) == s - 1,
        wrap_spec(p + s, s) == wrap_spec(p, s),
{
    if 0 <= p < s {
        vstd::arithmetic::div_mod::lemma_fundamental_div_mod_converse(p, s, 0, p);
    }
    vstd::arithmetic::div_mod::lemma_fundamental_div_mod_converse(s, s, 1, 0);
    vstd::arithmetic::div_mod::lemma_fundamental_div_mod_converse(-1, s, -1, s - 1);
    vstd::arithmetic::div_mod::lemma_mod_multiples_vanish(1, p, s);
}

/// Law: on a domain of edge `s`, a cell at the last coordinate of an axis
/// resolves its `+1` neighbour to coordinate zero of that axis, and a cell
/// at coordinate zero resolves its `-1` neighbour to the last coordinate,
/// shown here on the first axis with the other two held anywhere in range.
pub proof fn lemma_wrap_edge_resolution(y: int, z: int, r: int, c: int)
    requires
        dims_ok(r, c),
        r >= 1,
        0 <= y < domain_spec(r, c),
        0 <= z < domain_spec(r, c),
    ensures
        target_of(domain_spec(r, c) - 1, y, z, Pos { x: 1, y: 0, z: 0 }, r, c)
            == pos_to_index_spec(0, y, z, r, c),
        target_of(0, y, z, Pos { x: -1i32, y: 0, z: 0 }, r, c) == pos_to_index_spec(
            domain_spec(r, c) - 1,
            y,
            z,
            r,
            c,
        ),
{
    let s = domain_spec(r, c);
    lemma_dims_products(r, c);
    lemma_wrap_edges(y, s);
    lemma_wrap_edges(z, s);
    lemma_wrap_edges(s - 1, s);
    lemma_wrap_edges(0, s);
}

/// Law: a mature cell whose neighbour count fails the survival predicate
/// steps down to exactly one below the mature age and is recorded as a
/// death and as nothing else.
pub proof fn lemma_decay_of_mature(cell: Cell, rule: Rule)
    requires
        cell.value == rule.states,
        cell.value != 0,
        !rule.survival_rule.in_range_spec(cell.neighbours as int),
    ensures
        step_cell(cell, rule).value == rule.states - 1,
        step_cell(cell, rule).neighbours == cell.neighbours,
        is_death(cell, rule),
        !is_spawn(cell, rule),
{
}

/// Law: a decaying cell, mature no longer but not yet dead, steps down by
/// exactly one whatever its neighbour count, and is recorded neither as a
/// death nor as a spawn.
pub proof fn lemma_decay_of_decaying(cell: Cell, rule: Rule)
    requires
        0 < cell.value < rule.states,
    ensures
        step_cell(cell, rule).value == cell.value - 1,
        step_cell(cell, rule).neighbours == cell.neighbours,
        !is_death(cell, rule),
        !is_spawn(cell, rule),
{
}

/// Law: a dead cell whose neighbour count satisfies the birth predicate
/// steps to the mature age and is recorded as a spawn; one whose count
/// fails it stays exactly as it was and is recorded as nothing.
pub proof fn lemma_birth_of_dead(cell: Cell, rule: Rule)
    requires
        cell.value == 0,
    ensures
        rule.birth_rule.in_range_spec(cell.neighbours as int) ==> step_cell(cell, rule).value
            == rule.states && step_cell(cell, rule).neighbours == cell.neighbours && is_spawn(
            cell,
            rule,
        ),
        !rule.birth_rule.in_range_spec(cell.neighbours as int) ==> step_cell(cell, rule) == cell
            && !is_spawn(cell, rule),
        !is_death(cell, rule) || rule.states == 0,
{
}

/// Law: the spawn list of a chunk holds an offset if and only if that
/// offset's cell spawns, and it is strictly increasing, so it holds each
/// such offset exactly once.
pub proof fn lemma_spawn_offsets_exact(cells: Seq<Cell>, rule: Rule)
    requires
        cells.len() <= usize::MAX,
    ensures
        forall|o: usize|
            #[trigger] spawn_offsets(cells, rule).contains(o) <==> ((o as int) < cells.len()
                && is_spawn(cells[o as int], rule)),
        forall|i: int, j: int|
            0 <= i < j < spawn_offsets(cells, rule).len() ==> #[trigger] spawn_offsets(
                cells,
                rule,
            )[i] < #[trigger] spawn_offsets(cells, rule)[j],
    decreases cells.len(),
{
    crate::engine::lemma_spawn_offsets_range(cells, rule);
    if cells.len() > 0 {
        lemma_spawn_offsets_exact(cells.drop_last(), rule);
        crate::engine::lemma_spawn_offsets_range(cells.drop_last(), rule);
        let prefix = spawn_offsets(cells.drop_last(), rule);
        let whole = spawn_offsets(cells, rule);
        let last_off = (cells.len() - 1) as usize;
        if is_spawn(cells.last(), rule) {
            assert(whole == prefix.push(last_off));
        } else {
            assert(whole == prefix);
        }
        assert forall|o: usize| #[trigger] whole.contains(o) implies ((o as int) < cells.len()
            && is_spawn(cells[o as int], rule)) by {
            let t = choose|t: int| 0 <= t < whole.len() && whole[t] == o;
            if t < prefix.len() {
                assert(whole[t] == prefix[t]);
                assert(prefix.contains(o));
                assert(cells.drop_last()[o as int] == cells[o as int]);
            } else {
                assert(is_spawn(cells.last(), rule));
                assert(o == last_off);
                assert(cells[o as int] == cells.last());
            }
        }
        assert forall|o: usize|
            ((o as int) < cells.len() && is_spawn(cells[o as int], rule)) implies #[trigger] whole
            .contains(o) by {
            if (o as int) < cells.len() - 1 {
                assert(cells.drop_last()[o as int] == cells[o as int]);
                assert(prefix.contains(o));
                let t = choose|t: int| 0 <= t < prefix.len() && prefix[t] == o;
                assert(whole[t] == o);
                assert(whole.contains(o));
            } else {
                assert(cells[o as int] == cells.last());
                assert(whole == prefix.push(last_off));
                assert(whole[whole.len() - 1] == last_off);
                assert(o == last_off);
                assert(whole.contains(o));
            }
        }
        assert forall|i: int, j: int| 0 <= i < j < whole.len() implies whole[i] < whole[j] by {
            if j < prefix.len() {
                assert(whole[i] == prefix[i] && whole[j] == prefix[j]);
            } else {
                assert(whole == prefix.push(last_off));
                assert(whole[j] == last_off);
                assert(whole[i] == prefix[i]);
                assert(prefix[i] < cells.drop_last().len());
            }
        }
    }
}

/// Law: the death list of a chunk holds an offset if and only if that
/// offset's cell dies, and it is strictly increasing, so it holds each such
/// offset exactly once.
pub proof fn lemma_death_offsets_exact(cells: Seq<Cell>, rule: Rule)
    requires
        cells.len() <= usize::MAX,
    ensures
        forall|o: usize|
            #[trigger] death_offsets(cells, rule).contains(o) <==> ((o as int) < cells.len()
                && is_death(cells[o as int], rule)),
        forall|i: int, j: int|
            0 <= i < j < death_offsets(cells, rule).len() ==> #[trigger] death_offsets(
                cells,
                rule,
            )[i] < #[trigger] death_offsets(cells, rule)[j],
    decreases cells.len(),
{
    crate::engine::lemma_death_offsets_range(cells, rule);
    if cells.len() > 0 {
        lemma_death_offsets_exact(cells.drop_last(), rule);
        crate::engine::lemma_death_offsets_range(cells.drop_last(), rule);
        let prefix = death_offsets(cells.drop_last(), rule);
        let whole = death_offsets(cells, rule);
        let last_off = (cells.len() - 1) as usize;
        if is_death(cells.last(), rule) {
            assert(whole == prefix.push(last_off));
        } else {
            assert(whole == prefix);
        }
        assert forall|o: usize| #[trigger] whole.contains(o) implies ((o as int) < cells.len()
            && is_death(cells[o as int], rule)) by {
            let t = choose|t: int| 0 <= t < whole.len() && whole[t] == o;
            if t < prefix.len() {
                assert(whole[t] == prefix[t]);
                assert(prefix.contains(o));
                assert(cells.drop_last()[o as int] == cells[o as int]);
            } else {
                assert(is_death(cells.last(), rule));
                assert(o == last_off);
                assert(cells[o as int] == cells.last());
            }
        }
        assert forall|o: usize|
            ((o as int) < cells.len() && is_death(cells[o as int], rule)) implies #[trigger] whole
            .contains(o) by {
            if (o as int) < cells.len() - 1 {
                assert(cells.drop_last()[o as int] == cells[o as int]);
                assert(prefix.contains(o));
                let t = choose|t: int| 0 <= t < prefix.len() && prefix[t] == o;
                assert(whole[t] == o);
                assert(whole.contains(o));
            } else {
                assert(cells[o as int] == cells.last());
                assert(whole == prefix.push(last_off));
                assert(whole[whole.len() - 1] == last_off);
                assert(o == last_off);
                assert(whole.contains(o));
            }
        }
        assert forall|i: int, j: int| 0 <= i < j < whole.len() implies whole[i] < whole[j] by {
            if j < prefix.len() {
                assert(whole[i] == prefix[i] && whole[j] == prefix[j]);
            } else {
                assert(whole == prefix.push(last_off));
                assert(whole[j] == last_off);
                assert(whole[i] == prefix[i]);
                assert(prefix[i] < cells.drop_last().len());
            }
        }
    }
}

/// Law: two counter bumps commute — applying them to any two cells of the
/// grid in either order yields the same grid.  This is why the propagation
/// phase may process its spawn and death events in any order, and in
/// particular concurrently chunk by chunk, and still produce one result.
pub proof fn lemma_bump_commutes(cells: Seq<Cell>, i: int, j: int, inc_i: bool, inc_j: bool)
    requires
        0 <= i < cells.len(),
        0 <= j < cells.len(),
    ensures
        ({
            let a = cells.update(i, bump_cell(cells[i], inc_i));
            let ab = a.update(j, bump_cell(a[j], inc_j));
            let b = cells.update(j, bump_cell(cells[j], inc_j));
            let ba = b.update(i, bump_cell(b[i], inc_i));
            ab == ba
        }),
{
    let a = cells.update(i, bump_cell(cells[i], inc_i));
    let ab = a.update(j, bump_cell(a[j], inc_j));
    let b = cells.update(j, bump_cell(cells[j], inc_j));
    let ba = b.update(i, bump_cell(b[i], inc_i));
    if i == j {
        assert(bump_cell(bump_cell(cells[i], inc_i), inc_j) == bump_cell(
            bump_cell(cells[i], inc_j),
            inc_i,
        ));
        assert(ab =~= ba);
    } else {
        assert(ab =~= ba);
    }
}

/// A single counter bump commutes with the whole propagation pass of one
/// event: bumping a cell first and then walking an offset list gives the
/// same grid as walking the list first and bumping afterwards.
pub proof fn lemma_bump_commutes_with_pass(
    cells: Seq<Cell>,
    dirs: Seq<Pos>,
    px: int,
    py: int,
    pz: int,
    inc: bool,
    t: int,
    inc_t: bool,
    r: int,
    c: int,
)
    requires
        dims_ok(r, c),
        r >= 1,
        cells.len() == total_cells_spec(r, c),
        0 <= t < cells.len(),
    ensures
        ({
            let bumped = cells.update(t, bump_cell(cells[t], inc_t));
            let passed = apply_dirs(cells, dirs, px, py, pz, inc, r, c);
            apply_dirs(bumped, dirs, px, py, pz, inc, r, c) == passed.update(
                t,
                bump_cell(passed[t], inc_t),
            )
        }),
    decreases dirs.len(),
{
    let bumped = cells.update(t, bump_cell(cells[t], inc_t));
    lemma_apply_dirs_shape(cells, dirs, px, py, pz, inc, r, c);
    if dirs.len() > 0 {
        lemma_bump_commutes_with_pass(
            cells,
            dirs.drop_last(),
            px,
            py,
            pz,
            inc,
            t,
            inc_t,
            r,
            c,
        );
        let tar = target_of(px, py, pz, dirs.last(), r, c);
        let prev = apply_dirs(cells, dirs.drop_last(), px, py, pz, inc, r, c);
        lemma_apply_dirs_shape(cells, dirs.drop_last(), px, py, pz, inc, r, c);
        lemma_apply_dirs_shape(bumped, dirs.drop_last(), px, py, pz, inc, r, c);
        lemma_target_range(px, py, pz, dirs.last(), r, c);
        lemma_bump_commutes(prev, tar, t, inc, inc_t);
        assert(apply_dirs(bumped, dirs.drop_last(), px, py, pz, inc, r, c) == prev.update(
            t,
            bump_cell(prev[t], inc_t),
        ));
    } else {
        assert(apply_dirs(bumped, dirs, px, py, pz, inc, r, c) == bumped);
    }
}

/// Law: the propagations of any two events commute — the grid after both
/// is the same whichever event is walked first.  Together with the single
/// bump commutation this is the order-independence that lets the
/// propagation phase fan its spawn and death events out to concurrent
/// per-chunk tasks and still produce the sequential engine's exact grid.
pub proof fn lemma_passes_commute(
    cells: Seq<Cell>,
    d1: Seq<Pos>,
    p1x: int,
    p1y: int,
    p1z: int,
    inc1: bool,
    d2: Seq<Pos>,
    p2x: int,
    p2y: int,
    p2z: int,
    inc2: bool,
    r: int,
    c: int,
)
    requires
        dims_ok(r, c),
        r >= 1,
        cells.len() == total_cells_spec(r, c),
    ensures
        apply_dirs(
            apply_dirs(cells, d1, p1x, p1y, p1z, inc1, r, c),
            d2,
            p2x,
            p2y,
            p2z,
            inc2,
            r,
            c,
        ) == apply_dirs(
            apply_dirs(cells, d2, p2x, p2y, p2z, inc2, r, c),
            d1,
            p1x,
            p1y,
            p1z,
            inc1,
            r,
            c,
        ),
    decreases d2.len(),
{
    let after1 = apply_dirs(cells, d1, p1x, p1y, p1z, inc1, r, c);
    lemma_apply_dirs_shape(cells, d1, p1x, p1y, p1z, inc1, r, c);
    if d2.len() > 0 {
        lemma_passes_commute(
            cells,
            d1,
            p1x,
            p1y,
            p1z,
            inc1,
            d2.drop_last(),
            p2x,
            p2y,
            p2z,
            inc2,
            r,
            c,
        );
        let prev2 = apply_dirs(cells, d2.drop_last(), p2x, p2y, p2z, inc2, r, c);
        lemma_apply_dirs_shape(cells, d2.drop_last(), p2x, p2y, p2z, inc2, r, c);
        let tar = target_of(p2x, p2y, p2z, d2.last(), r, c);
        lemma_target_range(p2x, p2y, p2z, d2.last(), r, c);
        lemma_bump_commutes_with_pass(
            prev2,
            d1,
            p1x,
            p1y,
            p1z,
            inc1,
            tar,
            inc2,
            r,
            c,
        );
        lemma_apply_dirs_shape(prev2, d1, p1x, p1y, p1z, inc1, r, c);
    }
}

/// Propagating one chunk's event list changes no cell's age and no length.
pub proof fn lemma_apply_events_shape(
    cells: Seq<Cell>,
    ci: int,
    offs: Seq<usize>,
    dirs: Seq<Pos>,
    inc: bool,
    r: int,
    c: int,
)
    requires
        dims_ok(r, c),
        r >= 1,
        cells.len() == total_cells_spec(r, c),
    ensures
        apply_events(cells, ci, offs, dirs, inc, r, c).len() == cells.len(),
        forall|i: int|
            0 <= i < cells.len() ==> (#[trigger] apply_events(cells, ci, offs, dirs, inc, r, c)[i])
                .value == cells[i].value,
    decreases offs.len(),
{
    if offs.len() > 0 {
        lemma_apply_events_shape(cells, ci, offs.drop_last(), dirs, inc, r, c);
        let prev = apply_events(cells, ci, offs.drop_last(), dirs, inc, r, c);
        let gi = ci * cells_per_chunk_spec(c) + offs.last();
        lemma_apply_dirs_shape(
            prev,
            dirs,
            crate::coords::index_to_x_spec(gi, r, c),
            crate::coords::index_to_y_spec(gi, r, c),
            crate::coords::index_to_z_spec(gi, r, c),
            inc,
            r,
            c,
        );
    }
}

/// The whole propagation phase changes no cell's age and no length.
pub proof fn lemma_apply_phase2_shape(
    cells: Seq<Cell>,
    start: Seq<Cell>,
    rule: Rule,
    n: int,
    r: int,
    c: int,
)
    requires
        dims_ok(r, c),
        r >= 1,
        cells.len() == total_cells_spec(r, c),
    ensures
        apply_phase2(cells, start, rule, n, r, c).len() == cells.len(),
        forall|i: int|
            0 <= i < cells.len() ==> (#[trigger] apply_phase2(cells, start, rule, n, r, c)[i])
                .value == cells[i].value,
    decreases n,
{
    if n > 0 {
        lemma_apply_phase2_shape(cells, start, rule, n - 1, r, c);
        let prev = apply_phase2(cells, start, rule, n - 1, r, c);
        let slice = crate::engine::chunk_slice(start, n - 1, c);
        let after_spawns = apply_events(
            prev,
            n - 1,
            spawn_offsets(slice, rule),
            rule.neighbour_offsets@,
            true,
            r,
            c,
        );
        lemma_apply_events_shape(
            prev,
            n - 1,
            spawn_offsets(slice, rule),
            rule.neighbour_offsets@,
            true,
            r,
            c,
        );
        lemma_apply_events_shape(
            after_spawns,
            n - 1,
            death_offsets(slice, rule),
            rule.neighbour_offsets@,
            false,
            r,
            c,
        );
    }
}

/// Law: over a whole generation, every cell's age is exactly the stepped
/// age of the cell it grew from — birth to the mature age, survival, or a
/// decay step of one — whatever the propagation phase did to the counters
/// around it.
pub proof fn lemma_generation_values(start: Seq<Cell>, rule: Rule, r: int, c: int)
    requires
        dims_ok(r, c),
        r >= 1,
        start.len() == total_cells_spec(r, c),
    ensures
        generation_spec(start, rule, r, c).len() == start.len(),
        forall|i: int|
            0 <= i < start.len() ==> (#[trigger] generation_spec(start, rule, r, c)[i]).value
                == step_cell(start[i], rule).value,
{
    let mid = step_values_spec(start, rule);
    lemma_apply_phase2_shape(mid, start, rule, chunk_count_spec(r), r, c);
}

/// A recount over any offset list is zero on a grid with no mature cell.
pub proof fn lemma_count_mature_zero(
    cells: Seq<Cell>,
    dirs: Seq<Pos>,
    px: int,
    py: int,
    pz: int,
    rule: Rule,
    r: int,
    c: int,
)
    requires
        dims_ok(r, c),
        r >= 1,
        cells.len() == total_cells_spec(r, c),
        forall|i: int| 0 <= i < cells.len() ==> (#[trigger] cells[i]).value != rule.states,
    ensures
        count_mature(cells, dirs, px, py, pz, rule, r, c) == 0,
    decreases dirs.len(),
{
    if dirs.len() > 0 {
        lemma_count_mature_zero(cells, dirs.drop_last(), px, py, pz, rule, r, c);
        lemma_target_range(px, py, pz, dirs.last(), r, c);
    }
}

/// Law: a cleared grid satisfies the neighbour-count invariant — every
/// counter is zero and, the mature age being nonzero, no recount finds a
/// mature neighbour.  This is the state every resize leaves behind.
pub proof fn lemma_counts_valid_when_cleared(n: int, rule: Rule, r: int, c: int)
    requires
        dims_ok(r, c),
        r >= 1,
        rule.states != 0,
        n == total_cells_spec(r, c),
    ensures
        counts_valid(default_cells(n), rule, r, c),
{
    let cells = default_cells(n);
    assert forall|i: int| 0 <= i < cells.len() implies (#[trigger] cells[i]).neighbours as int
        == count_mature(
        cells,
        rule.neighbour_offsets@,
        crate::coords::index_to_x_spec(i, r, c),
        crate::coords::index_to_y_spec(i, r, c),
        crate::coords::index_to_z_spec(i, r, c),
        rule,
        r,
        c,
    ) by {
        lemma_count_mature_zero(
            cells,
            rule.neighbour_offsets@,
            crate::coords::index_to_x_spec(i, r, c),
            crate::coords::index_to_y_spec(i, r, c),
            crate::coords::index_to_z_spec(i, r, c),
            rule,
            r,
            c,
        );
    }
}

} // verus!
