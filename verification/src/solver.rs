//! The collapse/propagate loop.
//!
//! The solver owns a grid and a catalog, repeatedly collapses the
//! cell of least entropy (ties broken by a random draw), and then
//! restores arc-consistency outward from the collapsed cell with a
//! breadth-first work queue, detecting contradictions on the way.

use crate::catalog::{spec_socket, TileCatalog};
use crate::direction::{
    direction_from_index, direction_index, lemma_direction_index_roundtrip, moved_col, moved_row,
    spec_opposite, Direction,
};
use crate::grid::Grid;
use crate::rng::{gen_index, rng_from_seed};
use crate::tile::TileView;
use crate::WfcError;
use vstd::prelude::*;
use vstd::set_lib::lemma_len_subset;

verus! {

broadcast use vstd::seq_lib::seq_to_set_is_finite;

/// Tile `s`, looked at from a cell, accepts tile `t` as its neighbor
/// in direction `d`: the socket `s` presents toward `d` equals the
/// socket `t` presents back toward the opposite direction.
pub open spec fn pair_compatible(cat: Seq<TileView>, s: usize, t: usize, d: Direction) -> bool {
    spec_socket(cat, s as int, direction_index(d)) == spec_socket(
        cat,
        t as int,
        direction_index(spec_opposite(d)),
    )
}

/// Some candidate of the source cell `src` accepts `t` as its
/// neighbor in direction `d`.
pub open spec fn cell_allows(cat: Seq<TileView>, src: Seq<usize>, d: Direction, t: usize) -> bool {
    exists|s: usize| #[trigger] src.contains(s) && pair_compatible(cat, s, t, d)
}

/// The arc from the cell at `(x, y)` toward direction `d` is
/// consistent: every candidate of the neighbor cell in that direction
/// is accepted by some candidate at `(x, y)`. Trivially true when the
/// neighbor is off-grid.
pub open spec fn arc_ok(cat: Seq<TileView>, g: Grid, x: int, y: int, d: Direction) -> bool {
    g.in_bounds_spec(moved_row(x, d), moved_col(y, d)) ==> forall|t: usize|
        #[trigger] g.cell(moved_row(x, d), moved_col(y, d)).contains(t) ==> cell_allows(
            cat,
            g.cell(x, y),
            d,
            t,
        )
}

/// Every arc of the grid is consistent.
pub open spec fn arc_consistent(cat: Seq<TileView>, g: Grid) -> bool {
    forall|x: int, y: int, d: Direction|
        g.in_bounds_spec(x, y) ==> #[trigger] arc_ok(cat, g, x, y, d)
}

/// No two catalog tiles fit together in any direction.
pub open spec fn no_compatible_pair(cat: Seq<TileView>) -> bool {
    forall|s: usize, t: usize, d: Direction|
        s < cat.len() && t < cat.len() ==> !#[trigger] pair_compatible(cat, s, t, d)
}

/// Any two catalog tiles fit together in any direction.
pub open spec fn all_pairs_compatible(cat: Seq<TileView>) -> bool {
    forall|s: usize, t: usize, d: Direction|
        s < cat.len() && t < cat.len() ==> #[trigger] pair_compatible(cat, s, t, d)
}

/// The cell at `(x, y)` has at least one neighbor on the grid.
pub open spec fn has_neighbor(g: Grid, x: int, y: int) -> bool {
    exists|d: Direction| g.in_bounds_spec(#[trigger] moved_row(x, d), moved_col(y, d))
}

/// Every candidate of `s1` is a candidate of `s2`.
pub open spec fn seq_subset(s1: Seq<usize>, s2: Seq<usize>) -> bool {
    forall|t: usize| #[trigger] s1.contains(t) ==> s2.contains(t)
}

/// An arc stays consistent when its source cell is unchanged and its
/// target cell only lost candidates.
proof fn lemma_arc_preserved(cat: Seq<TileView>, g1: Grid, g2: Grid, x: int, y: int, d: Direction)
    requires
        arc_ok(cat, g1, x, y, d),
        g1.same_shape(g2),
        g2.cell(x, y) == g1.cell(x, y),
        g2.in_bounds_spec(moved_row(x, d), moved_col(y, d)) ==> seq_subset(
            g2.cell(moved_row(x, d), moved_col(y, d)),
            g1.cell(moved_row(x, d), moved_col(y, d)),
        ),
    ensures
        arc_ok(cat, g2, x, y, d),
{
}

/// Two sequences without duplicates, one containing the other and
/// both of the same length, hold the same values.
proof fn lemma_same_len_subset_same_members(s1: Seq<usize>, s2: Seq<usize>)
    requires
        s1.no_duplicates(),
        s2.no_duplicates(),
        seq_subset(s1, s2),
        s1.len() == s2.len(),
    ensures
        forall|t: usize| s1.contains(t) <==> #[trigger] s2.contains(t),
{
    s1.unique_seq_to_set();
    s2.unique_seq_to_set();
    assert forall|t: usize| #[trigger] s2.contains(t) implies s1.contains(t) by {
        if !s1.contains(t) {
            assert(s1.to_set().subset_of(s2.to_set().remove(t)));
            assert(s2.to_set().remove(t).len() == s2.to_set().len() - 1);
            lemma_len_subset(s1.to_set(), s2.to_set().remove(t));
        }
    }
}

/// `true` exactly when `v` holds `t`.
fn vec_contains(v: &Vec<usize>, t: usize) -> (r: bool)
    ensures
        r == v@.contains(t),
{
    let mut j: usize = 0;
    while j < v.len()
        invariant
            j <= v@.len(),
            forall|k: int| 0 <= k < j ==> #[trigger] v@[k] != t,
        decreases v@.len() - j,
    {
        if v[j] == t {
            return true;
        }
        j = j + 1;
    }
    proof {
        if v@.contains(t) {
            let k = choose|k: int| 0 <= k < v@.len() && v@[k] == t;
            assert(v@[k] != t);
        }
    }
    false
}

/// One propagation step across one arc: narrows the neighbor of
/// `(x, y)` in direction `d` to the candidates that some candidate at
/// `(x, y)` accepts. Reports whether the neighbor changed, and a
/// contradiction — applying nothing — when no candidate would remain.
pub fn make_compatible(grid: &mut Grid, cat: &TileCatalog, x: usize, y: usize, d: Direction) -> (r:
    Result<bool, WfcError>)
    requires
        old(grid).wf(),
        cat.wf(),
        old(grid).spec_num_tiles() == cat@.len(),
        old(grid).in_bounds_spec(x as int, y as int),
    ensures
        final(grid).wf(),
        final(grid).same_shape(*old(grid)),
        ({
            let tx = moved_row(x as int, d);
            let ty = moved_col(y as int, d);
            match r {
                Ok(changed) => {
                    &&& (!old(grid).in_bounds_spec(tx, ty) ==> *final(grid) == *old(grid)
                        && changed == false)
                    &&& (old(grid).in_bounds_spec(tx, ty) ==> {
                        &&& forall|t: usize|
                            final(grid).cell(tx, ty).contains(t) <==> (old(grid).cell(
                                tx,
                                ty,
                            ).contains(t) && cell_allows(
                                cat@,
                                old(grid).cell(x as int, y as int),
                                d,
                                t,
                            ))
                        &&& final(grid).cell(tx, ty).len() >= 1
                        &&& final(grid).cell(tx, ty).len() <= old(grid).cell(tx, ty).len()
                        &&& changed == (final(grid).cell(tx, ty).len() != old(grid).cell(
                            tx,
                            ty,
                        ).len())
                        &&& (!changed ==> *final(grid) == *old(grid))
                        &&& forall|a: int, b: int|
                            final(grid).in_bounds_spec(a, b) && !(a == tx && b == ty)
                                ==> final(grid).cell(a, b) == old(grid).cell(a, b)
                        &&& final(grid).weight() + old(grid).cell(tx, ty).len()
                            == old(grid).weight() + final(grid).cell(tx, ty).len()
                        &&& arc_ok(cat@, *final(grid), x as int, y as int, d)
                    })
                },
                Err(e) => {
                    &&& e == WfcError::Contradiction
                    &&& *final(grid) == *old(grid)
                    &&& old(grid).in_bounds_spec(tx, ty)
                    &&& forall|t: usize|
                        old(grid).cell(tx, ty).contains(t) ==> !cell_allows(
                            cat@,
                            old(grid).cell(x as int, y as int),
                            d,
                            t,
                        )
                },
            }
        }),
{
    let ghost tx_s = moved_row(x as int, d);
    let ghost ty_s = moved_col(y as int, d);
    proof {
        grid.lemma_dims_bounds();
    }
    let (tx, ty) = match d.adjust_coordinate(x, y) {
        Some(c) => c,
        None => {
            return Ok(false);
        },
    };
    if !grid.in_bounds(tx, ty) {
        return Ok(false);
    }
    let ghost src_seq = grid.cell(x as int, y as int);
    let ghost tgt_seq = grid.cell(tx as int, ty as int);
    proof {
        assert(grid.cell_ok(x as int, y as int));
        assert(grid.cell_ok(tx as int, ty as int));
    }
    let src = grid.cell_copy(x, y);

    // The sockets that the source cell's candidates present toward d.
    let mut valid: Vec<usize> = Vec::new();
    let mut i: usize = 0;
    while i < src.len()
        invariant
            grid.wf(),
            cat.wf(),
            grid.spec_num_tiles() == cat@.len(),
            src@ == src_seq,
            forall|k: int|
                0 <= k < src_seq.len() ==> #[trigger] src_seq[k] < grid.spec_num_tiles(),
            i <= src@.len(),
            valid@.len() == i,
            forall|k: int|
                0 <= k < i ==> #[trigger] valid@[k] == spec_socket(
                    cat@,
                    src_seq[k] as int,
                    direction_index(d),
                ),
        decreases src@.len() - i,
    {
        let s = match cat.get_socket(src[i], d) {
            Ok(s) => s,
            Err(_) => unreached(),
        };
        valid.push(s);
        i = i + 1;
    }

    let opp = d.get_opposite();
    let target_cell = grid.cell_copy(tx, ty);

    // The neighbor's candidates that some source candidate accepts.
    let mut keep: Vec<usize> = Vec::new();
    let mut k: usize = 0;
    while k < target_cell.len()
        invariant
            grid.wf(),
            cat.wf(),
            grid.spec_num_tiles() == cat@.len(),
            src@ == src_seq,
            target_cell@ == tgt_seq,
            tgt_seq.no_duplicates(),
            forall|j: int|
                0 <= j < tgt_seq.len() ==> #[trigger] tgt_seq[j] < grid.spec_num_tiles(),
            valid@.len() == src_seq.len(),
            forall|j: int|
                0 <= j < src_seq.len() ==> #[trigger] valid@[j] == spec_socket(
                    cat@,
                    src_seq[j] as int,
                    direction_index(d),
                ),
            opp == spec_opposite(d),
            k <= tgt_seq.len(),
            keep@.len() <= k,
            keep@.no_duplicates(),
            forall|t: usize|
                #[trigger] keep@.contains(t) <==> (tgt_seq.subrange(0, k as int).contains(t)
                    && cell_allows(cat@, src_seq, d, t)),
        decreases tgt_seq.len() - k,
    {
        let t = target_cell[k];
        let ts = match cat.get_socket(t, opp) {
            Ok(s) => s,
            Err(_) => unreached(),
        };
        let ghost keep_before = keep@;
        let accept = vec_contains(&valid, ts);
        proof {
            if accept {
                let j = choose|j: int| 0 <= j < valid@.len() && valid@[j] == ts;
                assert(src_seq.contains(src_seq[j]));
                assert(pair_compatible(cat@, src_seq[j], t, d));
                assert(cell_allows(cat@, src_seq, d, t));
            } else {
                if cell_allows(cat@, src_seq, d, t) {
                    let s = choose|s: usize|
                        #[trigger] src_seq.contains(s) && pair_compatible(cat@, s, t, d);
                    let j = choose|j: int| 0 <= j < src_seq.len() && src_seq[j] == s;
                    assert(valid@[j] == ts);
                    assert(valid@.contains(ts));
                }
            }
            // The current candidate is not yet in `keep`: it only
            // holds earlier candidates, and the target has no
            // duplicates.
            if keep_before.contains(t) {
                assert(tgt_seq.subrange(0, k as int).contains(t));
                let j = choose|j: int|
                    0 <= j < k && tgt_seq.subrange(0, k as int)[j] == t;
                assert(tgt_seq[j] == tgt_seq[k as int]);
            }
        }
        if accept {
            keep.push(t);
        }
        proof {
            assert(tgt_seq.subrange(0, k as int + 1) =~= tgt_seq.subrange(0, k as int).push(
                tgt_seq[k as int],
            ));
            assert forall|u: usize| #[trigger] keep@.contains(u) implies (tgt_seq.subrange(
                0,
                k as int + 1,
            ).contains(u) && cell_allows(cat@, src_seq, d, u)) by {
                if keep_before.contains(u) {
                    assert(tgt_seq.subrange(0, k as int).contains(u));
                    let j = choose|j: int|
                        0 <= j < k && tgt_seq.subrange(0, k as int)[j] == u;
                    assert(tgt_seq.subrange(0, k as int + 1)[j] == u);
                } else {
                    assert(u == t);
                    assert(tgt_seq.subrange(0, k as int + 1)[k as int] == t);
                }
            }
            assert forall|u: usize|
                (tgt_seq.subrange(0, k as int + 1).contains(u) && cell_allows(
                    cat@,
                    src_seq,
                    d,
                    u,
                )) implies #[trigger] keep@.contains(u) by {
                let j = choose|j: int|
                    0 <= j < k + 1 && #[trigger] tgt_seq.subrange(0, k as int + 1)[j] == u;
                if j < k {
                    assert(tgt_seq.subrange(0, k as int)[j] == u);
                    assert(keep_before.contains(u));
                    if accept {
                        assert(keep@ == keep_before.push(t));
                        let m = choose|m: int| 0 <= m < keep_before.len() && keep_before[m] == u;
                        assert(keep@[m] == u);
                    }
                } else {
                    assert(u == t);
                    assert(keep@ == keep_before.push(t));
                    assert(keep@[keep@.len() - 1] == t);
                }
            }
        }
        k = k + 1;
    }
    proof {
        assert(tgt_seq.subrange(0, tgt_seq.len() as int) =~= tgt_seq);
    }

    if keep.len() == 0 {
        proof {
            assert forall|t: usize| tgt_seq.contains(t) implies !cell_allows(
                cat@,
                src_seq,
                d,
                t,
            ) by {
                if cell_allows(cat@, src_seq, d, t) {
                    assert(keep@.contains(t));
                }
            }
        }
        return Err(WfcError::Contradiction);
    }
    if keep.len() == target_cell.len() {
        proof {
            assert(seq_subset(keep@, tgt_seq)) by {
                assert forall|t: usize| #[trigger] keep@.contains(t) implies tgt_seq.contains(
                    t,
                ) by {}
            }
            lemma_same_len_subset_same_members(keep@, tgt_seq);
            assert forall|t: usize| #[trigger] grid.cell(tx_s, ty_s).contains(t) implies (
            grid.cell(tx_s, ty_s).contains(t) && cell_allows(cat@, src_seq, d, t)) by {
                assert(keep@.contains(t));
            }
        }
        return Ok(false);
    }
    proof {
        assert forall|j: int| 0 <= j < keep@.len() implies #[trigger] keep@[j]
            < grid.spec_num_tiles() by {
            assert(keep@.contains(keep@[j]));
            let m = choose|m: int| 0 <= m < tgt_seq.len() && tgt_seq[m] == keep@[j];
        }
        // keep is strictly fewer candidates than the target held.
        assert(keep@.len() < tgt_seq.len()) by {
            assert(seq_subset(keep@, tgt_seq)) by {
                assert forall|t: usize| #[trigger] keep@.contains(t) implies tgt_seq.contains(
                    t,
                ) by {}
            }
            if keep@.len() > tgt_seq.len() {
                keep@.unique_seq_to_set();
                tgt_seq.unique_seq_to_set();
                lemma_len_subset(keep@.to_set(), tgt_seq.to_set());
            }
        }
    }
    let ghost keep_seq = keep@;
    grid.set_cell(tx, ty, keep);
    proof {
        assert(grid.cell(tx_s, ty_s) == keep_seq);
        assert forall|t: usize| #[trigger] grid.cell(tx_s, ty_s).contains(t) implies (
        tgt_seq.contains(t) && cell_allows(cat@, src_seq, d, t)) by {}
        assert(arc_ok(cat@, *grid, x as int, y as int, d)) by {
            assert(grid.cell(x as int, y as int) == src_seq);
        }
    }
    Ok(true)
}

/// Some entry of `q` at position `head` or later names the cell
/// `(a, b)`.
pub open spec fn queue_pending(q: Seq<(usize, usize)>, head: int, a: int, b: int) -> bool {
    exists|i: int| head <= i < q.len() && (#[trigger] q[i]).0 == a && q[i].1 == b
}

/// Fixpoint constraint propagation seeded at `(sx, sy)`: narrows
/// neighbors breadth-first until every arc reachable from a change is
/// consistent, or reports the contradiction that narrowing ran into,
/// leaving removals applied up to that point in place.
pub fn propagate(grid: &mut Grid, cat: &TileCatalog, sx: usize, sy: usize) -> (r: Result<
    (),
    WfcError,
>)
    requires
        old(grid).wf(),
        cat.wf(),
        old(grid).spec_num_tiles() == cat@.len(),
        old(grid).in_bounds_spec(sx as int, sy as int),
    ensures
        final(grid).wf(),
        final(grid).same_shape(*old(grid)),
        final(grid).weight() <= old(grid).weight(),
        forall|a: int, b: int|
            old(grid).in_bounds_spec(a, b) ==> seq_subset(
                #[trigger] final(grid).cell(a, b),
                old(grid).cell(a, b),
            ),
        forall|a: int, b: int|
            old(grid).in_bounds_spec(a, b) ==> #[trigger] final(grid).cell(a, b).len() <= old(
                grid,
            ).cell(a, b).len(),
        forall|a: int, b: int|
            old(grid).in_bounds_spec(a, b) ==> (#[trigger] final(grid).cell(a, b) == old(
                grid,
            ).cell(a, b) || final(grid).cell(a, b).len() >= 1),
        (r is Ok ==> forall|a: int, b: int, d: Direction|
            old(grid).in_bounds_spec(a, b) ==> ((arc_ok(cat@, *old(grid), a, b, d) || (a == sx
                && b == sy) || final(grid).cell(a, b) != old(grid).cell(a, b))
                ==> #[trigger] arc_ok(cat@, *final(grid), a, b, d))),
        ((no_compatible_pair(cat@) && has_neighbor(*old(grid), sx as int, sy as int)) ==> r
            is Err),
        (r is Err ==> r == Err::<(), WfcError>(WfcError::Contradiction)),
        ((arc_consistent(cat@, *old(grid)) && (forall|a: int, b: int|
            old(grid).in_bounds_spec(a, b) ==> (#[trigger] old(grid).cell(a, b)).len() >= 1))
            ==> (r is Ok && *final(grid) == *old(grid))),
{
    let ghost g0 = *old(grid);
    let mut queue: Vec<(usize, usize)> = Vec::new();
    queue.push((sx, sy));
    let mut head: usize = 0;
    proof {
        assert(queue@[0] == ((sx, sy)));
        assert(queue_pending(queue@, 0, sx as int, sy as int));
    }
    while head < queue.len()
        invariant
            g0 == *old(grid),
            grid.wf(),
            cat.wf(),
            grid.spec_num_tiles() == cat@.len(),
            grid.same_shape(g0),
            g0.wf(),
            g0.in_bounds_spec(sx as int, sy as int),
            head <= queue@.len(),
            grid.weight() <= g0.weight(),
            forall|i: int|
                0 <= i < queue@.len() ==> g0.in_bounds_spec(
                    (#[trigger] queue@[i]).0 as int,
                    queue@[i].1 as int,
                ),
            forall|a: int, b: int|
                g0.in_bounds_spec(a, b) ==> seq_subset(#[trigger] grid.cell(a, b), g0.cell(a, b)),
            forall|a: int, b: int|
                g0.in_bounds_spec(a, b) ==> (#[trigger] grid.cell(a, b) == g0.cell(a, b)
                    || grid.cell(a, b).len() < g0.cell(a, b).len()),
            forall|a: int, b: int|
                g0.in_bounds_spec(a, b) ==> (#[trigger] grid.cell(a, b) == g0.cell(a, b)
                    || grid.cell(a, b).len() >= 1),
            forall|a: int, b: int, d: Direction|
                g0.in_bounds_spec(a, b) ==> ((arc_ok(cat@, g0, a, b, d) || (a == sx && b == sy)
                    || grid.cell(a, b) != g0.cell(a, b)) ==> (#[trigger] arc_ok(
                    cat@,
                    *grid,
                    a,
                    b,
                    d,
                ) || queue_pending(queue@, head as int, a, b))),
            ((no_compatible_pair(cat@) && has_neighbor(g0, sx as int, sy as int)) ==> (head == 0
                && queue@.len() == 1 && queue@[0] == (sx, sy))),
            ((arc_consistent(cat@, g0) && (forall|a: int, b: int|
                g0.in_bounds_spec(a, b) ==> (#[trigger] g0.cell(a, b)).len() >= 1)) ==> *grid
                == g0),
        decreases 2 * grid.weight() + queue@.len() - head,
    {
        let cur = queue[head];
        head = head + 1;
        let cx = cur.0;
        let cy = cur.1;
        let ghost g_iter = *grid;
        let ghost q_iter = queue@;
        let ghost head_now = head as int;
        let mut di: usize = 0;
        while di < 4
            invariant
                g0 == *old(grid),
                grid.wf(),
                cat.wf(),
                grid.spec_num_tiles() == cat@.len(),
                grid.same_shape(g0),
                g0.wf(),
                g0.in_bounds_spec(sx as int, sy as int),
                g0.in_bounds_spec(cx as int, cy as int),
                di <= 4,
                head <= queue@.len(),
                2 * grid.weight() + queue@.len() <= 2 * g_iter.weight() + q_iter.len(),
                grid.weight() <= g0.weight(),
                forall|i: int|
                    0 <= i < queue@.len() ==> g0.in_bounds_spec(
                        (#[trigger] queue@[i]).0 as int,
                        queue@[i].1 as int,
                    ),
                forall|a: int, b: int|
                    g0.in_bounds_spec(a, b) ==> seq_subset(
                        #[trigger] grid.cell(a, b),
                        g0.cell(a, b),
                    ),
                forall|a: int, b: int|
                    g0.in_bounds_spec(a, b) ==> (#[trigger] grid.cell(a, b) == g0.cell(a, b)
                        || grid.cell(a, b).len() < g0.cell(a, b).len()),
                forall|a: int, b: int|
                    g0.in_bounds_spec(a, b) ==> (#[trigger] grid.cell(a, b) == g0.cell(a, b)
                        || grid.cell(a, b).len() >= 1),
                grid.cell(cx as int, cy as int) == g_iter.cell(cx as int, cy as int),
                forall|j: int|
                    0 <= j < di ==> arc_ok(
                        cat@,
                        *grid,
                        cx as int,
                        cy as int,
                        #[trigger] direction_from_index(j),
                    ),
                forall|a: int, b: int, d: Direction|
                    g0.in_bounds_spec(a, b) ==> ((arc_ok(cat@, g0, a, b, d) || (a == sx && b
                        == sy) || grid.cell(a, b) != g0.cell(a, b)) ==> (#[trigger] arc_ok(
                        cat@,
                        *grid,
                        a,
                        b,
                        d,
                    ) || queue_pending(queue@, head as int, a, b) || (a == cx && b == cy
                        && direction_index(d) >= di))),
                ((no_compatible_pair(cat@) && has_neighbor(g0, sx as int, sy as int)) ==> (head
                    == 1 && queue@.len() == 1 && cx == sx && cy == sy && *grid == g_iter
                    && forall|j: int|
                    0 <= j < di ==> !g0.in_bounds_spec(
                        moved_row(sx as int, #[trigger] direction_from_index(j)),
                        moved_col(sy as int, direction_from_index(j)),
                    ))),
                ((arc_consistent(cat@, g0) && (forall|a: int, b: int|
                    g0.in_bounds_spec(a, b) ==> (#[trigger] g0.cell(a, b)).len() >= 1)) ==> *grid
                    == g0),
            decreases 4 - di,
        {
            let dir = Direction::from_num(di);
            let ghost g_prev = *grid;
            let ghost q_prev = queue@;
            let ghost txs = moved_row(cx as int, dir);
            let ghost tys = moved_col(cy as int, dir);
            let changed = match make_compatible(grid, cat, cx, cy, dir) {
                Ok(c) => c,
                Err(e) => {
                    proof {
                        // A consistent grid of non-empty cells never
                        // runs a cell empty.
                        if arc_consistent(cat@, g0) && (forall|a: int, b: int|
                            g0.in_bounds_spec(a, b) ==> (#[trigger] g0.cell(a, b)).len() >= 1) {
                            assert(g0.in_bounds_spec(txs, tys));
                            let t0 = g0.cell(txs, tys)[0];
                            assert(g0.cell(txs, tys).len() >= 1);
                            assert(g0.cell(txs, tys).contains(t0));
                            assert(arc_ok(cat@, g0, cx as int, cy as int, dir));
                            assert(cell_allows(cat@, g0.cell(cx as int, cy as int), dir, t0));
                            assert(false);
                        }
                    }
                    return Err(e);
                },
            };
            proof {
                // The step never rewrites its own source cell.
                assert(!(txs == cx as int && tys == cy as int));
                // On a consistent grid of non-empty cells the arc was
                // already consistent, so nothing was narrowed.
                if arc_consistent(cat@, g0) && (forall|a: int, b: int|
                    g0.in_bounds_spec(a, b) ==> (#[trigger] g0.cell(a, b)).len() >= 1) {
                    if g_prev.in_bounds_spec(txs, tys) {
                        assert(arc_ok(cat@, g0, cx as int, cy as int, dir));
                        assert(seq_subset(g_prev.cell(txs, tys), grid.cell(txs, tys))) by {
                            assert forall|t: usize|
                                #[trigger] g_prev.cell(txs, tys).contains(t) implies grid.cell(
                                txs,
                                tys,
                            ).contains(t) by {
                                assert(cell_allows(
                                    cat@,
                                    g_prev.cell(cx as int, cy as int),
                                    dir,
                                    t,
                                ));
                            }
                        }
                        assert(grid.cell(txs, tys).len() >= g_prev.cell(txs, tys).len()) by {
                            assert(g0.cell_ok(txs, tys));
                            assert(grid.cell_ok(txs, tys));
                            g_prev.cell(txs, tys).unique_seq_to_set();
                            grid.cell(txs, tys).unique_seq_to_set();
                            lemma_len_subset(
                                g_prev.cell(txs, tys).to_set(),
                                grid.cell(txs, tys).to_set(),
                            );
                        }
                        assert(!changed);
                        assert(*grid == g_prev);
                    }
                }
                // One step only ever narrows cells.
                assert forall|p: int, q: int|
                    g0.in_bounds_spec(p, q) implies seq_subset(
                    #[trigger] grid.cell(p, q),
                    g_prev.cell(p, q),
                ) by {
                    if g_prev.in_bounds_spec(txs, tys) && p == txs && q == tys {
                        assert forall|t: usize|
                            #[trigger] grid.cell(p, q).contains(t) implies g_prev.cell(
                            p,
                            q,
                        ).contains(t) by {}
                    } else {
                        assert(grid.cell(p, q) == g_prev.cell(p, q));
                    }
                }
            }
            if changed {
                proof {
                    grid.lemma_dims_bounds();
                }
                let target = match dir.adjust_coordinate(cx, cy) {
                    Some(c) => c,
                    None => unreached(),
                };
                queue.push(target);
            }
            proof {
                let gq = queue@;
                // Pending entries survive a push.
                assert forall|a: int, b: int|
                    queue_pending(q_prev, head as int, a, b) implies queue_pending(
                    gq,
                    head as int,
                    a,
                    b,
                ) by {
                    let i = choose|i: int|
                        head <= i < q_prev.len() && (#[trigger] q_prev[i]).0 == a && q_prev[i].1
                            == b;
                    assert(gq[i] == q_prev[i]);
                }
                // Arcs already made consistent out of `cur` survive:
                // their source and their targets are untouched.
                assert forall|j: int|
                    0 <= j < di + 1 implies arc_ok(
                    cat@,
                    *grid,
                    cx as int,
                    cy as int,
                    #[trigger] direction_from_index(j),
                ) by {
                    let dj = direction_from_index(j);
                    if j < di {
                        lemma_arc_preserved(cat@, g_prev, *grid, cx as int, cy as int, dj);
                    } else {
                        assert(dj == dir);
                        if !g_prev.in_bounds_spec(txs, tys) {
                            assert(arc_ok(cat@, *grid, cx as int, cy as int, dir));
                        }
                    }
                }
                // The whole-grid obligation: every arc is consistent,
                // or its source cell is still queued, or its source
                // is `cur` with a direction not yet processed.
                assert forall|a: int, b: int, d: Direction|
                    g0.in_bounds_spec(a, b) && ((arc_ok(cat@, g0, a, b, d) || (a == sx && b
                        == sy) || grid.cell(a, b) != g0.cell(a, b))) implies (#[trigger] arc_ok(
                    cat@,
                    *grid,
                    a,
                    b,
                    d,
                ) || queue_pending(gq, head as int, a, b) || (a == cx && b == cy
                    && direction_index(d) >= di + 1)) by {
                    lemma_direction_index_roundtrip(d);
                    if a == txs && b == tys && changed {
                        assert(gq[gq.len() - 1] == (((txs as usize), (tys as usize))));
                        assert(queue_pending(gq, head as int, a, b));
                    } else {
                        assert(grid.cell(a, b) == g_prev.cell(a, b));
                        if arc_ok(cat@, g0, a, b, d) || (a == sx && b == sy) || g_prev.cell(a, b)
                            != g0.cell(a, b) {
                            if arc_ok(cat@, g_prev, a, b, d) {
                                lemma_arc_preserved(cat@, g_prev, *grid, a, b, d);
                            } else if queue_pending(q_prev, head as int, a, b) {
                            } else {
                                assert(a == cx && b == cy && direction_index(d) >= di);
                                if direction_index(d) == di {
                                    assert(d == dir);
                                    assert(arc_ok(cat@, *grid, a, b, d));
                                }
                            }
                        }
                    }
                }
                // Under an all-incompatible catalog nothing has
                // happened yet: this direction's neighbor was
                // off-grid, or the call above would have failed.
                if no_compatible_pair(cat@) && has_neighbor(g0, sx as int, sy as int) {
                    if g_prev.in_bounds_spec(txs, tys) {
                        // The neighbor kept a candidate, yet no pair
                        // of tiles fits together: impossible.
                        let t0 = grid.cell(txs, tys)[0];
                        assert(grid.cell(txs, tys).len() >= 1);
                        assert(grid.cell(txs, tys).contains(t0));
                        assert(g_prev.cell(txs, tys).contains(t0) && cell_allows(
                            cat@,
                            g_prev.cell(cx as int, cy as int),
                            dir,
                            t0,
                        ));
                        let s = choose|s: usize|
                            #[trigger] g_prev.cell(cx as int, cy as int).contains(s)
                                && pair_compatible(cat@, s, t0, dir);
                        assert(g_prev.cell_ok(cx as int, cy as int));
                        assert(g_prev.cell_ok(txs, tys));
                        let ks = choose|k: int|
                            0 <= k < g_prev.cell(cx as int, cy as int).len() && g_prev.cell(
                                cx as int,
                                cy as int,
                            )[k] == s;
                        let kt = choose|k: int|
                            0 <= k < g_prev.cell(txs, tys).len() && g_prev.cell(txs, tys)[k]
                                == t0;
                        assert(s < cat@.len() && t0 < cat@.len());
                        assert(false);
                    } else {
                        assert(*grid == g_prev);
                        assert(!g0.in_bounds_spec(
                            moved_row(sx as int, direction_from_index(di as int)),
                            moved_col(sy as int, direction_from_index(di as int)),
                        ));
                    }
                }
            }
            di = di + 1;
        }
        proof {
            // All four arcs out of `cur` now hold, so `cur` may leave
            // the queue.
            assert forall|a: int, b: int, d: Direction|
                g0.in_bounds_spec(a, b) && ((arc_ok(cat@, g0, a, b, d) || (a == sx && b == sy)
                    || grid.cell(a, b) != g0.cell(a, b))) implies (#[trigger] arc_ok(
                cat@,
                *grid,
                a,
                b,
                d,
            ) || queue_pending(queue@, head as int, a, b)) by {
                lemma_direction_index_roundtrip(d);
            }
            // Under an all-incompatible catalog the seed would have
            // had no on-grid neighbor at all.
            if no_compatible_pair(cat@) && has_neighbor(g0, sx as int, sy as int) {
                let d = choose|d: Direction|
                    g0.in_bounds_spec(#[trigger] moved_row(sx as int, d), moved_col(sy as int, d));
                lemma_direction_index_roundtrip(d);
                assert(false);
            }
        }
    }
    Ok(())
}

/// An in-bounds cell of a grid with at least two cells in some
/// dimension has an on-grid neighbor.
proof fn lemma_has_neighbor(g: Grid, x: int, y: int)
    requires
        g.in_bounds_spec(x, y),
        g.spec_height() >= 2 || g.spec_width() >= 2,
    ensures
        has_neighbor(g, x, y),
{
    if g.spec_height() >= 2 {
        if x + 1 < g.spec_height() {
            assert(g.in_bounds_spec(
                moved_row(x, Direction::Down),
                moved_col(y, Direction::Down),
            ));
        } else {
            assert(g.in_bounds_spec(moved_row(x, Direction::Up), moved_col(y, Direction::Up)));
        }
    } else {
        if y + 1 < g.spec_width() {
            assert(g.in_bounds_spec(
                moved_row(x, Direction::Right),
                moved_col(y, Direction::Right),
            ));
        } else {
            assert(g.in_bounds_spec(
                moved_row(x, Direction::Left),
                moved_col(y, Direction::Left),
            ));
        }
    }
}

/// Every cell whose entropy equals `m`, as a list of coordinates.
fn collect_ties(grid: &Grid, m: usize) -> (r: Vec<(usize, usize)>)
    requires
        grid.wf(),
    ensures
        forall|i: int|
            0 <= i < r@.len() ==> grid.in_bounds_spec(
                (#[trigger] r@[i]).0 as int,
                r@[i].1 as int,
            ) && grid.cell(r@[i].0 as int, r@[i].1 as int).len() == m,
        forall|a: usize, b: usize|
            grid.in_bounds_spec(a as int, b as int) && grid.cell(a as int, b as int).len() == m
                ==> #[trigger] r@.contains((a, b)),
{
    let mut r: Vec<(usize, usize)> = Vec::new();
    let height = grid.height();
    let width = grid.width();
    let mut x: usize = 0;
    while x < height
        invariant
            grid.wf(),
            height == grid.spec_height(),
            width == grid.spec_width(),
            x <= height,
            forall|i: int|
                0 <= i < r@.len() ==> grid.in_bounds_spec(
                    (#[trigger] r@[i]).0 as int,
                    r@[i].1 as int,
                ) && grid.cell(r@[i].0 as int, r@[i].1 as int).len() == m,
            forall|a: usize, b: usize|
                a < x && b < width && grid.cell(a as int, b as int).len() == m
                    ==> #[trigger] r@.contains((a, b)),
        decreases height - x,
    {
        let mut y: usize = 0;
        while y < width
            invariant
                grid.wf(),
                height == grid.spec_height(),
                width == grid.spec_width(),
                x < height,
                y <= width,
                forall|i: int|
                    0 <= i < r@.len() ==> grid.in_bounds_spec(
                        (#[trigger] r@[i]).0 as int,
                        r@[i].1 as int,
                    ) && grid.cell(r@[i].0 as int, r@[i].1 as int).len() == m,
                forall|a: usize, b: usize|
                    a < x && b < width && grid.cell(a as int, b as int).len() == m
                        ==> #[trigger] r@.contains((a, b)),
                forall|b: usize|
                    b < y && grid.cell(x as int, b as int).len() == m ==> #[trigger] r@.contains(
                        (x, b),
                    ),
            decreases width - y,
        {
            let ghost r_prev = r@;
            if grid.entropy_at(x, y) == m {
                r.push((x, y));
            }
            proof {
                assert forall|a: usize, b: usize|
                    a < x && b < width && grid.cell(a as int, b as int).len()
                        == m implies #[trigger] r@.contains((a, b)) by {
                    assert(r_prev.contains((a, b)));
                    let i = choose|i: int| 0 <= i < r_prev.len() && r_prev[i] == ((a, b));
                    assert(r@[i] == ((a, b)));
                }
                assert forall|b: usize|
                    b < y + 1 && grid.cell(x as int, b as int).len()
                        == m implies #[trigger] r@.contains((x, b)) by {
                    if b < y {
                        assert(r_prev.contains((x, b)));
                        let i = choose|i: int| 0 <= i < r_prev.len() && r_prev[i] == ((x, b));
                        assert(r@[i] == ((x, b)));
                    } else {
                        assert(r@[r@.len() - 1] == ((x, y)));
                    }
                }
            }
            y = y + 1;
        }
        x = x + 1;
    }
    r
}

/// The overall condition of a run.
#[derive(Clone, Copy, Debug, PartialEq, Eq, Structural)]
pub enum SolverState {
    /// Some cell still has more than one candidate.
    Running,
    /// Every cell is collapsed.
    Solved,
    /// A cell's candidate set would have become empty.
    Contradiction,
}

/// The constraint-propagation solver: a grid of candidate sets, the
/// catalog the compatibility rule is read from, and a seedable
/// generator for the two draws of each iteration — one to pick among
/// tied minimal-entropy cells, one to pick the collapsed tile.
pub struct Solver {
    grid: Grid,
    catalog: TileCatalog,
    state: SolverState,
    rng: rand::rngs::StdRng,
}

impl Solver {
    pub closed spec fn spec_grid(self) -> Grid {
        self.grid
    }

    pub closed spec fn spec_catalog(self) -> TileCatalog {
        self.catalog
    }

    pub closed spec fn spec_state(self) -> SolverState {
        self.state
    }

    /// The solver's invariant: a well-formed grid over the catalog's
    /// tile ids; no cell is ever left empty while the catalog has
    /// tiles, and a solved grid is one of collapsed cells.
    pub open spec fn inv(self) -> bool {
        &&& self.spec_grid().wf()
        &&& self.spec_catalog().wf()
        &&& self.spec_grid().spec_num_tiles() == self.spec_catalog()@.len()
        &&& (self.spec_catalog()@.len() > 0 ==> forall|a: int, b: int|
            self.spec_grid().in_bounds_spec(a, b) ==> (#[trigger] self.spec_grid().cell(
                a,
                b,
            )).len() >= 1)
        &&& (self.spec_state() == SolverState::Solved ==> forall|a: int, b: int|
            self.spec_grid().in_bounds_spec(a, b) ==> (#[trigger] self.spec_grid().cell(
                a,
                b,
            )).len() <= 1)
    }

    /// A fresh run: every cell of a `width` by `height` grid starts
    /// with the catalog's full id range, and the draws are a function
    /// of `seed`.
    pub fn new(catalog: TileCatalog, width: usize, height: usize, seed: u64) -> (s: Solver)
        requires
            catalog.wf(),
        ensures
            s.inv(),
            s.spec_state() == SolverState::Running,
            s.spec_catalog() == catalog,
            s.spec_grid().spec_width() == width,
            s.spec_grid().spec_height() == height,
            s.spec_grid().spec_num_tiles() == catalog@.len(),
            forall|a: int, b: int|
                s.spec_grid().in_bounds_spec(a, b) ==> #[trigger] s.spec_grid().cell(a, b)
                    == crate::grid::full_domain(catalog@.len() as int),
    {
        let n = catalog.size();
        let grid = Grid::new(width, height, n);
        let rng = rng_from_seed(seed);
        Solver { grid, catalog, state: SolverState::Running, rng }
    }

    /// The grid as the run has left it so far.
    pub fn grid(&self) -> (g: &Grid)
        ensures
            *g == self.spec_grid(),
    {
        &self.grid
    }

    /// The state the run is in.
    pub fn state(&self) -> (st: SolverState)
        ensures
            st == self.spec_state(),
    {
        self.state
    }

    /// One iteration of the main loop: transition to `Solved` when no
    /// cell has entropy above 1; otherwise collapse the first minimal
    /// cell drawn among the tied ones and propagate from it,
    /// transitioning to `Contradiction` when propagation runs a cell
    /// empty. A no-op unless the run is `Running`.
    pub fn step(&mut self)
        requires
            old(self).inv(),
        ensures
            final(self).inv(),
            final(self).spec_catalog() == old(self).spec_catalog(),
            final(self).spec_grid().same_shape(old(self).spec_grid()),
            forall|a: int, b: int|
                old(self).spec_grid().in_bounds_spec(a, b) ==> seq_subset(
                    #[trigger] final(self).spec_grid().cell(a, b),
                    old(self).spec_grid().cell(a, b),
                ),
            forall|a: int, b: int|
                old(self).spec_grid().in_bounds_spec(a, b)
                    ==> (#[trigger] final(self).spec_grid().cell(a, b)).len()
                    <= old(self).spec_grid().cell(a, b).len(),
            old(self).spec_state() != SolverState::Running ==> *final(self) == *old(self),
            old(self).spec_state() == SolverState::Running ==> {
                &&& ((forall|a: int, b: int|
                    old(self).spec_grid().in_bounds_spec(a, b)
                        ==> (#[trigger] old(self).spec_grid().cell(a, b)).len() <= 1)
                    ==> (final(self).spec_state() == SolverState::Solved && forall|a: int, b: int|
                    old(self).spec_grid().in_bounds_spec(a, b)
                        ==> #[trigger] final(self).spec_grid().cell(a, b)
                        == old(self).spec_grid().cell(a, b)))
                &&& (final(self).spec_state() == SolverState::Running
                    ==> final(self).spec_grid().weight() < old(self).spec_grid().weight())
                &&& ((arc_consistent(old(self).spec_catalog()@, old(self).spec_grid())
                    && final(self).spec_state() != SolverState::Contradiction) ==> arc_consistent(
                    old(self).spec_catalog()@,
                    final(self).spec_grid(),
                ))
                &&& ((no_compatible_pair(old(self).spec_catalog()@)
                    && old(self).spec_grid().spec_height() >= 1
                    && old(self).spec_grid().spec_width() >= 1 && (
                old(self).spec_grid().spec_height() >= 2 || old(self).spec_grid().spec_width()
                    >= 2) && (forall|a: int, b: int|
                    old(self).spec_grid().in_bounds_spec(a, b)
                        ==> (#[trigger] old(self).spec_grid().cell(a, b)).len() >= 2))
                    ==> final(self).spec_state() == SolverState::Contradiction)
                &&& ((all_pairs_compatible(old(self).spec_catalog()@)
                    && old(self).spec_catalog()@.len() > 0) ==> final(self).spec_state()
                    != SolverState::Contradiction)
            },
    {
        match self.state {
            SolverState::Running => {},
            _ => {
                return ;
            },
        }
        let ghost g_start = self.grid;
        let ghost cat_seq = self.catalog@;
        match self.grid.min_entropy_uncollapsed_cell() {
            None => {
                proof {
                    // A grid with cells has a first cell, and it is
                    // collapsed like all the others.
                    if g_start.spec_height() >= 1 && g_start.spec_width() >= 1 {
                        assert(g_start.in_bounds_spec(0, 0));
                        assert(g_start.cell(0, 0).len() <= 1);
                    }
                }
                self.state = SolverState::Solved;
            },
            Some(c) => {
                let mx = c.0;
                let my = c.1;
                let m = self.grid.entropy_at(mx, my);
                let ties = collect_ties(&self.grid, m);
                proof {
                    assert(ties@.contains((mx, my)));
                    assert(ties@.len() >= 1) by {
                        let i = choose|i: int| 0 <= i < ties@.len() && ties@[i] == ((mx, my));
                    }
                }
                let k = gen_index(&mut self.rng, ties.len());
                let chosen = ties[k];
                let cx = chosen.0;
                let cy = chosen.1;
                match self.grid.collapse(cx, cy, &mut self.rng) {
                    Ok(_) => {},
                    Err(_) => {
                        unreached()
                    },
                }
                let ghost g_mid = self.grid;
                proof {
                    // The collapsed cell kept one of its candidates,
                    // so every cell still only shrank.
                    assert(g_mid.cell(cx as int, cy as int).len() == 1);
                    assert forall|a: int, b: int|
                        g_start.in_bounds_spec(a, b) implies seq_subset(
                        #[trigger] g_mid.cell(a, b),
                        g_start.cell(a, b),
                    ) by {
                        if a == cx && b == cy {
                            assert forall|t: usize|
                                #[trigger] g_mid.cell(a, b).contains(t) implies g_start.cell(
                                a,
                                b,
                            ).contains(t) by {
                                let i = choose|i: int|
                                    0 <= i < g_mid.cell(a, b).len() && g_mid.cell(a, b)[i] == t;
                                assert(i == 0);
                            }
                        } else {
                            assert(g_mid.cell(a, b) == g_start.cell(a, b));
                        }
                    }
                    // The catalog cannot be empty here: the selected
                    // cell holds at least two valid tile ids.
                    assert(g_start.cell(mx as int, my as int).len() >= 2);
                    assert(g_start.cell_ok(mx as int, my as int));
                    assert(g_start.cell(mx as int, my as int)[0] < g_start.spec_num_tiles());
                    // Arcs not out of the collapsed cell survive the
                    // collapse.
                    assert forall|a: int, b: int, d: Direction|
                        g_start.in_bounds_spec(a, b) && arc_consistent(cat_seq, g_start) && !(a
                            == cx && b == cy) implies arc_ok(cat_seq, g_mid, a, b, d) by {
                        assert(arc_ok(cat_seq, g_start, a, b, d));
                        lemma_arc_preserved(cat_seq, g_start, g_mid, a, b, d);
                    }
                }
                proof {
                    // When every pair of tiles fits together, the
                    // grid after the collapse is consistent with
                    // nothing to narrow, so propagation cannot fail.
                    if all_pairs_compatible(cat_seq) && cat_seq.len() > 0 {
                        assert forall|a: int, b: int|
                            g_mid.in_bounds_spec(a, b) implies (#[trigger] g_mid.cell(
                            a,
                            b,
                        )).len() >= 1 by {
                            if !(a == cx && b == cy) {
                                assert(g_mid.cell(a, b) == g_start.cell(a, b));
                                assert(g_start.cell(a, b).len() >= 1);
                            }
                        }
                        assert forall|a: int, b: int, d: Direction|
                            g_mid.in_bounds_spec(a, b) implies #[trigger] arc_ok(
                            cat_seq,
                            g_mid,
                            a,
                            b,
                            d,
                        ) by {
                            let tx = moved_row(a, d);
                            let ty = moved_col(b, d);
                            if g_mid.in_bounds_spec(tx, ty) {
                                assert forall|t: usize|
                                    #[trigger] g_mid.cell(tx, ty).contains(t) implies cell_allows(
                                    cat_seq,
                                    g_mid.cell(a, b),
                                    d,
                                    t,
                                ) by {
                                    assert(g_mid.cell_ok(a, b));
                                    assert(g_mid.cell_ok(tx, ty));
                                    let s = g_mid.cell(a, b)[0];
                                    assert(g_mid.cell(a, b).contains(s));
                                    let kt = choose|k: int|
                                        0 <= k < g_mid.cell(tx, ty).len() && g_mid.cell(
                                            tx,
                                            ty,
                                        )[k] == t;
                                    assert(s < cat_seq.len() && t < cat_seq.len());
                                    assert(pair_compatible(cat_seq, s, t, d));
                                }
                            }
                        }
                    }
                }
                match propagate(&mut self.grid, &self.catalog, cx, cy) {
                    Ok(_) => {
                        proof {
                            if arc_consistent(cat_seq, g_start) {
                                assert forall|a: int, b: int, d: Direction|
                                    self.grid.in_bounds_spec(a, b) implies #[trigger] arc_ok(
                                    cat_seq,
                                    self.grid,
                                    a,
                                    b,
                                    d,
                                ) by {
                                    if !(a == cx && b == cy) {
                                        assert(arc_ok(cat_seq, g_mid, a, b, d));
                                    }
                                }
                            }
                        }
                    },
                    Err(_) => {
                        proof {
                            if all_pairs_compatible(cat_seq) && cat_seq.len() > 0 {
                                assert(false);
                            }
                        }
                        self.state = SolverState::Contradiction;
                    },
                }
                proof {
                    if no_compatible_pair(cat_seq) && g_start.spec_height() >= 1
                        && g_start.spec_width() >= 1 && (g_start.spec_height() >= 2
                        || g_start.spec_width() >= 2) {
                        lemma_has_neighbor(g_mid, cx as int, cy as int);
                    }
                    // Each cell has shrunk at most, and none was run
                    // empty while the catalog has tiles.
                    assert forall|a: int, b: int|
                        g_start.in_bounds_spec(a, b) implies seq_subset(
                        #[trigger] self.grid.cell(a, b),
                        g_start.cell(a, b),
                    ) by {
                        assert(seq_subset(self.grid.cell(a, b), g_mid.cell(a, b)));
                        assert(seq_subset(g_mid.cell(a, b), g_start.cell(a, b)));
                    }
                    assert forall|a: int, b: int|
                        g_start.in_bounds_spec(a, b) implies (#[trigger] self.grid.cell(
                        a,
                        b,
                    )).len() <= g_start.cell(a, b).len() by {
                        assert(self.grid.cell(a, b).len() <= g_mid.cell(a, b).len());
                        if !(a == cx && b == cy) {
                            assert(g_mid.cell(a, b) == g_start.cell(a, b));
                        }
                    }
                    if cat_seq.len() > 0 {
                        assert forall|a: int, b: int|
                            self.grid.in_bounds_spec(a, b) implies (#[trigger] self.grid.cell(
                            a,
                            b,
                        )).len() >= 1 by {
                            if self.grid.cell(a, b) == g_mid.cell(a, b) {
                                if a == cx && b == cy {
                                } else {
                                    assert(g_mid.cell(a, b) == g_start.cell(a, b));
                                    assert(g_start.cell(a, b).len() >= 1);
                                }
                            }
                        }
                    }
                }
            },
        }
    }

    /// The main loop: steps until the run is `Solved` (no cell has
    /// entropy above 1) or a `Contradiction` aborted it. Candidates
    /// are only ever removed, so every cell's entropy is monotonically
    /// non-increasing over the run; on an already-collapsed grid the
    /// run is `Solved` at once with nothing touched; and a run that
    /// began on an arc-consistent grid ends `Solved` only on an
    /// arc-consistent grid.
    pub fn run(&mut self) -> (r: SolverState)
        requires
            old(self).inv(),
        ensures
            final(self).inv(),
            r == final(self).spec_state(),
            r != SolverState::Running,
            final(self).spec_catalog() == old(self).spec_catalog(),
            final(self).spec_grid().same_shape(old(self).spec_grid()),
            forall|a: int, b: int|
                old(self).spec_grid().in_bounds_spec(a, b) ==> seq_subset(
                    #[trigger] final(self).spec_grid().cell(a, b),
                    old(self).spec_grid().cell(a, b),
                ),
            forall|a: int, b: int|
                old(self).spec_grid().in_bounds_spec(a, b)
                    ==> (#[trigger] final(self).spec_grid().cell(a, b)).len()
                    <= old(self).spec_grid().cell(a, b).len(),
            r == SolverState::Solved ==> forall|a: int, b: int|
                final(self).spec_grid().in_bounds_spec(a, b)
                    ==> ((#[trigger] final(self).spec_grid().cell(a, b)).len() <= 1 && (old(
                    self,
                ).spec_catalog()@.len() > 0 ==> final(self).spec_grid().cell(a, b).len() == 1)),
            ((arc_consistent(old(self).spec_catalog()@, old(self).spec_grid()) && r
                == SolverState::Solved) ==> arc_consistent(
                old(self).spec_catalog()@,
                final(self).spec_grid(),
            )),
            ((old(self).spec_state() == SolverState::Running && forall|a: int, b: int|
                old(self).spec_grid().in_bounds_spec(a, b)
                    ==> (#[trigger] old(self).spec_grid().cell(a, b)).len() <= 1) ==> (r
                == SolverState::Solved && forall|a: int, b: int|
                old(self).spec_grid().in_bounds_spec(a, b)
                    ==> #[trigger] final(self).spec_grid().cell(a, b) == old(
                    self,
                ).spec_grid().cell(a, b))),
            ((old(self).spec_state() == SolverState::Running && no_compatible_pair(
                old(self).spec_catalog()@,
            ) && old(self).spec_grid().spec_height() >= 1 && old(self).spec_grid().spec_width()
                >= 1 && (old(self).spec_grid().spec_height() >= 2 || old(
                self,
            ).spec_grid().spec_width() >= 2) && (forall|a: int, b: int|
                old(self).spec_grid().in_bounds_spec(a, b)
                    ==> (#[trigger] old(self).spec_grid().cell(a, b)).len() >= 2)) ==> r
                == SolverState::Contradiction),
            ((old(self).spec_state() == SolverState::Running && all_pairs_compatible(
                old(self).spec_catalog()@,
            ) && old(self).spec_catalog()@.len() > 0) ==> r == SolverState::Solved),
    {
        let ghost g_begin = old(self).spec_grid();
        let ghost cat_seq = old(self).spec_catalog()@;
        let mut st = self.state();
        while st == SolverState::Running
            invariant
                self.inv(),
                st == self.spec_state(),
                self.spec_catalog() == old(self).spec_catalog(),
                cat_seq == old(self).spec_catalog()@,
                g_begin == old(self).spec_grid(),
                self.spec_grid().same_shape(g_begin),
                old(self).spec_state() != SolverState::Running ==> *self == *old(self),
                forall|a: int, b: int|
                    g_begin.in_bounds_spec(a, b) ==> seq_subset(
                        #[trigger] self.spec_grid().cell(a, b),
                        g_begin.cell(a, b),
                    ),
                forall|a: int, b: int|
                    g_begin.in_bounds_spec(a, b) ==> (#[trigger] self.spec_grid().cell(
                        a,
                        b,
                    )).len() <= g_begin.cell(a, b).len(),
                ((arc_consistent(cat_seq, g_begin) && self.spec_state()
                    != SolverState::Contradiction) ==> arc_consistent(
                    cat_seq,
                    self.spec_grid(),
                )),
                ((old(self).spec_state() == SolverState::Running && forall|a: int, b: int|
                    g_begin.in_bounds_spec(a, b) ==> (#[trigger] g_begin.cell(a, b)).len() <= 1)
                    ==> ((self.spec_state() == SolverState::Running || self.spec_state()
                    == SolverState::Solved) && forall|a: int, b: int|
                    g_begin.in_bounds_spec(a, b) ==> #[trigger] self.spec_grid().cell(a, b)
                        == g_begin.cell(a, b))),
                ((old(self).spec_state() == SolverState::Running && no_compatible_pair(cat_seq)
                    && g_begin.spec_height() >= 1 && g_begin.spec_width() >= 1 && (
                g_begin.spec_height() >= 2 || g_begin.spec_width() >= 2) && (forall|
                    a: int,
                    b: int,
                |
                    g_begin.in_bounds_spec(a, b) ==> (#[trigger] g_begin.cell(a, b)).len() >= 2))
                    ==> (self.spec_state() == SolverState::Contradiction || (self.spec_state()
                    == SolverState::Running && forall|a: int, b: int|
                    g_begin.in_bounds_spec(a, b) ==> #[trigger] self.spec_grid().cell(a, b)
                        == g_begin.cell(a, b)))),
                ((old(self).spec_state() == SolverState::Running && all_pairs_compatible(cat_seq)
                    && cat_seq.len() > 0) ==> self.spec_state() != SolverState::Contradiction),
            decreases (if st == SolverState::Running {
                1int
            } else {
                0int
            }), self.spec_grid().weight(),
        {
            let ghost pre = *self;
            self.step();
            proof {
                assert forall|a: int, b: int|
                    g_begin.in_bounds_spec(a, b) implies seq_subset(
                    #[trigger] self.spec_grid().cell(a, b),
                    g_begin.cell(a, b),
                ) by {
                    assert(seq_subset(self.spec_grid().cell(a, b), pre.spec_grid().cell(a, b)));
                    assert(seq_subset(pre.spec_grid().cell(a, b), g_begin.cell(a, b)));
                }
            }
            st = self.state();
        }
        proof {
            if self.spec_state() == SolverState::Solved && cat_seq.len() > 0 {
                assert forall|a: int, b: int|
                    self.spec_grid().in_bounds_spec(a, b) implies (#[trigger] self.spec_grid().cell(
                    a,
                    b,
                )).len() == 1 by {
                    assert(self.spec_grid().cell(a, b).len() <= 1);
                    assert(self.spec_grid().cell(a, b).len() >= 1);
                }
            }
        }
        st
    }
}

/// After a solved run, adjacent collapsed cells match: the socket
/// that the cell at `(x, y)` presents toward its neighbor in
/// direction `d` equals the socket the neighbor presents back.
pub proof fn lemma_solved_adjacent_sockets_match(
    cat: Seq<TileView>,
    g: Grid,
    x: int,
    y: int,
    d: Direction,
)
    requires
        arc_consistent(cat, g),
        forall|a: int, b: int| g.in_bounds_spec(a, b) ==> (#[trigger] g.cell(a, b)).len() == 1,
        g.in_bounds_spec(x, y),
        g.in_bounds_spec(moved_row(x, d), moved_col(y, d)),
    ensures
        spec_socket(cat, g.cell(x, y)[0] as int, direction_index(d)) == spec_socket(
            cat,
            g.cell(moved_row(x, d), moved_col(y, d))[0] as int,
            direction_index(spec_opposite(d)),
        ),
{
    let tx = moved_row(x, d);
    let ty = moved_col(y, d);
    let t = g.cell(tx, ty)[0];
    assert(g.cell(tx, ty).contains(t));
    assert(arc_ok(cat, g, x, y, d));
    assert(cell_allows(cat, g.cell(x, y), d, t));
    let s = choose|s: usize| #[trigger] g.cell(x, y).contains(s) && pair_compatible(cat, s, t, d);
    let ks = choose|k: int| 0 <= k < g.cell(x, y).len() && g.cell(x, y)[k] == s;
    assert(ks == 0);
}

} // verus!
