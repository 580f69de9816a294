//! Four-connected regions of the `true` cells of a boolean grid, and how many
//! of them a grid has.
//!
//! A cell is named by its row-major index. Two cells are connected when a
//! path of `true` cells leads from one to the other, each step going one cell
//! up, down, left or right. Every region has one least cell, its root, so the
//! number of regions is the number of roots.

use vstd::prelude::*;
use vstd::arithmetic::div_mod::{lemma_fundamental_div_mod, lemma_fundamental_div_mod_converse, lemma_mod_bound};

verus! {

/// Cell `a` lies in the grid and is `true`.
pub open spec fn is_open(mask: Seq<bool>, a: int) -> bool {
    0 <= a < mask.len() && mask[a]
}

/// Cells `a` and `b` of a grid `width` cells wide are neighbours: they lie in
/// the same row in columns next to each other, or in the same column in rows
/// next to each other. Cells that touch only at a corner are not neighbours.
pub open spec fn adjacent(width: int, a: int, b: int) -> bool {
    ||| (a / width == b / width && (a % width + 1 == b % width || b % width + 1 == a % width))
    ||| (a % width == b % width && (a / width + 1 == b / width || b / width + 1 == a / width))
}

/// `path` is a walk over `true` cells in which each cell is a neighbour of
/// the one before it.
pub open spec fn is_path(width: int, mask: Seq<bool>, path: Seq<int>) -> bool {
    &&& path.len() > 0
    &&& forall|i: int| 0 <= i < path.len() ==> is_open(mask, #[trigger] path[i])
    &&& forall|i: int| 0 <= i < path.len() - 1 ==> adjacent(width, #[trigger] path[i], path[i + 1])
}

/// A path leads from `a` to `b`.
pub open spec fn connected(width: int, mask: Seq<bool>, a: int, b: int) -> bool {
    exists|path: Seq<int>| #[trigger] is_path(width, mask, path) && path.first() == a && path.last() == b
}

/// `a` is the least cell of its region.
pub open spec fn is_root(width: int, mask: Seq<bool>, a: int) -> bool {
    is_open(mask, a) && forall|b: int| #[trigger] connected(width, mask, a, b) ==> a <= b
}

/// The roots among the first `bound` cells.
pub open spec fn roots_below(width: int, mask: Seq<bool>, bound: int) -> Set<int> {
    Set::new(|a: int| 0 <= a < bound && is_root(width, mask, a))
}

/// The number of maximal four-connected regions of `true` cells.
pub open spec fn component_count(width: int, mask: Seq<bool>) -> nat {
    roots_below(width, mask, mask.len() as int).len()
}

/// A `true` cell is connected to itself.
pub proof fn lemma_connected_refl(width: int, mask: Seq<bool>, a: int)
    requires
        is_open(mask, a),
    ensures
        connected(width, mask, a, a),
{
    let path = seq![a];
    assert(is_path(width, mask, path));
    assert(path.first() == a && path.last() == a);
}

/// Both ends of a connection are `true` cells.
pub proof fn lemma_connected_open(width: int, mask: Seq<bool>, a: int, b: int)
    requires
        connected(width, mask, a, b),
    ensures
        is_open(mask, a),
        is_open(mask, b),
{
    let path = choose|path: Seq<int>| #[trigger]
        is_path(width, mask, path) && path.first() == a && path.last() == b;
    assert(is_open(mask, path[0]));
    assert(is_open(mask, path[path.len() - 1]));
}

/// A connection can be walked backwards.
pub proof fn lemma_connected_sym(width: int, mask: Seq<bool>, a: int, b: int)
    requires
        connected(width, mask, a, b),
    ensures
        connected(width, mask, b, a),
{
    let path = choose|path: Seq<int>| #[trigger]
        is_path(width, mask, path) && path.first() == a && path.last() == b;
    let n = path.len() as int;
    let back = Seq::new(path.len(), |i: int| path[n - 1 - i]);
    assert forall|i: int| 0 <= i < back.len() implies is_open(mask, #[trigger] back[i]) by {
        assert(is_open(mask, path[n - 1 - i]));
    }
    assert forall|i: int| 0 <= i < back.len() - 1 implies adjacent(
        width,
        #[trigger] back[i],
        back[i + 1],
    ) by {
        assert(adjacent(width, path[n - 2 - i], path[n - 2 - i + 1]));
    }
    assert(is_path(width, mask, back));
    assert(back.first() == b && back.last() == a);
}

/// Two connections with a common end make one.
pub proof fn lemma_connected_trans(width: int, mask: Seq<bool>, a: int, b: int, c: int)
    requires
        connected(width, mask, a, b),
        connected(width, mask, b, c),
    ensures
        connected(width, mask, a, c),
{
    let p = choose|path: Seq<int>| #[trigger]
        is_path(width, mask, path) && path.first() == a && path.last() == b;
    let q = choose|path: Seq<int>| #[trigger]
        is_path(width, mask, path) && path.first() == b && path.last() == c;
    let r = p + q.subrange(1, q.len() as int);
    assert forall|i: int| 0 <= i < r.len() implies is_open(mask, #[trigger] r[i]) by {
        if i < p.len() {
            assert(is_open(mask, p[i]));
        } else {
            assert(is_open(mask, q[i - p.len() + 1]));
        }
    }
    assert forall|i: int| 0 <= i < r.len() - 1 implies adjacent(width, #[trigger] r[i], r[i + 1]) by {
        if i + 1 < p.len() {
            assert(adjacent(width, p[i], p[i + 1]));
        } else if i + 1 == p.len() {
            assert(r[i] == q[0]);
            assert(r[i + 1] == q[1]);
            assert(adjacent(width, q[0int], q[0int + 1]));
        } else {
            let k = i - p.len() + 1;
            assert(r[i] == q[k]);
            assert(r[i + 1] == q[k + 1]);
            assert(adjacent(width, q[k], q[k + 1]));
        }
    }
    assert(is_path(width, mask, r));
    assert(r.first() == a);
    if q.len() == 1 {
        assert(r =~= p);
        assert(b == c);
    } else {
        assert(r.last() == q[q.len() - 1]);
    }
    assert(r.last() == c);
}

/// A connection can be extended by one step to a `true` neighbour.
pub proof fn lemma_connected_step(width: int, mask: Seq<bool>, a: int, b: int, c: int)
    requires
        connected(width, mask, a, b),
        adjacent(width, b, c),
        is_open(mask, c),
    ensures
        connected(width, mask, a, c),
{
    lemma_connected_open(width, mask, a, b);
    let step = seq![b, c];
    assert(is_path(width, mask, step));
    assert(step.first() == b && step.last() == c);
    lemma_connected_trans(width, mask, a, b, c);
}

/// A set of cells that holds `a` and, with every cell, its `true`
/// neighbours, holds every cell connected to `a`.
pub proof fn lemma_closed_set_holds_region(width: int, mask: Seq<bool>, marked: Seq<bool>, a: int, b: int)
    requires
        marked.len() == mask.len(),
        is_open(mask, a),
        marked[a],
        forall|c: int, d: int|
            0 <= c < marked.len() && marked[c] && #[trigger] adjacent(width, c, d) && is_open(mask, d)
                ==> marked[d],
        connected(width, mask, a, b),
    ensures
        marked[b],
{
    let path = choose|path: Seq<int>| #[trigger]
        is_path(width, mask, path) && path.first() == a && path.last() == b;
    lemma_closed_set_holds_path(width, mask, marked, path, path.len() - 1);
}

proof fn lemma_closed_set_holds_path(width: int, mask: Seq<bool>, marked: Seq<bool>, path: Seq<int>, k: int)
    requires
        marked.len() == mask.len(),
        is_path(width, mask, path),
        marked[path[0]],
        forall|c: int, d: int|
            0 <= c < marked.len() && marked[c] && #[trigger] adjacent(width, c, d) && is_open(mask, d)
                ==> marked[d],
        0 <= k < path.len(),
    ensures
        marked[path[k]],
    decreases k,
{
    if k > 0 {
        lemma_closed_set_holds_path(width, mask, marked, path, k - 1);
        assert(is_open(mask, path[k - 1]));
        assert(is_open(mask, path[k]));
        assert(adjacent(width, path[k - 1], path[k - 1 + 1]));
    }
}

/// The neighbours of a cell, by index: the next and the previous cell of its
/// row, and the cells one row below and above.
pub proof fn lemma_neighbour_cases(width: int, height: int, a: int, b: int)
    requires
        0 < width,
        0 <= a < width * height,
        0 <= b < width * height,
        adjacent(width, a, b),
    ensures
        (b == a + 1 && a % width + 1 < width) || (b + 1 == a && a % width > 0) || (b == a + width && a
            / width + 1 < height) || (b + width == a && a / width > 0),
{
    lemma_fundamental_div_mod(a, width);
    lemma_fundamental_div_mod(b, width);
    lemma_mod_bound(a, width);
    lemma_mod_bound(b, width);
    let ra = a / width;
    let rb = b / width;
    if ra == rb {
        assert(width * ra == width * rb);
    } else if ra + 1 == rb {
        assert(width * rb == width * ra + width) by (nonlinear_arith)
            requires
                ra + 1 == rb,
        ;
        assert(ra + 1 < height) by (nonlinear_arith)
            requires
                b == width * rb + b % width,
                0 <= b % width,
                b < width * height,
                0 < width,
                ra + 1 == rb,
        ;
    } else if rb + 1 == ra {
        assert(width * ra == width * rb + width) by (nonlinear_arith)
            requires
                rb + 1 == ra,
        ;
        assert(rb >= 0) by (nonlinear_arith)
            requires
                b == width * rb + b % width,
                0 <= b % width < width,
                0 <= b,
                0 < width,
        ;
    }
}

/// The cell after `a` in its row is a neighbour of `a`.
pub proof fn lemma_adjacent_right(width: int, a: int)
    requires
        0 < width,
        0 <= a,
        a % width + 1 < width,
    ensures
        adjacent(width, a, a + 1),
        adjacent(width, a + 1, a),
{
    lemma_fundamental_div_mod(a, width);
    lemma_mod_bound(a, width);
    assert(a + 1 == (a / width) * width + (a % width + 1)) by (nonlinear_arith)
        requires
            a == width * (a / width) + a % width,
    ;
    lemma_fundamental_div_mod_converse(a + 1, width, a / width, a % width + 1);
}

/// The cell before `a` in its row is a neighbour of `a`.
pub proof fn lemma_adjacent_left(width: int, a: int)
    requires
        0 < width,
        0 <= a,
        a % width > 0,
    ensures
        0 <= a - 1,
        adjacent(width, a, a - 1),
{
    lemma_fundamental_div_mod(a, width);
    lemma_mod_bound(a, width);
    assert(a - 1 == (a / width) * width + (a % width - 1)) by (nonlinear_arith)
        requires
            a == width * (a / width) + a % width,
    ;
    lemma_fundamental_div_mod_converse(a - 1, width, a / width, a % width - 1);
}

/// The cell one row below `a` is a neighbour of `a`.
pub proof fn lemma_adjacent_below(width: int, a: int)
    requires
        0 < width,
        0 <= a,
    ensures
        adjacent(width, a, a + width),
        adjacent(width, a + width, a),
{
    lemma_fundamental_div_mod(a, width);
    lemma_mod_bound(a, width);
    assert(a + width == (a / width + 1) * width + a % width) by (nonlinear_arith)
        requires
            a == width * (a / width) + a % width,
    ;
    lemma_fundamental_div_mod_converse(a + width, width, a / width + 1, a % width);
}

/// Row and column of a cell of a `width` by `height` grid.
pub proof fn lemma_cell_place(width: int, height: int, a: int)
    requires
        0 < width,
        0 <= a < width * height,
    ensures
        0 <= a % width < width,
        0 <= a / width < height,
        a == (a / width) * width + a % width,
{
    lemma_fundamental_div_mod(a, width);
    lemma_mod_bound(a, width);
    assert(0 <= a / width < height && a == (a / width) * width + a % width) by (nonlinear_arith)
        requires
            a == width * (a / width) + a % width,
            0 <= a % width < width,
            0 <= a < width * height,
            0 < width,
    ;
}

/// Some cell among the first `bound` is connected to `c`.
pub open spec fn reached_below(width: int, mask: Seq<bool>, bound: int, c: int) -> bool {
    exists|r: int| 0 <= r < bound && #[trigger] connected(width, mask, r, c)
}

/// The state of a row-major scan that has dealt with the first `bound`
/// cells: the marked cells are those of the regions met so far.
pub open spec fn scan_state(width: int, mask: Seq<bool>, marked: Seq<bool>, bound: int) -> bool {
    &&& marked.len() == mask.len()
    &&& forall|c: int|
        0 <= c < mask.len() ==> (#[trigger] marked[c] <==> reached_below(width, mask, bound, c))
}

/// With every marked cell, its `true` neighbours are marked.
pub open spec fn closed_marking(width: int, mask: Seq<bool>, marked: Seq<bool>) -> bool {
    &&& marked.len() == mask.len()
    &&& forall|c: int, d: int|
        0 <= c < marked.len() && marked[c] && #[trigger] adjacent(width, c, d) && is_open(mask, d)
            ==> marked[d]
}

/// During a scan the marked cells are closed under stepping to a `true`
/// neighbour.
pub proof fn lemma_scan_closed(width: int, mask: Seq<bool>, marked: Seq<bool>, bound: int)
    requires
        scan_state(width, mask, marked, bound),
    ensures
        closed_marking(width, mask, marked),
{
    assert forall|c: int, d: int|
        0 <= c < marked.len() && marked[c] && #[trigger] adjacent(width, c, d) && is_open(
            mask,
            d,
        ) implies marked[d] by {
        assert(reached_below(width, mask, bound, c));
        let r = choose|r: int| 0 <= r < bound && #[trigger] connected(width, mask, r, c);
        lemma_connected_step(width, mask, r, c, d);
        assert(reached_below(width, mask, bound, d));
    }
}

/// The scan meets a root exactly when it meets a `true` cell that is not
/// marked yet.
pub proof fn lemma_root_iff_unmarked(width: int, mask: Seq<bool>, marked: Seq<bool>, idx: int)
    requires
        scan_state(width, mask, marked, idx),
        0 <= idx < mask.len(),
    ensures
        is_root(width, mask, idx) <==> mask[idx] && !marked[idx],
{
    if mask[idx] && !marked[idx] {
        assert forall|b: int| #[trigger] connected(width, mask, idx, b) implies idx <= b by {
            if b < idx {
                lemma_connected_open(width, mask, idx, b);
                lemma_connected_sym(width, mask, idx, b);
                assert(reached_below(width, mask, idx, idx));
            }
        }
    }
    if mask[idx] && marked[idx] {
        assert(reached_below(width, mask, idx, idx));
        let r = choose|r: int| 0 <= r < idx && #[trigger] connected(width, mask, r, idx);
        lemma_connected_sym(width, mask, r, idx);
    }
}

/// The scan passes a cell that is `false` or already marked.
pub proof fn lemma_scan_skip(width: int, mask: Seq<bool>, marked: Seq<bool>, idx: int)
    requires
        scan_state(width, mask, marked, idx),
        0 <= idx < mask.len(),
        !(mask[idx] && !marked[idx]),
    ensures
        scan_state(width, mask, marked, idx + 1),
{
    assert forall|c: int| 0 <= c < mask.len() implies (#[trigger] marked[c] <==> reached_below(
        width,
        mask,
        idx + 1,
        c,
    )) by {
        if marked[c] {
            assert(reached_below(width, mask, idx, c));
            let r = choose|r: int| 0 <= r < idx && #[trigger] connected(width, mask, r, c);
            assert(0 <= r < idx + 1 && connected(width, mask, r, c));
        }
        if reached_below(width, mask, idx + 1, c) {
            let r = choose|r: int| 0 <= r < idx + 1 && #[trigger] connected(width, mask, r, c);
            if r == idx {
                lemma_connected_open(width, mask, idx, c);
                assert(marked[idx]);
                assert(reached_below(width, mask, idx, idx));
                let q = choose|q: int| 0 <= q < idx && #[trigger] connected(width, mask, q, idx);
                lemma_connected_trans(width, mask, q, idx, c);
                assert(reached_below(width, mask, idx, c));
            } else {
                assert(reached_below(width, mask, idx, c));
            }
        }
    }
}

/// The scan meets an unmarked `true` cell and marks its whole region.
pub proof fn lemma_scan_fill(width: int, mask: Seq<bool>, before: Seq<bool>, after: Seq<bool>, idx: int)
    requires
        scan_state(width, mask, before, idx),
        0 <= idx < mask.len(),
        after.len() == mask.len(),
        forall|c: int|
            0 <= c < mask.len() ==> (#[trigger] after[c] <==> before[c] || connected(
                width,
                mask,
                idx,
                c,
            )),
    ensures
        scan_state(width, mask, after, idx + 1),
{
    assert forall|c: int| 0 <= c < mask.len() implies (#[trigger] after[c] <==> reached_below(
        width,
        mask,
        idx + 1,
        c,
    )) by {
        if after[c] {
            if before[c] {
                assert(reached_below(width, mask, idx, c));
                let r = choose|r: int| 0 <= r < idx && #[trigger] connected(width, mask, r, c);
                assert(0 <= r < idx + 1 && connected(width, mask, r, c));
            } else {
                assert(0 <= idx < idx + 1 && connected(width, mask, idx, c));
            }
        }
        if reached_below(width, mask, idx + 1, c) {
            let r = choose|r: int| 0 <= r < idx + 1 && #[trigger] connected(width, mask, r, c);
            if r != idx {
                assert(reached_below(width, mask, idx, c));
            }
        }
    }
}

/// Number of cells that are not marked.
pub open spec fn unmarked(marked: Seq<bool>) -> nat
    decreases marked.len(),
{
    if marked.len() == 0 {
        0
    } else {
        unmarked(marked.drop_last()) + if marked.last() {
            0nat
        } else {
            1nat
        }
    }
}

/// Marking an unmarked cell leaves one unmarked cell less.
pub proof fn lemma_unmarked_update(marked: Seq<bool>, i: int)
    requires
        0 <= i < marked.len(),
        !marked[i],
    ensures
        unmarked(marked.update(i, true)) + 1 == unmarked(marked),
    decreases marked.len(),
{
    let after = marked.update(i, true);
    if i == marked.len() - 1 {
        assert(after.drop_last() =~= marked.drop_last());
    } else {
        lemma_unmarked_update(marked.drop_last(), i);
        assert(after.drop_last() =~= marked.drop_last().update(i, true));
    }
}

/// The roots among the first `bound` cells are finitely many, at most `bound`.
pub proof fn lemma_roots_bounded(width: int, mask: Seq<bool>, bound: int)
    requires
        0 <= bound,
    ensures
        roots_below(width, mask, bound).finite(),
        roots_below(width, mask, bound).len() <= bound,
{
    vstd::set_lib::lemma_int_range(0, bound);
    assert(roots_below(width, mask, bound).subset_of(vstd::set_lib::set_int_range(0, bound)));
    vstd::set_lib::lemma_len_subset(
        roots_below(width, mask, bound),
        vstd::set_lib::set_int_range(0, bound),
    );
}

/// Going from the first `bound` cells to the first `bound + 1` adds one root
/// if cell `bound` is a root, and none otherwise.
pub proof fn lemma_roots_next(width: int, mask: Seq<bool>, bound: int)
    requires
        0 <= bound,
    ensures
        roots_below(width, mask, bound + 1).len() == roots_below(width, mask, bound).len() + (if is_root(
            width,
            mask,
            bound,
        ) {
            1int
        } else {
            0int
        }),
{
    lemma_roots_bounded(width, mask, bound);
    if is_root(width, mask, bound) {
        assert(roots_below(width, mask, bound + 1) =~= roots_below(width, mask, bound).insert(bound));
        vstd::set::axiom_set_insert_len(roots_below(width, mask, bound), bound);
    } else {
        assert(roots_below(width, mask, bound + 1) =~= roots_below(width, mask, bound));
    }
}

/// A mask without a `true` cell has no region.
pub proof fn lemma_blank_mask_has_no_component(width: int, mask: Seq<bool>)
    requires
        forall|a: int| 0 <= a < mask.len() ==> !#[trigger] mask[a],
    ensures
        component_count(width, mask) == 0,
{
    assert(roots_below(width, mask, mask.len() as int) =~= Set::<int>::empty());
}

/// Where no two `true` cells are neighbours, every `true` cell is a region
/// of its own: cells that touch at a corner, or not at all, are counted
/// apart.
pub proof fn lemma_scattered_cells_are_components(width: int, mask: Seq<bool>)
    requires
        forall|a: int, b: int| is_open(mask, a) && is_open(mask, b) ==> !#[trigger] adjacent(width, a, b),
    ensures
        component_count(width, mask) == Set::new(|a: int| is_open(mask, a)).len(),
{
    assert forall|a: int| is_open(mask, a) implies is_root(width, mask, a) by {
        assert forall|b: int| #[trigger] connected(width, mask, a, b) implies a <= b by {
            let path = choose|path: Seq<int>| #[trigger]
                is_path(width, mask, path) && path.first() == a && path.last() == b;
            if path.len() > 1 {
                assert(is_open(mask, path[0]));
                assert(is_open(mask, path[1]));
                assert(adjacent(width, path[0int], path[0int + 1]));
            }
        }
    }
    assert(roots_below(width, mask, mask.len() as int) =~= Set::new(|a: int| is_open(mask, a)));
}

/// In a mask that is `true` everywhere, every cell is connected to the first.
proof fn lemma_full_mask_connected(width: int, height: int, mask: Seq<bool>, a: int)
    requires
        0 < width,
        0 < height,
        mask.len() == width * height,
        forall|c: int| 0 <= c < mask.len() ==> #[trigger] mask[c],
        0 <= a < mask.len(),
    ensures
        connected(width, mask, 0, a),
    decreases a,
{
    if a == 0 {
        lemma_connected_refl(width, mask, 0);
    } else {
        lemma_cell_place(width, height, a);
        if a % width > 0 {
            lemma_adjacent_left(width, a);
            lemma_full_mask_connected(width, height, mask, a - 1);
            lemma_connected_step(width, mask, 0, a - 1, a);
        } else {
            assert(a - width >= 0) by (nonlinear_arith)
                requires
                    a == (a / width) * width + a % width,
                    a % width == 0,
                    a > 0,
                    width > 0,
                    a / width >= 0,
            ;
            lemma_adjacent_below(width, a - width);
            lemma_full_mask_connected(width, height, mask, a - width);
            lemma_connected_step(width, mask, 0, a - width, a);
        }
    }
}

/// A mask of at least one cell that is `true` everywhere is one region.
pub proof fn lemma_full_mask_is_one_component(width: int, height: int, mask: Seq<bool>)
    requires
        0 < width,
        0 < height,
        mask.len() == width * height,
        forall|a: int| 0 <= a < mask.len() ==> #[trigger] mask[a],
    ensures
        component_count(width, mask) == 1,
{
    assert(0 < width * height) by (nonlinear_arith)
        requires
            0 < width,
            0 < height,
    ;
    assert forall|b: int| #[trigger] connected(width, mask, 0, b) implies 0 <= b by {
        lemma_connected_open(width, mask, 0, b);
    }
    assert(is_root(width, mask, 0));
    assert forall|a: int| 0 < a < mask.len() implies !is_root(width, mask, a) by {
        lemma_full_mask_connected(width, height, mask, a);
        lemma_connected_sym(width, mask, 0, a);
    }
    lemma_roots_bounded(width, mask, 0);
    lemma_roots_next(width, mask, 0);
    assert(roots_below(width, mask, mask.len() as int) =~= roots_below(width, mask, 1));
}

} // verus!
