use vstd::prelude::*;
use crate::cell::{Cell, Pos, Velocity, same_substance, round_velocity_exec, burn_once};
use crate::random::draw_below;
use crate::assets::Assets;
use crate::fire::{fire_step, quencher_near};
use crate::line::{walk_grid, walk_grid_points, is_grid_walk, between, abs_int};
use crate::material::{Material, MaterialType, spec_density, spec_type, spec_dispersion};
use crate::matrix::{Matrix, Lookup, only_marks, kept_substance, lemma_index_in_range, lemma_only_marks_trans, lemma_kept_substance_trans};

verus! {

/// A walk point as a position.
pub open spec fn at_point(pts: Seq<(i32, i32)>, i: int) -> Pos {
    Pos { x: pts[i].0, y: pts[i].1 }
}

/// Where a cell of `mat` leaving `start` ends up when it walks `pts` from
/// the `i`-th point on, having found `best` so far and met `obstacles`
/// occupied points. An unoccupied point becomes the best; a lighter occupant
/// becomes the best too; the walk stops at the wall, at the third obstacle,
/// and, unless it is diagonal, at a cell of its own material or at a heavier
/// one met before any target was found.
pub open spec fn walk_target(
    m: &Matrix,
    mat: Material,
    pts: Seq<(i32, i32)>,
    i: int,
    start: Pos,
    best: Pos,
    obstacles: int,
    diagonal: bool,
) -> Pos
    decreases pts.len() - i,
{
    if i < 0 || i >= pts.len() {
        best
    } else {
        let p = at_point(pts, i);
        if p == start {
            walk_target(m, mat, pts, i + 1, start, best, obstacles, diagonal)
        } else if !m.in_grid(p.x as int, p.y as int) {
            best
        } else {
            match m.occ(p) {
                None => walk_target(m, mat, pts, i + 1, start, p, obstacles, diagonal),
                Some(c) => if obstacles >= 2 {
                    best
                } else if c.material == mat && !diagonal {
                    best
                } else {
                    let b = if spec_density(c.material) < spec_density(mat) {
                        p
                    } else {
                        best
                    };
                    if b == start && !diagonal {
                        b
                    } else {
                        walk_target(m, mat, pts, i + 1, start, b, obstacles + 1, diagonal)
                    }
                },
            }
        }
    }
}

/// Where `try_move` takes the cell at `from` when it heads for `to`.
pub open spec fn try_move_target(m: &Matrix, from: Pos, to: Pos, diagonal: bool) -> Pos {
    let end = m.clamped(to);
    if from == end {
        from
    } else {
        walk_target(
            m,
            m.occ(from)->0.material,
            walk_grid_points(from.x as int, from.y as int, end.x as int, end.y as int),
            0,
            from,
            from,
            0,
            diagonal,
        )
    }
}

/// A position a cell of `mat` may be relocated to: in the grid, and empty
/// or held by a lighter cell.
pub open spec fn enterable(m: &Matrix, mat: Material, p: Pos) -> bool {
    m.in_grid(p.x as int, p.y as int) && (m.occ(p) is None || spec_density(m.occ(p)->0.material) < spec_density(
        mat,
    ))
}

/// The walk ends at its start or at an enterable position.
pub proof fn lemma_walk_target_enterable(
    m: &Matrix,
    mat: Material,
    pts: Seq<(i32, i32)>,
    i: int,
    start: Pos,
    best: Pos,
    obstacles: int,
    diagonal: bool,
)
    requires
        best == start || enterable(m, mat, best),
    ensures
        ({
            let r = walk_target(m, mat, pts, i, start, best, obstacles, diagonal);
            r == start || enterable(m, mat, r)
        }),
    decreases pts.len() - i,
{
    if 0 <= i < pts.len() {
        let p = at_point(pts, i);
        if p != start && m.in_grid(p.x as int, p.y as int) {
            match m.occ(p) {
                None => lemma_walk_target_enterable(m, mat, pts, i + 1, start, p, obstacles, diagonal),
                Some(c) => {
                    if obstacles < 2 && !(c.material == mat && !diagonal) {
                        let b = if spec_density(c.material) < spec_density(mat) {
                            p
                        } else {
                            best
                        };
                        lemma_walk_target_enterable(m, mat, pts, i + 1, start, b, obstacles + 1, diagonal);
                    }
                },
            }
        } else if p == start {
            lemma_walk_target_enterable(m, mat, pts, i + 1, start, best, obstacles, diagonal);
        }
    }
}

/// The walk ends at its best so far or at one of the points still ahead.
pub proof fn lemma_walk_target_ahead(
    m: &Matrix,
    mat: Material,
    pts: Seq<(i32, i32)>,
    i: int,
    start: Pos,
    best: Pos,
    obstacles: int,
    diagonal: bool,
)
    requires
        0 <= i,
    ensures
        ({
            let r = walk_target(m, mat, pts, i, start, best, obstacles, diagonal);
            r == best || exists|j: int| i <= j < pts.len() && r == at_point(pts, j)
        }),
    decreases pts.len() - i,
{
    let r = walk_target(m, mat, pts, i, start, best, obstacles, diagonal);
    if 0 <= i < pts.len() {
        let p = at_point(pts, i);
        if p == start {
            lemma_walk_target_ahead(m, mat, pts, i + 1, start, best, obstacles, diagonal);
        } else if m.in_grid(p.x as int, p.y as int) {
            match m.occ(p) {
                None => {
                    lemma_walk_target_ahead(m, mat, pts, i + 1, start, p, obstacles, diagonal);
                    if r != p {
                        let j = choose|j: int| i + 1 <= j < pts.len() && r == at_point(pts, j);
                        assert(i <= j < pts.len() && r == at_point(pts, j));
                    }
                },
                Some(c) => {
                    if obstacles < 2 && !(c.material == mat && !diagonal) {
                        let b = if spec_density(c.material) < spec_density(mat) {
                            p
                        } else {
                            best
                        };
                        if !(b == start && !diagonal) {
                            lemma_walk_target_ahead(m, mat, pts, i + 1, start, b, obstacles + 1, diagonal);
                            if r != b {
                                let j = choose|j: int| i + 1 <= j < pts.len() && r == at_point(pts, j);
                                assert(i <= j < pts.len() && r == at_point(pts, j));
                            }
                        }
                    }
                },
            }
        }
    }
}

/// The neighbour of `from` one step along its row towards `to`.
pub open spec fn row_neighbour_towards(from: Pos, to: Pos) -> Pos {
    Pos { x: (if to.x > from.x { from.x + 1 } else { from.x - 1 }) as i32, y: from.y }
}

/// The orthogonal neighbour of `from` one step towards `to`, for a target
/// in the same column or row.
pub open spec fn step_towards(from: Pos, to: Pos) -> Pos {
    if to.x == from.x {
        Pos { x: from.x, y: (if to.y > from.y { from.y + 1 } else { from.y - 1 }) as i32 }
    } else {
        row_neighbour_towards(from, to)
    }
}

/// The position directly above `p`.
pub open spec fn above(p: Pos) -> Pos {
    Pos { x: p.x, y: (p.y - 1) as i32 }
}

/// The position directly below `p`.
pub open spec fn below(p: Pos) -> Pos {
    Pos { x: p.x, y: (p.y + 1) as i32 }
}

/// The hypotheses the walk lemmas share: `gp` is the grid walk from the
/// occupied `from` to `end`, the clamped target.
pub open spec fn walk_setup(m: &Matrix, mat: Material, gp: Seq<(i32, i32)>, from: Pos, to: Pos, end: Pos) -> bool {
    &&& m.wf()
    &&& m.occ(from) is Some
    &&& m.occ(from)->0.material == mat
    &&& end == m.clamped(to)
    &&& end != from
    &&& is_grid_walk(gp, from.x as int, from.y as int, end.x as int, end.y as int)
}

pub proof fn lemma_walk_no_tunnel(
    m: &Matrix,
    mat: Material,
    gp: Seq<(i32, i32)>,
    from: Pos,
    to: Pos,
    end: Pos,
    diagonal: bool,
)
    requires
        walk_setup(m, mat, gp, from, to, end),
    ensures
        !diagonal && to.y == from.y && to.x != from.x && m.occ(row_neighbour_towards(from, to)) is Some
            && m.occ(row_neighbour_towards(from, to))->0.material == mat ==> walk_target(
            m,
            mat,
            gp,
            0,
            from,
            from,
            0,
            diagonal,
        ) == from,
{
    m.lemma_occupant_pos(from.x as int, from.y as int);
    if !diagonal && to.y == from.y && to.x != from.x && m.occ(row_neighbour_towards(from, to)) is Some
        && m.occ(row_neighbour_towards(from, to))->0.material == mat {
        let n = row_neighbour_towards(from, to);
        m.lemma_occupant_pos(n.x as int, n.y as int);
        assert(gp[0] == gp[0]);
        assert(gp[1] == gp[1]);
        assert(at_point(gp, 0) == from);
        assert(at_point(gp, 1) == n);
        assert(walk_target(m, mat, gp, 1, from, from, 0, false) == from);
    }
}

/// If the first step of an orthogonal walk is enterable, the walk ends
/// elsewhere than its start.
pub proof fn lemma_walk_first_step(
    m: &Matrix,
    mat: Material,
    gp: Seq<(i32, i32)>,
    from: Pos,
    to: Pos,
    end: Pos,
    diagonal: bool,
)
    requires
        walk_setup(m, mat, gp, from, to, end),
        to.x == from.x || to.y == from.y,
        enterable(m, mat, step_towards(from, to)),
    ensures
        walk_target(m, mat, gp, 0, from, from, 0, diagonal) != from,
{
    m.lemma_occupant_pos(from.x as int, from.y as int);
    let b = step_towards(from, to);
    m.lemma_occupant_pos(b.x as int, b.y as int);
    assert(gp[0] == gp[0]);
    assert(gp[1] == gp[1]);
    assert(at_point(gp, 0) == from);
    assert(at_point(gp, 1) == b);
    if m.occ(b) is Some {
        assert(m.occ(b)->0.material != mat);
    }
    assert(walk_target(m, mat, gp, 1, from, from, 0, diagonal) == walk_target(
        m,
        mat,
        gp,
        2,
        from,
        b,
        (if m.occ(b) is Some { 1int } else { 0int }),
        diagonal,
    ));
    lemma_walk_target_ahead(m, mat, gp, 2, from, b, (if m.occ(b) is Some { 1int } else { 0int }), diagonal);
    let r = walk_target(m, mat, gp, 2, from, b, (if m.occ(b) is Some { 1int } else { 0int }), diagonal);
    if r != b {
        let j = choose|j: int| 2 <= j < gp.len() && r == at_point(gp, j);
        assert(gp[j] == gp[j]);
    }
}

pub proof fn lemma_walk_blocked(
    m: &Matrix,
    mat: Material,
    gp: Seq<(i32, i32)>,
    from: Pos,
    to: Pos,
    end: Pos,
    diagonal: bool,
)
    requires
        walk_setup(m, mat, gp, from, to, end),
    ensures
        !diagonal && to.x == from.x && to.y >= from.y && (m.occ(below(from)) is None ==> from.y + 1 >= m.height)
            && (m.occ(below(from)) is Some ==> spec_density(m.occ(below(from))->0.material) >= spec_density(mat))
            ==> walk_target(m, mat, gp, 0, from, from, 0, diagonal) == from,
{
    m.lemma_occupant_pos(from.x as int, from.y as int);
    if !diagonal && to.x == from.x && to.y >= from.y && (m.occ(below(from)) is None ==> from.y + 1 >= m.height)
        && (m.occ(below(from)) is Some ==> spec_density(m.occ(below(from))->0.material) >= spec_density(mat)) {
        let b = below(from);
        assert(gp[0] == gp[0]);
        assert(gp[1] == gp[1]);
        assert(at_point(gp, 0) == from);
        assert(at_point(gp, 1) == b);
        m.lemma_occupant_pos(b.x as int, b.y as int);
        assert(walk_target(m, mat, gp, 1, from, from, 0, false) == from);
    }
}

/// Walks from the cell at `from` towards `to` (clamped into the grid) and
/// relocates it, exchanging with a lighter occupant, to the furthest
/// position the walk reaches. Returns the cell's new position.
pub fn try_move(matrix: &mut Matrix, from: Pos, to: Pos, diagonal: bool) -> (r: Pos)
    requires
        old(matrix).wf(),
        old(matrix).occ(from) is Some,
    ensures
        final(matrix).wf(),
        final(matrix).same_settings(old(matrix)),
        only_marks(old(matrix).chunks@, final(matrix).chunks@),
        kept_substance(old(matrix).cells@, final(matrix).cells@),
        r == try_move_target(old(matrix), from, to, diagonal),
        // The cell ends within the box spanned by its start and the clamped
        // target.
        between(r.x as int, from.x as int, old(matrix).clamped(to).x as int) && between(
            r.y as int,
            from.y as int,
            old(matrix).clamped(to).y as int,
        ),
        r == from ==> final(matrix).cells@ == old(matrix).cells@ && final(matrix).data@ == old(matrix).data@
            && final(matrix).chunks@ == old(matrix).chunks@,
        r != from ==> enterable(old(matrix), old(matrix).occ(from)->0.material, r)
            && final(matrix).occ(r) == Some(Cell { pos: r, ..old(matrix).occ(from)->0 })
            && final(matrix).occ(from) == (match old(matrix).occ(r) {
                None => None,
                Some(t) => Some(Cell { pos: from, ..t }),
            }),
        forall|x: int, y: int|
            !(x == from.x && y == from.y) && !(x == r.x && y == r.y) ==> #[trigger] final(matrix).occupant(x, y)
                == old(matrix).occupant(x, y),
        // Along a row, a cell never passes a neighbour of its own material
        // unless it moves diagonally.
        !diagonal && to.y == from.y && to.x != from.x && old(matrix).occ(row_neighbour_towards(from, to)) is Some
            && old(matrix).occ(row_neighbour_towards(from, to))->0.material == old(matrix).occ(from)->0.material
            ==> r == from,
        // Heading along a column or row, a cell whose first step is empty or
        // lighter moves; down, up or sideways as it heads.
        (to.x == from.x || to.y == from.y) && to != from && enterable(
            old(matrix),
            old(matrix).occ(from)->0.material,
            step_towards(from, to),
        ) ==> r != from,
        to.x == from.x && to.y > from.y && enterable(old(matrix), old(matrix).occ(from)->0.material, below(from))
            ==> r != from && r.x == from.x && r.y > from.y,
        // Heading down onto the floor or onto a cell that is not lighter, a
        // cell stays put.
        !diagonal && to.x == from.x && to.y >= from.y && (old(matrix).occ(below(from)) is None ==> from.y
            + 1 >= old(matrix).height) && (old(matrix).occ(below(from)) is Some ==> spec_density(
            old(matrix).occ(below(from))->0.material,
        ) >= spec_density(old(matrix).occ(from)->0.material)) ==> r == from,
{
    let ghost pre = *matrix;
    let cell = matrix.get_cell_by_pos(from);
    proof {
        pre.lemma_occupant_pos(from.x as int, from.y as int);
    }
    let mat = cell.material;
    let end = matrix.clamp_pos(to);
    if from == end {
        return from;
    }
    let pts = walk_grid(from.x, from.y, end.x, end.y);
    let ghost gp = pts@;
    let mut best = from;
    let mut obstacles: usize = 0;
    let mut i: usize = 0;
    let mut stopped = false;
    while i < pts.len() && !stopped
        invariant
            pre == *matrix,
            matrix.wf(),
            pts@ == gp,
            i <= pts@.len(),
            obstacles <= 2,
            best == from || enterable(matrix, mat, best),
            stopped ==> walk_target(matrix, mat, gp, 0, from, from, 0, diagonal) == best,
            !stopped ==> walk_target(matrix, mat, gp, 0, from, from, 0, diagonal) == walk_target(
                matrix,
                mat,
                gp,
                i as int,
                from,
                best,
                obstacles as int,
                diagonal,
            ),
        decreases pts@.len() - i + (if stopped { 0int } else { 1int }),
    {
        let (x, y) = pts[i];
        let p = Pos { x, y };
        if p == from {
            i += 1;
        } else {
            match matrix.lookup(p) {
                crate::matrix::Lookup::OutOfBounds => {
                    stopped = true;
                },
                crate::matrix::Lookup::Empty => {
                    best = p;
                    i += 1;
                },
                crate::matrix::Lookup::Occupied(c) => {
                    if obstacles >= 2 {
                        stopped = true;
                    } else if c.material == mat && !diagonal {
                        stopped = true;
                    } else {
                        if c.material.get_density() < mat.get_density() {
                            best = p;
                        }
                        if best == from && !diagonal {
                            stopped = true;
                        } else {
                            obstacles += 1;
                            i += 1;
                        }
                    }
                },
            }
        }
    }
    proof {
        if !stopped {
            assert(walk_target(matrix, mat, gp, i as int, from, best, obstacles as int, diagonal) == best);
        }
        assert(end == pre.clamped(to));
        if end != from {
            lemma_walk_target_ahead(&pre, mat, gp, 0, from, from, 0, diagonal);
            let r = walk_target(&pre, mat, gp, 0, from, from, 0, diagonal);
            if r != from {
                let j = choose|j: int| 0 <= j < gp.len() && r == at_point(gp, j);
                assert(gp[j] == gp[j]);
            }
            lemma_walk_no_tunnel(&pre, mat, gp, from, to, end, diagonal);
            if (to.x == from.x || to.y == from.y) && to != from && enterable(&pre, mat, step_towards(from, to)) {
                lemma_walk_first_step(&pre, mat, gp, from, to, end, diagonal);
            }
            lemma_walk_blocked(&pre, mat, gp, from, to, end, diagonal);
        }
    }
    if best != from {
        proof {
            lemma_walk_target_enterable(&pre, mat, gp, 0, from, from, 0, diagonal);
        }
        let ghost mid = *matrix;
        matrix.set_cell_by_pos(best, from, true);
        proof {
            let c = pre.occ(from)->0;
            assert(pre.relocates(best, from, true));
            let ki = pre.cell_index_at(from);
            lemma_index_in_range(pre.width as int, pre.height as int, from.x as int, from.y as int);
            lemma_index_in_range(pre.width as int, pre.height as int, best.x as int, best.y as int);
            assert(pre.slots()[pre.index_of(from.x as int, from.y as int)] <= pre.cells_view().len());
            assert(pre.slots()[pre.index_of(best.x as int, best.y as int)] <= pre.cells_view().len());
            assert(kept_substance(pre.cells@, matrix.cells@));
        }
        best
    } else {
        from
    }
}


/// `b` follows from `a` by moves and changes of per-frame state: the index
/// stays consistent, the settings stay, chunks are only requested, and every
/// stored cell keeps its substance.
pub open spec fn moved_only(a: &Matrix, b: &Matrix) -> bool {
    &&& b.wf()
    &&& b.same_settings(a)
    &&& only_marks(a.chunks@, b.chunks@)
    &&& kept_substance(a.cells@, b.cells@)
}

pub proof fn lemma_moved_only_trans(a: &Matrix, b: &Matrix, c: &Matrix)
    requires
        moved_only(a, b),
        moved_only(b, c),
    ensures
        moved_only(a, c),
{
    lemma_only_marks_trans(a.chunks@, b.chunks@, c.chunks@);
    lemma_kept_substance_trans(a.cells@, b.cells@, c.cells@);
}

/// Rests on the floor, or on a cell that is not lighter.
pub open spec fn supported(m: &Matrix, p: Pos) -> bool {
    &&& m.occ(below(p)) is None ==> p.y + 1 >= m.height
    &&& m.occ(below(p)) is Some ==> spec_density(m.occ(below(p))->0.material) >= spec_density(m.occ(p)->0.material)
}

/// Overwrites the cell at `cell.pos` with a cell of the same substance.
fn rewrite_cell(matrix: &mut Matrix, cell: Cell)
    requires
        old(matrix).wf(),
        old(matrix).occ(cell.pos) is Some,
        same_substance(old(matrix).occ(cell.pos)->0, cell),
        cell.pos == old(matrix).occ(cell.pos)->0.pos,
    ensures
        moved_only(old(matrix), final(matrix)),
        final(matrix).data@ == old(matrix).data@,
        final(matrix).chunks@ == old(matrix).chunks@,
        final(matrix).occ(cell.pos) == Some(cell),
        final(matrix).cells@ == old(matrix).cells@.update(old(matrix).cell_index_at(cell.pos), cell),
        forall|x: int, y: int|
            !(x == cell.pos.x && y == cell.pos.y) ==> #[trigger] final(matrix).occupant(x, y) == old(matrix).occupant(x, y),
{
    let ghost pre = *matrix;
    proof {
        pre.lemma_occupant_pos(cell.pos.x as int, cell.pos.y as int);
        lemma_index_in_range(pre.width as int, pre.height as int, cell.pos.x as int, cell.pos.y as int);
        assert(pre.slots()[pre.index_of(cell.pos.x as int, cell.pos.y as int)] <= pre.cells_view().len());
    }
    matrix.update_cell(cell);
    proof {
        assert forall|k: int| #![trigger matrix.cells@[k]] 0 <= k < matrix.cells@.len() implies same_substance(
            pre.cells@[k],
            matrix.cells@[k],
        ) by {}
    }
}

/// Gives each of the eight neighbours of `pos` its chance to start falling.
fn disturb_neighbours(matrix: &mut Matrix, pos: Pos)
    requires
        old(matrix).wf(),
    ensures
        moved_only(old(matrix), final(matrix)),
        final(matrix).data@ == old(matrix).data@,
        final(matrix).chunks@ == old(matrix).chunks@,
        forall|k: int|
            0 <= k < final(matrix).cells@.len() ==> #[trigger] final(matrix).cells@[k] == (Cell {
                is_free_falling: final(matrix).cells@[k].is_free_falling,
                ..old(matrix).cells@[k]
            }),
{
    let ghost pre = *matrix;
    let mut dy: i64 = -1;
    while dy <= 1
        invariant
            -1 <= dy <= 2,
            matrix.wf(),
            matrix.same_settings(&pre),
            matrix.data@ == pre.data@,
            matrix.chunks@ == pre.chunks@,
            matrix.cells@.len() == pre.cells@.len(),
            forall|k: int|
                0 <= k < matrix.cells@.len() ==> #[trigger] matrix.cells@[k] == (Cell {
                    is_free_falling: matrix.cells@[k].is_free_falling,
                    ..pre.cells@[k]
                }),
        decreases 2 - dy,
    {
        let mut dx: i64 = -1;
        while dx <= 1
            invariant
                -1 <= dx <= 2,
                -1 <= dy <= 1,
                matrix.wf(),
                matrix.same_settings(&pre),
                matrix.data@ == pre.data@,
                matrix.chunks@ == pre.chunks@,
                matrix.cells@.len() == pre.cells@.len(),
                forall|k: int|
                    0 <= k < matrix.cells@.len() ==> #[trigger] matrix.cells@[k] == (Cell {
                        is_free_falling: matrix.cells@[k].is_free_falling,
                        ..pre.cells@[k]
                    }),
            decreases 2 - dx,
        {
            let x = pos.x as i64 + dx;
            let y = pos.y as i64 + dy;
            if (dx != 0 || dy != 0) && i32::MIN as i64 <= x && x <= i32::MAX as i64 && i32::MIN as i64 <= y
                && y <= i32::MAX as i64 {
                let p = Pos { x: x as i32, y: y as i32 };
                match matrix.lookup(p) {
                    Lookup::Occupied(c) => {
                        let draw = draw_below(&matrix.rng, crate::material::PROBABILITY_SCALE);
                        let mut n = c;
                        if n.attempt_free_fall(draw) {
                            proof {
                                matrix.lemma_occupant_pos(p.x as int, p.y as int);
                            }
                            let ghost before = *matrix;
                            rewrite_cell(matrix, n);
                            proof {
                                let ki = before.cell_index_at(p);
                                lemma_index_in_range(before.width as int, before.height as int, p.x as int, p.y as int);
                                assert(before.slots()[before.index_of(p.x as int, p.y as int)] <= before.cells_view().len());
                                assert(c == before.cells@[ki]);
                                assert(n == (Cell { is_free_falling: true, ..before.cells@[ki] }));
                                assert forall|k: int| 0 <= k < matrix.cells@.len() implies #[trigger] matrix.cells@[k]
                                    == (Cell { is_free_falling: matrix.cells@[k].is_free_falling, ..pre.cells@[k] }) by {
                                    assert(before.cells@[k] == (Cell {
                                        is_free_falling: before.cells@[k].is_free_falling,
                                        ..pre.cells@[k]
                                    }));
                                }
                            }
                        }
                    },
                    _ => {},
                }
            }
            dx += 1;
        }
        dy += 1;
    }
    proof {
        assert forall|k: int| #![trigger matrix.cells@[k]] 0 <= k < matrix.cells@.len() implies same_substance(
            pre.cells@[k],
            matrix.cells@[k],
        ) by {
            assert(matrix.cells@[k] == (Cell { is_free_falling: matrix.cells@[k].is_free_falling, ..pre.cells@[k] }));
        }
    }
}


/// Two grids whose slots agree and whose cells differ at most in their
/// falling flags have the same occupants, up to those flags.
pub proof fn lemma_flags_only(a: &Matrix, b: &Matrix)
    requires
        a.wf(),
        b.wf(),
        b.same_settings(a),
        b.data@ == a.data@,
        b.cells@.len() == a.cells@.len(),
        forall|k: int|
            0 <= k < b.cells@.len() ==> #[trigger] b.cells@[k] == (Cell {
                is_free_falling: b.cells@[k].is_free_falling,
                ..a.cells@[k]
            }),
    ensures
        forall|x: int, y: int|
            #![trigger b.occupant(x, y)]
            (b.occupant(x, y) is Some) == (a.occupant(x, y) is Some) && (a.occupant(x, y) is Some ==> b.occupant(x, y)->0
                == (Cell { is_free_falling: b.occupant(x, y)->0.is_free_falling, ..a.occupant(x, y)->0 })),
{
    assert forall|x: int, y: int|
        #![trigger b.occupant(x, y)]
        (b.occupant(x, y) is Some) == (a.occupant(x, y) is Some) && (a.occupant(x, y) is Some ==> b.occupant(x, y)->0
            == (Cell { is_free_falling: b.occupant(x, y)->0.is_free_falling, ..a.occupant(x, y)->0 })) by {
        if a.in_grid(x, y) {
            lemma_index_in_range(a.width as int, a.height as int, x, y);
            let s = a.slots()[a.index_of(x, y)];
            assert(s <= a.cells_view().len());
            if s != 0 {
                assert(b.cells@[s - 1] == (Cell { is_free_falling: b.cells@[s - 1].is_free_falling, ..a.cells@[s - 1] }));
            }
        }
    }
}

/// Clamps a wide coordinate into `i32`.
fn clamp_to_i32(v: i64) -> (r: i32)
    ensures
        r == (if v < i32::MIN { i32::MIN as int } else if v > i32::MAX { i32::MAX as int } else { v as int }),
{
    if v < i32::MIN as i64 {
        i32::MIN
    } else if v > i32::MAX as i64 {
        i32::MAX
    } else {
        v as i32
    }
}

/// Two grids of one size holding cells of the same materials at the same
/// positions.
pub open spec fn same_layout(a: &Matrix, b: &Matrix) -> bool {
    &&& a.width == b.width
    &&& a.height == b.height
    &&& forall|x: int, y: int|
        #![trigger b.occupant(x, y)]
        (b.occupant(x, y) is Some) == (a.occupant(x, y) is Some) && (a.occupant(x, y) is Some ==> b.occupant(x, y)->0.material
            == a.occupant(x, y)->0.material)
}

pub proof fn lemma_same_layout_trans(a: &Matrix, b: &Matrix, c: &Matrix)
    requires
        same_layout(a, b),
        same_layout(b, c),
    ensures
        same_layout(a, c),
{
    assert forall|x: int, y: int|
        #![trigger c.occupant(x, y)]
        (c.occupant(x, y) is Some) == (a.occupant(x, y) is Some) && (a.occupant(x, y) is Some ==> c.occupant(x, y)->0.material
            == a.occupant(x, y)->0.material) by {
        assert(b.occupant(x, y) == b.occupant(x, y));
    }
}

/// The walk depends only on which materials stand where.
pub proof fn lemma_walk_target_layout(
    a: &Matrix,
    b: &Matrix,
    mat: Material,
    pts: Seq<(i32, i32)>,
    i: int,
    start: Pos,
    best: Pos,
    obstacles: int,
    diagonal: bool,
)
    requires
        same_layout(a, b),
    ensures
        walk_target(a, mat, pts, i, start, best, obstacles, diagonal) == walk_target(
            b,
            mat,
            pts,
            i,
            start,
            best,
            obstacles,
            diagonal,
        ),
    decreases pts.len() - i,
{
    if 0 <= i < pts.len() {
        let p = at_point(pts, i);
        assert(b.occupant(p.x as int, p.y as int) == b.occupant(p.x as int, p.y as int));
        if p == start {
            lemma_walk_target_layout(a, b, mat, pts, i + 1, start, best, obstacles, diagonal);
        } else if a.in_grid(p.x as int, p.y as int) {
            match a.occ(p) {
                None => lemma_walk_target_layout(a, b, mat, pts, i + 1, start, p, obstacles, diagonal),
                Some(c) => {
                    let bb = if spec_density(c.material) < spec_density(mat) {
                        p
                    } else {
                        best
                    };
                    lemma_walk_target_layout(a, b, mat, pts, i + 1, start, bb, obstacles + 1, diagonal);
                },
            }
        }
    }
}

pub proof fn lemma_try_move_target_layout(a: &Matrix, b: &Matrix, from: Pos, to: Pos, diagonal: bool)
    requires
        same_layout(a, b),
        a.occ(from) is Some,
    ensures
        try_move_target(a, from, to, diagonal) == try_move_target(b, from, to, diagonal),
{
    assert(b.occupant(from.x as int, from.y as int) == b.occupant(from.x as int, from.y as int));
    let end = a.clamped(to);
    lemma_walk_target_layout(
        a,
        b,
        a.occ(from)->0.material,
        walk_grid_points(from.x as int, from.y as int, end.x as int, end.y as int),
        0,
        from,
        from,
        0,
        diagonal,
    );
}

/// The position one row below `p` and `disp` to the left (when `left`) or to
/// the right.
pub open spec fn diagonal_below(p: Pos, left: bool, disp: int) -> Pos {
    Pos { x: (if left { p.x - disp } else { p.x + disp }) as i32, y: (p.y + 1) as i32 }
}

/// Where a falling cell that hit something slides: the diagonal on the side
/// it moves to (left when it already moves left or `coin` says so), and
/// failing that the other diagonal.
pub open spec fn bounce_target(m: &Matrix, pos: Pos, coin: bool) -> Pos {
    let c = m.occ(pos)->0;
    let left = c.velocity.x < 0 || coin;
    let d = spec_dispersion(c.material) as int;
    let t1 = try_move_target(m, pos, diagonal_below(pos, left, d), true);
    if t1 != pos {
        t1
    } else {
        try_move_target(m, pos, diagonal_below(pos, !left, d), true)
    }
}

/// Integer division rounding towards zero.
pub open spec fn trunc_div(a: int, d: int) -> int {
    if a >= 0 {
        a / d
    } else {
        -((-a) / d)
    }
}

fn trunc_div_exec(a: i64, d: i64) -> (r: i64)
    requires
        d > 1,
    ensures
        r == trunc_div(a as int, d as int),
{
    if a >= 0 {
        a / d
    } else {
        (-((-(a as i128)) / (d as i128))) as i64
    }
}

/// The velocity of a falling cell that hit something: a true movable solid
/// bounces, turning a quarter of its fall sideways (left when `left`) and a
/// tenth of it back up; anything else just stops falling.
pub open spec fn bounced(v: Velocity, left: bool, solid: bool) -> Velocity {
    if solid {
        Velocity {
            x: (if left { -trunc_div(v.y as int, 4) } else { trunc_div(v.y as int, 4) }) as i64,
            y: (-trunc_div(v.y as int, 10)) as i64,
        }
    } else {
        Velocity { x: v.x, y: 0 }
    }
}

/// What an exchange or a move left at the position a cell came from: nothing,
/// or a lighter cell.
pub open spec fn vacated(m: &Matrix, p: Pos, mat: Material) -> bool {
    m.occ(p) is None || spec_density(m.occ(p)->0.material) < spec_density(mat)
}

/// The step of sand-like cells, and the first part of a liquid's: fall
/// straight down by the rounded vertical velocity, at least one row;
/// failing that, a settled cell stops, and a falling one bounces and slides
/// diagonally down, first to the left when it already moves left or `coin`
/// says so, else first to the right. Returns the cell's new position.
#[verifier::rlimit(100)]
pub fn movable_solid_step(matrix: &mut Matrix, pos: Pos, coin: bool) -> (r: Pos)
    requires
        old(matrix).wf(),
        old(matrix).occ(pos) is Some,
    ensures
        moved_only(old(matrix), final(matrix)),
        final(matrix).occ(r) is Some,
        final(matrix).occ(r)->0.material == old(matrix).occ(pos)->0.material,
        // It never rises, and never moves more than one row off a straight
        // fall.
        r.y >= pos.y,
        r != pos ==> vacated(final(matrix), pos, old(matrix).occ(pos)->0.material),
        // With room below (empty or lighter), it falls straight down.
        enterable(old(matrix), old(matrix).occ(pos)->0.material, below(pos)) ==> r != pos && r.x == pos.x && r.y
            > pos.y && final(matrix).occ(r)->0.is_free_falling,
        // A settled cell resting on the floor or on a cell that is not
        // lighter stays where it is, stops, and nothing else changes.
        !old(matrix).occ(pos)->0.is_free_falling && supported(old(matrix), pos) ==> r == pos && final(matrix).data@
            == old(matrix).data@ && final(matrix).chunks@ == old(matrix).chunks@ && final(matrix).cells@ == old(matrix).cells@.update(
            old(matrix).cell_index_at(pos),
            Cell { velocity: Velocity { x: 0, y: 0 }, ..old(matrix).occ(pos)->0 },
        ),
        // A falling cell that is supported bounces, and may slide one row
        // down diagonally.
        old(matrix).occ(pos)->0.is_free_falling && supported(old(matrix), pos) ==> final(matrix).occ(r)->0.velocity
            == bounced(
            old(matrix).occ(pos)->0.velocity,
            old(matrix).occ(pos)->0.velocity.x < 0 || coin,
            spec_type(old(matrix).occ(pos)->0.material) == MaterialType::MovableSolid,
        ) && r.y <= pos.y + 1 && r == bounce_target(old(matrix), pos, coin),
        // It moves sideways by at most its dispersion.
        abs_int(r.x - pos.x) <= spec_dispersion(old(matrix).occ(pos)->0.material),
        // A cell that is not a true movable solid and stays has stopped
        // falling.
        r == pos && spec_type(old(matrix).occ(pos)->0.material) != MaterialType::MovableSolid ==> final(matrix).occ(
            pos,
        )->0.velocity.y == 0,
{
    let ghost pre = *matrix;
    let cell = matrix.get_cell_by_pos(pos);
    proof {
        pre.lemma_occupant_pos(pos.x as int, pos.y as int);
        pre.lemma_occupant_pos(pos.x as int, pos.y as int + 1);
    }
    let is_movable_solid = cell.material.get_type() == MaterialType::MovableSolid;
    let rounded = round_velocity_exec(cell.velocity.y);
    let dy: i64 = if rounded < 1 {
        1
    } else {
        rounded
    };
    let bottom = Pos { x: pos.x, y: clamp_to_i32(pos.y as i64 + dy) };
    if cell.is_free_falling {
        disturb_neighbours(matrix, pos);
        proof {
            lemma_flags_only(&pre, matrix);
            assert(matrix.occupant(pos.x as int, pos.y as int) == matrix.occupant(pos.x as int, pos.y as int));
            assert(matrix.occupant(pos.x as int, (pos.y + 1) as i32 as int) == matrix.occupant(
                pos.x as int,
                (pos.y + 1) as i32 as int,
            ));
        }
    }
    let ghost mid = *matrix;
    proof {
        if !cell.is_free_falling {
            assert(mid == pre);
        }
        assert(moved_only(&pre, &mid));
        assert(mid.occ(pos)->0.material == cell.material);
        assert(mid.occ(pos)->0.velocity == cell.velocity);
        assert(enterable(&pre, cell.material, below(pos)) == enterable(&mid, cell.material, below(pos)));
        assert(supported(&pre, pos) == supported(&mid, pos));
        assert(same_layout(&pre, &mid));
    }
    let moved = try_move(matrix, pos, bottom, false);
    let ghost after_fall = *matrix;
    proof {
        lemma_moved_only_trans(&pre, &mid, &after_fall);
    }
    if moved != pos {
        let mut c = matrix.get_cell_by_pos(moved);
        proof {
            after_fall.lemma_occupant_pos(moved.x as int, moved.y as int);
        }
        c.is_free_falling = true;
        rewrite_cell(matrix, c);
        proof {
            lemma_moved_only_trans(&pre, &after_fall, matrix);
            assert(matrix.occupant(pos.x as int, pos.y as int) == after_fall.occupant(pos.x as int, pos.y as int));
        }
        return moved;
    }
    let left = cell.velocity.x < 0 || coin;
    let mut c = matrix.get_cell_by_pos(pos);
    if !cell.is_free_falling {
        c.velocity = Velocity { x: 0, y: 0 };
        rewrite_cell(matrix, c);
        proof {
            lemma_moved_only_trans(&pre, &after_fall, matrix);
        }
        return pos;
    }
    if is_movable_solid {
        let vx = trunc_div_exec(c.velocity.y, 4);
        c.velocity.x = if left {
            -vx
        } else {
            vx
        };
        c.velocity.y = -trunc_div_exec(c.velocity.y, 10);
    } else {
        c.velocity.y = 0;
    }
    rewrite_cell(matrix, c);
    let ghost after_bounce = *matrix;
    proof {
        lemma_moved_only_trans(&pre, &after_fall, &after_bounce);
    }
    matrix.set_chunk_active(pos);
    let ghost marked = *matrix;
    proof {
        assert(moved_only(&after_bounce, &marked));
        lemma_moved_only_trans(&pre, &after_bounce, &marked);
        assert(marked.occupant(pos.x as int, pos.y as int) == after_bounce.occupant(pos.x as int, pos.y as int));
        assert(same_layout(&mid, &after_fall));
        assert forall|x: int, y: int|
            #![trigger marked.occupant(x, y)]
            (marked.occupant(x, y) is Some) == (after_fall.occupant(x, y) is Some) && (after_fall.occupant(x, y) is Some
                ==> marked.occupant(x, y)->0.material == after_fall.occupant(x, y)->0.material) by {
            assert(marked.occupant(x, y) == after_bounce.occupant(x, y));
            if !(x == pos.x && y == pos.y) {
                assert(after_bounce.occupant(x, y) == after_fall.occupant(x, y));
            }
        }
        lemma_same_layout_trans(&pre, &mid, &after_fall);
        lemma_same_layout_trans(&pre, &after_fall, &marked);
    }
    let disp = c.material.get_dispersion() as i32;
    let first = Pos {
        x: if left {
            pos.x - disp
        } else {
            pos.x + disp
        },
        y: pos.y + 1,
    };
    let second = Pos {
        x: if left {
            pos.x + disp
        } else {
            pos.x - disp
        },
        y: pos.y + 1,
    };
    proof {
        assert(first == diagonal_below(pos, left, spec_dispersion(cell.material) as int));
        assert(second == diagonal_below(pos, !left, spec_dispersion(cell.material) as int));
        lemma_try_move_target_layout(&pre, &marked, pos, first, true);
        lemma_try_move_target_layout(&pre, &marked, pos, second, true);
    }
    let m1 = try_move(matrix, pos, first, true);
    proof {
        lemma_moved_only_trans(&pre, &marked, matrix);
    }
    if m1 != pos {
        return m1;
    }
    let ghost before_second = *matrix;
    proof {
        assert(before_second.cells@ == marked.cells@ && before_second.data@ == marked.data@);
        assert forall|x: int, y: int| true implies #[trigger] before_second.occupant(x, y) == marked.occupant(x, y) by {}
        assert(same_layout(&marked, &before_second));
        lemma_try_move_target_layout(&marked, &before_second, pos, second, true);
    }
    let m2 = try_move(matrix, pos, second, true);
    proof {
        lemma_moved_only_trans(&pre, &before_second, matrix);
    }
    m2
}

/// The row neighbour of `p` on the left when `left`, else on the right.
pub open spec fn side_neighbour(p: Pos, left: bool) -> Pos {
    Pos { x: (if left { p.x - 1 } else { p.x + 1 }) as i32, y: p.y }
}

/// The step of liquids: the movable-solid step with `coin`; failing that, a
/// sideways move by the dispersion, to the left when `go_left`.
pub fn liquid_step(matrix: &mut Matrix, pos: Pos, coin: bool, go_left: bool) -> (r: Pos)
    requires
        old(matrix).wf(),
        old(matrix).occ(pos) is Some,
    ensures
        moved_only(old(matrix), final(matrix)),
        final(matrix).occ(r) is Some,
        final(matrix).occ(r)->0.material == old(matrix).occ(pos)->0.material,
        r != pos ==> vacated(final(matrix), pos, old(matrix).occ(pos)->0.material),
        // With room below, it falls straight down.
        enterable(old(matrix), old(matrix).occ(pos)->0.material, below(pos)) ==> r != pos && r.x == pos.x && r.y
            > pos.y && final(matrix).occ(r)->0.is_free_falling,
        // A liquid never rises and moves sideways by at most its dispersion;
        // where the falling part leaves it in place, it keeps to its row.
        spec_type(old(matrix).occ(pos)->0.material) == MaterialType::Liquid ==> r.y >= pos.y && abs_int(r.x - pos.x)
            <= spec_dispersion(old(matrix).occ(pos)->0.material),
        spec_type(old(matrix).occ(pos)->0.material) == MaterialType::Liquid && supported(old(matrix), pos) && (
        !old(matrix).occ(pos)->0.is_free_falling || bounce_target(old(matrix), pos, coin) == pos) ==> r.y == pos.y,
        // Settled on something, with room beside it on the chosen side, it
        // spreads along its row by at most its dispersion.
        !old(matrix).occ(pos)->0.is_free_falling && supported(old(matrix), pos) && spec_dispersion(
            old(matrix).occ(pos)->0.material,
        ) >= 1 && enterable(old(matrix), old(matrix).occ(pos)->0.material, side_neighbour(pos, go_left)) ==> r
            != pos && r.y == pos.y && (if go_left {
            pos.x - spec_dispersion(old(matrix).occ(pos)->0.material) <= r.x < pos.x
        } else {
            pos.x < r.x <= pos.x + spec_dispersion(old(matrix).occ(pos)->0.material)
        }),
{
    let ghost pre = *matrix;
    proof {
        pre.lemma_occupant_pos(pos.x as int, pos.y as int);
    }
    let moved = movable_solid_step(matrix, pos, coin);
    if moved != pos {
        return moved;
    }
    let ghost mid = *matrix;
    let c = matrix.get_cell_by_pos(pos);
    let disp = c.material.get_dispersion() as i64;
    let offset: i64 = if go_left {
        -disp
    } else {
        disp
    };
    let dy = round_velocity_exec(c.velocity.y);
    let target = Pos { x: clamp_to_i32(pos.x as i64 + offset), y: clamp_to_i32(pos.y as i64 + dy) };
    proof {
        let mat = pre.occ(pos)->0.material;
        mid.lemma_occupant_pos(pos.x as int, pos.y as int);
        if spec_type(mat) == MaterialType::Liquid {
            assert(c.velocity.y == 0);
            assert(dy == 0);
        }
        if !pre.occ(pos)->0.is_free_falling && supported(&pre, pos) && spec_dispersion(mat) >= 1 && enterable(
            &pre,
            mat,
            side_neighbour(pos, go_left),
        ) {
            let n = side_neighbour(pos, go_left);
            assert(mid.data@ == pre.data@);
            assert(mid.occupant(n.x as int, n.y as int) is None == pre.occupant(n.x as int, n.y as int) is None);
            lemma_index_in_range(pre.width as int, pre.height as int, pos.x as int, pos.y as int);
            assert(pre.slots()[pre.index_of(pos.x as int, pos.y as int)] <= pre.cells_view().len());
            if pre.occupant(n.x as int, n.y as int) is Some {
                lemma_index_in_range(pre.width as int, pre.height as int, n.x as int, n.y as int);
                assert(pre.slots()[pre.index_of(n.x as int, n.y as int)] <= pre.cells_view().len());
                assert(mid.occupant(n.x as int, n.y as int)->0.material == pre.occupant(n.x as int, n.y as int)->0.material);
            }
            assert(c.velocity.y == 0);
            assert(step_towards(pos, target) == n);
        }
    }
    let r = try_move(matrix, pos, target, false);
    let ghost after = *matrix;
    proof {
        lemma_moved_only_trans(&pre, &mid, &after);
    }
    if r != pos {
        matrix.set_chunk_active(r);
        proof {
            assert(moved_only(&after, matrix));
            lemma_moved_only_trans(&pre, &after, matrix);
            assert(matrix.occupant(r.x as int, r.y as int) == after.occupant(r.x as int, r.y as int));
            assert(matrix.occupant(pos.x as int, pos.y as int) == after.occupant(pos.x as int, pos.y as int));
            assert(mid.occ(pos)->0.material == pre.occ(pos)->0.material);
        }
    }
    r
}

/// The step of gases, the movable-solid step upside down: rise straight up,
/// failing that diagonally up by the dispersion, to the right first when
/// `right_first`, else to the left first.
pub fn gas_step(matrix: &mut Matrix, pos: Pos, right_first: bool) -> (r: Pos)
    requires
        old(matrix).wf(),
        old(matrix).occ(pos) is Some,
    ensures
        moved_only(old(matrix), final(matrix)),
        final(matrix).occ(r) is Some,
        final(matrix).occ(r)->0.material == old(matrix).occ(pos)->0.material,
        // A gas never sinks.
        r.y <= pos.y,
        // It rises into an empty position right above.
        old(matrix).in_grid(pos.x as int, pos.y - 1) && old(matrix).occ(above(pos)) is None ==> r == above(pos)
            && final(matrix).occ(pos) is None,
{
    let ghost pre = *matrix;
    proof {
        pre.lemma_occupant_pos(pos.x as int, pos.y as int);
    }
    let up = Pos { x: pos.x, y: pos.y - 1 };
    proof {
        assert(step_towards(pos, up) == above(pos));
    }
    let r = try_move(matrix, pos, up, false);
    if r != pos {
        return r;
    }
    let ghost mid = *matrix;
    let c = matrix.get_cell_by_pos(pos);
    let disp = c.material.get_dispersion() as i32;
    let up_left = Pos { x: pos.x - disp, y: pos.y - 1 };
    let up_right = Pos { x: pos.x + disp, y: pos.y - 1 };
    let first = if right_first {
        up_right
    } else {
        up_left
    };
    let second = if right_first {
        up_left
    } else {
        up_right
    };
    let m1 = try_move(matrix, pos, first, true);
    proof {
        lemma_moved_only_trans(&pre, &mid, matrix);
    }
    if m1 != pos {
        return m1;
    }
    let ghost before_second = *matrix;
    let m2 = try_move(matrix, pos, second, true);
    proof {
        lemma_moved_only_trans(&pre, &before_second, matrix);
    }
    m2
}

/// A cell with health that has not burnt since the last frame: its step
/// moves it at most.
pub open spec fn handled_calmly(c: Cell) -> bool {
    c.hp > 0 && !(c.was_on_fire_last_frame && c.is_on_fire)
}

/// A cell with health that has burnt since the last frame: it takes a fire
/// step.
pub open spec fn burns_now(c: Cell) -> bool {
    c.hp > 0 && c.was_on_fire_last_frame && c.is_on_fire
}

/// Runs the rules for the cell at `pos` and returns where it ends: a cell
/// without health is removed (and `pos` returned); a cell that has burnt
/// since the last frame takes a fire step; then the cell moves as its
/// material's kind says, with coins drawn here (solids and `Empty` stay).
#[verifier::rlimit(40)]
pub fn handle_cell(matrix: &mut Matrix, pos: Pos, assets: &Assets) -> (r: Pos)
    requires
        old(matrix).wf(),
        assets.wf(),
        old(matrix).occ(pos) is Some,
    ensures
        final(matrix).wf(),
        final(matrix).same_settings(old(matrix)),
        only_marks(old(matrix).chunks@, final(matrix).chunks@),
        old(matrix).occ(pos)->0.hp == 0 ==> r == pos && final(matrix).occ(pos) is None && final(matrix).cells@.len()
            + 1 == old(matrix).cells@.len(),
        old(matrix).occ(pos)->0.hp > 0 ==> final(matrix).occ(r) is Some && final(matrix).occ(r)->0.material == old(matrix).occ(pos)->0.material,
        handled_calmly(old(matrix).occ(pos)->0) ==> moved_only(old(matrix), final(matrix)),
        // Solids stay, and nothing changes.
        handled_calmly(old(matrix).occ(pos)->0) && (spec_type(old(matrix).occ(pos)->0.material) == MaterialType::Solid
            || spec_type(old(matrix).occ(pos)->0.material) == MaterialType::Empty) ==> r == pos && final(matrix).cells@
            == old(matrix).cells@ && final(matrix).data@ == old(matrix).data@ && final(matrix).chunks@ == old(matrix).chunks@,
        // Sand-like cells and liquids with room below fall straight down.
        handled_calmly(old(matrix).occ(pos)->0) && (spec_type(old(matrix).occ(pos)->0.material)
            == MaterialType::MovableSolid || spec_type(old(matrix).occ(pos)->0.material) == MaterialType::Liquid)
            && enterable(old(matrix), old(matrix).occ(pos)->0.material, below(pos)) ==> r.x == pos.x && r.y > pos.y
            && vacated(final(matrix), pos, old(matrix).occ(pos)->0.material) && final(matrix).occ(r)->0.is_free_falling,
        // A gas with an empty position right above rises into it.
        handled_calmly(old(matrix).occ(pos)->0) && spec_type(old(matrix).occ(pos)->0.material) == MaterialType::Gas
            && old(matrix).in_grid(pos.x as int, pos.y - 1) && old(matrix).occ(above(pos)) is None ==> r == above(pos)
            && final(matrix).occ(pos) is None,
        // Away from quenchers, a burning cell takes no cell away and adds
        // none.
        burns_now(old(matrix).occ(pos)->0) && spec_type(old(matrix).occ(pos)->0.material) == MaterialType::Solid
            && !quencher_near(old(matrix), pos) ==> final(matrix).cells@.len() == old(matrix).cells@.len(),
        // A burning solid takes its fire step and stays.
        burns_now(old(matrix).occ(pos)->0) && spec_type(old(matrix).occ(pos)->0.material) == MaterialType::Solid
            ==> r == pos && final(matrix).occ(pos) == Some(
            Cell {
                hp: burn_once(old(matrix).occ(pos)->0.hp),
                is_on_fire: !quencher_near(old(matrix), pos),
                ..old(matrix).occ(pos)->0
            },
        ),
{
    let ghost pre = *matrix;
    proof {
        pre.lemma_occupant_pos(pos.x as int, pos.y as int);
    }
    let cell = matrix.get_cell_by_pos(pos);
    if cell.hp == 0 {
        matrix.set_cell_material(pos, Material::Empty, false, assets);
        return pos;
    }
    if cell.was_on_fire_last_frame && cell.is_on_fire {
        fire_step(matrix, pos, assets);
    }
    let ghost mid = *matrix;
    proof {
        if !(cell.was_on_fire_last_frame && cell.is_on_fire) {
            assert(mid == pre);
            assert(kept_substance(pre.cells@, mid.cells@));
        }
        assert(mid.occ(pos) is Some);
        mid.lemma_occupant_pos(pos.x as int, pos.y as int);
    }
    let kind = cell.material.get_type();
    let r = match kind {
        MaterialType::MovableSolid => {
            let coin = draw_below(&matrix.rng, crate::material::PROBABILITY_SCALE) < crate::material::PROBABILITY_SCALE / 2;
            movable_solid_step(matrix, pos, coin)
        },
        MaterialType::Liquid => {
            let coin = draw_below(&matrix.rng, crate::material::PROBABILITY_SCALE) < crate::material::PROBABILITY_SCALE / 2;
            let go_left = crate::random::rand_multiplier(&matrix.rng) < 0;
            liquid_step(matrix, pos, coin, go_left)
        },
        MaterialType::Gas => {
            let right_first = draw_below(&matrix.rng, crate::material::PROBABILITY_SCALE)
                > crate::material::PROBABILITY_SCALE / 2;
            gas_step(matrix, pos, right_first)
        },
        _ => pos,
    };
    proof {
        lemma_only_marks_trans(pre.chunks@, mid.chunks@, matrix.chunks@);
        if !(cell.was_on_fire_last_frame && cell.is_on_fire) {
            lemma_moved_only_trans(&pre, &mid, matrix);
        }
        assert(cell == pre.occ(pos)->0);
        if cell.was_on_fire_last_frame && cell.is_on_fire && kind == MaterialType::Solid {
            assert(*matrix == mid);
            assert(burn_once(cell.hp) == (if cell.hp > 0 { cell.hp - 1 } else { 0 }) as u64);
        }
        if !(cell.was_on_fire_last_frame && cell.is_on_fire) && kind == MaterialType::Gas {
            assert(mid == pre);
        }
    }
    r
}

} // verus!
