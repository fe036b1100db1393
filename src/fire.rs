use vstd::prelude::*;
use crate::assets::Assets;
use crate::cell::{Cell, Pos, fresh_cell, burn_once};
use crate::material::{Material, MaterialType, PROBABILITY_SCALE, spec_extinguishes, spec_flammability, spec_protects, spec_type};
use crate::matrix::{Matrix, Lookup, in_reach, only_marks, lemma_only_marks_trans, lemma_index_in_range};
use crate::random::{draw_below, shuffle_indices};

verus! {

/// How far a fire reaches for cells to ignite or to be put out by.
pub const FIRE_RADIUS: i32 = 2;

/// How far a protecting cell shields others from catching fire.
pub const PROTECTION_RADIUS: i32 = 5;

/// Whether a cell that protects from fire lies within the protection radius
/// of `p`.
pub open spec fn protected(m: &Matrix, p: Pos) -> bool {
    exists|x: int, y: int|
        in_reach(p, PROTECTION_RADIUS as int, x, y) && #[trigger] m.occupant(x, y) is Some && spec_protects(
            m.occupant(x, y)->0.material,
        )
}

/// Whether `(x, y)` holds a cell that puts out a fire at `pos`.
pub open spec fn quencher_at(m: &Matrix, pos: Pos, x: int, y: int) -> bool {
    &&& in_reach(pos, FIRE_RADIUS as int, x, y)
    &&& !(x == pos.x && y == pos.y)
    &&& m.occupant(x, y) is Some
    &&& spec_extinguishes(m.occupant(x, y)->0.material).0
}

/// Whether some cell near `pos` puts out a fire there.
pub open spec fn quencher_near(m: &Matrix, pos: Pos) -> bool {
    exists|x: int, y: int| #[trigger] quencher_at(m, pos, x, y)
}

/// Whether the cell at `(x, y)` may catch fire from a fire at `pos`.
pub open spec fn ignitable(m: &Matrix, pos: Pos, x: int, y: int) -> bool {
    &&& in_reach(pos, FIRE_RADIUS as int, x, y)
    &&& !(x == pos.x && y == pos.y)
    &&& m.occupant(x, y) is Some
    &&& spec_flammability(m.occupant(x, y)->0.material) > 0
    &&& !protected(m, Pos { x: x as i32, y: y as i32 })
}

/// Health rounded after keeping `pct` percent of it.
pub open spec fn scaled_hp(hp: u64, pct: u64) -> int {
    (hp as int * pct as int + 50) / 100
}

/// Whether a cell that protects from fire lies near `p`.
pub fn has_protection(matrix: &Matrix, p: Pos) -> (r: bool)
    requires
        matrix.wf(),
    ensures
        r == protected(matrix, p),
{
    let guards = matrix.get_neighbor_cells(p, PROTECTION_RADIUS);
    let mut i: usize = 0;
    while i < guards.len()
        invariant
            matrix.wf(),
            i <= guards@.len(),
            forall|j: int| 0 <= j < i ==> !spec_protects((#[trigger] guards@[j]).material),
            forall|j: int|
                0 <= j < guards@.len() ==> matrix.occ(#[trigger] guards@[j].pos) == Some(guards@[j]) && in_reach(
                    p,
                    PROTECTION_RADIUS as int,
                    guards@[j].pos.x as int,
                    guards@[j].pos.y as int,
                ),
            forall|x: int, y: int|
                in_reach(p, PROTECTION_RADIUS as int, x, y) && #[trigger] matrix.occupant(x, y) is Some
                    ==> guards@.contains(matrix.occupant(x, y)->0),
        decreases guards@.len() - i,
    {
        if guards[i].material.protects_from_fire() {
            proof {
                let g = guards@[i as int];
                assert(matrix.occ(g.pos) == Some(g));
                assert(matrix.occupant(g.pos.x as int, g.pos.y as int) is Some);
                assert(in_reach(p, PROTECTION_RADIUS as int, g.pos.x as int, g.pos.y as int));
                assert(spec_protects(matrix.occupant(g.pos.x as int, g.pos.y as int)->0.material));
            }
            return true;
        }
        i += 1;
    }
    proof {
        if protected(matrix, p) {
            let (x, y) = choose|x: int, y: int|
                in_reach(p, PROTECTION_RADIUS as int, x, y) && #[trigger] matrix.occupant(x, y) is Some && spec_protects(
                    matrix.occupant(x, y)->0.material,
                );
            assert(guards@.contains(matrix.occupant(x, y)->0));
            let j = choose|j: int| 0 <= j < guards@.len() && guards@[j] == matrix.occupant(x, y)->0;
            assert(!spec_protects(guards@[j].material));
        }
    }
    false
}


/// Gathers the cells near the fire at `pos`, a random order that visits each
/// of them once, and a random draw for each.
fn draw_fire_scan(matrix: &Matrix, pos: Pos) -> (r: (Vec<Cell>, Vec<usize>, Vec<u32>))
    requires
        matrix.wf(),
    ensures
        r.2@.len() == r.0@.len(),
        forall|u: int| 0 <= u < r.1@.len() ==> #[trigger] r.1@[u] < r.0@.len(),
        forall|k: int| 0 <= k < r.0@.len() ==> #[trigger] r.1@.contains(k as usize),
        forall|j: int|
            0 <= j < r.0@.len() ==> matrix.occ(#[trigger] r.0@[j].pos) == Some(r.0@[j]) && in_reach(
                pos,
                FIRE_RADIUS as int,
                r.0@[j].pos.x as int,
                r.0@[j].pos.y as int,
            ),
        forall|x: int, y: int|
            in_reach(pos, FIRE_RADIUS as int, x, y) && #[trigger] matrix.occupant(x, y) is Some ==> r.0@.contains(
                matrix.occupant(x, y)->0,
            ),
{
    let neighbors = matrix.get_neighbor_cells(pos, FIRE_RADIUS);
    let n = neighbors.len();
    let mut draws: Vec<u32> = Vec::new();
    let mut order: Vec<usize> = Vec::new();
    let mut i: usize = 0;
    while i < n
        invariant
            n == neighbors@.len(),
            i <= n,
            draws@.len() == i,
            order@.len() == i,
            forall|j: int| 0 <= j < i ==> #[trigger] order@[j] == j,
        decreases n - i,
    {
        draws.push(draw_below(&matrix.rng, PROBABILITY_SCALE));
        order.push(i);
        i += 1;
    }
    let ghost init = order@;
    shuffle_indices(&matrix.rng, &mut order);
    proof {
        order@.to_multiset_ensures();
        init.to_multiset_ensures();
        assert forall|t: int| 0 <= t < order@.len() implies #[trigger] order@[t] < n by {
            assert(order@.contains(order@[t]));
            assert(init.to_multiset().count(order@[t]) > 0);
            assert(init.contains(order@[t]));
        }
        assert forall|k: int| 0 <= k < n implies #[trigger] order@.contains(k as usize) by {
            assert(init[k] == k as usize);
            assert(init.contains(k as usize));
            assert(init.to_multiset().count(k as usize) > 0);
            assert(order@.to_multiset().count(k as usize) > 0);
        }
    }
    (neighbors, order, draws)
}

/// What the scan of the fire at `pos` finds, visiting `nb` in `order` from
/// the `t`-th entry on with the draws `draws`: a cell that puts out fire
/// ends the scan and is returned with the share of health it keeps; before
/// it, each unprotected, not yet burning cell whose flammability beats its
/// draw is queued to catch fire. The fire's own cell is passed over.
pub open spec fn fire_scan(
    m: &Matrix,
    pos: Pos,
    nb: Seq<Cell>,
    order: Seq<usize>,
    draws: Seq<u32>,
    t: int,
) -> (Option<(Pos, u64)>, Seq<Pos>)
    decreases order.len() - t,
{
    if t < 0 || t >= order.len() {
        (None, Seq::empty())
    } else {
        let c = nb[order[t] as int];
        let rest = fire_scan(m, pos, nb, order, draws, t + 1);
        if c.pos == pos {
            rest
        } else if spec_extinguishes(c.material).0 {
            (Some((c.pos, spec_extinguishes(c.material).1)), Seq::empty())
        } else if !c.is_on_fire && draws[order[t] as int] < spec_flammability(c.material) && !protected(m, c.pos) {
            (rest.0, seq![c.pos] + rest.1)
        } else {
            rest
        }
    }
}

/// Scans the cells near the fire at `pos`, in `order` and with one draw per
/// cell, as `fire_scan` says.
pub fn select_fire_targets(
    matrix: &Matrix,
    pos: Pos,
    neighbors: &Vec<Cell>,
    order: &Vec<usize>,
    draws: &Vec<u32>,
) -> (r: (Option<(Pos, u64)>, Vec<Pos>))
    requires
        matrix.wf(),
        draws@.len() == neighbors@.len(),
        forall|u: int| 0 <= u < order@.len() ==> #[trigger] order@[u] < neighbors@.len(),
        forall|j: int|
            0 <= j < neighbors@.len() ==> matrix.occ(#[trigger] neighbors@[j].pos) == Some(neighbors@[j]) && in_reach(
                pos,
                FIRE_RADIUS as int,
                neighbors@[j].pos.x as int,
                neighbors@[j].pos.y as int,
            ),
    ensures
        r.0 == fire_scan(matrix, pos, neighbors@, order@, draws@, 0).0,
        r.1@ == fire_scan(matrix, pos, neighbors@, order@, draws@, 0).1,
        r.0 matches Some((q, pct)) ==> quencher_at(matrix, pos, q.x as int, q.y as int) && pct == spec_extinguishes(
            matrix.occ(q)->0.material,
        ).1,
        r.0 is None ==> forall|u: int|
            0 <= u < order@.len() ==> (#[trigger] neighbors@[order@[u] as int]).pos == pos || !spec_extinguishes(
                neighbors@[order@[u] as int].material,
            ).0,
        forall|s: int|
            0 <= s < r.1@.len() ==> ignitable(matrix, pos, (#[trigger] r.1@[s]).x as int, r.1@[s].y as int)
                && !matrix.occ(r.1@[s])->0.is_on_fire,
{
    let n = order.len();
    let mut ext: Option<(Pos, u64)> = None;
    let mut spread: Vec<Pos> = Vec::new();
    let mut t: usize = 0;
    while t < n && ext.is_none()
        invariant
            matrix.wf(),
            n == order@.len(),
            draws@.len() == neighbors@.len(),
            t <= n,
            forall|u: int| 0 <= u < order@.len() ==> #[trigger] order@[u] < neighbors@.len(),
            ext is None ==> fire_scan(matrix, pos, neighbors@, order@, draws@, 0) == (
                fire_scan(matrix, pos, neighbors@, order@, draws@, t as int).0,
                spread@ + fire_scan(matrix, pos, neighbors@, order@, draws@, t as int).1,
            ),
            ext is Some ==> fire_scan(matrix, pos, neighbors@, order@, draws@, 0) == (ext, spread@),
            forall|j: int|
                0 <= j < neighbors@.len() ==> matrix.occ(#[trigger] neighbors@[j].pos) == Some(neighbors@[j]) && in_reach(
                    pos,
                    FIRE_RADIUS as int,
                    neighbors@[j].pos.x as int,
                    neighbors@[j].pos.y as int,
                ),
            ext is None ==> forall|u: int|
                0 <= u < t ==> (#[trigger] neighbors@[order@[u] as int]).pos == pos || !spec_extinguishes(
                    neighbors@[order@[u] as int].material,
                ).0,
            ext matches Some((q, pct)) ==> quencher_at(matrix, pos, q.x as int, q.y as int) && pct
                == spec_extinguishes(matrix.occ(q)->0.material).1,
            forall|s: int|
                0 <= s < spread@.len() ==> ignitable(matrix, pos, (#[trigger] spread@[s]).x as int, spread@[s].y as int)
                    && !matrix.occ(spread@[s])->0.is_on_fire,
        decreases n - t,
    {
        let k = order[t];
        let nc = neighbors[k];
        proof {
            assert(matrix.occ(nc.pos) == Some(nc));
            matrix.lemma_occupant_pos(nc.pos.x as int, nc.pos.y as int);
        }
        let ghost before = spread@;
        let ghost rest = fire_scan(matrix, pos, neighbors@, order@, draws@, t as int + 1);
        if nc.pos != pos {
            let (e, pct) = nc.material.extinguishes_fire();
            if e {
                ext = Some((nc.pos, pct));
            } else if !nc.is_on_fire && draws[k] < nc.material.get_flammability() {
                if !has_protection(matrix, nc.pos) {
                    spread.push(nc.pos);
                    proof {
                        assert(spread@[spread@.len() - 1] == nc.pos);
                        assert(before + (seq![nc.pos] + rest.1) =~= spread@ + rest.1);
                    }
                }
            }
        }
        t += 1;
    }
    proof {
        if ext is None {
            assert(spread@ + Seq::<Pos>::empty() =~= spread@);
        }
    }
    (ext, spread)
}


/// What putting out the fire at `pos` with the quencher at `(qx, qy)` left
/// in `b`: the quencher keeps part of its health, and a liquid one leaves
/// smoke in the position above the fire (which wins where it is the
/// quencher's own).
pub open spec fn quenched(a: &Matrix, b: &Matrix, pos: Pos, qx: int, qy: int, assets: &Assets) -> bool {
    let e = a.occupant(qx, qy)->0;
    let pct = spec_extinguishes(e.material).1;
    let smoky = spec_type(e.material) == MaterialType::Liquid && pos.y >= 1;
    let above = Pos { x: pos.x, y: (pos.y - 1) as i32 };
    let col = assets.color_for(above.x as int, above.y as int, Material::Smoke);
    &&& smoky ==> b.occ(above) == Some(
        Cell { base_color: col, color: col, ..fresh_cell(above, Material::Smoke) },
    )
    &&& !(smoky && qx == pos.x && qy == pos.y - 1) ==> b.occupant(qx, qy) == Some(
        Cell { hp: scaled_hp(e.hp, pct) as u64, ..e },
    )
}

fn scale_hp(hp: u64, pct: u64) -> (r: u64)
    requires
        pct <= 100,
    ensures
        r == scaled_hp(hp, pct),
{
    proof {
        assert(hp as int * pct as int <= hp as int * 100) by (nonlinear_arith)
            requires pct <= 100, hp >= 0;
        assert((hp as int * pct as int + 50) / 100 <= hp as int) by (nonlinear_arith)
            requires hp as int * pct as int <= hp as int * 100, hp >= 0;
    }
    (((hp as u128) * (pct as u128) + 50) / 100) as u64
}

/// Whether `s` lists a position at `(x, y)`.
pub open spec fn lists_pos(s: Seq<Pos>, x: int, y: int) -> bool {
    exists|j: int| 0 <= j < s.len() && #[trigger] s[j].x == x && s[j].y == y
}

/// One step of the burning cell at `pos`, given the cells near it, the order
/// to visit them in and one draw per cell. The burning cell loses a hit
/// point. If the scan (`fire_scan`) meets a cell that puts out fire, that
/// cell quenches it: the quencher keeps part of its health, and a liquid
/// quencher leaves smoke above the fire. Otherwise exactly the cells the
/// scan queued catch fire.
pub fn fire_step_with(
    matrix: &mut Matrix,
    pos: Pos,
    assets: &Assets,
    neighbors: &Vec<Cell>,
    order: &Vec<usize>,
    draws: &Vec<u32>,
)
    requires
        old(matrix).wf(),
        assets.wf(),
        old(matrix).occ(pos) is Some,
        draws@.len() == neighbors@.len(),
        forall|u: int| 0 <= u < order@.len() ==> #[trigger] order@[u] < neighbors@.len(),
        forall|j: int|
            0 <= j < neighbors@.len() ==> old(matrix).occ(#[trigger] neighbors@[j].pos) == Some(neighbors@[j])
                && in_reach(pos, FIRE_RADIUS as int, neighbors@[j].pos.x as int, neighbors@[j].pos.y as int),
    ensures
        final(matrix).wf(),
        final(matrix).same_settings(old(matrix)),
        only_marks(old(matrix).chunks@, final(matrix).chunks@),
        ({
            let fs = fire_scan(old(matrix), pos, neighbors@, order@, draws@, 0);
            let c = old(matrix).occ(pos)->0;
            &&& final(matrix).occ(pos) == Some(
                Cell { hp: burn_once(c.hp), is_on_fire: c.is_on_fire && fs.0 is None, ..c },
            )
            // The scan's findings, as `select_fire_targets` states them.
            &&& fs.0 matches Some((q, pct)) ==> quencher_at(old(matrix), pos, q.x as int, q.y as int) && pct
                == spec_extinguishes(old(matrix).occ(q)->0.material).1
            &&& fs.0 is None ==> forall|u: int|
                0 <= u < order@.len() ==> (#[trigger] neighbors@[order@[u] as int]).pos == pos || !spec_extinguishes(
                    neighbors@[order@[u] as int].material,
                ).0
            &&& forall|j: int|
                0 <= j < fs.1.len() ==> ignitable(old(matrix), pos, (#[trigger] fs.1[j]).x as int, fs.1[j].y as int)
            // Quenched: the quencher and, for a liquid one, the smoke above
            // change; nothing else but the fire itself.
            &&& fs.0 matches Some((q, pct)) ==> quenched(old(matrix), final(matrix), pos, q.x as int, q.y as int, assets)
                && forall|x: int, y: int|
                !(x == pos.x && y == pos.y) && !(x == q.x && y == q.y) && !(spec_type(
                    old(matrix).occ(q)->0.material,
                ) == MaterialType::Liquid && pos.y >= 1 && x == pos.x && y == pos.y - 1)
                    ==> #[trigger] final(matrix).occupant(x, y) == old(matrix).occupant(x, y)
            // Not quenched: every other cell stays, and it burns exactly if it
            // burnt before or the scan queued it.
            &&& fs.0 is None ==> final(matrix).cells@.len() == old(matrix).cells@.len()
            &&& fs.0 is None ==> forall|x: int, y: int|
                #![trigger final(matrix).occupant(x, y)]
                !(x == pos.x && y == pos.y) ==> (final(matrix).occupant(x, y) is Some) == (old(matrix).occupant(
                    x,
                    y,
                ) is Some) && (old(matrix).occupant(x, y) is Some ==> final(matrix).occupant(x, y)->0 == (Cell {
                    is_on_fire: old(matrix).occupant(x, y)->0.is_on_fire || lists_pos(fs.1, x, y),
                    ..old(matrix).occupant(x, y)->0
                }))
        }),
{
    let ghost pre = *matrix;
    proof {
        pre.lemma_occupant_pos(pos.x as int, pos.y as int);
    }
    let (ext, spread) = select_fire_targets(matrix, pos, neighbors, order, draws);
    let ghost fs = fire_scan(&pre, pos, neighbors@, order@, draws@, 0);
    match ext {
        Some((q, pct)) => {
            proof {
                pre.lemma_occupant_pos(q.x as int, q.y as int);
            }
            let ec = matrix.get_cell_by_pos(q);
            let mut e2 = ec;
            e2.hp = scale_hp(ec.hp, pct);
            matrix.update_cell(e2);
            let ghost m1 = *matrix;
            let liquid = ec.material.get_type() == MaterialType::Liquid;
            if liquid && pos.y >= 1 {
                matrix.set_cell_material(Pos { x: pos.x, y: pos.y - 1 }, Material::Smoke, false, assets);
            }
            let ghost m2 = *matrix;
            let ghost above = Pos { x: pos.x, y: (pos.y - 1) as i32 };
            proof {
                lemma_only_marks_trans(pre.chunks@, m1.chunks@, m2.chunks@);
                assert(quencher_at(&pre, pos, q.x as int, q.y as int));
                assert(quencher_near(&pre, pos));
                assert(m1.occupant(pos.x as int, pos.y as int) == pre.occupant(pos.x as int, pos.y as int));
                assert(m1.occupant(q.x as int, q.y as int) == Some(e2));
                lemma_index_in_range(pre.width as int, pre.height as int, q.x as int, q.y as int);
                assert(pre.slots()[pre.index_of(q.x as int, q.y as int)] <= pre.cells_view().len());
                assert(m1.cells@.len() == pre.cells@.len());
                assert(e2 == (Cell { hp: scaled_hp(pre.occ(q)->0.hp, pct) as u64, ..pre.occ(q)->0 }));
                if liquid && pos.y >= 1 {
                    assert(m1.clamped(above) == above);
                    assert(m2.occupant(pos.x as int, pos.y as int) == m1.occupant(pos.x as int, pos.y as int));
                    if !(q == above) {
                        assert(m2.occupant(q.x as int, q.y as int) == m1.occupant(q.x as int, q.y as int));
                    }
                } else {
                    assert(m2 == m1);
                }
            }
            proof {
                m2.lemma_occupant_pos(pos.x as int, pos.y as int);
                assert(m2.occupant(pos.x as int, pos.y as int) == pre.occupant(pos.x as int, pos.y as int));
            }
            let mut fc = matrix.get_cell_by_pos(pos);
            fc.hp = if fc.hp > 0 {
                fc.hp - 1
            } else {
                0
            };
            fc.is_on_fire = false;
            matrix.update_cell(fc);
            proof {
                assert(matrix.occ(pos) == Some(fc));
                assert(quencher_near(&pre, pos));
                assert(fc == (Cell {
                    hp: (if pre.occ(pos)->0.hp > 0 { pre.occ(pos)->0.hp - 1 } else { 0 }) as u64,
                    is_on_fire: pre.occ(pos)->0.is_on_fire && fs.0 is None,
                    ..pre.occ(pos)->0
                }));

                assert forall|x: int, y: int|
                    !(x == pos.x && y == pos.y) && #[trigger] matrix.occupant(x, y) is Some && matrix.occupant(
                        x,
                        y,
                    )->0.is_on_fire implies pre.occupant(x, y) is Some && matrix.occupant(x, y)->0.material
                    == pre.occupant(x, y)->0.material && pre.occupant(x, y)->0.is_on_fire by {
                    assert(matrix.occupant(x, y) == m2.occupant(x, y));
                    if liquid && pos.y >= 1 && x == above.x && y == above.y {
                        assert(m2.occupant(x, y) == m2.occ(above));
                        assert(m1.clamped(above) == above);
                        assert(!m2.occ(above)->0.is_on_fire);
                    } else {
                        if liquid && pos.y >= 1 {
                            assert(m2.occupant(x, y) == m1.occupant(x, y));
                        }
                        if !(x == q.x && y == q.y) {
                            assert(m1.occupant(x, y) == pre.occupant(x, y));
                        }
                    }
                }
                assert(matrix.occupant(q.x as int, q.y as int) == m2.occupant(q.x as int, q.y as int));
                assert(matrix.occupant(above.x as int, above.y as int) == m2.occupant(above.x as int, above.y as int));
                let e = pre.occupant(q.x as int, q.y as int)->0;
                let smoky = spec_type(e.material) == MaterialType::Liquid && pos.y >= 1;
                if smoky {
                    assert(m2.occ(above) == Some(
                        Cell { base_color: assets.color_for(above.x as int, above.y as int, Material::Smoke), color: assets.color_for(above.x as int, above.y as int, Material::Smoke), ..fresh_cell(above, Material::Smoke) },
                    ));
                }
                if !(smoky && q.x == pos.x && q.y == pos.y - 1) {
                    assert(m2.occupant(q.x as int, q.y as int) == Some(e2));
                }
                assert(quenched(&pre, matrix, pos, q.x as int, q.y as int, assets));
                assert forall|x: int, y: int|
                    !(x == pos.x && y == pos.y) && !(x == q.x && y == q.y) && !(smoky && x == pos.x && y == pos.y - 1)
                        implies #[trigger] matrix.occupant(x, y) == pre.occupant(x, y) by {
                    assert(matrix.occupant(x, y) == m2.occupant(x, y));
                    if liquid && pos.y >= 1 {
                        assert(m2.occupant(x, y) == m1.occupant(x, y));
                    }
                    assert(m1.occupant(x, y) == pre.occupant(x, y));
                }
            }
        },
        None => {
            let mut s: usize = 0;
            while s < spread.len()
                invariant
                    matrix.wf(),
                    matrix.same_settings(&pre),
                    only_marks(pre.chunks@, matrix.chunks@),
                    matrix.cells@.len() == pre.cells@.len(),
                    s <= spread@.len(),
                    forall|j: int|
                        0 <= j < spread@.len() ==> ignitable(&pre, pos, (#[trigger] spread@[j]).x as int, spread@[j].y as int),
                    forall|j: int|
                        0 <= j < s ==> matrix.occ(#[trigger] spread@[j]) is Some && matrix.occ(spread@[j])->0.is_on_fire,
                    forall|x: int, y: int|
                        #![trigger matrix.occupant(x, y)]
                        (matrix.occupant(x, y) is Some) == (pre.occupant(x, y) is Some) && (pre.occupant(x, y) is Some
                            ==> matrix.occupant(x, y)->0 == (Cell {
                            is_on_fire: matrix.occupant(x, y)->0.is_on_fire,
                            ..pre.occupant(x, y)->0
                        }) && (pre.occupant(x, y)->0.is_on_fire ==> matrix.occupant(x, y)->0.is_on_fire) && (matrix.occupant(x, y)->0.is_on_fire ==> pre.occupant(x, y)->0.is_on_fire || lists_pos(spread@.take(s as int), x, y))),
                decreases spread@.len() - s,
            {
                let p = spread[s];
                let ghost before = *matrix;
                match matrix.lookup(p) {
                    Lookup::Occupied(c) => {
                        proof {
                            matrix.lemma_occupant_pos(p.x as int, p.y as int);
                            lemma_index_in_range(matrix.width as int, matrix.height as int, p.x as int, p.y as int);
                            assert(matrix.slots()[matrix.index_of(p.x as int, p.y as int)] <= matrix.cells_view().len());
                        }
                        let mut c2 = c;
                        c2.is_on_fire = true;
                        matrix.update_cell(c2);
                        let ghost mid = *matrix;
                        matrix.set_chunk_active(p);
                        proof {
                            lemma_only_marks_trans(pre.chunks@, mid.chunks@, matrix.chunks@);
                            assert forall|x: int, y: int| true implies #[trigger] matrix.occupant(x, y) == mid.occupant(x, y) by {}
                            assert(ignitable(&pre, pos, p.x as int, p.y as int));
                        }
                    },
                    _ => {
                        proof {
                            assert(ignitable(&pre, pos, p.x as int, p.y as int));
                        }
                    },
                }
                proof {
                    assert(spread@.take(s as int + 1).drop_last() =~= spread@.take(s as int));
                    assert forall|x: int, y: int| lists_pos(spread@.take(s as int), x, y) implies lists_pos(spread@.take(s as int + 1), x, y) by {
                        let j = choose|j: int| 0 <= j < spread@.take(s as int).len() && #[trigger] spread@.take(s as int)[j].x == x && spread@.take(s as int)[j].y == y;
                        assert(spread@.take(s as int + 1)[j] == spread@.take(s as int)[j]);
                    }
                    assert(spread@.take(s as int + 1)[s as int] == p);
                    assert forall|j: int| 0 <= j < s + 1 implies matrix.occ(#[trigger] spread@[j]) is Some && matrix.occ(spread@[j])->0.is_on_fire by {
                        if j < s {
                            assert(before.occ(spread@[j]) is Some && before.occ(spread@[j])->0.is_on_fire);
                        }
                    }
                }
                s += 1;
            }
            let mut fc = matrix.get_cell_by_pos(pos);
            proof {
                assert(matrix.occupant(pos.x as int, pos.y as int) is Some);
                matrix.lemma_occupant_pos(pos.x as int, pos.y as int);
                lemma_index_in_range(matrix.width as int, matrix.height as int, pos.x as int, pos.y as int);
                assert(matrix.slots()[matrix.index_of(pos.x as int, pos.y as int)] <= matrix.cells_view().len());
            }
            fc.hp = if fc.hp > 0 {
                fc.hp - 1
            } else {
                0
            };
            let ghost before_write = *matrix;
            matrix.update_cell(fc);
            proof {
                assert forall|x: int, y: int| !(x == pos.x && y == pos.y) implies #[trigger] matrix.occupant(x, y)
                    == before_write.occupant(x, y) by {}
                assert(spread@.take(s as int) =~= spread@);
                assert(spread@ == fs.1);
                assert forall|x: int, y: int|
                    #![trigger matrix.occupant(x, y)]
                    !(x == pos.x && y == pos.y) && pre.occupant(x, y) is Some implies matrix.occupant(x, y)->0.is_on_fire
                        == (pre.occupant(x, y)->0.is_on_fire || lists_pos(fs.1, x, y)) by {
                    assert(matrix.occupant(x, y) == before_write.occupant(x, y));
                    if lists_pos(fs.1, x, y) {
                        let j = choose|j: int| 0 <= j < fs.1.len() && #[trigger] fs.1[j].x == x && fs.1[j].y == y;
                        assert(before_write.occ(spread@[j]) is Some);
                    }
                }
            }
        },
    }
}

/// One step of the burning cell at `pos`: the cells near it are visited in
/// a random order with a random draw each, as `fire_step_with` says. It loses
/// a hit point. A cell nearby that puts out fire quenches it: the quencher
/// keeps part of its health, and a liquid quencher leaves smoke above the
/// fire. With no quencher near, the neighbours the scan queued catch fire.
pub fn fire_step(matrix: &mut Matrix, pos: Pos, assets: &Assets)
    requires
        old(matrix).wf(),
        assets.wf(),
        old(matrix).occ(pos) is Some,
    ensures
        final(matrix).wf(),
        final(matrix).same_settings(old(matrix)),
        only_marks(old(matrix).chunks@, final(matrix).chunks@),
        final(matrix).occ(pos) == Some(
            Cell {
                hp: burn_once(old(matrix).occ(pos)->0.hp),
                is_on_fire: old(matrix).occ(pos)->0.is_on_fire && !quencher_near(old(matrix), pos),
                ..old(matrix).occ(pos)->0
            },
        ),
        // Fire reaches only flammable, unprotected cells near a fire that no
        // quencher is near.
        forall|x: int, y: int|
            !(x == pos.x && y == pos.y) && #[trigger] final(matrix).occupant(x, y) is Some && final(matrix).occupant(
                x,
                y,
            )->0.is_on_fire ==> old(matrix).occupant(x, y) is Some && final(matrix).occupant(x, y)->0.material == old(
                matrix,
            ).occupant(x, y)->0.material && (old(matrix).occupant(x, y)->0.is_on_fire || (!quencher_near(
                old(matrix),
                pos,
            ) && ignitable(old(matrix), pos, x, y))),
        quencher_near(old(matrix), pos) ==> exists|qx: int, qy: int|
            #[trigger] quencher_at(old(matrix), pos, qx, qy) && quenched(old(matrix), final(matrix), pos, qx, qy, assets)
                && forall|x: int, y: int|
                !(x == pos.x && y == pos.y) && !(x == qx && y == qy) && !(spec_type(
                    old(matrix).occupant(qx, qy)->0.material,
                ) == MaterialType::Liquid && pos.y >= 1 && x == pos.x && y == pos.y - 1)
                    ==> #[trigger] final(matrix).occupant(x, y) == old(matrix).occupant(x, y),
        // With no quencher near, every other cell stays, and at most catches
        // fire.
        !quencher_near(old(matrix), pos) ==> forall|x: int, y: int|
            #![trigger final(matrix).occupant(x, y)]
            !(x == pos.x && y == pos.y) ==> (final(matrix).occupant(x, y) is Some) == (old(matrix).occupant(x, y) is Some)
                && (old(matrix).occupant(x, y) is Some ==> final(matrix).occupant(x, y)->0 == (Cell {
                is_on_fire: final(matrix).occupant(x, y)->0.is_on_fire,
                ..old(matrix).occupant(x, y)->0
            })),
        !quencher_near(old(matrix), pos) ==> final(matrix).cells@.len() == old(matrix).cells@.len(),
{
    let ghost pre = *matrix;
    let (neighbors, order, draws) = draw_fire_scan(matrix, pos);
    fire_step_with(matrix, pos, assets, &neighbors, &order, &draws);
    proof {
        let fs = fire_scan(&pre, pos, neighbors@, order@, draws@, 0);
        if fs.0 is None {
            if quencher_near(&pre, pos) {
                let (x, y) = choose|x: int, y: int| #[trigger] quencher_at(&pre, pos, x, y);
                let c = pre.occupant(x, y)->0;
                assert(neighbors@.contains(c));
                let k = choose|k: int| 0 <= k < neighbors@.len() && neighbors@[k] == c;
                assert(order@.contains(k as usize));
                let u = choose|u: int| 0 <= u < order@.len() && order@[u] == k as usize;
                assert(neighbors@[order@[u] as int] == c);
                pre.lemma_occupant_pos(x, y);
            }
            assert forall|x: int, y: int|
                !(x == pos.x && y == pos.y) && #[trigger] matrix.occupant(x, y) is Some && matrix.occupant(x, y)->0.is_on_fire
                    && !pre.occupant(x, y)->0.is_on_fire implies ignitable(&pre, pos, x, y) by {
                let j = choose|j: int| 0 <= j < fs.1.len() && #[trigger] fs.1[j].x == x && fs.1[j].y == y;
                assert(ignitable(&pre, pos, fs.1[j].x as int, fs.1[j].y as int));
            }
        } else {
            let (q, pct) = fs.0->0;
            assert(quencher_at(&pre, pos, q.x as int, q.y as int));
            pre.lemma_occupant_pos(q.x as int, q.y as int);
            assert forall|x: int, y: int|
                !(x == pos.x && y == pos.y) && #[trigger] matrix.occupant(x, y) is Some && matrix.occupant(x, y)->0.is_on_fire
                    implies pre.occupant(x, y) is Some && matrix.occupant(x, y)->0.material == pre.occupant(x, y)->0.material
                    && pre.occupant(x, y)->0.is_on_fire by {
                let e = pre.occupant(q.x as int, q.y as int)->0;
                let smoky = spec_type(e.material) == MaterialType::Liquid && pos.y >= 1;
                let above = Pos { x: pos.x, y: (pos.y - 1) as i32 };
                if smoky && x == pos.x && y == pos.y - 1 {
                    assert(matrix.occupant(x, y) == matrix.occ(above));
                } else if x == q.x && y == q.y {
                } else {
                    assert(matrix.occupant(x, y) == pre.occupant(x, y));
                }
            }
        }
    }
}

} // verus!
