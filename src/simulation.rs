use vstd::prelude::*;
use crate::assets::Assets;
use crate::cell::{Cell, Pos, Velocity, GRAVITY, same_substance, begun, fresh_cell, sat_add_i64, burn_once};
use crate::color::{Rgba, color_highlight};
use crate::material::{Material, MaterialType, spec_flammability, spec_type};
use crate::line::{bresenham, bresenham_points, chebyshev, MAX_LINE_COORD};
use crate::cellhandler::{handle_cell, enterable, below, above, vacated};
use crate::chunk::{Chunk, MAX_IDLE_FRAMES, started};
use crate::matrix::{Matrix, CHUNK_SIZE, chunk_count, only_marks, kept_substance, lemma_index_in_range, lemma_only_marks_trans};
use crate::parallel::{start_chunks, begin_cells};
use crate::random::draw_below;
use crate::fire::{quencher_near, quencher_at};

verus! {

/// No cell burns or has just burnt, and every cell has health left: the
/// state in which a frame neither creates nor destroys cells.
pub open spec fn calm(m: &Matrix) -> bool {
    forall|k: int|
        0 <= k < m.cells@.len() ==> !(#[trigger] m.cells@[k]).is_on_fire && !m.cells@[k].was_on_fire_last_frame
            && m.cells@[k].hp > 0
}

pub proof fn lemma_calm_kept(a: &Matrix, b: &Matrix)
    requires
        calm(a),
        kept_substance(a.cells@, b.cells@),
    ensures
        calm(b),
{
    assert forall|k: int| 0 <= k < b.cells@.len() implies !(#[trigger] b.cells@[k]).is_on_fire
        && !b.cells@[k].was_on_fire_last_frame && b.cells@[k].hp > 0 by {
        assert(same_substance(a.cells@[k], b.cells@[k]));
    }
}

/// `v` clamped into `[0, n)`.
pub open spec fn clamp_int(v: int, n: int) -> int {
    if v < 0 {
        0
    } else if v >= n {
        n - 1
    } else {
        v
    }
}

/// The column the sweep visits at its `k`-th step: left to right when
/// `left`, else right to left.
pub open spec fn sweep_x(w: int, left: bool, k: int) -> int {
    if left {
        k % w
    } else {
        w - 1 - k % w
    }
}

/// The row the sweep visits at its `k`-th step: the bottom row first.
pub open spec fn sweep_y(w: int, h: int, k: int) -> int {
    h - 1 - k / w
}

/// Every chunk after `start_step`.
pub open spec fn started_all(s: Seq<Chunk>) -> Seq<Chunk> {
    Seq::new(s.len(), |k: int| started(s[k]))
}

impl Matrix {
    /// Whether the chunk holding `pos` steps in this frame.
    pub open spec fn chunk_active(&self, x: int, y: int) -> bool {
        self.chunk_valid(x, y) && self.chunks@[self.chunk_of(x, y)].should_step
    }

    pub fn chunk_should_step(&self, pos: Pos) -> (r: bool)
        requires
            self.wf(),
        ensures
            r == self.chunk_active(pos.x as int, pos.y as int),
    {
        if pos.x < 0 || pos.y < 0 {
            return false;
        }
        let cx = pos.x as usize / CHUNK_SIZE;
        let cy = pos.y as usize / CHUNK_SIZE;
        let ncx = (self.width + (CHUNK_SIZE - 1)) / CHUNK_SIZE;
        let ncy = (self.height + (CHUNK_SIZE - 1)) / CHUNK_SIZE;
        if cx < ncx && cy < ncy {
            let n = self.chunks.len();
            proof {
                assert(ncx == chunk_count(self.width as int));
                assert(ncy == chunk_count(self.height as int));
                self.lemma_chunk_of_in_range(pos.x as int, pos.y as int);
                lemma_index_in_range(ncx as int, ncy as int, cx as int, cy as int);
            }
            self.chunks[cx + cy * ncx].should_step
        } else {
            false
        }
    }

    /// Whether the sweep steps the cell at `(x, y)`: its chunk is active and
    /// it holds a cell not yet processed in this frame.
    pub open spec fn steps_at(&self, x: int, y: int) -> bool {
        self.chunk_active(x, y) && self.occupant(x, y) is Some && !self.occupant(x, y)->0.processed_this_frame
    }

    /// What stepping `(x, y)` leaves: `b` from `a`, with the cell ending at
    /// `r`.
    pub open spec fn step_outcome(a: &Matrix, b: &Matrix, x: i32, y: i32, r: Pos) -> bool {
        &&& b.wf()
        &&& b.same_settings(a)
        &&& only_marks(a.chunks@, b.chunks@)
        &&& calm(a) ==> calm(b) && kept_substance(a.cells@, b.cells@)
        &&& !a.steps_at(x as int, y as int) ==> r == (Pos { x, y }) && b.cells@ == a.cells@
                    && b.data@ == a.data@ && b.chunks@ == a.chunks@
        // A cell whose health runs out is removed.
        &&& a.steps_at(x as int, y as int) && (if a.occupant(x as int, y as int)->0.is_on_fire {
                    burn_once(a.occupant(x as int, y as int)->0.hp)
                } else {
                    a.occupant(x as int, y as int)->0.hp
                }) == 0 ==> b.occupant(x as int, y as int) is None
        &&& ({
                    let c = a.occupant(x as int, y as int)->0;
                    let kind = spec_type(c.material);
                    let p = Pos { x, y };
                    &&& a.steps_at(x as int, y as int) && (if c.is_on_fire { burn_once(c.hp) } else { c.hp }) > 0
                        ==> b.occ(r) is Some && b.occ(r)->0.material == c.material
                    // A solid that does not burn gains gravity and is marked
                    // processed, in place.
                    &&& a.steps_at(x as int, y as int) && c.hp > 0 && !c.is_on_fire && (kind == MaterialType::Solid
                        || kind == MaterialType::Empty) ==> r == p && b.occ(p) == Some(
                        Cell {
                            velocity: Velocity { x: c.velocity.x, y: sat_add_i64(c.velocity.y as int, GRAVITY as int) },
                            was_on_fire_last_frame: false,
                            processed_this_frame: true,
                            color: b.occ(p)->0.color,
                            ..c
                        },
                    )
                    // Sand-like cells and liquids with room below fall.
                    &&& a.steps_at(x as int, y as int) && c.hp > 0 && !c.is_on_fire && (kind
                        == MaterialType::MovableSolid || kind == MaterialType::Liquid) && enterable(
                        a,
                        c.material,
                        below(p),
                    ) ==> r.x == x && r.y > y && vacated(b, p, c.material) && b.occ(r)->0.is_free_falling
                    // A gas rises into an empty position above.
                    &&& a.steps_at(x as int, y as int) && c.hp > 0 && !c.is_on_fire && kind == MaterialType::Gas
                        && a.in_grid(x as int, y - 1) && a.occ(above(p)) is None ==> r == above(p) && b.occ(p) is None
                    // A burning solid loses health twice (burning, then its
                    // fire step) and stays, marked processed.
                    &&& a.steps_at(x as int, y as int) && c.is_on_fire && burn_once(c.hp) > 0 && kind
                        == MaterialType::Solid ==> r == p && b.occ(p)->0.hp == burn_once(burn_once(c.hp))
                        && b.occ(p)->0.processed_this_frame && (!quencher_near(a, p) ==> b.cells@.len()
                        == a.cells@.len())
                })
    }

    /// Steps the cell at `(x, y)` if its chunk is active and it was not
    /// processed in this frame yet: the per-frame update (gravity, burning),
    /// the processed mark, then its rules. Returns where the cell ends.
    fn step_all(&mut self, x: i32, y: i32, assets: &Assets) -> (r: Pos)
        requires
            old(self).wf(),
            assets.wf(),
        ensures
            Self::step_outcome(old(self), final(self), x, y, r),
    {
        let ghost pre = *self;
        let pos = Pos { x, y };
        if !self.chunk_should_step(pos) {
            return pos;
        }
        let idx = self.get_data_at_pos(pos);
        if idx == 0 {
            return pos;
        }
        let mut cell = self.cells[idx - 1];
        if cell.processed_this_frame {
            return pos;
        }
        proof {
            pre.lemma_occupant_pos(x as int, y as int);
            lemma_index_in_range(pre.width as int, pre.height as int, x as int, y as int);
        }
        let hp = cell.hp;
        let flicker = draw_below(&self.rng, 2) == 0;
        cell.update(flicker);
        cell.processed_this_frame = true;
        self.update_cell(cell);
        let ghost m1 = *self;
        proof {
            if calm(&pre) {
                assert(pre.cells@[idx - 1].hp > 0);
                assert forall|k: int| #![trigger m1.cells@[k]] 0 <= k < m1.cells@.len() implies same_substance(
                    pre.cells@[k],
                    m1.cells@[k],
                ) by {}
                lemma_calm_kept(&pre, &m1);
            }
        }
        if cell.hp != hp || cell.is_on_fire || cell.was_on_fire_last_frame {
            self.set_chunk_cluster_active(pos);
        }
        let ghost m2 = *self;
        proof {
            lemma_only_marks_trans(pre.chunks@, m1.chunks@, m2.chunks@);
            assert(m2.occupant(x as int, y as int) == m1.occupant(x as int, y as int));
        }
        let r = handle_cell(self, pos, assets);
        proof {
            assert(m2.occ(pos) == Some(cell));
            assert(cell.hp == (if pre.occ(pos)->0.is_on_fire { burn_once(pre.occ(pos)->0.hp) } else { pre.occ(pos)->0.hp }));
            lemma_only_marks_trans(pre.chunks@, m2.chunks@, self.chunks@);
            if calm(&pre) {
                assert(m2.cells@ == m1.cells@);
                assert(calm(&m2));
                assert(m2.occ(pos)->0.hp > 0);
                lemma_calm_kept(&m2, self);
                crate::matrix::lemma_kept_substance_trans(pre.cells@, m2.cells@, self.cells@);
            }
            let b = below(pos);
            let u = above(pos);
            assert(m2.occupant(b.x as int, b.y as int) == pre.occupant(b.x as int, b.y as int));
            assert(m2.occupant(u.x as int, u.y as int) == pre.occupant(u.x as int, u.y as int));
            assert(m2.occ(pos)->0.material == pre.occ(pos)->0.material);
            let c = pre.occ(pos)->0;
            let kind = spec_type(c.material);
            if cell.hp > 0 {
                assert(self.occ(r) is Some && self.occ(r)->0.material == c.material);
            }
            if c.hp > 0 && !c.is_on_fire && (kind == MaterialType::Solid || kind == MaterialType::Empty) {
                assert(self.occ(pos) == m2.occ(pos));
                assert(r == pos);
            }
            if c.hp > 0 && !c.is_on_fire && (kind == MaterialType::MovableSolid || kind == MaterialType::Liquid)
                && enterable(&pre, c.material, below(pos)) {
                assert(enterable(&m2, c.material, below(pos)));
            }
            if c.is_on_fire && burn_once(c.hp) > 0 && kind == MaterialType::Solid {
                assert(cell.was_on_fire_last_frame && cell.is_on_fire);
                if !quencher_near(&pre, pos) {
                    assert(m1.cells@.len() == pre.cells@.len());
                    if quencher_near(&m2, pos) {
                        let (qx, qy) = choose|qx: int, qy: int| #[trigger] quencher_at(&m2, pos, qx, qy);
                        assert(!(qx == pos.x && qy == pos.y));
                        assert(cell.pos == pos);
                        assert(m1.occupant(qx, qy) == pre.occupant(qx, qy));
                        assert(m2.occupant(qx, qy) == m1.occupant(qx, qy));
                        assert(quencher_at(&pre, pos, qx, qy));
                    }
                }
                assert(self.occ(pos)->0.hp == burn_once(burn_once(c.hp)));
            }
        }
        r
    }

    /// The steps a lone cell takes without creating or destroying cells: a
    /// sand-like cell or liquid with a row below it, a solid at rest, a
    /// burning solid with health to spare.
    pub open spec fn lone_case(c: Cell, height: int) -> bool {
        let kind = spec_type(c.material);
        ||| c.hp > 0 && !c.is_on_fire && !c.was_on_fire_last_frame && (kind == MaterialType::MovableSolid || kind
            == MaterialType::Liquid) && c.pos.y + 1 < height
        ||| c.hp > 0 && !c.is_on_fire && !c.was_on_fire_last_frame && kind == MaterialType::Solid
        ||| c.is_on_fire && burn_once(c.hp) > 0 && kind == MaterialType::Solid
    }

    /// What stepping the lone cell `c` left in `m`: still one cell, fallen
    /// straight down, or a solid in place that gained gravity and was marked
    /// processed, or a burning solid in place that lost two hit points.
    pub open spec fn lone_outcome(c: Cell, m: &Matrix) -> bool {
        let kind = spec_type(c.material);
        let d = m.cells@[0];
        &&& m.cells@.len() == 1
        &&& d.pos == c.pos || d.pos.y > c.pos.y
        &&& c.hp > 0 && !c.is_on_fire && (kind == MaterialType::MovableSolid || kind == MaterialType::Liquid)
            ==> d.pos.x == c.pos.x && d.pos.y > c.pos.y && d.is_free_falling
        &&& c.hp > 0 && !c.is_on_fire && kind == MaterialType::Solid ==> d.pos == c.pos && d.processed_this_frame
            && d.velocity.y == sat_add_i64(c.velocity.y as int, GRAVITY as int)
        &&& c.is_on_fire && burn_once(c.hp) > 0 && kind == MaterialType::Solid ==> d.pos == c.pos && d.hp == burn_once(
            burn_once(c.hp),
        ) && d.processed_this_frame
    }

    /// In a grid of one cell, that cell stands wherever a cell stands.
    pub proof fn lemma_lone_occupant(&self, x: int, y: int)
        requires
            self.wf(),
            self.cells@.len() == 1,
        ensures
            self.occupant(x, y) is Some ==> self.occupant(x, y) == Some(self.cells@[0]) && self.cells@[0].pos
                == (Pos { x: x as i32, y: y as i32 }),
    {
        self.lemma_occupant_pos(x, y);
        if self.occupant(x, y) is Some {
            lemma_index_in_range(self.width as int, self.height as int, x, y);
            assert(self.slots()[self.index_of(x, y)] <= 1);
        }
    }

    /// One step of the sweep, with what it does to a lone cell: before the
    /// sweep reaches it nothing changes, at its position it takes its step,
    /// and after that nothing changes either.
    fn sweep_step(
        &mut self,
        x: i32,
        y: i32,
        assets: &Assets,
        Ghost(begun): Ghost<Matrix>,
        Ghost(c): Ghost<Cell>,
        Ghost(lone): Ghost<bool>,
        Ghost(reached): Ghost<bool>,
    ) -> (r: Pos)
        requires
            old(self).wf(),
            assets.wf(),
            old(self).same_settings(&begun),
            only_marks(begun.chunks@, old(self).chunks@),
            calm(&begun) ==> calm(old(self)) && kept_substance(begun.cells@, old(self).cells@),
            lone ==> begun.wf() && begun.cells@.len() == 1 && Self::lone_case(c, begun.height as int)
                && begun.cells@[0].pos == c.pos && !begun.cells@[0].processed_this_frame && same_substance(
                begun.cells@[0],
                c,
            ) && begun.cells@[0].velocity == c.velocity && begun.chunk_active(c.pos.x as int, c.pos.y as int),
            lone && !reached ==> old(self).cells@ == begun.cells@ && old(self).data@ == begun.data@,
            lone && reached ==> Self::lone_outcome(c, old(self)) && old(self).cells@[0].pos != (Pos { x, y }),
        ensures
            final(self).wf(),
            final(self).same_settings(&begun),
            only_marks(begun.chunks@, final(self).chunks@),
            calm(&begun) ==> calm(final(self)) && kept_substance(begun.cells@, final(self).cells@),
            lone && !reached && (Pos { x, y }) != c.pos ==> final(self).cells@ == begun.cells@ && final(self).data@
                == begun.data@,
            lone && (reached || (Pos { x, y }) == c.pos) ==> Self::lone_outcome(c, final(self)),
            Self::step_outcome(old(self), final(self), x, y, r),
    {
        let ghost before = *self;
        proof {
            if lone {
                before.lemma_lone_occupant(x as int, y as int);
                before.lemma_lone_occupant(c.pos.x as int, c.pos.y as int);
            }
        }
        let r = self.step_all(x, y, assets);
        proof {
            lemma_only_marks_trans(begun.chunks@, before.chunks@, self.chunks@);
            if calm(&begun) {
                crate::matrix::lemma_kept_substance_trans(begun.cells@, before.cells@, self.cells@);
            }
            if lone && reached {
                assert(!before.steps_at(x as int, y as int));
            }
            if lone && !reached && (Pos { x, y }) != c.pos {
                assert(!before.steps_at(x as int, y as int));
            }
            if lone && !reached && (Pos { x, y }) == c.pos {
                let k = before.chunk_of(x as int, y as int);
                before.lemma_chunk_of_in_range(x as int, y as int);
                assert(before.chunks@[k].should_step == begun.chunks@[k].should_step);
                assert(before.steps_at(x as int, y as int));
                let d = before.cells@[0];
                assert(before.occupant(x as int, y as int) == Some(d));
                if !c.is_on_fire && !c.was_on_fire_last_frame {
                    assert(calm(&before));
                }
                let b = below(Pos { x, y });
                before.lemma_lone_occupant(b.x as int, b.y as int);
                if c.hp > 0 && !c.is_on_fire && (spec_type(c.material) == MaterialType::MovableSolid || spec_type(c.material)
                    == MaterialType::Liquid) {
                    assert(c.pos.y + 1 < begun.height);
                    assert(enterable(&before, d.material, b));
                }
                if c.is_on_fire {
                    if quencher_near(&before, Pos { x, y }) {
                        let (qx, qy) = choose|qx: int, qy: int| #[trigger] quencher_at(&before, Pos { x, y }, qx, qy);
                        before.lemma_lone_occupant(qx, qy);
                    }
                }
                assert(self.cells@.len() == 1);
                self.lemma_lone_occupant(r.x as int, r.y as int);
                self.lemma_lone_occupant(c.pos.x as int, c.pos.y as int);
            }
        }
        r
    }

    /// A frame of `a` that ended in `b`, seen as the grids `trace` between
    /// its steps: every chunk and every cell began the frame, then each grid
    /// position, bottom row first and each row in the frame's direction, was
    /// stepped as `step_outcome` says, its cell ending at `rs[k]`.
    pub open spec fn swept(a: &Matrix, b: &Matrix, trace: Seq<Matrix>, rs: Seq<Pos>) -> bool {
        let w = a.width as int;
        let h = a.height as int;
        &&& trace.len() == w * h + 1
        &&& rs.len() == w * h
        &&& trace[0].same_settings(a)
        &&& trace[0].cells@ == Seq::new(a.cells@.len(), |k: int| begun(a.cells@[k]))
        &&& trace[0].data@ == a.data@
        &&& trace[0].chunks@ == started_all(a.chunks@)
        &&& b.cells@ == trace.last().cells@
        &&& b.data@ == trace.last().data@
        &&& b.chunks@ == trace.last().chunks@
        &&& forall|k: int|
            0 <= k < w * h ==> Self::step_outcome(
                &trace[k],
                &trace[k + 1],
                sweep_x(w, a.update_left, k) as i32,
                sweep_y(w, h, k) as i32,
                #[trigger] rs[k],
            )
    }

    /// Advances the simulation by one frame: every chunk begins its frame,
    /// every cell too, then the grid is swept from the bottom row up, each
    /// row left to right or right to left by turns.
    pub fn update(&mut self, assets: &Assets)
        requires
            old(self).wf(),
            assets.wf(),
        ensures
            final(self).wf(),
            final(self).width == old(self).width,
            final(self).height == old(self).height,
            final(self).debug_draw == old(self).debug_draw,
            final(self).brush == old(self).brush,
            final(self).wait_time_after_frame == old(self).wait_time_after_frame,
            final(self).update_left == !old(self).update_left,
            // Every chunk began the frame; the sweep then only requested
            // chunks for the next one.
            only_marks(started_all(old(self).chunks@), final(self).chunks@),
            // Without fire, no cell is created or destroyed, and each keeps
            // its material, health and fire state.
            calm(old(self)) ==> calm(final(self)) && kept_substance(old(self).cells@, final(self).cells@),
            // A lone cell whose chunk steps in this frame takes its step: it
            // falls straight down if it can fall, a solid gains gravity in
            // place, a burning solid loses a hit point to burning and one to
            // its fire step.
            old(self).cells@.len() == 1 && Self::lone_case(old(self).cells@[0], old(self).height as int) && started(
                old(self).chunks@[old(self).chunk_of(old(self).cells@[0].pos.x as int, old(self).cells@[0].pos.y as int)],
            ).should_step ==> Self::lone_outcome(old(self).cells@[0], final(self)),
            // Every grid position was stepped, in sweep order.
            exists|trace: Seq<Matrix>, rs: Seq<Pos>| Self::swept(old(self), final(self), trace, rs),
    {
        let ghost pre = *self;
        start_chunks(&mut self.chunks);
        begin_cells(&mut self.cells);
        proof {
            assert forall|k: int| #![trigger self.chunks@[k]] 0 <= k < self.chunks@.len() implies self.chunks@[k].num_frames_without_step
                < MAX_IDLE_FRAMES by {
                assert(self.chunks@[k] == started(pre.chunks@[k]));
            }
            assert forall|k: int| #![trigger self.cells@[k]] 0 <= k < self.cells@.len() implies same_substance(
                pre.cells@[k],
                self.cells@[k],
            ) && self.cells@[k].pos == pre.cells@[k].pos by {
                assert(self.cells@[k] == begun(pre.cells@[k]));
            }
            assert forall|k: int| #![trigger self.cells_view()[k]] 0 <= k < self.cells_view().len() implies {
                let c = self.cells_view()[k];
                &&& self.in_grid(c.pos.x as int, c.pos.y as int)
                &&& self.slots()[self.index_of(c.pos.x as int, c.pos.y as int)] == k + 1
                &&& c.material != crate::material::Material::Empty
            } by {
                assert(self.cells@[k] == begun(pre.cells@[k]));
                assert(pre.cells_view()[k] == pre.cells@[k]);
            }
            assert forall|i: int| #![trigger self.slots()[i]] 0 <= i < self.slots().len() implies self.slots()[i]
                <= self.cells_view().len() && (self.slots()[i] != 0 ==> {
                let c = self.cells_view()[self.slots()[i] - 1];
                self.index_of(c.pos.x as int, c.pos.y as int) == i
            }) by {
                assert(pre.slots()[i] == self.slots()[i]);
                if self.slots()[i] != 0 {
                    let k = self.slots()[i] - 1;
                    assert(self.cells@[k] == begun(pre.cells@[k]));
                }
            }
            assert(self.chunks@ =~= started_all(pre.chunks@));
            if calm(&pre) {
                lemma_calm_kept(&pre, self);
            }
        }
        let ghost begun_state = *self;
        let ghost mut trace: Seq<Matrix> = seq![begun_state];
        let ghost mut rs: Seq<Pos> = Seq::empty();
        let ghost left = self.update_left;
        proof {
            assert(begun_state.cells@ =~= Seq::new(pre.cells@.len(), |k: int| begun(pre.cells@[k])));
        }
        let ghost c = pre.cells@[0];
        let ghost lone = pre.cells@.len() == 1 && Self::lone_case(pre.cells@[0], pre.height as int) && started(
            pre.chunks@[pre.chunk_of(pre.cells@[0].pos.x as int, pre.cells@[0].pos.y as int)],
        ).should_step;
        proof {
            if lone {
                assert(self.cells@[0] == begun(pre.cells@[0]));
                pre.lemma_cell_is_occupant(0);
                pre.lemma_chunk_of_in_range(c.pos.x as int, c.pos.y as int);
                assert(self.chunks@[pre.chunk_of(c.pos.x as int, c.pos.y as int)] == started(
                    pre.chunks@[pre.chunk_of(c.pos.x as int, c.pos.y as int)],
                ));
            }
        }
        let w = self.width;
        let h = self.height;
        let mut row: usize = h;
        while row > 0
            invariant
                self.wf(),
                assets.wf(),
                self.same_settings(&begun_state),
                w == self.width,
                h == self.height,
                row <= h,
                only_marks(begun_state.chunks@, self.chunks@),
                calm(&begun_state) ==> calm(self) && kept_substance(begun_state.cells@, self.cells@),
                lone ==> begun_state.wf() && begun_state.cells@.len() == 1 && Self::lone_case(c, begun_state.height as int)
                    && begun_state.cells@[0].pos == c.pos && !begun_state.cells@[0].processed_this_frame
                    && same_substance(begun_state.cells@[0], c) && begun_state.cells@[0].velocity == c.velocity
                    && begun_state.chunk_active(c.pos.x as int, c.pos.y as int) && 0 <= c.pos.y < h && 0 <= c.pos.x < w,
                trace.len() == (h - row) * w + 1,
                rs.len() == (h - row) * w,
                trace[0] == begun_state,
                trace.last() == *self,
                left == self.update_left,
                forall|k: int|
                    0 <= k < rs.len() ==> Self::step_outcome(
                        &trace[k],
                        &trace[k + 1],
                        sweep_x(w as int, left, k) as i32,
                        sweep_y(w as int, h as int, k) as i32,
                        #[trigger] rs[k],
                    ),
                lone && c.pos.y < row ==> self.cells@ == begun_state.cells@ && self.data@ == begun_state.data@,
                lone && c.pos.y >= row ==> Self::lone_outcome(c, self),
            decreases row,
        {
            row -= 1;
            let y = row as i32;
            if self.update_left {
                let mut x: usize = 0;
                while x < w
                    invariant
                        self.wf(),
                        assets.wf(),
                        self.same_settings(&begun_state),
                        w == self.width,
                        h == self.height,
                        x <= w,
                        row < h,
                        y == row,
                        only_marks(begun_state.chunks@, self.chunks@),
                        calm(&begun_state) ==> calm(self) && kept_substance(begun_state.cells@, self.cells@),
                        lone ==> begun_state.wf() && begun_state.cells@.len() == 1 && Self::lone_case(
                            c,
                            begun_state.height as int,
                        ) && begun_state.cells@[0].pos == c.pos && !begun_state.cells@[0].processed_this_frame
                            && same_substance(begun_state.cells@[0], c) && begun_state.cells@[0].velocity == c.velocity
                            && begun_state.chunk_active(c.pos.x as int, c.pos.y as int) && 0 <= c.pos.y < h && 0
                            <= c.pos.x < w,
                        left,
                        trace.len() == (h - 1 - row) * w + x + 1,
                        rs.len() == (h - 1 - row) * w + x,
                        trace[0] == begun_state,
                        trace.last() == *self,
                        left == self.update_left,
                        forall|k: int|
                            0 <= k < rs.len() ==> Self::step_outcome(
                                &trace[k],
                                &trace[k + 1],
                                sweep_x(w as int, left, k) as i32,
                                sweep_y(w as int, h as int, k) as i32,
                                #[trigger] rs[k],
                            ),
                        lone && (c.pos.y < row || (c.pos.y == row && c.pos.x >= x)) ==> self.cells@ == begun_state.cells@
                            && self.data@ == begun_state.data@,
                        lone && (c.pos.y > row || (c.pos.y == row && c.pos.x < x)) ==> Self::lone_outcome(c, self),
                    decreases w - x,
                {
                    let ghost reached = c.pos.y > row || (c.pos.y == row && c.pos.x < x);
                    let ghost old_trace = trace;
                    let ghost old_rs = rs;
                    let r = self.sweep_step(x as i32, y, assets, Ghost(begun_state), Ghost(c), Ghost(lone), Ghost(reached));
                    proof {
                        let k = rs.len() as int;
                        assert(k == (h - 1 - row) as int * w as int + x as int);
                        vstd::arithmetic::div_mod::lemma_fundamental_div_mod_converse(k, w as int, (h - 1 - row) as int, x as int);
                        assert(sweep_x(w as int, left, k) == x as int);
                        assert(sweep_y(w as int, h as int, k) == row as int);
                        trace = trace.push(*self);
                        rs = rs.push(r);
                        assert(trace[k] == old_trace.last());
                        assert(rs[k] == r);
                        assert forall|j: int|
                            0 <= j < rs.len() implies Self::step_outcome(
                                &trace[j],
                                &trace[j + 1],
                                sweep_x(w as int, left, j) as i32,
                                sweep_y(w as int, h as int, j) as i32,
                                #[trigger] rs[j],
                            ) by {
                            if j < k {
                                assert(trace[j] == old_trace[j] && trace[j + 1] == old_trace[j + 1] && rs[j] == old_rs[j]);
                            }
                        }
                    }
                    x += 1;
                }
            } else {
                let mut x: usize = w;
                while x > 0
                    invariant
                        self.wf(),
                        assets.wf(),
                        self.same_settings(&begun_state),
                        w == self.width,
                        h == self.height,
                        x <= w,
                        row < h,
                        y == row,
                        only_marks(begun_state.chunks@, self.chunks@),
                        calm(&begun_state) ==> calm(self) && kept_substance(begun_state.cells@, self.cells@),
                        lone ==> begun_state.wf() && begun_state.cells@.len() == 1 && Self::lone_case(
                            c,
                            begun_state.height as int,
                        ) && begun_state.cells@[0].pos == c.pos && !begun_state.cells@[0].processed_this_frame
                            && same_substance(begun_state.cells@[0], c) && begun_state.cells@[0].velocity == c.velocity
                            && begun_state.chunk_active(c.pos.x as int, c.pos.y as int) && 0 <= c.pos.y < h && 0
                            <= c.pos.x < w,
                        !left,
                        trace.len() == (h - 1 - row) * w + (w - x) + 1,
                        rs.len() == (h - 1 - row) * w + (w - x),
                        trace[0] == begun_state,
                        trace.last() == *self,
                        left == self.update_left,
                        forall|k: int|
                            0 <= k < rs.len() ==> Self::step_outcome(
                                &trace[k],
                                &trace[k + 1],
                                sweep_x(w as int, left, k) as i32,
                                sweep_y(w as int, h as int, k) as i32,
                                #[trigger] rs[k],
                            ),
                        lone && (c.pos.y < row || (c.pos.y == row && c.pos.x < x)) ==> self.cells@ == begun_state.cells@
                            && self.data@ == begun_state.data@,
                        lone && (c.pos.y > row || (c.pos.y == row && c.pos.x >= x)) ==> Self::lone_outcome(c, self),
                    decreases x,
                {
                    x -= 1;
                    let ghost reached = c.pos.y > row || (c.pos.y == row && c.pos.x > x);
                    let ghost old_trace = trace;
                    let ghost old_rs = rs;
                    let r = self.sweep_step(x as i32, y, assets, Ghost(begun_state), Ghost(c), Ghost(lone), Ghost(reached));
                    proof {
                        let k = rs.len() as int;
                        assert(k == (h - 1 - row) as int * w as int + (w - 1 - x) as int);
                        vstd::arithmetic::div_mod::lemma_fundamental_div_mod_converse(k, w as int, (h - 1 - row) as int, (w - 1 - x) as int);
                        assert(sweep_x(w as int, left, k) == x as int);
                        assert(sweep_y(w as int, h as int, k) == row as int);
                        trace = trace.push(*self);
                        rs = rs.push(r);
                        assert(trace[k] == old_trace.last());
                        assert(rs[k] == r);
                        assert forall|j: int|
                            0 <= j < rs.len() implies Self::step_outcome(
                                &trace[j],
                                &trace[j + 1],
                                sweep_x(w as int, left, j) as i32,
                                sweep_y(w as int, h as int, j) as i32,
                                #[trigger] rs[j],
                            ) by {
                            if j < k {
                                assert(trace[j] == old_trace[j] && trace[j + 1] == old_trace[j + 1] && rs[j] == old_rs[j]);
                            }
                        }
                    }
                }
            }
            proof {
                assert((h - 1 - row) * w + w == (h - row) * w) by (nonlinear_arith);
            }
        }
        let ghost last = *self;
        self.update_left = !self.update_left;
        proof {
            if calm(&pre) {
                crate::matrix::lemma_kept_substance_trans(pre.cells@, begun_state.cells@, self.cells@);
            }
            assert(h * w == w * h) by (nonlinear_arith);
            assert(trace.last() == last);
            assert(Self::swept(&pre, self, trace, rs));
        }
    }

    /// The colour drawn for slot `i`: transparent black where no cell is,
    /// the cell's colour otherwise, or the highlight where debug drawing
    /// marks the active chunks.
    pub open spec fn pixel(&self, i: int) -> Rgba {
        if self.slots()[i] == 0 {
            Rgba { r: 0, g: 0, b: 0, a: 0 }
        } else {
            let c = self.cells_view()[self.slots()[i] - 1];
            if self.debug_draw && self.chunk_active(c.pos.x as int, c.pos.y as int) {
                Rgba { r: 255, g: 0, b: 0, a: 255 }
            } else {
                c.color
            }
        }
    }

    /// Renders the grid into an RGBA buffer, four bytes per position, row
    /// by row.
    pub fn draw(&self, screen: &mut [u8])
        requires
            self.wf(),
            old(screen)@.len() == 4 * self.slots().len(),
        ensures
            final(screen)@.len() == old(screen)@.len(),
            forall|i: int|
                0 <= i < self.slots().len() ==> {
                    let c = #[trigger] self.pixel(i);
                    &&& final(screen)@[4 * i] == c.r
                    &&& final(screen)@[4 * i + 1] == c.g
                    &&& final(screen)@[4 * i + 2] == c.b
                    &&& final(screen)@[4 * i + 3] == c.a
                },
    {
        let n = self.data.len();
        let len = screen.len();
        let mut i: usize = 0;
        while i < n
            invariant
                self.wf(),
                n == self.slots().len(),
                len == screen@.len(),
                screen@.len() == 4 * n,
                i <= n,
                forall|j: int|
                    0 <= j < i ==> {
                        let c = #[trigger] self.pixel(j);
                        &&& screen@[4 * j] == c.r
                        &&& screen@[4 * j + 1] == c.g
                        &&& screen@[4 * j + 2] == c.b
                        &&& screen@[4 * j + 3] == c.a
                    },
            decreases n - i,
        {
            let slot = self.data[i];
            let color = if slot == 0 {
                Rgba { r: 0, g: 0, b: 0, a: 0 }
            } else {
                let c = self.cells[slot - 1];
                if self.debug_draw && self.chunk_should_step(c.pos) {
                    color_highlight()
                } else {
                    c.color
                }
            };
            screen[4 * i] = color.r;
            screen[4 * i + 1] = color.g;
            screen[4 * i + 2] = color.b;
            screen[4 * i + 3] = color.a;
            i += 1;
        }
    }

    /// The cell the brush paints at `q` with `material`.
    pub open spec fn painted(assets: &Assets, q: Pos, material: Material) -> Cell {
        let col = assets.color_for(q.x as int, q.y as int, material);
        Cell { base_color: col, color: col, ..fresh_cell(q, material) }
    }

    /// Every position of `b` holds what it held in `a`, or what painting it
    /// with `material` gives (nothing, for `Empty`).
    pub open spec fn only_painted(a: &Matrix, b: &Matrix, material: Material, assets: &Assets) -> bool {
        forall|x: int, y: int|
            #[trigger] b.occupant(x, y) == a.occupant(x, y) || b.occupant(x, y) == (if material == Material::Empty {
                None
            } else {
                Some(Self::painted(assets, Pos { x: x as i32, y: y as i32 }, material))
            })
    }

    /// Only fire flags of flammable cells were raised from `a` to `b`.
    pub open spec fn only_ignited(a: &Matrix, b: &Matrix) -> bool {
        forall|x: int, y: int|
            #![trigger b.occupant(x, y)]
            (b.occupant(x, y) is Some) == (a.occupant(x, y) is Some) && (a.occupant(x, y) is Some ==> b.occupant(x, y)->0
                == (Cell { is_on_fire: b.occupant(x, y)->0.is_on_fire, ..a.occupant(x, y)->0 }) && (b.occupant(
                x,
                y,
            )->0.is_on_fire ==> a.occupant(x, y)->0.is_on_fire || spec_flammability(a.occupant(x, y)->0.material) > 0))
    }

    /// Whether `(x, y)` lies in the brush's square clamped into the grid:
    /// the positions a stamp may change.
    pub open spec fn in_brush_box(&self, pos: Pos, size: int, x: int, y: int) -> bool {
        &&& size >= 1
        &&& clamp_int(pos.x - size / 2, self.width as int) <= x <= clamp_int(pos.x + (size + 1) / 2 - 1, self.width as int)
        &&& clamp_int(pos.y - size / 2, self.height as int) <= y <= clamp_int(
            pos.y + (size + 1) / 2 - 1,
            self.height as int,
        )
    }

    /// Whether `(x, y)` lies under a brush of `size` centred on `pos`.
    pub open spec fn under_brush(pos: Pos, size: int, x: int, y: int) -> bool {
        pos.x - size / 2 <= x < pos.x + (size + 1) / 2 && pos.y - size / 2 <= y < pos.y + (size + 1) / 2
    }

    /// Stamps the brush's square centred on `pos`: it fills the square with
    /// `material` (positions outside the grid land on its edge), or, in
    /// ignite mode, sets the flammable cells under it on fire.
    #[verifier::rlimit(100)]
    pub fn draw_brush(&mut self, pos: Pos, material: Material, assets: &Assets)
        requires
            old(self).wf(),
            assets.wf(),
        ensures
            final(self).wf(),
            final(self).same_settings(old(self)),
            only_marks(old(self).chunks@, final(self).chunks@),
            !old(self).brush.place_fire && material != Material::Empty ==> forall|x: int, y: int|
                old(self).in_grid(x, y) && Self::under_brush(pos, old(self).brush.size as int, x, y)
                    ==> #[trigger] final(self).occupant(x, y) == Some(
                    Self::painted(assets, Pos { x: x as i32, y: y as i32 }, material),
                ),
            !old(self).brush.place_fire && material == Material::Empty ==> forall|x: int, y: int|
                Self::under_brush(pos, old(self).brush.size as int, x, y) ==> #[trigger] final(self).occupant(x, y) is None,
            !old(self).brush.place_fire ==> Self::only_painted(old(self), final(self), material, assets),
            // Nothing outside the clamped square changes.
            forall|x: int, y: int|
                !old(self).in_brush_box(pos, old(self).brush.size as int, x, y) ==> #[trigger] final(self).occupant(x, y)
                    == old(self).occupant(x, y),
            old(self).brush.place_fire ==> forall|x: int, y: int|
                #![trigger final(self).occupant(x, y)]
                (final(self).occupant(x, y) is Some) == (old(self).occupant(x, y) is Some) && (old(self).occupant(x, y) is Some
                    ==> final(self).occupant(x, y)->0 == (Cell {
                    is_on_fire: old(self).occupant(x, y)->0.is_on_fire || (Self::under_brush(
                        pos,
                        old(self).brush.size as int,
                        x,
                        y,
                    ) && spec_flammability(old(self).occupant(x, y)->0.material) > 0),
                    ..old(self).occupant(x, y)->0
                })),
    {
        let ghost pre = *self;
        let bs = self.brush.size as i64;
        let lower = bs / 2;
        let upper = (bs + 1) / 2;
        let fire = self.brush.place_fire;
        let mut y = pos.y as i64 + upper;
        while y > pos.y as i64 - lower
            invariant
                self.wf(),
                assets.wf(),
                self.same_settings(&pre),
                only_marks(pre.chunks@, self.chunks@),
                fire == pre.brush.place_fire,
                bs == pre.brush.size,
                lower == bs / 2,
                upper == (bs + 1) / 2,
                pos.y - lower <= y <= pos.y + upper,
                !fire && material != Material::Empty ==> forall|qx: int, qy: int|
                    pre.in_grid(qx, qy) && Self::under_brush(pos, bs as int, qx, qy) && qy >= y
                        ==> #[trigger] self.occupant(qx, qy) == Some(
                        Self::painted(assets, Pos { x: qx as i32, y: qy as i32 }, material),
                    ),
                !fire && material == Material::Empty ==> forall|qx: int, qy: int|
                    Self::under_brush(pos, bs as int, qx, qy) && qy >= y ==> #[trigger] self.occupant(qx, qy) is None,
                !fire ==> Self::only_painted(&pre, self, material, assets),
                forall|qx: int, qy: int|
                    !pre.in_brush_box(pos, bs as int, qx, qy) ==> #[trigger] self.occupant(qx, qy) == pre.occupant(qx, qy),
                fire ==> forall|qx: int, qy: int|
                    #![trigger self.occupant(qx, qy)]
                    (self.occupant(qx, qy) is Some) == (pre.occupant(qx, qy) is Some) && (pre.occupant(qx, qy) is Some
                        ==> self.occupant(qx, qy)->0 == (Cell {
                        is_on_fire: pre.occupant(qx, qy)->0.is_on_fire || (Self::under_brush(pos, bs as int, qx, qy)
                            && qy >= y && spec_flammability(pre.occupant(qx, qy)->0.material) > 0),
                        ..pre.occupant(qx, qy)->0
                    })),
            decreases y - (pos.y as i64 - lower),
        {
            y -= 1;
            let mut x = pos.x as i64 - lower;
            while x < pos.x as i64 + upper
                invariant
                    self.wf(),
                    assets.wf(),
                    self.same_settings(&pre),
                    only_marks(pre.chunks@, self.chunks@),
                    fire == pre.brush.place_fire,
                    bs == pre.brush.size,
                    lower == bs / 2,
                    upper == (bs + 1) / 2,
                    pos.y - lower <= y < pos.y + upper,
                    pos.x - lower <= x <= pos.x + upper,
                    !fire && material != Material::Empty ==> forall|qx: int, qy: int|
                        pre.in_grid(qx, qy) && Self::under_brush(pos, bs as int, qx, qy) && (qy > y || (qy == y && qx < x))
                            ==> #[trigger] self.occupant(qx, qy) == Some(
                            Self::painted(assets, Pos { x: qx as i32, y: qy as i32 }, material),
                        ),
                    !fire && material == Material::Empty ==> forall|qx: int, qy: int|
                        Self::under_brush(pos, bs as int, qx, qy) && (qy > y || (qy == y && qx < x))
                            ==> #[trigger] self.occupant(qx, qy) is None,
                    !fire ==> Self::only_painted(&pre, self, material, assets),
                    forall|qx: int, qy: int|
                        !pre.in_brush_box(pos, bs as int, qx, qy) ==> #[trigger] self.occupant(qx, qy) == pre.occupant(
                            qx,
                            qy,
                        ),
                    fire ==> forall|qx: int, qy: int|
                        #![trigger self.occupant(qx, qy)]
                        (self.occupant(qx, qy) is Some) == (pre.occupant(qx, qy) is Some) && (pre.occupant(qx, qy) is Some
                            ==> self.occupant(qx, qy)->0 == (Cell {
                            is_on_fire: pre.occupant(qx, qy)->0.is_on_fire || (Self::under_brush(pos, bs as int, qx, qy)
                                && (qy > y || (qy == y && qx < x)) && spec_flammability(pre.occupant(qx, qy)->0.material)
                                > 0),
                            ..pre.occupant(qx, qy)->0
                        })),
                decreases pos.x as i64 + upper - x,
            {
                let ghost before = *self;
                if i32::MIN as i64 <= x && x <= i32::MAX as i64 && i32::MIN as i64 <= y && y <= i32::MAX as i64 {
                    let cur = Pos { x: x as i32, y: y as i32 };
                    if fire {
                        match self.lookup(cur) {
                            crate::matrix::Lookup::Occupied(c) => {
                                if c.material.get_flammability() > 0 {
                                    proof {
                                        self.lemma_occupant_pos(x as int, y as int);
                                    }
                                    let mut c2 = c;
                                    c2.is_on_fire = true;
                                    self.update_cell(c2);
                                }
                            },
                            _ => {},
                        }
                        let ghost mid = *self;
                        self.set_chunk_active(cur);
                        proof {
                            lemma_only_marks_trans(pre.chunks@, before.chunks@, mid.chunks@);
                            lemma_only_marks_trans(pre.chunks@, mid.chunks@, self.chunks@);
                            assert forall|qx: int, qy: int| true implies #[trigger] self.occupant(qx, qy) == mid.occupant(qx, qy) by {}
                            assert forall|qx: int, qy: int| !(qx == x && qy == y) implies #[trigger] self.occupant(qx, qy) == before.occupant(qx, qy) by {}
                            if before.in_grid(x as int, y as int) {
                                assert(pre.in_brush_box(pos, bs as int, x as int, y as int));
                            }
                            assert forall|qx: int, qy: int| !pre.in_brush_box(pos, bs as int, qx, qy) implies #[trigger] self.occupant(qx, qy) == pre.occupant(qx, qy) by {
                                if qx == x && qy == y {
                                    assert(!before.in_grid(x as int, y as int));
                                }
                                assert(before.occupant(qx, qy) == pre.occupant(qx, qy));
                            }
                        }
                    } else {
                        self.set_cell_material(cur, material, false, assets);
                        proof {
                            lemma_only_marks_trans(pre.chunks@, before.chunks@, self.chunks@);
                            let p = before.clamped(cur);
                            assert(pre.in_brush_box(pos, bs as int, p.x as int, p.y as int));
                            if before.in_grid(x as int, y as int) {
                                assert(pre.in_brush_box(pos, bs as int, x as int, y as int));
                            }
                            assert forall|qx: int, qy: int| !pre.in_brush_box(pos, bs as int, qx, qy) implies #[trigger] self.occupant(qx, qy) == pre.occupant(qx, qy) by {
                                if material == Material::Empty {
                                    if qx == x && qy == y {
                                        assert(!before.in_grid(x as int, y as int));
                                    }
                                }
                                assert(before.occupant(qx, qy) == pre.occupant(qx, qy));
                            }
                            assert forall|qx: int, qy: int|
                                #[trigger] self.occupant(qx, qy) == pre.occupant(qx, qy) || self.occupant(qx, qy) == (if material
                                    == Material::Empty {
                                    None
                                } else {
                                    Some(Self::painted(assets, Pos { x: qx as i32, y: qy as i32 }, material))
                                }) by {
                                if material == Material::Empty {
                                    if !(qx == x && qy == y) {
                                        assert(self.occupant(qx, qy) == before.occupant(qx, qy));
                                    }
                                } else if !(qx == p.x && qy == p.y) {
                                    assert(self.occupant(qx, qy) == before.occupant(qx, qy));
                                }
                                assert(before.occupant(qx, qy) == pre.occupant(qx, qy) || before.occupant(qx, qy) == (if material
                                    == Material::Empty {
                                    None
                                } else {
                                    Some(Self::painted(assets, Pos { x: qx as i32, y: qy as i32 }, material))
                                }));
                            }
                            if material != Material::Empty {
                                let p = before.clamped(cur);
                                assert forall|qx: int, qy: int|
                                    pre.in_grid(qx, qy) && Self::under_brush(pos, bs as int, qx, qy) && (qy > y || (qy == y && qx
                                        < x + 1)) implies #[trigger] self.occupant(qx, qy) == Some(
                                    Self::painted(assets, Pos { x: qx as i32, y: qy as i32 }, material),
                                ) by {
                                    if !(qx == p.x && qy == p.y) {
                                        assert(self.occupant(qx, qy) == before.occupant(qx, qy));
                                    }
                                }
                            }
                        }
                    }
                }
                x += 1;
            }
        }
    }

    /// The line's start: `(x0, y0)` clamped to `[0, width] x [0, height]`.
    pub open spec fn line_start(&self, x0: isize, y0: isize) -> (isize, isize) {
        (
            (if x0 < 0 { 0 } else if x0 > self.width { self.width as isize } else { x0 }),
            (if y0 < 0 { 0 } else if y0 > self.height { self.height as isize } else { y0 }),
        )
    }

    /// Whether the `i`-th point of `pts` and every point before it lie in
    /// the grid: the points the line stamps.
    pub open spec fn stamped_point(&self, pts: Seq<(isize, isize)>, i: int) -> bool {
        0 <= i < pts.len() && forall|j: int| 0 <= j <= i ==> #[trigger] self.in_grid(pts[j].0 as int, pts[j].1 as int)
    }

    /// Whether the brush has left its mark at `(x, y)`: a painted cell, no
    /// cell for `Empty`, or, in ignite mode, a burning cell where a flammable
    /// one stands.
    pub open spec fn brushed(&self, x: int, y: int, material: Material, assets: &Assets) -> bool {
        if self.brush.place_fire {
            self.occupant(x, y) is Some && spec_flammability(self.occupant(x, y)->0.material) > 0
                ==> self.occupant(x, y)->0.is_on_fire
        } else if material == Material::Empty {
            self.occupant(x, y) is None
        } else {
            self.occupant(x, y) == Some(Self::painted(assets, Pos { x: x as i32, y: y as i32 }, material))
        }
    }

    /// Stamps the brush at every point of the line from `(x0, y0)` (clamped
    /// to the grid's extent) towards `(x1, y1)`, up to the first point
    /// outside the grid.
    pub fn set_line(&mut self, x0: isize, y0: isize, x1: isize, y1: isize, material: Material, assets: &Assets)
        requires
            old(self).wf(),
            assets.wf(),
            -MAX_LINE_COORD <= x1 <= MAX_LINE_COORD,
            -MAX_LINE_COORD <= y1 <= MAX_LINE_COORD,
        ensures
            final(self).wf(),
            final(self).same_settings(old(self)),
            only_marks(old(self).chunks@, final(self).chunks@),
            !old(self).brush.place_fire ==> Self::only_painted(old(self), final(self), material, assets),
            old(self).brush.place_fire ==> Self::only_ignited(old(self), final(self)),
            ({
                let st = old(self).line_start(x0, y0);
                let pts = bresenham_points(st.0 as int, st.1 as int, x1 as int, y1 as int);
                old(self).brush.size >= 1 ==> forall|i: int|
                    #[trigger] old(self).stamped_point(pts, i) ==> final(self).brushed(
                        pts[i].0 as int,
                        pts[i].1 as int,
                        material,
                        assets,
                    )
            }),
    {
        let ghost pre = *self;
        let w = self.width as isize;
        let h = self.height as isize;
        let sx = if x0 < 0 {
            0
        } else if x0 > w {
            w
        } else {
            x0
        };
        let sy = if y0 < 0 {
            0
        } else if y0 > h {
            h
        } else {
            y0
        };
        let limit = self.width + self.height + 1;
        let pts = bresenham(sx, sy, x1, y1, limit);
        let ghost all = bresenham_points(sx as int, sy as int, x1 as int, y1 as int);
        let mut i: usize = 0;
        let mut inside = true;
        while i < pts.len() && inside
            invariant
                self.wf(),
                assets.wf(),
                self.same_settings(&pre),
                only_marks(pre.chunks@, self.chunks@),
                i <= pts@.len(),
                w == pre.width && h == pre.height,
                pts@ == all.take(pts@.len() as int),
                pts@.len() <= all.len(),
                !inside ==> i < pts@.len() && !pre.in_grid(pts@[i as int].0 as int, pts@[i as int].1 as int),
                !pre.brush.place_fire ==> Self::only_painted(&pre, self, material, assets),
                pre.brush.place_fire ==> Self::only_ignited(&pre, self),
                pre.brush.size >= 1 ==> forall|j: int|
                    0 <= j < i ==> #[trigger] self.brushed(pts@[j].0 as int, pts@[j].1 as int, material, assets),
            decreases pts@.len() - i + (if inside { 1int } else { 0int }),
        {
            let (x, y) = pts[i];
            if 0 <= x && x < w && 0 <= y && y < h {
                let ghost before = *self;
                self.draw_brush(Pos { x: x as i32, y: y as i32 }, material, assets);
                proof {
                    lemma_only_marks_trans(pre.chunks@, before.chunks@, self.chunks@);
                    if !pre.brush.place_fire {
                        assert forall|qx: int, qy: int|
                            #[trigger] self.occupant(qx, qy) == pre.occupant(qx, qy) || self.occupant(qx, qy) == (if material
                                == Material::Empty {
                                None
                            } else {
                                Some(Self::painted(assets, Pos { x: qx as i32, y: qy as i32 }, material))
                            }) by {
                            assert(self.occupant(qx, qy) == before.occupant(qx, qy) || self.occupant(qx, qy) == (if material
                                == Material::Empty {
                                None
                            } else {
                                Some(Self::painted(assets, Pos { x: qx as i32, y: qy as i32 }, material))
                            }));
                            assert(before.occupant(qx, qy) == pre.occupant(qx, qy) || before.occupant(qx, qy) == (if material
                                == Material::Empty {
                                None
                            } else {
                                Some(Self::painted(assets, Pos { x: qx as i32, y: qy as i32 }, material))
                            }));
                        }
                    } else {
                        assert forall|qx: int, qy: int| #![trigger self.occupant(qx, qy)] true implies ((self.occupant(qx, qy) is Some) == (pre.occupant(qx, qy) is Some) && (pre.occupant(qx, qy) is Some ==> self.occupant(qx, qy)->0
                            == (Cell { is_on_fire: self.occupant(qx, qy)->0.is_on_fire, ..pre.occupant(qx, qy)->0 }) && (self.occupant(
                            qx,
                            qy,
                        )->0.is_on_fire ==> pre.occupant(qx, qy)->0.is_on_fire || spec_flammability(pre.occupant(qx, qy)->0.material) > 0))) by {
                            assert(before.occupant(qx, qy) == before.occupant(qx, qy));
                        }
                    }
                    if pre.brush.size >= 1 {
                        assert forall|j: int| 0 <= j < i + 1 implies #[trigger] self.brushed(
                            pts@[j].0 as int,
                            pts@[j].1 as int,
                            material,
                            assets,
                        ) by {
                            let qx = pts@[j].0 as int;
                            let qy = pts@[j].1 as int;
                            if j == i {
                                assert(Self::under_brush(Pos { x: x as i32, y: y as i32 }, pre.brush.size as int, qx, qy));
                            } else {
                                assert(before.brushed(qx, qy, material, assets));
                                assert(self.occupant(qx, qy) == self.occupant(qx, qy));
                                assert(before.occupant(qx, qy) == before.occupant(qx, qy));
                            }
                        }
                    }
                }
                i += 1;
            } else {
                inside = false;
            }
        }
        proof {
            let st = pre.line_start(x0, y0);
            assert(st == (sx, sy));
            if pre.brush.size >= 1 {
                assert forall|k: int| #[trigger] pre.stamped_point(all, k) implies self.brushed(
                    all[k].0 as int,
                    all[k].1 as int,
                    material,
                    assets,
                ) by {
                    if k >= i {
                        if !inside {
                            assert(pts@[i as int] == all[i as int]);
                            assert(pre.in_grid(all[i as int].0 as int, all[i as int].1 as int));
                        } else {
                            assert(i == pts@.len());
                            if pts@.len() < all.len() {
                                assert(pts@.len() == limit);
                                let l = limit - 1;
                                assert(pre.in_grid(all[l].0 as int, all[l].1 as int));
                                assert(pts@[l] == all[l]);
                                assert(chebyshev(pts@[l].0 as int - sx, pts@[l].1 as int - sy) == l);
                            }
                        }
                    }
                    assert(pts@[k] == all[k]);
                }
            }
        }
    }
}

} // verus!
