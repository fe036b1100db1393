use vstd::prelude::*;
use crate::brush::Brush;
use crate::cell::{Cell, Pos, fresh_cell, same_substance};
use crate::chunk::{Chunk, MAX_IDLE_FRAMES};
use crate::material::Material;
use crate::assets::Assets;
use vstd::set_lib::{set_int_range, lemma_int_range, lemma_map_size, lemma_len_subset};
use vstd::relations::injective_on;

verus! {

/// The side of a square chunk, in cells.
pub const CHUNK_SIZE: usize = 16;

/// The largest width or height of a grid.
pub const MAX_SIDE: usize = 0x40_0000;

/// The number of chunks along a side of `n` cells.
pub open spec fn chunk_count(n: int) -> int {
    (n + CHUNK_SIZE - 1) / (CHUNK_SIZE as int)
}

/// Whether `(x, y)` is among the neighbours of `p` within `radius`: the
/// four orthogonal ones for radius 1, else the square of that radius.
pub open spec fn in_reach(p: Pos, radius: int, x: int, y: int) -> bool {
    if radius == 1 {
        (x == p.x && (y == p.y - 1 || y == p.y + 1)) || (y == p.y && (x == p.x - 1 || x == p.x + 1))
    } else {
        p.x - radius <= x <= p.x + radius && p.y - radius <= y <= p.y + radius
    }
}

/// The four orthogonal neighbours of `p`: left, right, above, below.
pub open spec fn orthogonal_positions(p: Pos) -> Seq<(int, int)> {
    seq![(p.x - 1, p.y as int), (p.x + 1, p.y as int), (p.x as int, p.y - 1), (p.x as int, p.y + 1)]
}

/// Whether `a` comes before `b` row by row, left to right.
pub open spec fn row_major_before(a: Pos, b: Pos) -> bool {
    a.y < b.y || (a.y == b.y && a.x < b.x)
}

/// Chunk flags changed only by raising requests for the next frame.
pub open spec fn only_marks(a: Seq<Chunk>, b: Seq<Chunk>) -> bool {
    &&& a.len() == b.len()
    &&& forall|k: int|
        #![trigger b[k]]
        0 <= k < b.len() ==> b[k] == (Chunk { should_step_next_frame: b[k].should_step_next_frame, ..a[k] })
            && (a[k].should_step_next_frame ==> b[k].should_step_next_frame)
}

/// Cells at the same indices agree on all that a move leaves alone.
pub open spec fn kept_substance(a: Seq<Cell>, b: Seq<Cell>) -> bool {
    &&& a.len() == b.len()
    &&& forall|k: int| #![trigger b[k]] 0 <= k < b.len() ==> same_substance(a[k], b[k])
}

pub proof fn lemma_only_marks_trans(a: Seq<Chunk>, b: Seq<Chunk>, c: Seq<Chunk>)
    requires
        only_marks(a, b),
        only_marks(b, c),
    ensures
        only_marks(a, c),
{
    assert forall|k: int| #![trigger c[k]] 0 <= k < c.len() implies c[k] == (Chunk {
        should_step_next_frame: c[k].should_step_next_frame,
        ..a[k]
    }) && (a[k].should_step_next_frame ==> c[k].should_step_next_frame) by {
        assert(b[k] == (Chunk { should_step_next_frame: b[k].should_step_next_frame, ..a[k] }));
    }
}

pub proof fn lemma_kept_substance_trans(a: Seq<Cell>, b: Seq<Cell>, c: Seq<Cell>)
    requires
        kept_substance(a, b),
        kept_substance(b, c),
    ensures
        kept_substance(a, c),
{
    assert forall|k: int| #![trigger c[k]] 0 <= k < c.len() implies same_substance(a[k], c[k]) by {
        assert(same_substance(a[k], b[k]));
    }
}

/// Distinct grid coordinates have distinct slots.
pub proof fn lemma_index_injective(w: int, x1: int, y1: int, x2: int, y2: int)
    requires
        0 <= x1 < w,
        0 <= x2 < w,
        0 <= y1,
        0 <= y2,
        x1 + y1 * w == x2 + y2 * w,
    ensures
        x1 == x2 && y1 == y2,
{
    if y1 < y2 {
        assert(y1 * w + w <= y2 * w) by (nonlinear_arith)
            requires y1 < y2, w > 0;
    } else if y2 < y1 {
        assert(y2 * w + w <= y1 * w) by (nonlinear_arith)
            requires y2 < y1, w > 0;
    }
}

/// A grid coordinate's slot lies within the slot array.
pub proof fn lemma_index_in_range(w: int, h: int, x: int, y: int)
    requires
        0 <= x < w,
        0 <= y < h,
    ensures
        0 <= x + y * w < w * h,
{
    assert(0 <= y * w) by (nonlinear_arith)
        requires 0 <= y, 0 <= w;
    assert(y * w + w <= h * w) by (nonlinear_arith)
        requires y < h, 0 <= w;
}

/// The simulated world: a dense array of live cells, a slot per grid
/// position holding 0 or the 1-based index of its cell, and the chunks that
/// schedule which regions step.
pub struct Matrix {
    pub width: usize,
    pub height: usize,
    pub cells: Vec<Cell>,
    pub data: Vec<usize>,
    pub chunks: Vec<Chunk>,
    pub debug_draw: bool,
    pub update_left: bool,
    pub brush: Brush,
    /// Milliseconds to wait between frames.
    pub wait_time_after_frame: u32,
    pub rng: fastrand::Rng,
}

/// What a grid position holds.
#[derive(Clone, Copy, Debug, PartialEq, Eq, Structural)]
pub enum Lookup {
    Occupied(Cell),
    Empty,
    OutOfBounds,
}

impl Matrix {
    /// The live cells, in storage order.
    pub open spec fn cells_view(&self) -> Seq<Cell> {
        self.cells@
    }

    /// The grid slots, row by row.
    pub open spec fn slots(&self) -> Seq<usize> {
        self.data@
    }

    pub open spec fn in_grid(&self, x: int, y: int) -> bool {
        0 <= x < self.width && 0 <= y < self.height
    }

    pub open spec fn index_of(&self, x: int, y: int) -> int {
        x + y * self.width
    }

    /// The cell at a grid position, if any.
    pub open spec fn occupant(&self, x: int, y: int) -> Option<Cell> {
        if self.in_grid(x, y) && self.slots()[self.index_of(x, y)] != 0 {
            Some(self.cells_view()[self.slots()[self.index_of(x, y)] - 1])
        } else {
            None
        }
    }

    pub open spec fn occ(&self, p: Pos) -> Option<Cell> {
        self.occupant(p.x as int, p.y as int)
    }

    pub open spec fn chunks_x(&self) -> int {
        chunk_count(self.width as int)
    }

    /// The chunk that holds a grid position.
    pub open spec fn chunk_of(&self, x: int, y: int) -> int {
        x / (CHUNK_SIZE as int) + (y / (CHUNK_SIZE as int)) * self.chunks_x()
    }

    /// Whether the chunk holding a grid position is requested for the next
    /// frame.
    pub open spec fn marked(&self, x: int, y: int) -> bool {
        self.chunks@[self.chunk_of(x, y)].should_step_next_frame
    }

    /// The settings that grid operations leave alone.
    pub open spec fn same_settings(&self, o: &Self) -> bool {
        &&& self.width == o.width
        &&& self.height == o.height
        &&& self.debug_draw == o.debug_draw
        &&& self.update_left == o.update_left
        &&& self.brush == o.brush
        &&& self.wait_time_after_frame == o.wait_time_after_frame
    }

    /// The grid index is consistent: each live cell's slot points back at
    /// it, every non-zero slot names a live cell at that slot's position, and
    /// no live cell is `Empty`.
    pub open spec fn wf(&self) -> bool {
        &&& 1 <= self.width <= MAX_SIDE
        &&& 1 <= self.height <= MAX_SIDE
        &&& self.slots().len() == self.width * self.height
        &&& self.chunks@.len() == chunk_count(self.width as int) * chunk_count(self.height as int)
        &&& forall|k: int|
            #![trigger self.chunks@[k]]
            0 <= k < self.chunks@.len() ==> self.chunks@[k].num_frames_without_step < MAX_IDLE_FRAMES
        &&& self.cells_view().len() <= self.slots().len()
        &&& forall|k: int|
            #![trigger self.cells_view()[k]]
            0 <= k < self.cells_view().len() ==> {
                let c = self.cells_view()[k];
                &&& self.in_grid(c.pos.x as int, c.pos.y as int)
                &&& self.slots()[self.index_of(c.pos.x as int, c.pos.y as int)] == k + 1
                &&& c.material != Material::Empty
            }
        &&& forall|i: int|
            #![trigger self.slots()[i]]
            0 <= i < self.slots().len() ==> self.slots()[i] <= self.cells_view().len() && (
            self.slots()[i] != 0 ==> {
                let c = self.cells_view()[self.slots()[i] - 1];
                self.index_of(c.pos.x as int, c.pos.y as int) == i
            })
    }

    /// An occupant stands at its own position.
    pub proof fn lemma_occupant_pos(&self, x: int, y: int)
        requires
            self.wf(),
        ensures
            self.occupant(x, y) is Some ==> self.occupant(x, y)->0.pos == (Pos { x: x as i32, y: y as i32 })
                && x == self.occupant(x, y)->0.pos.x && y == self.occupant(x, y)->0.pos.y,
            self.occupant(x, y) is Some ==> self.occupant(x, y)->0.material != Material::Empty,
    {
        if self.occupant(x, y) is Some {
            let i = self.index_of(x, y);
            lemma_index_in_range(self.width as int, self.height as int, x, y);
            assert(self.slots()[i] != 0);
            let k = self.slots()[i] - 1;
            let c = self.cells_view()[k];
            assert(self.in_grid(c.pos.x as int, c.pos.y as int));
            lemma_index_injective(self.width as int, x, y, c.pos.x as int, c.pos.y as int);
        }
    }

    /// Every live cell is the occupant of its position.
    pub proof fn lemma_cell_is_occupant(&self, k: int)
        requires
            self.wf(),
            0 <= k < self.cells_view().len(),
        ensures
            self.occ(self.cells_view()[k].pos) == Some(self.cells_view()[k]),
    {
        let c = self.cells_view()[k];
        assert(self.in_grid(c.pos.x as int, c.pos.y as int));
    }

    /// No two live cells share a position.
    pub proof fn lemma_positions_distinct(&self, j: int, k: int)
        requires
            self.wf(),
            0 <= j < self.cells_view().len(),
            0 <= k < self.cells_view().len(),
            j != k,
        ensures
            self.cells_view()[j].pos != self.cells_view()[k].pos,
    {
        let cj = self.cells_view()[j];
        let ck = self.cells_view()[k];
        assert(self.slots()[self.index_of(cj.pos.x as int, cj.pos.y as int)] == j + 1);
        assert(self.slots()[self.index_of(ck.pos.x as int, ck.pos.y as int)] == k + 1);
    }

    /// While some slot is empty, the cell array has room for one more cell:
    /// the live cells name distinct slots.
    pub proof fn lemma_room_for_empty_slot(&self, i0: int)
        requires
            self.wf(),
            0 <= i0 < self.slots().len(),
            self.slots()[i0] == 0,
        ensures
            self.cells_view().len() < self.slots().len(),
    {
        let n = self.cells_view().len() as int;
        let big_n = self.slots().len() as int;
        let a = set_int_range(0, n);
        let f = |k: int| self.index_of(self.cells_view()[k].pos.x as int, self.cells_view()[k].pos.y as int);
        let y = a.map(f);
        lemma_int_range(0, n);
        lemma_int_range(0, big_n);
        assert forall|k1: int, k2: int| a.contains(k1) && a.contains(k2) && #[trigger] f(k1) == #[trigger] f(k2) implies k1
            == k2 by {
            assert(self.slots()[f(k1)] == k1 + 1);
            assert(self.slots()[f(k2)] == k2 + 1);
        }
        assert(injective_on(f, a));
        lemma_map_size(a, y, f);
        let r = set_int_range(0, big_n).remove(i0);
        assert forall|v: int| y.contains(v) implies r.contains(v) by {
            let k = choose|k: int| a.contains(k) && f(k) == v;
            let c = self.cells_view()[k];
            lemma_index_in_range(self.width as int, self.height as int, c.pos.x as int, c.pos.y as int);
            assert(self.slots()[v] == k + 1);
        }
        assert(y.subset_of(r));
        lemma_len_subset(y, r);
        assert(set_int_range(0, big_n).contains(i0));
    }

    /// The grid index is consistent: every live cell is what the grid shows
    /// at its position, and no two live cells share a position.
    pub proof fn lemma_index_consistent(&self)
        requires
            self.wf(),
        ensures
            forall|k: int|
                0 <= k < self.cells@.len() ==> self.occ(#[trigger] self.cells@[k].pos) == Some(self.cells@[k]),
            forall|j: int, k: int|
                0 <= j < self.cells@.len() && 0 <= k < self.cells@.len() && j != k ==> #[trigger] self.cells@[j].pos
                    != #[trigger] self.cells@[k].pos,
    {
        assert forall|k: int| 0 <= k < self.cells@.len() implies self.occ(#[trigger] self.cells@[k].pos) == Some(
            self.cells@[k],
        ) by {
            self.lemma_cell_is_occupant(k);
        }
        assert forall|j: int, k: int|
            0 <= j < self.cells@.len() && 0 <= k < self.cells@.len() && j != k implies #[trigger] self.cells@[j].pos
                != #[trigger] self.cells@[k].pos by {
            self.lemma_positions_distinct(j, k);
        }
    }

    pub fn is_in_bounds(&self, pos: Pos) -> (r: bool)
        ensures
            r == self.in_grid(pos.x as int, pos.y as int),
    {
        pos.x >= 0 && (pos.x as usize) < self.width && pos.y >= 0 && (pos.y as usize) < self.height
    }

    /// The slot index of a grid position.
    fn cell_idx(&self, pos: Pos) -> (r: usize)
        requires
            self.wf(),
            self.in_grid(pos.x as int, pos.y as int),
        ensures
            r == self.index_of(pos.x as int, pos.y as int),
            r < self.slots().len(),
    {
        let x = pos.x as usize;
        let y = pos.y as usize;
        let n = self.data.len();
        proof {
            lemma_index_in_range(self.width as int, self.height as int, x as int, y as int);
            assert(self.data@.len() == self.width * self.height);
        }
        x + y * self.width
    }

    /// Clamps a position into the grid.
    pub fn clamp_pos(&self, pos: Pos) -> (r: Pos)
        requires
            self.wf(),
        ensures
            self.in_grid(r.x as int, r.y as int),
            r.x == (if pos.x < 0 { 0 } else if pos.x >= self.width { self.width - 1 } else { pos.x as int }),
            r.y == (if pos.y < 0 { 0 } else if pos.y >= self.height { self.height - 1 } else { pos.y as int }),
    {
        let x: i32 = if pos.x < 0 {
            0
        } else if pos.x as usize >= self.width {
            (self.width - 1) as i32
        } else {
            pos.x
        };
        let y: i32 = if pos.y < 0 {
            0
        } else if pos.y as usize >= self.height {
            (self.height - 1) as i32
        } else {
            pos.y
        };
        Pos { x, y }
    }

    /// The slot at a position: 0 when it holds no cell or lies outside.
    pub fn get_data_at_pos(&self, pos: Pos) -> (r: usize)
        requires
            self.wf(),
        ensures
            r == (if self.in_grid(pos.x as int, pos.y as int) {
                self.slots()[self.index_of(pos.x as int, pos.y as int)] as int
            } else {
                0
            }),
            r <= self.cells_view().len(),
    {
        if !self.is_in_bounds(pos) {
            return 0;
        }
        let idx = self.cell_idx(pos);
        self.data[idx]
    }

    /// What a position holds: a live cell, nothing, or the wall outside.
    pub fn lookup(&self, pos: Pos) -> (r: Lookup)
        requires
            self.wf(),
        ensures
            r == (if !self.in_grid(pos.x as int, pos.y as int) {
                Lookup::OutOfBounds
            } else {
                match self.occ(pos) {
                    Some(c) => Lookup::Occupied(c),
                    None => Lookup::Empty,
                }
            }),
    {
        if !self.is_in_bounds(pos) {
            return Lookup::OutOfBounds;
        }
        let idx = self.get_data_at_pos(pos);
        if idx == 0 {
            Lookup::Empty
        } else {
            Lookup::Occupied(self.cells[idx - 1])
        }
    }

    /// The cell at a position; an `Empty` cell at the origin where a position
    /// of the grid holds none, and the wall (an `Empty` cell at `(-1, -1)`,
    /// where no cell can stand) outside the grid.
    pub fn get_cell_by_pos(&self, pos: Pos) -> (r: Cell)
        requires
            self.wf(),
        ensures
            r == (if !self.in_grid(pos.x as int, pos.y as int) {
                wall_cell()
            } else {
                match self.occ(pos) {
                    Some(c) => c,
                    None => empty_cell(),
                }
            }),
            r != wall_cell() <== self.in_grid(pos.x as int, pos.y as int),
    {
        proof {
            self.lemma_occupant_pos(pos.x as int, pos.y as int);
        }
        match self.lookup(pos) {
            Lookup::Occupied(c) => c,
            Lookup::Empty => Cell::new(Pos { x: 0, y: 0 }, Material::Empty),
            Lookup::OutOfBounds => Cell::new(Pos { x: -1, y: -1 }, Material::Empty),
        }
    }

    /// Whether a chunk coordinate names a chunk of the grid.
    pub fn chunk_in_bounds(&self, chunk_pos: Pos) -> (r: bool)
        requires
            self.wf(),
        ensures
            r == (0 <= chunk_pos.x < chunk_count(self.width as int) && 0 <= chunk_pos.y < chunk_count(
                self.height as int,
            )),
    {
        let ncx = (self.width + (CHUNK_SIZE - 1)) / CHUNK_SIZE;
        let ncy = (self.height + (CHUNK_SIZE - 1)) / CHUNK_SIZE;
        chunk_pos.x >= 0 && (chunk_pos.x as usize) < ncx && chunk_pos.y >= 0 && (chunk_pos.y as usize) < ncy
    }

    /// Whether a position falls in a chunk of the grid.
    pub open spec fn chunk_valid(&self, x: int, y: int) -> bool {
        x >= 0 && y >= 0 && x / (CHUNK_SIZE as int) < chunk_count(self.width as int) && y / (
        CHUNK_SIZE as int) < chunk_count(self.height as int)
    }

    /// The chunks with the one holding `(x, y)` requested for the next frame.
    pub open spec fn with_mark(&self, x: int, y: int) -> Seq<Chunk> {
        if self.chunk_valid(x, y) {
            self.chunks@.update(
                self.chunk_of(x, y),
                Chunk { should_step_next_frame: true, ..self.chunks@[self.chunk_of(x, y)] },
            )
        } else {
            self.chunks@
        }
    }

    pub proof fn lemma_chunk_of_in_range(&self, x: int, y: int)
        requires
            self.wf(),
            self.chunk_valid(x, y),
        ensures
            0 <= self.chunk_of(x, y) < self.chunks@.len(),
    {
        lemma_index_in_range(
            chunk_count(self.width as int),
            chunk_count(self.height as int),
            x / (CHUNK_SIZE as int),
            y / (CHUNK_SIZE as int),
        );
    }

    /// Tells the chunk holding `pos` to step in the next frame.
    pub fn set_chunk_active(&mut self, pos: Pos)
        requires
            old(self).wf(),
        ensures
            final(self).wf(),
            final(self).same_settings(old(self)),
            final(self).cells@ == old(self).cells@,
            final(self).data@ == old(self).data@,
            final(self).chunks@ == old(self).with_mark(pos.x as int, pos.y as int),
            only_marks(old(self).chunks@, final(self).chunks@),
            old(self).in_grid(pos.x as int, pos.y as int) ==> final(self).marked(pos.x as int, pos.y as int),
    {
        if pos.x < 0 || pos.y < 0 {
            return;
        }
        let cx = pos.x as usize / CHUNK_SIZE;
        let cy = pos.y as usize / CHUNK_SIZE;
        let ncx = (self.width + (CHUNK_SIZE - 1)) / CHUNK_SIZE;
        let ncy = (self.height + (CHUNK_SIZE - 1)) / CHUNK_SIZE;
        if cx < ncx && cy < ncy {
            let n = self.chunks.len();
            proof {
                assert(ncx == chunk_count(self.width as int));
                assert(ncy == chunk_count(self.height as int));
                self.lemma_chunk_of_in_range(pos.x as int, pos.y as int);
                lemma_index_in_range(ncx as int, ncy as int, cx as int, cy as int);
            }
            let k = cx + cy * ncx;
            let mut c = self.chunks[k];
            c.should_step_next_frame = true;
            self.chunks.set(k, c);
        }
    }

    /// Tells the chunk holding `pos` and the eight around it to step in the
    /// next frame.
    pub fn set_chunk_cluster_active(&mut self, pos: Pos)
        requires
            old(self).wf(),
        ensures
            final(self).wf(),
            final(self).same_settings(old(self)),
            final(self).cells@ == old(self).cells@,
            final(self).data@ == old(self).data@,
            only_marks(old(self).chunks@, final(self).chunks@),
            old(self).in_grid(pos.x as int, pos.y as int) ==> final(self).marked(pos.x as int, pos.y as int),
            forall|dx: int, dy: int|
                -1 <= dx <= 1 && -1 <= dy <= 1 && #[trigger] old(self).chunk_valid(
                    pos.x + dx * CHUNK_SIZE,
                    pos.y + dy * CHUNK_SIZE,
                ) ==> final(self).marked(pos.x + dx * CHUNK_SIZE, pos.y + dy * CHUNK_SIZE),
    {
        let ghost start = *self;
        let mut dy: i64 = -1;
        while dy <= 1
            invariant
                -1 <= dy <= 2,
                self.wf(),
                self.same_settings(&start),
                self.cells@ == start.cells@,
                self.data@ == start.data@,
                only_marks(start.chunks@, self.chunks@),
                forall|ddx: int, ddy: int|
                    -1 <= ddx <= 1 && -1 <= ddy < dy && !(ddx == 0 && ddy == 0) && #[trigger] start.chunk_valid(
                        pos.x + ddx * CHUNK_SIZE,
                        pos.y + ddy * CHUNK_SIZE,
                    ) ==> self.marked(pos.x + ddx * CHUNK_SIZE, pos.y + ddy * CHUNK_SIZE),
            decreases 2 - dy,
        {
            let mut dx: i64 = -1;
            while dx <= 1
                invariant
                    -1 <= dx <= 2,
                    -1 <= dy <= 1,
                    self.wf(),
                    self.same_settings(&start),
                    self.cells@ == start.cells@,
                    self.data@ == start.data@,
                    only_marks(start.chunks@, self.chunks@),
                    forall|ddx: int, ddy: int|
                        -1 <= ddx <= 1 && -1 <= ddy <= dy && (ddy < dy || ddx < dx) && !(ddx == 0 && ddy == 0)
                            && #[trigger] start.chunk_valid(pos.x + ddx * CHUNK_SIZE, pos.y + ddy * CHUNK_SIZE)
                            ==> self.marked(pos.x + ddx * CHUNK_SIZE, pos.y + ddy * CHUNK_SIZE),
                decreases 2 - dx,
            {
                let x = pos.x as i64 + dx * (CHUNK_SIZE as i64);
                let y = pos.y as i64 + dy * (CHUNK_SIZE as i64);
                let ghost before = *self;
                if (dx != 0 || dy != 0) && i32::MIN as i64 <= x && x <= i32::MAX as i64 && i32::MIN as i64 <= y
                    && y <= i32::MAX as i64 {
                    self.set_chunk_active(Pos { x: x as i32, y: y as i32 });
                    proof {
                        lemma_only_marks_trans(start.chunks@, before.chunks@, self.chunks@);
                        if start.chunk_valid(x as int, y as int) {
                            self.lemma_chunk_of_in_range(x as int, y as int);
                        }
                    }
                }
                proof {
                    assert forall|ddx: int, ddy: int|
                        -1 <= ddx <= 1 && -1 <= ddy <= dy && (ddy < dy || ddx < dx + 1) && !(ddx == 0 && ddy == 0)
                            && #[trigger] start.chunk_valid(pos.x + ddx * CHUNK_SIZE, pos.y + ddy * CHUNK_SIZE)
                            implies self.marked(pos.x + ddx * CHUNK_SIZE, pos.y + ddy * CHUNK_SIZE) by {
                        let qx = pos.x + ddx * CHUNK_SIZE;
                        let qy = pos.y + ddy * CHUNK_SIZE;
                        self.lemma_chunk_of_in_range(qx, qy);
                        if ddy < dy || ddx < dx {
                            assert(before.marked(qx, qy));
                            assert(self.chunks@[self.chunk_of(qx, qy)] == self.chunks@[self.chunk_of(qx, qy)]);
                        }
                    }
                }
                dx += 1;
            }
            dy += 1;
        }
        let ghost before = *self;
        self.set_chunk_active(pos);
        proof {
            lemma_only_marks_trans(start.chunks@, before.chunks@, self.chunks@);
            assert forall|dx: int, dy: int|
                -1 <= dx <= 1 && -1 <= dy <= 1 && #[trigger] start.chunk_valid(pos.x + dx * CHUNK_SIZE, pos.y + dy * CHUNK_SIZE)
                    implies self.marked(pos.x + dx * CHUNK_SIZE, pos.y + dy * CHUNK_SIZE) by {
                let qx = pos.x + dx * CHUNK_SIZE;
                let qy = pos.y + dy * CHUNK_SIZE;
                self.lemma_chunk_of_in_range(qx, qy);
                if !(dx == 0 && dy == 0) {
                    assert(before.marked(qx, qy));
                    assert(self.chunks@[self.chunk_of(qx, qy)] == self.chunks@[self.chunk_of(qx, qy)]);
                } else {
                    assert(qx == pos.x && qy == pos.y);
                }
            }
        }
    }

    /// The cells standing at the positions `ps`, in their order; positions
    /// without a cell are passed over.
    pub open spec fn occupants_along(&self, ps: Seq<(int, int)>) -> Seq<Cell>
        decreases ps.len(),
    {
        if ps.len() == 0 {
            Seq::empty()
        } else {
            let init = self.occupants_along(ps.drop_last());
            match self.occupant(ps.last().0, ps.last().1) {
                Some(c) => init.push(c),
                None => init,
            }
        }
    }

    /// The slot of an occupied grid position, as an index into the cells.
    pub open spec fn cell_index_at(&self, p: Pos) -> int {
        self.slots()[self.index_of(p.x as int, p.y as int)] - 1
    }

    /// The cell stored at the 1-based `cell_index`, or an `Empty` cell at the
    /// origin where the index names none.
    fn get_cell_by_index(&self, cell_index: usize) -> (r: Cell)
        ensures
            r == (if 1 <= cell_index <= self.cells@.len() {
                self.cells@[cell_index - 1]
            } else {
                fresh_cell(Pos { x: 0, y: 0 }, Material::Empty)
            }),
    {
        if cell_index < 1 || cell_index > self.cells.len() {
            return Cell::new(Pos { x: 0, y: 0 }, Material::Empty);
        }
        self.cells[cell_index - 1]
    }

    /// Overwrites the cell stored at 0-based `cell_index` with `cell`, where
    /// that keeps the index consistent: `cell` stands where the stored cell
    /// stands and is not `Empty`. Otherwise nothing happens.
    pub fn set_cell(&mut self, cell_index: usize, cell: Cell)
        requires
            old(self).wf(),
        ensures
            final(self).wf(),
            final(self).same_settings(old(self)),
            final(self).chunks@ == old(self).chunks@,
            final(self).data@ == old(self).data@,
            final(self).cells@ == (if cell_index < old(self).cells@.len() && cell.pos == old(self).cells@[cell_index as int].pos
                && cell.material != Material::Empty {
                old(self).cells@.update(cell_index as int, cell)
            } else {
                old(self).cells@
            }),
    {
        if cell_index < self.cells.len() {
            let c = self.get_cell_by_index(cell_index + 1);
            if cell.pos == c.pos && cell.material != Material::Empty {
                proof {
                    self.lemma_cell_is_occupant(cell_index as int);
                    lemma_index_in_range(self.width as int, self.height as int, cell.pos.x as int, cell.pos.y as int);
                }
                self.update_cell(cell);
            }
        }
    }

    /// Stores `cell` at its position: a cell already there is overwritten in
    /// place, else the cell is appended. A cell outside the grid or of
    /// `Empty` is not stored.
    pub fn add_cell_to_cells(&mut self, cell: Cell)
        requires
            old(self).wf(),
        ensures
            final(self).wf(),
            final(self).same_settings(old(self)),
            final(self).chunks@ == old(self).chunks@,
            !old(self).in_grid(cell.pos.x as int, cell.pos.y as int) || cell.material == Material::Empty ==> final(self).cells@ == old(self).cells@ && final(self).data@ == old(self).data@,
            old(self).in_grid(cell.pos.x as int, cell.pos.y as int) && cell.material != Material::Empty && old(self).occ(cell.pos) is Some ==> final(self).occ(cell.pos) == Some(cell) && final(self).cells@ == old(self).cells@.update(old(self).cell_index_at(cell.pos), cell)
                && final(self).data@ == old(self).data@,
            old(self).in_grid(cell.pos.x as int, cell.pos.y as int) && cell.material != Material::Empty && old(self).occ(cell.pos) is None ==> final(self).occ(cell.pos) == Some(cell) && final(self).cells@ == old(self).cells@.push(cell),
            forall|x: int, y: int|
                !(x == cell.pos.x && y == cell.pos.y) ==> #[trigger] final(self).occupant(x, y) == old(self).occupant(x, y),
    {
        let ghost pre = *self;
        if !self.is_in_bounds(cell.pos) || cell.material == Material::Empty {
            return;
        }
        let idx = self.cell_idx(cell.pos);
        let at = self.data[idx];
        if at != 0 {
            self.cells.set(at - 1, cell);
            proof {
                assert forall|k: int| #![trigger self.cells_view()[k]] 0 <= k < self.cells_view().len() implies {
                    let c = self.cells_view()[k];
                    &&& self.in_grid(c.pos.x as int, c.pos.y as int)
                    &&& self.slots()[self.index_of(c.pos.x as int, c.pos.y as int)] == k + 1
                    &&& c.material != Material::Empty
                } by {
                    let c = pre.cells_view()[k];
                    lemma_index_in_range(pre.width as int, pre.height as int, c.pos.x as int, c.pos.y as int);
                    if k == at - 1 {
                        assert(pre.index_of(c.pos.x as int, c.pos.y as int) == idx);
                    }
                }
                assert forall|i: int| #![trigger self.slots()[i]] 0 <= i < self.slots().len() implies self.slots()[i]
                    <= self.cells_view().len() && (self.slots()[i] != 0 ==> {
                    let c = self.cells_view()[self.slots()[i] - 1];
                    self.index_of(c.pos.x as int, c.pos.y as int) == i
                }) by {
                    assert(pre.slots()[i] == self.slots()[i]);
                    assert(pre.slots()[idx as int] == at);
                }
                lemma_occupants_agree(&pre, self, cell.pos, cell.pos);
            }
        } else {
            proof {
                pre.lemma_room_for_empty_slot(idx as int);
            }
            self.cells.push(cell);
            let n = self.cells.len();
            self.data.set(idx, n);
            proof {
                assert forall|k: int| #![trigger self.cells_view()[k]] 0 <= k < self.cells_view().len() implies {
                    let c = self.cells_view()[k];
                    &&& self.in_grid(c.pos.x as int, c.pos.y as int)
                    &&& self.slots()[self.index_of(c.pos.x as int, c.pos.y as int)] == k + 1
                    &&& c.material != Material::Empty
                } by {
                    if k < n - 1 {
                        let c = pre.cells_view()[k];
                        let ci = pre.index_of(c.pos.x as int, c.pos.y as int);
                        lemma_index_in_range(pre.width as int, pre.height as int, c.pos.x as int, c.pos.y as int);
                        assert(pre.slots()[ci] == k + 1);
                        assert(ci != idx);
                        assert(self.slots()[ci] == k + 1);
                    }
                }
                assert forall|i: int| #![trigger self.slots()[i]] 0 <= i < self.slots().len() implies self.slots()[i]
                    <= self.cells_view().len() && (self.slots()[i] != 0 ==> {
                    let c = self.cells_view()[self.slots()[i] - 1];
                    self.index_of(c.pos.x as int, c.pos.y as int) == i
                }) by {
                    if i != idx {
                        assert(pre.slots()[i] == self.slots()[i]);
                    }
                }
                lemma_occupants_agree(&pre, self, cell.pos, cell.pos);
            }
        }
    }

    /// Removes the cell at `pos`, if any: the last cell of the array takes
    /// its storage slot, so the array stays dense.
    pub fn remove_cell_from_cells(&mut self, pos: Pos)
        requires
            old(self).wf(),
        ensures
            final(self).wf(),
            final(self).same_settings(old(self)),
            only_marks(old(self).chunks@, final(self).chunks@),
            old(self).occ(pos) is None ==> final(self).cells@ == old(self).cells@ && final(self).data@ == old(self).data@ && final(self).chunks@ == old(self).chunks@,
            old(self).occ(pos) is Some ==> final(self).occ(pos) is None && final(self).cells@.len() + 1 == old(self).cells@.len(),
            forall|x: int, y: int|
                !(x == pos.x && y == pos.y) ==> #[trigger] final(self).occupant(x, y) == old(self).occupant(x, y),
    {
        let ghost pre = *self;
        if !self.is_in_bounds(pos) {
            return;
        }
        let idx = self.cell_idx(pos);
        let at = self.data[idx];
        if at == 0 {
            return;
        }
        let n = self.cells.len();
        let ghost li: int = 0;
        if at != n {
            let last_cell = self.cells[n - 1];
            proof {
                assert(pre.slots()[pre.index_of(last_cell.pos.x as int, last_cell.pos.y as int)] == n);
            }
            let l = self.cell_idx(last_cell.pos);
            proof {
                li = l as int;
            }
            self.data.set(idx, 0);
            self.data.set(l, at);
        } else {
            self.data.set(idx, 0);
        }
        self.cells.swap_remove(at - 1);
        proof {
            assert forall|k: int| #![trigger self.cells_view()[k]] 0 <= k < self.cells_view().len() implies {
                let c = self.cells_view()[k];
                &&& self.in_grid(c.pos.x as int, c.pos.y as int)
                &&& self.slots()[self.index_of(c.pos.x as int, c.pos.y as int)] == k + 1
                &&& c.material != Material::Empty
            } by {
                if k == at - 1 {
                    let c = pre.cells_view()[n - 1];
                    assert(pre.slots()[pre.index_of(c.pos.x as int, c.pos.y as int)] == n);
                } else {
                    let c = pre.cells_view()[k];
                    let ci = pre.index_of(c.pos.x as int, c.pos.y as int);
                    lemma_index_in_range(pre.width as int, pre.height as int, c.pos.x as int, c.pos.y as int);
                    assert(pre.slots()[ci] == k + 1);
                    assert(pre.slots()[idx as int] == at);
                    assert(ci != idx);
                    if at != n {
                        assert(pre.slots()[li] == n);
                        assert(ci != li);
                    }
                    assert(self.slots()[ci] == k + 1);
                }
            }
            assert forall|i: int| #![trigger self.slots()[i]] 0 <= i < self.slots().len() implies self.slots()[i]
                <= self.cells_view().len() && (self.slots()[i] != 0 ==> {
                let c = self.cells_view()[self.slots()[i] - 1];
                self.index_of(c.pos.x as int, c.pos.y as int) == i
            }) by {
                assert(pre.slots()[i] == pre.slots()[i]);
                assert(pre.slots()[idx as int] == at);
                if at != n {
                    assert(pre.slots()[li] == n);
                }
            }
            assert forall|i: int|
                #![trigger self.slots()[i]]
                0 <= i < pre.slots().len() && i != pre.index_of(pos.x as int, pos.y as int) && i != pre.index_of(
                    pos.x as int,
                    pos.y as int,
                ) implies (pre.slots()[i] == 0) == (self.slots()[i] == 0) && (pre.slots()[i] != 0
                ==> pre.cells_view()[pre.slots()[i] - 1] == self.cells_view()[self.slots()[i] - 1]) by {
                assert(pre.slots()[i] == pre.slots()[i]);
                assert(pre.slots()[idx as int] == at);
                if at != n {
                    assert(pre.slots()[li] == n);
                }
            }
            lemma_occupants_agree(&pre, self, pos, pos);
        }
        let ghost mid = *self;
        self.set_chunk_cluster_active(pos);
        proof {
            assert forall|x: int, y: int| true implies #[trigger] self.occupant(x, y) == mid.occupant(x, y) by {}
        }
    }

    /// Overwrites the cell stored at `cell.pos` with `cell`; nothing happens
    /// where no cell is stored or `cell` is of `Empty`.
    pub fn update_cell(&mut self, cell: Cell)
        requires
            old(self).wf(),
        ensures
            final(self).wf(),
            final(self).same_settings(old(self)),
            final(self).chunks@ == old(self).chunks@,
            final(self).data@ == old(self).data@,
            old(self).occ(cell.pos) is Some && cell.material != Material::Empty ==> final(self).occ(cell.pos) == Some(
                cell,
            ) && final(self).cells@ == old(self).cells@.update(old(self).cell_index_at(cell.pos), cell),
            !(old(self).occ(cell.pos) is Some && cell.material != Material::Empty) ==> final(self).cells@ == old(self).cells@,
            forall|x: int, y: int|
                !(x == cell.pos.x && y == cell.pos.y) ==> #[trigger] final(self).occupant(x, y) == old(self).occupant(x, y),
    {
        if self.get_data_at_pos(cell.pos) != 0 {
            self.add_cell_to_cells(cell);
        }
    }

    /// Moves the cell at `from` to the unoccupied position `to`.
    fn move_cell(&mut self, from: Pos, to: Pos)
        requires
            old(self).wf(),
            old(self).in_grid(from.x as int, from.y as int),
            old(self).in_grid(to.x as int, to.y as int),
            from != to,
            old(self).occ(from) is Some,
            old(self).occ(to) is None,
        ensures
            final(self).wf(),
            final(self).same_settings(old(self)),
            final(self).chunks@ == old(self).chunks@,
            final(self).occ(to) == Some(Cell { pos: to, ..old(self).occ(from)->0 }),
            final(self).occ(from) is None,
            final(self).cells@ == old(self).cells@.update(
                old(self).cell_index_at(from),
                Cell { pos: to, ..old(self).occ(from)->0 },
            ),
            forall|x: int, y: int|
                !(x == from.x && y == from.y) && !(x == to.x && y == to.y) ==> #[trigger] final(self).occupant(x, y)
                    == old(self).occupant(x, y),
    {
        let ghost pre = *self;
        let i = self.cell_idx(from);
        let t = self.cell_idx(to);
        let at = self.data[i];
        let mut c = self.cells[at - 1];
        c.pos = to;
        self.cells.set(at - 1, c);
        self.data.set(t, at);
        self.data.set(i, 0);
        proof {
            if i == t {
                lemma_index_injective(pre.width as int, from.x as int, from.y as int, to.x as int, to.y as int);
            }
            assert forall|k: int| #![trigger self.cells_view()[k]] 0 <= k < self.cells_view().len() implies {
                let c = self.cells_view()[k];
                &&& self.in_grid(c.pos.x as int, c.pos.y as int)
                &&& self.slots()[self.index_of(c.pos.x as int, c.pos.y as int)] == k + 1
                &&& c.material != Material::Empty
            } by {
                let c = pre.cells_view()[k];
                let ci = pre.index_of(c.pos.x as int, c.pos.y as int);
                lemma_index_in_range(pre.width as int, pre.height as int, c.pos.x as int, c.pos.y as int);
                assert(pre.slots()[ci] == k + 1);
                assert(pre.slots()[i as int] == at);
                assert(pre.slots()[t as int] == 0);
            }
            assert forall|j: int| #![trigger self.slots()[j]] 0 <= j < self.slots().len() implies self.slots()[j]
                <= self.cells_view().len() && (self.slots()[j] != 0 ==> {
                let c = self.cells_view()[self.slots()[j] - 1];
                self.index_of(c.pos.x as int, c.pos.y as int) == j
            }) by {
                assert(pre.slots()[j] == pre.slots()[j]);
                assert(pre.slots()[i as int] == at);
            }
            assert forall|j: int|
                #![trigger self.slots()[j]]
                0 <= j < pre.slots().len() && j != pre.index_of(from.x as int, from.y as int) && j != pre.index_of(
                    to.x as int,
                    to.y as int,
                ) implies (pre.slots()[j] == 0) == (self.slots()[j] == 0) && (pre.slots()[j] != 0
                ==> pre.cells_view()[pre.slots()[j] - 1] == self.cells_view()[self.slots()[j] - 1]) by {
                assert(pre.slots()[j] == pre.slots()[j]);
                assert(pre.slots()[i as int] == at);
            }
            lemma_occupants_agree(&pre, self, from, to);
        }
    }

    /// Exchanges the cells at two occupied positions.
    fn swap_cells(&mut self, p: Pos, q: Pos)
        requires
            old(self).wf(),
            old(self).in_grid(p.x as int, p.y as int),
            old(self).in_grid(q.x as int, q.y as int),
            p != q,
            old(self).occ(p) is Some,
            old(self).occ(q) is Some,
        ensures
            final(self).wf(),
            final(self).same_settings(old(self)),
            final(self).chunks@ == old(self).chunks@,
            final(self).occ(q) == Some(Cell { pos: q, ..old(self).occ(p)->0 }),
            final(self).occ(p) == Some(Cell { pos: p, ..old(self).occ(q)->0 }),
            final(self).cells@ == old(self).cells@.update(
                old(self).cell_index_at(p),
                Cell { pos: q, ..old(self).occ(p)->0 },
            ).update(old(self).cell_index_at(q), Cell { pos: p, ..old(self).occ(q)->0 }),
            forall|x: int, y: int|
                !(x == p.x && y == p.y) && !(x == q.x && y == q.y) ==> #[trigger] final(self).occupant(x, y)
                    == old(self).occupant(x, y),
    {
        let ghost pre = *self;
        let i = self.cell_idx(p);
        let j = self.cell_idx(q);
        let a = self.data[i];
        let b = self.data[j];
        proof {
            if i == j {
                lemma_index_injective(pre.width as int, p.x as int, p.y as int, q.x as int, q.y as int);
            }
            assert(pre.slots()[i as int] == a);
            assert(pre.slots()[j as int] == b);
        }
        let mut ca = self.cells[a - 1];
        let mut cb = self.cells[b - 1];
        ca.pos = q;
        cb.pos = p;
        self.cells.set(a - 1, ca);
        self.cells.set(b - 1, cb);
        self.data.set(j, a);
        self.data.set(i, b);
        proof {
            assert forall|k: int| #![trigger self.cells_view()[k]] 0 <= k < self.cells_view().len() implies {
                let c = self.cells_view()[k];
                &&& self.in_grid(c.pos.x as int, c.pos.y as int)
                &&& self.slots()[self.index_of(c.pos.x as int, c.pos.y as int)] == k + 1
                &&& c.material != Material::Empty
            } by {
                let c = pre.cells_view()[k];
                let ci = pre.index_of(c.pos.x as int, c.pos.y as int);
                lemma_index_in_range(pre.width as int, pre.height as int, c.pos.x as int, c.pos.y as int);
                assert(pre.slots()[ci] == k + 1);
            }
            assert forall|m: int| #![trigger self.slots()[m]] 0 <= m < self.slots().len() implies self.slots()[m]
                <= self.cells_view().len() && (self.slots()[m] != 0 ==> {
                let c = self.cells_view()[self.slots()[m] - 1];
                self.index_of(c.pos.x as int, c.pos.y as int) == m
            }) by {
                assert(pre.slots()[m] == pre.slots()[m]);
            }
            assert forall|m: int|
                #![trigger self.slots()[m]]
                0 <= m < pre.slots().len() && m != pre.index_of(p.x as int, p.y as int) && m != pre.index_of(
                    q.x as int,
                    q.y as int,
                ) implies (pre.slots()[m] == 0) == (self.slots()[m] == 0) && (pre.slots()[m] != 0
                ==> pre.cells_view()[pre.slots()[m] - 1] == self.cells_view()[self.slots()[m] - 1]) by {
                assert(pre.slots()[m] == pre.slots()[m]);
            }
            lemma_occupants_agree(&pre, self, p, q);
        }
    }

    /// Marks the chunks a cell left and entered, and the neighbouring chunk
    /// across the nearer border when the new position lies within a few
    /// cells of it.
    fn mark_moved(&mut self, from: Pos, to: Pos)
        requires
            old(self).wf(),
            old(self).in_grid(from.x as int, from.y as int),
            old(self).in_grid(to.x as int, to.y as int),
        ensures
            final(self).wf(),
            final(self).same_settings(old(self)),
            final(self).cells@ == old(self).cells@,
            final(self).data@ == old(self).data@,
            only_marks(old(self).chunks@, final(self).chunks@),
            final(self).marked(from.x as int, from.y as int),
            final(self).marked(to.x as int, to.y as int),
    {
        let ghost pre = *self;
        self.set_chunk_active(from);
        let ghost m1 = self.chunks@;
        self.set_chunk_active(to);
        let ghost m2 = self.chunks@;
        proof {
            lemma_only_marks_trans(pre.chunks@, m1, m2);
            self.lemma_chunk_of_in_range(from.x as int, from.y as int);
            self.lemma_chunk_of_in_range(to.x as int, to.y as int);
        }
        let size = CHUNK_SIZE as i32;
        let x_chunked = to.x % size;
        let x_chunked_upper = size - 1 - x_chunked;
        if x_chunked <= 5 || x_chunked_upper <= 5 {
            if x_chunked < x_chunked_upper {
                self.set_chunk_active(Pos { x: to.x - size, y: to.y });
            } else {
                self.set_chunk_active(Pos { x: to.x + size, y: to.y });
            }
        }
        let ghost m3 = self.chunks@;
        proof {
            lemma_only_marks_trans(pre.chunks@, m2, m3);
        }
        let y_chunked = to.y % size;
        let y_chunked_upper = size - 1 - y_chunked;
        if y_chunked <= 5 || y_chunked_upper <= 5 {
            if y_chunked < y_chunked_upper {
                self.set_chunk_active(Pos { x: to.x, y: to.y - size });
            } else {
                self.set_chunk_active(Pos { x: to.x, y: to.y + size });
            }
        }
        proof {
            lemma_only_marks_trans(pre.chunks@, m3, self.chunks@);
            assert(m2[pre.chunk_of(from.x as int, from.y as int)].should_step_next_frame);
            assert(m2[pre.chunk_of(to.x as int, to.y as int)].should_step_next_frame);
            assert(self.chunks@[pre.chunk_of(from.x as int, from.y as int)] == self.chunks@[pre.chunk_of(
                from.x as int,
                from.y as int,
            )]);
            assert(self.chunks@[pre.chunk_of(to.x as int, to.y as int)] == self.chunks@[pre.chunk_of(
                to.x as int,
                to.y as int,
            )]);
        }
    }

    /// Whether relocating from `cellpos` to `pos` moves a cell: there is one
    /// to move, the target lies in the grid and differs from the origin, and
    /// it is no exchange of two cells of one material.
    pub open spec fn relocates(&self, pos: Pos, cellpos: Pos, swap: bool) -> bool {
        &&& self.occ(cellpos) is Some
        &&& self.in_grid(pos.x as int, pos.y as int)
        &&& pos != cellpos
        &&& !(swap && self.occ(pos) is Some && self.occ(pos)->0.material == self.occ(cellpos)->0.material)
    }

    /// Relocates the cell at `cellpos` to `pos`. An occupant of `pos` of
    /// another material trades places with it when `swap` holds, and is
    /// destroyed otherwise; two cells of one material are never exchanged.
    /// Returns the relocated cell, or an `Empty` cell where `cellpos` holds
    /// none.
    pub fn set_cell_by_pos(&mut self, pos: Pos, cellpos: Pos, swap: bool) -> (r: Cell)
        requires
            old(self).wf(),
        ensures
            final(self).wf(),
            final(self).same_settings(old(self)),
            only_marks(old(self).chunks@, final(self).chunks@),
            !old(self).relocates(pos, cellpos, swap) ==> final(self).cells@ == old(self).cells@ && final(self).data@ == old(self).data@
                && final(self).chunks@ == old(self).chunks@,
            old(self).relocates(pos, cellpos, swap) ==> final(self).occ(pos) == Some(
                Cell { pos, ..old(self).occ(cellpos)->0 },
            ) && final(self).marked(pos.x as int, pos.y as int) && final(self).marked(
                cellpos.x as int,
                cellpos.y as int,
            ),
            old(self).relocates(pos, cellpos, swap) && old(self).occ(pos) is None ==> final(self).occ(cellpos) is None
                && final(self).cells@ == old(self).cells@.update(
                old(self).cell_index_at(cellpos),
                Cell { pos, ..old(self).occ(cellpos)->0 },
            ),
            old(self).relocates(pos, cellpos, swap) && old(self).occ(pos) is Some && swap ==> final(self).occ(cellpos)
                == Some(Cell { pos: cellpos, ..old(self).occ(pos)->0 }) && final(self).cells@ == old(self).cells@.update(old(self).cell_index_at(cellpos), Cell { pos, ..old(self).occ(cellpos)->0 }).update(
                old(self).cell_index_at(pos),
                Cell { pos: cellpos, ..old(self).occ(pos)->0 },
            ),
            old(self).relocates(pos, cellpos, swap) && old(self).occ(pos) is Some && !swap ==> final(self).occ(cellpos) is None
                && final(self).cells@.len() + 1 == old(self).cells@.len(),
            forall|x: int, y: int|
                !(x == pos.x && y == pos.y) && !(x == cellpos.x && y == cellpos.y) ==> #[trigger] final(self).occupant(x, y) == old(self).occupant(x, y),
            r == (match old(self).occ(cellpos) {
                None => fresh_cell(Pos { x: 0, y: 0 }, Material::Empty),
                Some(c) => if old(self).relocates(pos, cellpos, swap) {
                    Cell { pos, ..c }
                } else {
                    c
                },
            }),
    {
        let ghost pre = *self;
        let from = self.get_data_at_pos(cellpos);
        if from == 0 {
            return Cell::new(Pos { x: 0, y: 0 }, Material::Empty);
        }
        let cell = self.cells[from - 1];
        if !self.is_in_bounds(pos) {
            return cell;
        }
        if pos == cellpos {
            return cell;
        }
        let to = self.get_data_at_pos(pos);
        if to != 0 && swap {
            let target = self.cells[to - 1];
            if target.material == cell.material {
                return cell;
            }
            self.swap_cells(cellpos, pos);
        } else if to != 0 {
            self.remove_cell_from_cells(pos);
            let ghost mid = *self;
            self.move_cell(cellpos, pos);
            proof {
                lemma_only_marks_trans(pre.chunks@, mid.chunks@, self.chunks@);
                assert(mid.cells@.len() + 1 == pre.cells@.len());
                lemma_index_in_range(mid.width as int, mid.height as int, cellpos.x as int, cellpos.y as int);
                assert(mid.slots()[mid.index_of(cellpos.x as int, cellpos.y as int)] <= mid.cells_view().len());
                assert(self.cells@.len() == mid.cells@.len());
            }
        } else {
            self.move_cell(cellpos, pos);
        }
        let ghost before = *self;
        self.mark_moved(cellpos, pos);
        proof {
            lemma_only_marks_trans(pre.chunks@, before.chunks@, self.chunks@);
            assert forall|x: int, y: int| true implies #[trigger] self.occupant(x, y) == before.occupant(x, y) by {}
        }
        Cell { pos, ..cell }
    }

    /// A position clamped into the grid.
    pub open spec fn clamped(&self, pos: Pos) -> Pos {
        Pos {
            x: if pos.x < 0 { 0 } else if pos.x >= self.width { (self.width - 1) as i32 } else { pos.x },
            y: if pos.y < 0 { 0 } else if pos.y >= self.height { (self.height - 1) as i32 } else { pos.y },
        }
    }

    /// Places a new cell of `material` at `pos` clamped into the grid,
    /// overwriting a cell already there in place; `Empty` removes the cell at
    /// `pos` instead. The new cell takes its colour from `assets`.
    pub fn set_cell_material(&mut self, pos: Pos, material: Material, swap: bool, assets: &Assets)
        requires
            old(self).wf(),
            assets.wf(),
        ensures
            final(self).wf(),
            final(self).same_settings(old(self)),
            only_marks(old(self).chunks@, final(self).chunks@),
            material == Material::Empty ==> final(self).occ(pos) is None && (old(self).occ(pos) is Some
                ==> final(self).cells@.len() + 1 == old(self).cells@.len()) && (old(self).occ(pos) is None
                ==> final(self).cells@ == old(self).cells@),
            material == Material::Empty ==> forall|x: int, y: int|
                !(x == pos.x && y == pos.y) ==> #[trigger] final(self).occupant(x, y) == old(self).occupant(x, y),
            material != Material::Empty ==> {
                let p = old(self).clamped(pos);
                let col = assets.color_for(p.x as int, p.y as int, material);
                &&& final(self).occ(p) == Some(Cell { base_color: col, color: col, ..fresh_cell(p, material) })
                &&& old(self).occ(p) is Some ==> final(self).cells@.len() == old(self).cells@.len()
                &&& old(self).occ(p) is None ==> final(self).cells@.len() == old(self).cells@.len() + 1
                &&& final(self).marked(p.x as int, p.y as int)
                &&& forall|x: int, y: int|
                    !(x == p.x && y == p.y) ==> #[trigger] final(self).occupant(x, y) == old(self).occupant(x, y)
            },
    {
        if material == Material::Empty {
            self.remove_cell_from_cells(pos);
            return;
        }
        let pos = self.clamp_pos(pos);
        let mut cell = Cell::new(pos, material);
        let color = assets.get_color_for_material(pos, material);
        cell.set_color(color);
        let ghost pre = *self;
        self.add_cell_to_cells(cell);
        let ghost mid = *self;
        self.mark_moved(pos, pos);
        proof {
            lemma_only_marks_trans(pre.chunks@, mid.chunks@, self.chunks@);
            assert forall|x: int, y: int| true implies #[trigger] self.occupant(x, y) == mid.occupant(x, y) by {}
            if pre.occ(pos) is Some {
                lemma_index_in_range(pre.width as int, pre.height as int, pos.x as int, pos.y as int);
                assert(pre.slots()[pre.index_of(pos.x as int, pos.y as int)] <= pre.cells_view().len());
            }
        }
    }

    /// An empty grid of the given size, every chunk requested for the first
    /// frame.
    pub fn new_empty(width: usize, height: usize) -> (r: Self)
        requires
            1 <= width <= MAX_SIDE,
            1 <= height <= MAX_SIDE,
            width * height <= usize::MAX,
        ensures
            r.wf(),
            r.width == width,
            r.height == height,
            r.cells@.len() == 0,
            forall|i: int| 0 <= i < r.data@.len() ==> #[trigger] r.data@[i] == 0,
            forall|k: int| 0 <= k < r.chunks@.len() ==> (#[trigger] r.chunks@[k]).should_step_next_frame,
            !r.debug_draw,
            r.update_left,
            r.wait_time_after_frame == 0,
            r.brush.size == 35 && r.brush.material_index == 0 && !r.brush.place_fire,
    {
        let cells: Vec<Cell> = Vec::new();
        let data: Vec<usize> = vec![0; width * height];
        let ncx = (width + (CHUNK_SIZE - 1)) / CHUNK_SIZE;
        let ncy = (height + (CHUNK_SIZE - 1)) / CHUNK_SIZE;
        proof {
            assert(ncx as int * ncy as int <= width * height) by (nonlinear_arith)
                requires ncx <= width, ncy <= height, ncx >= 0, ncy >= 0;
        }
        let mut chunks: Vec<Chunk> = Vec::new();
        let mut cy: usize = 0;
        while cy < ncy
            invariant
                cy <= ncy,
                ncx == (width + (CHUNK_SIZE - 1)) / (CHUNK_SIZE as int),
                ncy == (height + (CHUNK_SIZE - 1)) / (CHUNK_SIZE as int),
                1 <= width <= MAX_SIDE,
                1 <= height <= MAX_SIDE,
                ncx <= width,
                ncy <= height,
                ncx as int * ncy as int <= width * height,
                width * height <= usize::MAX,
                chunks@.len() == cy * ncx,
                cy * ncx <= ncy * ncx,
                forall|k: int|
                    0 <= k < chunks@.len() ==> (#[trigger] chunks@[k]).should_step_next_frame
                        && chunks@[k].num_frames_without_step == 0,
            decreases ncy - cy,
        {
            let mut cx: usize = 0;
            while cx < ncx
                invariant
                    cx <= ncx,
                    cy < ncy,
                    ncx == (width + (CHUNK_SIZE - 1)) / (CHUNK_SIZE as int),
                    ncy == (height + (CHUNK_SIZE - 1)) / (CHUNK_SIZE as int),
                    1 <= width <= MAX_SIDE,
                    1 <= height <= MAX_SIDE,
                    ncx <= width,
                    ncy <= height,
                    ncx as int * ncy as int <= width * height,
                    width * height <= usize::MAX,
                    chunks@.len() == cy * ncx + cx,
                    forall|k: int|
                        0 <= k < chunks@.len() ==> (#[trigger] chunks@[k]).should_step_next_frame
                            && chunks@[k].num_frames_without_step == 0,
                decreases ncx - cx,
            {
                let topleft = Pos { x: (cx * CHUNK_SIZE) as i32, y: (cy * CHUNK_SIZE) as i32 };
                chunks.push(Chunk::new(topleft, CHUNK_SIZE));
                cx += 1;
            }
            proof {
                assert((cy + 1) * ncx == cy * ncx + ncx) by (nonlinear_arith);
            }
            cy += 1;
            proof {
                assert(cy * ncx <= ncy * ncx) by (nonlinear_arith)
                    requires cy <= ncy, ncx >= 0;
            }
        }
        let r = Self {
            width,
            height,
            cells,
            data,
            chunks,
            debug_draw: false,
            update_left: true,
            brush: Brush::new(),
            wait_time_after_frame: 0,
            rng: fastrand::Rng::new(),
        };
        proof {
            assert(ncx == chunk_count(width as int));
            assert(ncy == chunk_count(height as int));
            assert(ncy * ncx == ncx * ncy) by (nonlinear_arith);
            assert(r.chunks@.len() == ncx * ncy);
        }
        r
    }

    /// Appends the cell at `p`, if there is one.
    fn push_occupant(&self, v: &mut Vec<Cell>, p: Pos)
        requires
            self.wf(),
        ensures
            final(v)@ == (match self.occ(p) {
                Some(c) => old(v)@.push(c),
                None => old(v)@,
            }),
    {
        match self.lookup(p) {
            Lookup::Occupied(c) => v.push(c),
            _ => {},
        }
    }

    /// The cells around `pos`: the four orthogonal neighbours for radius 1,
    /// otherwise every cell of the square of that radius around `pos`
    /// (`pos` itself included).
    pub fn get_neighbor_cells(&self, pos: Pos, radius: i32) -> (r: Vec<Cell>)
        requires
            self.wf(),
        ensures
            forall|i: int|
                0 <= i < r@.len() ==> self.occ(#[trigger] r@[i].pos) == Some(r@[i]) && in_reach(
                    pos,
                    radius as int,
                    r@[i].pos.x as int,
                    r@[i].pos.y as int,
                ),
            forall|x: int, y: int|
                in_reach(pos, radius as int, x, y) && #[trigger] self.occupant(x, y) is Some ==> r@.contains(
                    self.occupant(x, y)->0,
                ),
            // Radius 1 gives the cells left, right, above and below, in that
            // order; each cell appears once; the square comes row by row,
            // left to right.
            radius == 1 ==> r@ == self.occupants_along(orthogonal_positions(pos)),
            forall|i: int, j: int| 0 <= i < j < r@.len() ==> #[trigger] r@[i].pos != #[trigger] r@[j].pos,
            radius != 1 ==> forall|i: int, j: int|
                0 <= i < j < r@.len() ==> row_major_before(#[trigger] r@[i].pos, #[trigger] r@[j].pos),
    {
        let mut neighbors: Vec<Cell> = Vec::new();
        if radius == 1 {
            let px = pos.x as i64;
            let py = pos.y as i64;
            let cand: Vec<(i64, i64)> = vec![(px - 1, py), (px + 1, py), (px, py - 1), (px, py + 1)];
            let mut i: usize = 0;
            while i < cand.len()
                invariant
                    self.wf(),
                    radius == 1,
                    i <= cand@.len(),
                    cand@ == seq![((px - 1) as i64, py), ((px + 1) as i64, py), (px, (py - 1) as i64), (px, (py + 1) as i64)],
                    px == pos.x,
                    py == pos.y,
                    neighbors@ == self.occupants_along(orthogonal_positions(pos).take(i as int)),
                    forall|j: int|
                        0 <= j < neighbors@.len() ==> self.occ(#[trigger] neighbors@[j].pos) == Some(neighbors@[j])
                            && in_reach(pos, 1, neighbors@[j].pos.x as int, neighbors@[j].pos.y as int),
                    forall|j: int|
                        0 <= j < i && #[trigger] self.occupant(cand@[j].0 as int, cand@[j].1 as int) is Some
                            ==> neighbors@.contains(self.occupant(cand@[j].0 as int, cand@[j].1 as int)->0),
                    forall|a: int, b: int|
                        0 <= a < b < neighbors@.len() ==> #[trigger] neighbors@[a].pos != #[trigger] neighbors@[b].pos,
                    forall|a: int, m: int|
                        0 <= a < neighbors@.len() && i <= m < 4 ==> !(#[trigger] neighbors@[a].pos.x == cand@[m].0
                            && neighbors@[a].pos.y == #[trigger] cand@[m].1),
                decreases cand@.len() - i,
            {
                let ghost before = neighbors@;
                let (cx, cy) = cand[i];
                proof {
                    let ops = orthogonal_positions(pos);
                    assert(ops.take(i as int + 1).drop_last() =~= ops.take(i as int));
                    assert(ops.take(i as int + 1).last() == ops[i as int]);
                    assert(ops[i as int] == (cand@[i as int].0 as int, cand@[i as int].1 as int));
                    self.lemma_occupant_pos(cx as int, cy as int);
                }
                if i32::MIN as i64 <= cx && cx <= i32::MAX as i64 && i32::MIN as i64 <= cy && cy <= i32::MAX as i64 {
                    let p = Pos { x: cx as i32, y: cy as i32 };
                    proof {
                        self.lemma_occupant_pos(p.x as int, p.y as int);
                    }
                    self.push_occupant(&mut neighbors, p);
                    proof {
                        assert forall|a: int, m: int|
                            0 <= a < neighbors@.len() && i + 1 <= m < 4 implies !(#[trigger] neighbors@[a].pos.x
                            == cand@[m].0 && neighbors@[a].pos.y == #[trigger] cand@[m].1) by {
                            if a < before.len() {
                                assert(neighbors@[a] == before[a]);
                            }
                        }
                        assert forall|a: int, b: int|
                            0 <= a < b < neighbors@.len() implies #[trigger] neighbors@[a].pos != #[trigger] neighbors@[b].pos by {
                            if b < before.len() {
                                assert(neighbors@[a] == before[a] && neighbors@[b] == before[b]);
                            } else {
                                assert(neighbors@[a] == before[a]);
                            }
                        }
                    }
                }
                proof {
                    assert forall|j: int|
                        0 <= j < i + 1 && #[trigger] self.occupant(cand@[j].0 as int, cand@[j].1 as int) is Some
                            implies neighbors@.contains(self.occupant(cand@[j].0 as int, cand@[j].1 as int)->0) by {
                        if j < i {
                            let w = choose|w: int|
                                0 <= w < before.len() && before[w] == self.occupant(cand@[j].0 as int, cand@[j].1 as int)->0;
                            assert(neighbors@[w] == before[w]);
                        } else {
                            assert(neighbors@[before.len() as int] == self.occupant(cx as int, cy as int)->0);
                        }
                    }
                }
                i += 1;
            }
            proof {
                assert(orthogonal_positions(pos).take(4) =~= orthogonal_positions(pos));
                assert forall|x: int, y: int| in_reach(pos, radius as int, x, y) && #[trigger] self.occupant(x, y) is Some implies neighbors@.contains(
                    self.occupant(x, y)->0,
                ) by {
                    if x == px - 1 && y == py {
                        assert(cand@[0] == ((px - 1) as i64, py));
                        assert(self.occupant(cand@[0].0 as int, cand@[0].1 as int) == self.occupant(x, y));
                    } else if x == px + 1 && y == py {
                        assert(cand@[1] == ((px + 1) as i64, py));
                        assert(self.occupant(cand@[1].0 as int, cand@[1].1 as int) == self.occupant(x, y));
                    } else if x == px && y == py - 1 {
                        assert(cand@[2] == (px, (py - 1) as i64));
                        assert(self.occupant(cand@[2].0 as int, cand@[2].1 as int) == self.occupant(x, y));
                    } else {
                        assert(cand@[3] == (px, (py + 1) as i64));
                        assert(self.occupant(cand@[3].0 as int, cand@[3].1 as int) == self.occupant(x, y));
                    }
                }
            }
            return neighbors;
        }
        let ylo = pos.y as i64 - radius as i64;
        let yhi = pos.y as i64 + radius as i64;
        let xlo = pos.x as i64 - radius as i64;
        let xhi = pos.x as i64 + radius as i64;
        let mut y = ylo;
        while y <= yhi
            invariant
                self.wf(),
                radius != 1,
                ylo == pos.y as i64 - radius as i64,
                yhi == pos.y as i64 + radius as i64,
                xlo == pos.x as i64 - radius as i64,
                xhi == pos.x as i64 + radius as i64,
                ylo <= y,
                y <= yhi + 1 || y == ylo,
                forall|j: int|
                    0 <= j < neighbors@.len() ==> self.occ(#[trigger] neighbors@[j].pos) == Some(neighbors@[j])
                        && in_reach(pos, radius as int, neighbors@[j].pos.x as int, neighbors@[j].pos.y as int),
                forall|qx: int, qy: int|
                    in_reach(pos, radius as int, qx, qy) && qy < y && #[trigger] self.occupant(qx, qy) is Some
                        ==> neighbors@.contains(self.occupant(qx, qy)->0),
                forall|a: int| 0 <= a < neighbors@.len() ==> (#[trigger] neighbors@[a]).pos.y < y,
                forall|a: int, b: int|
                    0 <= a < b < neighbors@.len() ==> row_major_before(#[trigger] neighbors@[a].pos, #[trigger] neighbors@[b].pos),
            decreases yhi + 1 - y,
        {
            let mut x = xlo;
            while x <= xhi
                invariant
                    self.wf(),
                    radius != 1,
                    ylo == pos.y as i64 - radius as i64,
                    yhi == pos.y as i64 + radius as i64,
                    xlo == pos.x as i64 - radius as i64,
                    xhi == pos.x as i64 + radius as i64,
                    ylo <= y <= yhi,
                    xlo <= x <= xhi + 1,
                    forall|j: int|
                        0 <= j < neighbors@.len() ==> self.occ(#[trigger] neighbors@[j].pos) == Some(neighbors@[j])
                            && in_reach(pos, radius as int, neighbors@[j].pos.x as int, neighbors@[j].pos.y as int),
                    forall|qx: int, qy: int|
                        in_reach(pos, radius as int, qx, qy) && (qy < y || (qy == y && qx < x))
                            && #[trigger] self.occupant(qx, qy) is Some ==> neighbors@.contains(self.occupant(qx, qy)->0),
                    forall|a: int|
                        0 <= a < neighbors@.len() ==> (#[trigger] neighbors@[a]).pos.y < y || (neighbors@[a].pos.y == y
                            && neighbors@[a].pos.x < x),
                    forall|a: int, b: int|
                        0 <= a < b < neighbors@.len() ==> row_major_before(#[trigger] neighbors@[a].pos, #[trigger] neighbors@[b].pos),
                decreases xhi + 1 - x,
            {
                let ghost before = neighbors@;
                if i32::MIN as i64 <= x && x <= i32::MAX as i64 && i32::MIN as i64 <= y && y <= i32::MAX as i64 {
                    let p = Pos { x: x as i32, y: y as i32 };
                    proof {
                        self.lemma_occupant_pos(p.x as int, p.y as int);
                    }
                    self.push_occupant(&mut neighbors, p);
                }
                proof {
                    assert forall|a: int, b: int|
                        0 <= a < b < neighbors@.len() implies row_major_before(#[trigger] neighbors@[a].pos, #[trigger] neighbors@[b].pos) by {
                        assert(neighbors@[a] == before[a]);
                        if b < before.len() {
                            assert(neighbors@[b] == before[b]);
                        }
                    }
                    assert forall|a: int|
                        0 <= a < neighbors@.len() implies (#[trigger] neighbors@[a]).pos.y < y || (neighbors@[a].pos.y == y
                            && neighbors@[a].pos.x < x + 1) by {
                        if a < before.len() {
                            assert(neighbors@[a] == before[a]);
                        }
                    }
                    assert forall|qx: int, qy: int|
                        in_reach(pos, radius as int, qx, qy) && (qy < y || (qy == y && qx < x + 1))
                            && #[trigger] self.occupant(qx, qy) is Some implies neighbors@.contains(self.occupant(qx, qy)->0) by {
                        if qy < y || (qy == y && qx < x) {
                            let w = choose|w: int| 0 <= w < before.len() && before[w] == self.occupant(qx, qy)->0;
                            assert(neighbors@[w] == before[w]);
                        } else {
                            assert(neighbors@[before.len() as int] == self.occupant(qx, qy)->0);
                        }
                    }
                }
                x += 1;
            }
            y += 1;
        }
        neighbors
    }
}

/// What `get_cell_by_pos` gives for a position of the grid without a cell.
pub open spec fn empty_cell() -> Cell {
    fresh_cell(Pos { x: 0, y: 0 }, Material::Empty)
}

/// What `get_cell_by_pos` gives outside the grid.
pub open spec fn wall_cell() -> Cell {
    fresh_cell(Pos { x: -1i32, y: -1i32 }, Material::Empty)
}

/// Two grids of one size whose slots agree, away from two positions, on
/// being empty and on the cell they name have the same occupants there.
pub proof fn lemma_occupants_agree(a: &Matrix, b: &Matrix, first: Pos, second: Pos)
    requires
        a.wf(),
        b.wf(),
        a.width == b.width,
        a.height == b.height,
        a.in_grid(first.x as int, first.y as int),
        a.in_grid(second.x as int, second.y as int),
        forall|i: int|
            #![trigger b.slots()[i]]
            0 <= i < a.slots().len() && i != a.index_of(first.x as int, first.y as int) && i != a.index_of(
                second.x as int,
                second.y as int,
            ) ==> (a.slots()[i] == 0) == (b.slots()[i] == 0) && (a.slots()[i] != 0 ==> a.cells_view()[a.slots()[i]
                - 1] == b.cells_view()[b.slots()[i] - 1]),
    ensures
        forall|x: int, y: int|
            #![trigger b.occupant(x, y)]
            !(x == first.x && y == first.y) && !(x == second.x && y == second.y) ==> b.occupant(x, y) == a.occupant(x, y),
{
    assert forall|x: int, y: int|
        #![trigger b.occupant(x, y)]
        !(x == first.x && y == first.y) && !(x == second.x && y == second.y) implies b.occupant(x, y) == a.occupant(x, y) by {
        if a.in_grid(x, y) {
            lemma_index_in_range(a.width as int, a.height as int, x, y);
            if a.index_of(x, y) == a.index_of(first.x as int, first.y as int) {
                lemma_index_injective(a.width as int, x, y, first.x as int, first.y as int);
            }
            if a.index_of(x, y) == a.index_of(second.x as int, second.y as int) {
                lemma_index_injective(a.width as int, x, y, second.x as int, second.y as int);
            }
            assert(b.slots()[a.index_of(x, y)] == b.slots()[a.index_of(x, y)]);
        }
    }
}

} // verus!
