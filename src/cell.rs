use vstd::prelude::*;
use crate::color::{Rgba, darken_color};
use crate::material::{Material, MaterialType, spec_color, spec_hp, spec_type, spec_inertial_resistance};

verus! {

/// A grid coordinate; `y` grows downwards.
#[derive(Clone, Copy, Debug, PartialEq, Eq, Structural)]
pub struct Pos {
    pub x: i32,
    pub y: i32,
}

/// A velocity in thousandths of a cell per frame; `y` grows downwards.
#[derive(Clone, Copy, Debug, PartialEq, Eq, Structural)]
pub struct Velocity {
    pub x: i64,
    pub y: i64,
}

/// Thousandths of a cell in a cell.
pub const VELOCITY_SCALE: i64 = 1000;

/// Downward velocity gained each frame.
pub const GRAVITY: i64 = 500;

/// A velocity component rounded to whole cells, halves away from zero.
pub open spec fn round_velocity(v: int) -> int {
    if v >= 0 {
        (v + 500) / 1000
    } else {
        -((-v + 500) / 1000)
    }
}

/// Rounds a velocity component to whole cells, halves away from zero.
pub fn round_velocity_exec(v: i64) -> (r: i64)
    ensures
        r == round_velocity(v as int),
        -10_000_000_000_000_000 <= r <= 10_000_000_000_000_000,
{
    let scale = VELOCITY_SCALE as i128;
    if v >= 0 {
        ((v as i128 + scale / 2) / scale) as i64
    } else {
        (-((-(v as i128) + scale / 2) / scale)) as i64
    }
}

/// One occupant of the grid.
#[derive(Clone, Copy, Debug, PartialEq, Eq, Structural)]
pub struct Cell {
    pub pos: Pos,
    pub prev_pos: Pos,
    pub velocity: Velocity,
    pub hp: u64,
    pub base_color: Rgba,
    pub color: Rgba,
    pub material: Material,
    pub processed_this_frame: bool,
    pub is_free_falling: bool,
    pub is_on_fire: bool,
    pub was_on_fire_last_frame: bool,
}

/// A freshly created cell of `material` at `pos`.
pub open spec fn fresh_cell(pos: Pos, material: Material) -> Cell {
    Cell {
        pos,
        prev_pos: pos,
        velocity: Velocity { x: 0, y: 0 },
        hp: spec_hp(material),
        base_color: spec_color(material),
        color: spec_color(material),
        material,
        processed_this_frame: false,
        is_free_falling: true,
        is_on_fire: false,
        was_on_fire_last_frame: false,
    }
}

/// Whether two cells agree on all but position, velocity, colour and the
/// per-frame flags: what a move leaves alone.
pub open spec fn same_substance(a: Cell, b: Cell) -> bool {
    a.material == b.material && a.hp == b.hp && a.is_on_fire == b.is_on_fire
        && a.was_on_fire_last_frame == b.was_on_fire_last_frame
}

impl Cell {
    /// Creates a new cell with the specified material.
    pub fn new(pos: Pos, material: Material) -> (r: Self)
        ensures
            r == fresh_cell(pos, material),
    {
        let color = material.get_color();
        Self {
            pos,
            prev_pos: pos,
            velocity: Velocity { x: 0, y: 0 },
            hp: material.get_hp(),
            base_color: color,
            color,
            material,
            processed_this_frame: false,
            is_free_falling: true,
            is_on_fire: false,
            was_on_fire_last_frame: false,
        }
    }

    /// Per-frame physical update: gravity, burning, and the colour that
    /// follows from the fire state. `flicker` picks the shade of a flame.
    pub fn update(&mut self, flicker: bool)
        ensures
            final(self).velocity.x == old(self).velocity.x,
            final(self).velocity.y == sat_add_i64(old(self).velocity.y as int, GRAVITY as int),
            final(self).hp == (if old(self).is_on_fire {
                burn_once(old(self).hp)
            } else {
                old(self).hp
            }),
            final(self).was_on_fire_last_frame == old(self).is_on_fire,
            final(self).is_on_fire == old(self).is_on_fire,
            final(self).material == old(self).material,
            final(self).pos == old(self).pos,
            final(self).prev_pos == old(self).prev_pos,
            final(self).base_color == old(self).base_color,
            final(self).is_free_falling == old(self).is_free_falling,
            final(self).processed_this_frame == old(self).processed_this_frame,
    {
        self.velocity.y = if self.velocity.y > i64::MAX - GRAVITY {
            i64::MAX
        } else {
            self.velocity.y + GRAVITY
        };
        if self.is_on_fire {
            self.hp = self.hp.saturating_sub(1);
            let g: u8 = if flicker { 127 } else { 0 };
            self.color = Rgba { r: 255, g, b: 0, a: 255 };
        } else if self.was_on_fire_last_frame {
            let full = self.material.get_hp();
            if full > 0 {
                self.color = darken_color(self.base_color, self.hp, full);
            }
        }
        self.was_on_fire_last_frame = self.is_on_fire;
    }

    /// Bookkeeping at the start of a frame: the cell falls freely when its
    /// row changed since the last frame.
    pub fn post_update(&mut self)
        ensures
            *final(self) == (Cell {
                is_free_falling: old(self).pos.y != old(self).prev_pos.y,
                prev_pos: old(self).pos,
                ..*old(self)
            }),
    {
        self.is_free_falling = self.pos.y != self.prev_pos.y;
        self.prev_pos = self.pos;
    }

    /// The per-cell start of a frame: not yet processed, and falling freely
    /// when its row changed since the last frame.
    pub fn begin_frame(&mut self)
        ensures
            *final(self) == begun(*old(self)),
    {
        self.processed_this_frame = false;
        self.post_update();
    }

    /// Tries to make a settled movable solid fall, given a uniform draw in
    /// thousandths: it falls when the draw exceeds its inertial resistance.
    pub fn attempt_free_fall(&mut self, draw: u32) -> (r: bool)
        ensures
            r == (spec_type(old(self).material) == MaterialType::MovableSolid
                && draw > spec_inertial_resistance(old(self).material)),
            *final(self) == (if r {
                Cell { is_free_falling: true, ..*old(self) }
            } else {
                *old(self)
            }),
    {
        if self.material.get_type() == MaterialType::MovableSolid {
            let chance = self.material.get_intertial_resistance();
            if draw > chance {
                self.is_free_falling = true;
                return true;
            }
        }
        false
    }

    pub fn set_color(&mut self, color: Rgba)
        ensures
            *final(self) == (Cell { base_color: color, color, ..*old(self) }),
    {
        self.base_color = color;
        self.color = color;
    }
}

/// The health a burning cell keeps after one frame.
pub open spec fn burn_once(hp: u64) -> u64 {
    if hp > 0 {
        (hp - 1) as u64
    } else {
        0
    }
}

/// The health a cell keeps after burning for `frames` frames.
pub open spec fn hp_after_burning(hp: u64, frames: nat) -> u64
    decreases frames,
{
    if frames == 0 {
        hp
    } else {
        burn_once(hp_after_burning(hp, (frames - 1) as nat))
    }
}

/// A burning cell loses health every frame while it has any, and has none
/// left after as many frames as it started with; a cell without health is
/// removed when it is next handled.
pub proof fn lemma_burning_expires(hp: u64)
    ensures
        hp_after_burning(hp, hp as nat) == 0,
        forall|n: nat| n < hp ==> #[trigger] hp_after_burning(hp, n + 1) < hp_after_burning(hp, n),
{
    assert forall|n: nat| n <= hp implies #[trigger] hp_after_burning(hp, n) == hp - n by {
        lemma_burning_steps(hp, n);
    }
    assert forall|n: nat| n < hp implies #[trigger] hp_after_burning(hp, n + 1) < hp_after_burning(hp, n) by {
        lemma_burning_steps(hp, n);
        lemma_burning_steps(hp, n + 1);
    }
}

proof fn lemma_burning_steps(hp: u64, n: nat)
    requires
        n <= hp,
    ensures
        hp_after_burning(hp, n) == hp - n,
    decreases n,
{
    if n > 0 {
        lemma_burning_steps(hp, (n - 1) as nat);
    }
}

/// A cell after `begin_frame`.
pub open spec fn begun(c: Cell) -> Cell {
    Cell { processed_this_frame: false, is_free_falling: c.pos.y != c.prev_pos.y, prev_pos: c.pos, ..c }
}

/// Saturating addition on `i64`.
pub open spec fn sat_add_i64(a: int, b: int) -> i64 {
    if a + b > i64::MAX {
        i64::MAX
    } else if a + b < i64::MIN {
        i64::MIN
    } else {
        (a + b) as i64
    }
}

} // verus!
