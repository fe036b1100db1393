use vstd::prelude::*;
use crate::material::{Material, MATERIAL_COUNT, material_at};

verus! {

/// The user's drawing tool.
pub struct Brush {
    pub size: u16,
    pub material_index: usize,
    pub place_fire: bool,
}

impl Brush {
    pub fn new() -> (r: Self)
        ensures
            r.size == 35,
            r.material_index == 0,
            !r.place_fire,
    {
        Self { size: 35, material_index: 0, place_fire: false }
    }

    /// The selected material.
    pub fn get_material_from_index(&self) -> (r: Material)
        requires
            self.material_index < MATERIAL_COUNT,
        ensures
            r == material_at(self.material_index as int),
    {
        Material::from_index(self.material_index)
    }

    /// Selects the next material, wrapping to the first after the last.
    pub fn increase_material_index(&mut self)
        ensures
            final(self).material_index == (if old(self).material_index + 1 >= MATERIAL_COUNT {
                0
            } else {
                old(self).material_index + 1
            }),
            final(self).size == old(self).size,
            final(self).place_fire == old(self).place_fire,
    {
        if self.material_index >= MATERIAL_COUNT - 1 {
            self.material_index = 0;
        } else {
            self.material_index += 1;
        }
    }

    /// Selects the previous material, wrapping to the last before the first.
    pub fn decrease_material_index(&mut self)
        ensures
            final(self).material_index == (if old(self).material_index == 0 {
                MATERIAL_COUNT - 1
            } else {
                old(self).material_index - 1
            }),
            final(self).size == old(self).size,
            final(self).place_fire == old(self).place_fire,
    {
        if self.material_index == 0 {
            self.material_index = MATERIAL_COUNT - 1;
        } else {
            self.material_index -= 1;
        }
    }
}

impl Default for Brush {
    fn default() -> (r: Self)
        ensures
            r.size == 35,
            r.material_index == 0,
            !r.place_fire,
    {
        Self::new()
    }
}

} // verus!
