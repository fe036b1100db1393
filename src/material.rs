use vstd::prelude::*;
use crate::color::Rgba;

verus! {

/// How a material behaves in the simulation.
#[derive(Clone, Copy, Debug, PartialEq, Eq, Structural)]
pub enum MaterialType {
    Empty,
    Solid,
    MovableSolid,
    Liquid,
    Gas,
}

/// The closed set of materials.
#[derive(Clone, Copy, Debug, PartialEq, Eq, Hash, Structural)]
pub enum Material {
    Empty,
    Sand,
    Dirt,
    Water,
    Rock,
    Smoke,
    Wood,
}

/// The number of materials, `Empty` included.
pub const MATERIAL_COUNT: usize = 7;

/// The material at a position of the enumeration order.
pub open spec fn material_at(i: int) -> Material {
    if i == 0 {
        Material::Empty
    } else if i == 1 {
        Material::Sand
    } else if i == 2 {
        Material::Dirt
    } else if i == 3 {
        Material::Water
    } else if i == 4 {
        Material::Rock
    } else if i == 5 {
        Material::Smoke
    } else {
        Material::Wood
    }
}

pub open spec fn spec_type(m: Material) -> MaterialType {
    match m {
        Material::Empty => MaterialType::Empty,
        Material::Sand => MaterialType::MovableSolid,
        Material::Dirt => MaterialType::MovableSolid,
        Material::Water => MaterialType::Liquid,
        Material::Rock => MaterialType::Solid,
        Material::Smoke => MaterialType::Gas,
        Material::Wood => MaterialType::Solid,
    }
}

pub open spec fn spec_color(m: Material) -> Rgba {
    match m {
        Material::Empty => Rgba { r: 0, g: 255, b: 0, a: 255 },
        Material::Sand => Rgba { r: 255, g: 255, b: 0, a: 255 },
        Material::Dirt => Rgba { r: 104, g: 63, b: 51, a: 255 },
        Material::Water => Rgba { r: 0, g: 0, b: 255, a: 255 },
        Material::Rock => Rgba { r: 76, g: 76, b: 76, a: 255 },
        Material::Smoke => Rgba { r: 127, g: 127, b: 127, a: 255 },
        Material::Wood => Rgba { r: 127, g: 76, b: 25, a: 255 },
    }
}

pub open spec fn spec_hp(m: Material) -> u64 {
    match m {
        Material::Empty => 0,
        Material::Sand => 10,
        Material::Dirt => 20,
        Material::Water => 20,
        Material::Rock => 150,
        Material::Smoke => 60,
        Material::Wood => 600,
    }
}

pub open spec fn spec_density(m: Material) -> u64 {
    match m {
        Material::Empty => 0,
        Material::Sand => 300,
        Material::Dirt => 500,
        Material::Water => 100,
        Material::Rock => 1000,
        Material::Smoke => 60,
        Material::Wood => 600,
    }
}

pub open spec fn spec_dispersion(m: Material) -> u8 {
    match m {
        Material::Sand => 1,
        Material::Dirt => 1,
        Material::Water => 10,
        Material::Smoke => 5,
        _ => 0,
    }
}

/// Probabilities are in thousandths.
pub const PROBABILITY_SCALE: u32 = 1000;

pub open spec fn spec_inertial_resistance(m: Material) -> u32 {
    match m {
        Material::Sand => 100,
        Material::Dirt => 900,
        _ => 0,
    }
}

pub open spec fn spec_flammability(m: Material) -> u32 {
    match m {
        Material::Smoke => 500,
        Material::Dirt => 200,
        Material::Wood => 5,
        _ => 0,
    }
}

/// Whether the material puts out fire, and the percentage of its health it
/// keeps when it does.
pub open spec fn spec_extinguishes(m: Material) -> (bool, u64) {
    match m {
        Material::Water => (true, 50),
        Material::Sand => (true, 100),
        _ => (false, 100),
    }
}

pub open spec fn spec_protects(m: Material) -> bool {
    m == Material::Water
}

impl Material {
    /// The material at index `i` of the enumeration order.
    pub fn from_index(i: usize) -> (r: Material)
        requires
            i < MATERIAL_COUNT,
        ensures
            r == material_at(i as int),
    {
        if i == 0 {
            Material::Empty
        } else if i == 1 {
            Material::Sand
        } else if i == 2 {
            Material::Dirt
        } else if i == 3 {
            Material::Water
        } else if i == 4 {
            Material::Rock
        } else if i == 5 {
            Material::Smoke
        } else {
            Material::Wood
        }
    }

    pub fn get_type(&self) -> (r: MaterialType)
        ensures
            r == spec_type(*self),
    {
        match self {
            Material::Empty => MaterialType::Empty,
            Material::Sand => MaterialType::MovableSolid,
            Material::Dirt => MaterialType::MovableSolid,
            Material::Water => MaterialType::Liquid,
            Material::Rock => MaterialType::Solid,
            Material::Smoke => MaterialType::Gas,
            Material::Wood => MaterialType::Solid,
        }
    }

    /// The flat colour of the material, used when no texture is given.
    pub fn get_color(&self) -> (r: Rgba)
        ensures
            r == spec_color(*self),
    {
        match self {
            Material::Empty => Rgba { r: 0, g: 255, b: 0, a: 255 },
            Material::Sand => Rgba { r: 255, g: 255, b: 0, a: 255 },
            Material::Dirt => Rgba { r: 104, g: 63, b: 51, a: 255 },
            Material::Water => Rgba { r: 0, g: 0, b: 255, a: 255 },
            Material::Rock => Rgba { r: 76, g: 76, b: 76, a: 255 },
            Material::Smoke => Rgba { r: 127, g: 127, b: 127, a: 255 },
            Material::Wood => Rgba { r: 127, g: 76, b: 25, a: 255 },
        }
    }

    pub fn get_hp(&self) -> (r: u64)
        ensures
            r == spec_hp(*self),
    {
        match self {
            Material::Empty => 0,
            Material::Sand => 10,
            Material::Dirt => 20,
            Material::Water => 20,
            Material::Rock => 150,
            Material::Smoke => 60,
            Material::Wood => 600,
        }
    }

    pub fn get_density(&self) -> (r: u64)
        ensures
            r == spec_density(*self),
    {
        match self {
            Material::Empty => 0,
            Material::Sand => 300,
            Material::Dirt => 500,
            Material::Water => 100,
            Material::Rock => 1000,
            Material::Smoke => 60,
            Material::Wood => 600,
        }
    }

    pub fn get_dispersion(&self) -> (r: u8)
        ensures
            r == spec_dispersion(*self),
    {
        match self {
            Material::Sand => 1,
            Material::Dirt => 1,
            Material::Water => 10,
            Material::Smoke => 5,
            _ => 0,
        }
    }

    /// The chance, in thousandths, that a settled cell of this material
    /// stays settled when a neighbour starts falling.
    pub fn get_intertial_resistance(&self) -> (r: u32)
        ensures
            r == spec_inertial_resistance(*self),
    {
        match self {
            Material::Sand => 100,
            Material::Dirt => 900,
            _ => 0,
        }
    }

    /// The chance, in thousandths, that the material catches fire from a
    /// burning neighbour in one step.
    pub fn get_flammability(&self) -> (r: u32)
        ensures
            r == spec_flammability(*self),
    {
        match self {
            Material::Smoke => 500,
            Material::Dirt => 200,
            Material::Wood => 5,
            _ => 0,
        }
    }

    pub fn extinguishes_fire(&self) -> (r: (bool, u64))
        ensures
            r == spec_extinguishes(*self),
    {
        match self {
            Material::Water => (true, 50),
            Material::Sand => (true, 100),
            _ => (false, 100),
        }
    }

    pub fn protects_from_fire(&self) -> (r: bool)
        ensures
            r == spec_protects(*self),
    {
        match self {
            Material::Water => true,
            _ => false,
        }
    }
}

} // verus!
