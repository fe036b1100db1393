use vstd::prelude::*;
use crate::cell::Pos;
use crate::color::{Rgba, color_empty, spec_color_empty};
use crate::material::{Material, MATERIAL_COUNT};

verus! {

/// The size of the texture that stands in for one that could not be decoded.
pub const FALLBACK_TEXTURE_SIDE: u32 = 32;

/// What `image` decodes from a file's bytes: width, height and RGBA bytes.
pub uninterp spec fn decoded_image(bytes: Seq<u8>) -> Option<(u32, u32, Seq<u8>)>;

/// Relies on image::load_from_memory and DynamicImage::to_rgba8: the image
/// the bytes encode, as width, height and row-major RGBA bytes, or `None`
/// when they encode none.
#[verifier::external_body]
fn decode_rgba(bytes: &[u8]) -> (r: Option<(u32, u32, Vec<u8>)>)
    ensures
        r matches Some((w, h, px)) ==> decoded_image(bytes@) == Some((w, h, px@)),
        r is None ==> decoded_image(bytes@) is None,
{
    match image::load_from_memory(bytes) {
        Ok(img) => {
            let rgba = img.to_rgba8();
            Some((rgba.width(), rgba.height(), rgba.into_raw()))
        },
        Err(_) => None,
    }
}

fn texture_fits(width: u32, height: u32, len: usize) -> (r: bool)
    ensures
        r == (width > 0 && height > 0 && len == 4 * (width as int) * (height as int)),
{
    proof {
        assert((width as int) * (height as int) <= 0xffff_ffff * 0xffff_ffff) by (nonlinear_arith)
            requires width <= 0xffff_ffff, height <= 0xffff_ffff, width >= 0, height >= 0;
        assert(4 * (width as int) * (height as int) == 4 * ((width as int) * (height as int))) by (nonlinear_arith);
    }
    width > 0 && height > 0 && (len as u128) == 4 * ((width as u128) * (height as u128))
}

/// A texture as RGBA bytes, row by row.
pub struct TextureInfo {
    pub width: u32,
    pub height: u32,
    pub pixels: Vec<u8>,
    pub being_used_by: usize,
}

impl TextureInfo {
    /// The texture can be sampled: it has pixels, four bytes each.
    pub open spec fn wf(&self) -> bool {
        &&& self.width > 0
        &&& self.height > 0
        &&& self.pixels@.len() == 4 * (self.width as int) * (self.height as int)
    }

    /// A texture from decoded parts; one that the parts cannot make is the
    /// blank stand-in that nobody uses.
    pub fn from_decoded(width: u32, height: u32, pixels: Vec<u8>) -> (r: TextureInfo)
        ensures
            (width > 0 && height > 0 && pixels@.len() == 4 * (width as int) * (height as int)) ==> r.wf()
                && r.width == width && r.height == height && r.pixels@ == pixels@ && r.being_used_by == 1,
            !(width > 0 && height > 0 && pixels@.len() == 4 * (width as int) * (height as int)) ==> !r.wf()
                && r.width == FALLBACK_TEXTURE_SIDE && r.height == FALLBACK_TEXTURE_SIDE
                && r.pixels@.len() == 0 && r.being_used_by == 0,
    {
        let fits = texture_fits(width, height, pixels.len());
        if fits {
            TextureInfo { width, height, pixels, being_used_by: 1 }
        } else {
            TextureInfo {
                width: FALLBACK_TEXTURE_SIDE,
                height: FALLBACK_TEXTURE_SIDE,
                pixels: Vec::new(),
                being_used_by: 0,
            }
        }
    }
}

/// The colour of the texel that a grid position maps to when the texture
/// is tiled over the grid.
pub open spec fn texel(t: &TextureInfo, x: int, y: int) -> Rgba {
    let tx = x % (t.width as int);
    let ty = y % (t.height as int);
    let i = 4 * (tx + ty * t.width as int);
    Rgba { r: t.pixels@[i], g: t.pixels@[i + 1], b: t.pixels@[i + 2], a: t.pixels@[i + 3] }
}

/// The textures of the materials, indexed by their enumeration order.
pub struct Assets {
    pub loaded_material_textures: Vec<Option<TextureInfo>>,
}

pub open spec fn material_index(m: Material) -> int {
    match m {
        Material::Empty => 0,
        Material::Sand => 1,
        Material::Dirt => 2,
        Material::Water => 3,
        Material::Rock => 4,
        Material::Smoke => 5,
        Material::Wood => 6,
    }
}

pub fn material_index_exec(m: Material) -> (r: usize)
    ensures
        r == material_index(m),
        r < MATERIAL_COUNT,
{
    match m {
        Material::Empty => 0,
        Material::Sand => 1,
        Material::Dirt => 2,
        Material::Water => 3,
        Material::Rock => 4,
        Material::Smoke => 5,
        Material::Wood => 6,
    }
}

/// The texture file of a material; the debug texture stands for `Empty`.
pub fn texture_file_name(material: Material) -> (r: &'static str)
    ensures
        r@ == (match material {
            Material::Dirt => "dirt.png"@,
            Material::Sand => "sand.png"@,
            Material::Water => "water.png"@,
            Material::Rock => "rock.png"@,
            Material::Smoke => "smoke.png"@,
            Material::Wood => "wood.png"@,
            Material::Empty => "debug_color_02.png"@,
        }),
{
    match material {
        Material::Dirt => "dirt.png",
        Material::Sand => "sand.png",
        Material::Water => "water.png",
        Material::Rock => "rock.png",
        Material::Smoke => "smoke.png",
        Material::Wood => "wood.png",
        Material::Empty => "debug_color_02.png",
    }
}

impl Assets {
    pub open spec fn wf(&self) -> bool {
        self.loaded_material_textures@.len() == MATERIAL_COUNT
    }

    /// The texture of a material that can be sampled, if one is loaded.
    pub open spec fn texture_of(&self, m: Material) -> Option<TextureInfo> {
        let t = self.loaded_material_textures@[material_index(m)];
        if t matches Some(info) && info.wf() {
            t
        } else {
            None
        }
    }

    /// The colour a new cell of `m` at `(x, y)` takes.
    pub open spec fn color_for(&self, x: int, y: int, m: Material) -> Rgba {
        match self.texture_of(m) {
            Some(t) => texel(&t, x, y),
            None => spec_color_empty(),
        }
    }

    /// No textures: every material takes the fallback colour.
    pub fn new() -> (r: Assets)
        ensures
            r.wf(),
            forall|i: int| 0 <= i < MATERIAL_COUNT ==> #[trigger] r.loaded_material_textures@[i] is None,
    {
        let mut v: Vec<Option<TextureInfo>> = Vec::new();
        let mut i: usize = 0;
        while i < MATERIAL_COUNT
            invariant
                i <= MATERIAL_COUNT,
                v@.len() == i,
                forall|j: int| 0 <= j < i ==> #[trigger] v@[j] is None,
            decreases MATERIAL_COUNT - i,
        {
            v.push(None);
            i += 1;
        }
        Assets { loaded_material_textures: v }
    }

    /// Decodes a texture file's bytes.
    pub fn load_texture(bytes: &[u8]) -> (r: TextureInfo)
        ensures
            match decoded_image(bytes@) {
                Some((w, h, px)) => (w > 0 && h > 0 && px.len() == 4 * (w as int) * (h as int)) ==> r.wf()
                    && r.width == w && r.height == h && r.pixels@ == px,
                None => !r.wf(),
            },
    {
        match decode_rgba(bytes) {
            Some((w, h, px)) => TextureInfo::from_decoded(w, h, px),
            None => TextureInfo::from_decoded(0, 0, Vec::new()),
        }
    }

    /// The texture loaded for a material, if any.
    pub fn get_texture(&self, material: Material) -> (r: Option<&TextureInfo>)
        requires
            self.wf(),
        ensures
            r == match self.loaded_material_textures@[material_index(material)] {
                Some(t) => Some(&t),
                None => None::<&TextureInfo>,
            },
    {
        let i = material_index_exec(material);
        match &self.loaded_material_textures[i] {
            Some(t) => Some(t),
            None => None,
        }
    }

    /// Gives a material its texture.
    pub fn set_material_texture(&mut self, material: Material, info: TextureInfo)
        requires
            old(self).wf(),
        ensures
            final(self).wf(),
            final(self).loaded_material_textures@ == old(self).loaded_material_textures@.update(
                material_index(material),
                Some(info),
            ),
    {
        let i = material_index_exec(material);
        self.loaded_material_textures.set(i, Some(info));
    }

    /// Samples a texture tiled over the grid.
    pub fn get_color_from_texture_wrapped(&self, pos: Pos, info: &TextureInfo) -> (r: Rgba)
        requires
            info.wf(),
            pos.x >= 0,
            pos.y >= 0,
        ensures
            r == texel(info, pos.x as int, pos.y as int),
    {
        let w = info.width as u64;
        let h = info.height as u64;
        let x = (pos.x as u64) % w;
        let y = (pos.y as u64) % h;
        let n = info.pixels.len();
        proof {
            assert(x + y * w < w * h) by (nonlinear_arith)
                requires x < w, y < h;
            assert(4 * (x + y * w) + 3 < 4 * w * h) by (nonlinear_arith)
                requires x + y * w < w * h;
            assert(w * h <= 0xffff_ffff * 0xffff_ffff) by (nonlinear_arith)
                requires w <= 0xffff_ffff, h <= 0xffff_ffff;
        }
        let i = (4 * (x + y * w)) as usize;
        assert(i + 3 < n);
        Rgba { r: info.pixels[i], g: info.pixels[i + 1], b: info.pixels[i + 2], a: info.pixels[i + 3] }
    }

    /// The colour a new cell of `material` at `pos` takes: its texture's
    /// texel there, or the fallback colour without a texture.
    pub fn get_color_for_material(&self, pos: Pos, material: Material) -> (r: Rgba)
        requires
            self.wf(),
            pos.x >= 0,
            pos.y >= 0,
        ensures
            r == self.color_for(pos.x as int, pos.y as int, material),
    {
        let i = material_index_exec(material);
        match &self.loaded_material_textures[i] {
            Some(info) => {
                let fits = texture_fits(info.width, info.height, info.pixels.len());
                if fits {
                    self.get_color_from_texture_wrapped(pos, info)
                } else {
                    color_empty()
                }
            },
            None => color_empty(),
        }
    }
}

} // verus!
