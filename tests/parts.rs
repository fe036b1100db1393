use falling_rust::assets::{texture_file_name, Assets, TextureInfo};
use falling_rust::chunk::Chunk;
use falling_rust::color::{color_empty, darken_color};
use falling_rust::material::{MATERIAL_COUNT};
use falling_rust::{Brush, Cell, Material, MaterialType, Pos, Rgba};

#[test]
fn material_table() {
    assert_eq!(Material::Empty.get_type(), MaterialType::Empty);
    assert_eq!(Material::Sand.get_type(), MaterialType::MovableSolid);
    assert_eq!(Material::Water.get_type(), MaterialType::Liquid);
    assert_eq!(Material::Rock.get_type(), MaterialType::Solid);
    assert_eq!(Material::Smoke.get_type(), MaterialType::Gas);
    assert_eq!(Material::Empty.get_density(), 0);
    assert_eq!(Material::Empty.get_hp(), 0);
    assert_eq!(Material::Rock.get_density(), 1000);
    assert_eq!(Material::Wood.get_hp(), 600);
    assert_eq!(Material::Water.get_dispersion(), 10);
    assert_eq!(Material::Rock.get_dispersion(), 0);
    assert_eq!(Material::Dirt.get_intertial_resistance(), 900);
    assert_eq!(Material::Smoke.get_flammability(), 500);
    assert_eq!(Material::Water.extinguishes_fire(), (true, 50));
    assert_eq!(Material::Sand.extinguishes_fire(), (true, 100));
    assert_eq!(Material::Wood.extinguishes_fire(), (false, 100));
    assert!(Material::Water.protects_from_fire());
    assert!(!Material::Sand.protects_from_fire());
    assert_eq!(Material::Sand.get_color(), Rgba { r: 255, g: 255, b: 0, a: 255 });
}

#[test]
fn density_orders_the_materials() {
    assert!(Material::Sand.get_density() > Material::Water.get_density());
    assert!(Material::Water.get_density() > Material::Smoke.get_density());
}

#[test]
fn brush_cycles_materials() {
    let mut b = Brush::new();
    assert_eq!(b.get_material_from_index(), Material::Empty);
    b.decrease_material_index();
    assert_eq!(b.material_index, MATERIAL_COUNT - 1);
    assert_eq!(b.get_material_from_index(), Material::Wood);
    b.increase_material_index();
    assert_eq!(b.material_index, 0);
    b.increase_material_index();
    assert_eq!(b.get_material_from_index(), Material::Sand);
    let d = Brush::default();
    assert_eq!(d.size, 35);
    assert!(!d.place_fire);
}

#[test]
fn chunk_start_step_promotes_request() {
    let mut c = Chunk::new(Pos { x: 16, y: 0 }, 16);
    assert!(!c.should_step);
    c.start_step();
    assert!(c.should_step);
    assert!(!c.should_step_next_frame);
    c.start_step();
    assert!(!c.should_step);
    assert_eq!(c.num_frames_without_step, 1);
}

#[test]
fn idle_chunk_is_stepped_after_a_while() {
    let mut c = Chunk::new(Pos { x: 0, y: 0 }, 16);
    c.start_step();
    let mut stepped = 0;
    for _ in 0..199 {
        c.start_step();
        if c.should_step {
            stepped += 1;
        }
    }
    assert_eq!(stepped, 0);
    c.start_step();
    assert!(c.should_step);
    assert_eq!(c.num_frames_without_step, 0);
}

#[test]
fn cell_frame_bookkeeping() {
    let mut c = Cell::new(Pos { x: 2, y: 3 }, Material::Sand);
    assert!(c.is_free_falling);
    assert_eq!(c.hp, 10);
    c.post_update();
    assert!(!c.is_free_falling);
    c.pos.y = 4;
    c.begin_frame();
    assert!(c.is_free_falling);
    assert_eq!(c.prev_pos, Pos { x: 2, y: 4 });
    c.update(true);
    assert_eq!(c.velocity.y, 500);
    assert_eq!(c.hp, 10);
}

#[test]
fn attempt_free_fall_uses_inertial_resistance() {
    let mut s = Cell::new(Pos { x: 0, y: 0 }, Material::Sand);
    s.is_free_falling = false;
    assert!(!s.attempt_free_fall(100));
    assert!(!s.is_free_falling);
    assert!(s.attempt_free_fall(101));
    assert!(s.is_free_falling);
    let mut w = Cell::new(Pos { x: 0, y: 0 }, Material::Water);
    w.is_free_falling = false;
    assert!(!w.attempt_free_fall(999));
}

#[test]
fn burnt_cell_darkens_by_health() {
    let mut c = Cell::new(Pos { x: 0, y: 0 }, Material::Sand);
    c.set_color(Rgba { r: 200, g: 100, b: 50, a: 255 });
    c.is_on_fire = true;
    c.update(false);
    assert_eq!(c.color, Rgba { r: 255, g: 0, b: 0, a: 255 });
    c.is_on_fire = false;
    c.update(false);
    assert_eq!(c.hp, 9);
    assert_eq!(c.color, Rgba { r: 180, g: 90, b: 45, a: 255 });
}

#[test]
fn darken_scales_channels() {
    let c = darken_color(Rgba { r: 100, g: 51, b: 0, a: 77 }, 1, 2);
    assert_eq!(c, Rgba { r: 50, g: 25, b: 0, a: 77 });
    assert_eq!(darken_color(c, 3, 2), c);
}

#[test]
fn textures_tile_over_the_grid() {
    let pixels: Vec<u8> = (0u8..16).collect();
    let t = TextureInfo::from_decoded(2, 2, pixels);
    assert_eq!(t.being_used_by, 1);
    let mut a = Assets::new();
    a.set_material_texture(Material::Sand, t);
    assert_eq!(a.get_color_for_material(Pos { x: 3, y: 2 }, Material::Sand), Rgba { r: 4, g: 5, b: 6, a: 7 });
    assert_eq!(a.get_color_for_material(Pos { x: 0, y: 1 }, Material::Sand), Rgba { r: 8, g: 9, b: 10, a: 11 });
    assert_eq!(a.get_color_for_material(Pos { x: 0, y: 0 }, Material::Water), color_empty());
}

#[test]
fn bad_texture_is_the_blank_stand_in() {
    let t = TextureInfo::from_decoded(2, 2, vec![1, 2, 3]);
    assert_eq!(t.width, 32);
    assert_eq!(t.pixels.len(), 0);
    assert_eq!(t.being_used_by, 0);
    let u = Assets::load_texture(&[1, 2, 3, 4]);
    assert_eq!(u.being_used_by, 0);
}

#[test]
fn png_texture_decodes() {
    // A 1x1 opaque red PNG.
    let png: [u8; 69] = [
        0x89, 0x50, 0x4E, 0x47, 0x0D, 0x0A, 0x1A, 0x0A, 0x00, 0x00, 0x00, 0x0D, 0x49, 0x48, 0x44, 0x52,
        0x00, 0x00, 0x00, 0x01, 0x00, 0x00, 0x00, 0x01, 0x08, 0x02, 0x00, 0x00, 0x00, 0x90, 0x77, 0x53,
        0xDE, 0x00, 0x00, 0x00, 0x0C, 0x49, 0x44, 0x41, 0x54, 0x08, 0xD7, 0x63, 0xF8, 0xCF, 0xC0, 0x00,
        0x00, 0x03, 0x01, 0x01, 0x00, 0x18, 0xDD, 0x8D, 0xB0, 0x00, 0x00, 0x00, 0x00, 0x49, 0x45, 0x4E,
        0x44, 0xAE, 0x42, 0x60, 0x82,
    ];
    let t = Assets::load_texture(&png);
    assert_eq!(t.width, 1);
    assert_eq!(t.height, 1);
    assert_eq!(t.pixels, vec![255, 0, 0, 255]);
}

#[test]
fn texture_names() {
    assert_eq!(texture_file_name(Material::Dirt), "dirt.png");
    assert_eq!(texture_file_name(Material::Wood), "wood.png");
    assert_eq!(texture_file_name(Material::Empty), "debug_color_02.png");
}

#[test]
fn brush_index_out_of_range_wraps() {
    let mut b = Brush::new();
    b.material_index = 40;
    b.increase_material_index();
    assert_eq!(b.material_index, 0);
    b.material_index = 6;
    b.increase_material_index();
    assert_eq!(b.material_index, 0);
}
