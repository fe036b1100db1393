use falling_rust::assets::Assets;
use falling_rust::cellhandler::{gas_step, handle_cell, liquid_step, movable_solid_step, try_move};
use falling_rust::fire::{fire_step, fire_step_with, select_fire_targets};
use falling_rust::matrix::Lookup;
use falling_rust::{Material, Matrix, Pos};

fn p(x: i32, y: i32) -> Pos {
    Pos { x, y }
}

fn seeded(width: usize, height: usize, seed: u64) -> Matrix {
    let mut m = Matrix::new_empty(width, height);
    m.rng = fastrand::Rng::with_seed(seed);
    m
}

fn place(m: &mut Matrix, x: i32, y: i32, material: Material, assets: &Assets) {
    m.set_cell_material(p(x, y), material, false, assets);
}

fn material_at(m: &Matrix, x: i32, y: i32) -> Material {
    match m.lookup(p(x, y)) {
        Lookup::Occupied(c) => c.material,
        _ => Material::Empty,
    }
}

fn assert_index_consistent(m: &Matrix) {
    for (k, c) in m.cells.iter().enumerate() {
        assert!(m.is_in_bounds(c.pos));
        assert_eq!(m.get_data_at_pos(c.pos), k + 1);
    }
    for j in 0..m.cells.len() {
        for k in (j + 1)..m.cells.len() {
            assert_ne!(m.cells[j].pos, m.cells[k].pos);
        }
    }
}

fn ignite(m: &mut Matrix, x: i32, y: i32) {
    let mut c = m.get_cell_by_pos(p(x, y));
    c.is_on_fire = true;
    c.was_on_fire_last_frame = true;
    m.update_cell(c);
}

#[test]
fn water_falls_one_row_in_an_empty_column() {
    let assets = Assets::new();
    let mut m = seeded(10, 10, 1);
    place(&mut m, 5, 0, Material::Water, &assets);
    m.update(&assets);
    let c = m.cells[0];
    assert_eq!(c.material, Material::Water);
    assert_eq!(c.pos.x, 5);
    assert!(c.pos.y >= 1);
    assert!(c.is_free_falling);
    assert_eq!(m.lookup(p(5, 0)), Lookup::Empty);
}

#[test]
fn sand_on_a_rock_row_stays_settled() {
    let assets = Assets::new();
    let mut m = seeded(3, 3, 2);
    for x in 0..3 {
        place(&mut m, x, 1, Material::Rock, &assets);
    }
    place(&mut m, 1, 0, Material::Sand, &assets);
    for _ in 0..20 {
        m.update(&assets);
    }
    let s = m.get_cell_by_pos(p(1, 0));
    assert_eq!(s.material, Material::Sand);
    assert!(!s.is_free_falling);
    assert_eq!(s.velocity.x, 0);
    assert_eq!(s.velocity.y, 0);
    for x in 0..3 {
        assert_eq!(material_at(&m, x, 1), Material::Rock);
    }
}

#[test]
fn protected_wood_never_ignites() {
    let assets = Assets::new();
    let mut m = seeded(20, 20, 3);
    place(&mut m, 5, 5, Material::Wood, &assets);
    place(&mut m, 6, 5, Material::Wood, &assets);
    place(&mut m, 9, 5, Material::Water, &assets);
    ignite(&mut m, 5, 5);
    assert!(Material::Wood.get_flammability() > 0);
    for _ in 0..500 {
        fire_step(&mut m, p(5, 5), &assets);
        assert!(!m.get_cell_by_pos(p(6, 5)).is_on_fire);
    }
    assert!(m.get_cell_by_pos(p(5, 5)).is_on_fire);
}

#[test]
fn unprotected_dirt_catches_fire() {
    let assets = Assets::new();
    let mut m = seeded(20, 20, 4);
    place(&mut m, 5, 5, Material::Wood, &assets);
    place(&mut m, 6, 5, Material::Dirt, &assets);
    ignite(&mut m, 5, 5);
    let mut caught = false;
    for _ in 0..200 {
        fire_step(&mut m, p(5, 5), &assets);
        if m.get_cell_by_pos(p(6, 5)).is_on_fire {
            caught = true;
            break;
        }
    }
    assert!(caught);
}

#[test]
fn water_puts_out_fire_and_leaves_smoke() {
    let assets = Assets::new();
    let mut m = seeded(10, 10, 5);
    place(&mut m, 5, 5, Material::Wood, &assets);
    place(&mut m, 6, 5, Material::Water, &assets);
    ignite(&mut m, 5, 5);
    fire_step(&mut m, p(5, 5), &assets);
    let f = m.get_cell_by_pos(p(5, 5));
    assert!(!f.is_on_fire);
    assert_eq!(f.hp, Material::Wood.get_hp() - 1);
    let w = m.get_cell_by_pos(p(6, 5));
    assert_eq!(w.material, Material::Water);
    assert_eq!(w.hp, 10);
    let s = m.get_cell_by_pos(p(5, 4));
    assert_eq!(s.material, Material::Smoke);
    assert_eq!(s.hp, Material::Smoke.get_hp());
}

#[test]
fn sand_puts_out_fire_without_smoke() {
    let assets = Assets::new();
    let mut m = seeded(10, 10, 6);
    place(&mut m, 5, 5, Material::Wood, &assets);
    place(&mut m, 5, 6, Material::Sand, &assets);
    ignite(&mut m, 5, 5);
    fire_step(&mut m, p(5, 5), &assets);
    assert!(!m.get_cell_by_pos(p(5, 5)).is_on_fire);
    assert_eq!(m.get_cell_by_pos(p(5, 6)).hp, Material::Sand.get_hp());
    assert_eq!(m.lookup(p(5, 4)), Lookup::Empty);
}

#[test]
fn heavier_sinks_through_lighter() {
    let assets = Assets::new();
    let mut m = seeded(1, 2, 7);
    place(&mut m, 0, 0, Material::Sand, &assets);
    place(&mut m, 0, 1, Material::Water, &assets);
    m.update(&assets);
    assert_eq!(material_at(&m, 0, 0), Material::Water);
    assert_eq!(material_at(&m, 0, 1), Material::Sand);
}

#[test]
fn moving_step_passes_lighter_cell_below() {
    let assets = Assets::new();
    let mut m = seeded(3, 6, 8);
    place(&mut m, 1, 1, Material::Dirt, &assets);
    place(&mut m, 1, 2, Material::Water, &assets);
    let mut d = m.get_cell_by_pos(p(1, 1));
    d.velocity.y = 1000;
    m.update_cell(d);
    let r = movable_solid_step(&mut m, p(1, 1), false);
    assert_eq!(r.x, 1);
    assert!(r.y > 1);
    assert_eq!(material_at(&m, r.x, r.y), Material::Dirt);
    assert_eq!(m.cells.len(), 2);
}

#[test]
fn cell_count_kept_without_fire() {
    let assets = Assets::new();
    let mut m = seeded(32, 32, 9);
    for x in 0..32 {
        place(&mut m, x, 31, Material::Rock, &assets);
    }
    for x in 4..12 {
        for y in 0..6 {
            place(&mut m, x, y, Material::Sand, &assets);
            place(&mut m, x + 12, y, Material::Water, &assets);
            place(&mut m, x + 6, y + 10, Material::Smoke, &assets);
        }
    }
    let before = m.cells.len();
    for _ in 0..60 {
        m.update(&assets);
        assert_eq!(m.cells.len(), before);
        assert_index_consistent(&m);
    }
}

#[test]
fn index_consistent_after_every_frame_with_fire() {
    let assets = Assets::new();
    let mut m = seeded(24, 24, 10);
    for x in 0..24 {
        place(&mut m, x, 23, Material::Rock, &assets);
        place(&mut m, x, 22, Material::Wood, &assets);
        place(&mut m, x, 21, Material::Dirt, &assets);
    }
    for x in 3..8 {
        place(&mut m, x, 2, Material::Water, &assets);
    }
    ignite(&mut m, 10, 22);
    for _ in 0..80 {
        m.update(&assets);
        assert_index_consistent(&m);
    }
}

#[test]
fn settled_sand_stops_and_stays() {
    let assets = Assets::new();
    let mut m = seeded(5, 10, 11);
    for x in 0..5 {
        place(&mut m, x, 9, Material::Rock, &assets);
    }
    place(&mut m, 2, 0, Material::Sand, &assets);
    for _ in 0..30 {
        m.update(&assets);
    }
    let s = m.get_cell_by_pos(p(2, 8));
    assert_eq!(s.material, Material::Sand);
    assert!(!s.is_free_falling);
    for _ in 0..30 {
        m.update(&assets);
        assert_eq!(material_at(&m, 2, 8), Material::Sand);
    }
}

#[test]
fn same_material_blocks_sideways_move() {
    let assets = Assets::new();
    let mut m = seeded(8, 8, 12);
    place(&mut m, 1, 5, Material::Water, &assets);
    place(&mut m, 2, 5, Material::Water, &assets);
    let r = try_move(&mut m, p(1, 5), p(6, 5), false);
    assert_eq!(r, p(1, 5));
    assert_eq!(material_at(&m, 1, 5), Material::Water);
    assert_eq!(material_at(&m, 2, 5), Material::Water);
    assert_eq!(m.get_cell_by_pos(p(2, 5)).pos, p(2, 5));
}

#[test]
fn sideways_move_reaches_the_furthest_free_cell() {
    let assets = Assets::new();
    let mut m = seeded(8, 8, 13);
    place(&mut m, 1, 5, Material::Water, &assets);
    let r = try_move(&mut m, p(1, 5), p(4, 5), false);
    assert_eq!(r, p(4, 5));
    assert_eq!(m.lookup(p(1, 5)), Lookup::Empty);
}

#[test]
fn burning_cell_loses_health_and_is_removed() {
    let assets = Assets::new();
    let mut m = seeded(4, 4, 14);
    place(&mut m, 1, 3, Material::Sand, &assets);
    let mut c = m.get_cell_by_pos(p(1, 3));
    c.is_on_fire = true;
    let before = c.hp;
    c.update(false);
    assert_eq!(c.hp, before - 1);
    assert!(c.was_on_fire_last_frame);
    c.hp = 0;
    m.update_cell(c);
    handle_cell(&mut m, p(1, 3), &assets);
    assert_eq!(m.lookup(p(1, 3)), Lookup::Empty);
    assert_eq!(m.cells.len(), 0);
}

#[test]
fn lookup_tells_wall_from_empty() {
    let m = seeded(4, 3, 15);
    assert_eq!(m.lookup(p(-1, 0)), Lookup::OutOfBounds);
    assert_eq!(m.lookup(p(4, 0)), Lookup::OutOfBounds);
    assert_eq!(m.lookup(p(0, 3)), Lookup::OutOfBounds);
    assert_eq!(m.lookup(p(3, 2)), Lookup::Empty);
}

#[test]
fn repainting_a_cell_reuses_its_slot() {
    let assets = Assets::new();
    let mut m = seeded(4, 4, 16);
    place(&mut m, 1, 1, Material::Sand, &assets);
    place(&mut m, 1, 1, Material::Rock, &assets);
    place(&mut m, 1, 1, Material::Dirt, &assets);
    assert_eq!(m.cells.len(), 1);
    assert_eq!(material_at(&m, 1, 1), Material::Dirt);
}

#[test]
fn removal_swaps_in_the_last_cell() {
    let assets = Assets::new();
    let mut m = seeded(4, 4, 17);
    place(&mut m, 0, 0, Material::Sand, &assets);
    place(&mut m, 1, 0, Material::Rock, &assets);
    place(&mut m, 2, 0, Material::Wood, &assets);
    m.remove_cell_from_cells(p(0, 0));
    assert_eq!(m.cells.len(), 2);
    assert_eq!(m.cells[0].material, Material::Wood);
    assert_eq!(m.get_data_at_pos(p(2, 0)), 1);
    assert_eq!(m.get_data_at_pos(p(0, 0)), 0);
    assert_index_consistent(&m);
    m.remove_cell_from_cells(p(3, 3));
    assert_eq!(m.cells.len(), 2);
    let mut e = seeded(2, 2, 18);
    e.remove_cell_from_cells(p(0, 0));
    assert_eq!(e.cells.len(), 0);
}

#[test]
fn empty_material_removes() {
    let assets = Assets::new();
    let mut m = seeded(4, 4, 19);
    place(&mut m, 2, 2, Material::Water, &assets);
    place(&mut m, 2, 2, Material::Empty, &assets);
    assert_eq!(m.cells.len(), 0);
    assert_eq!(m.lookup(p(2, 2)), Lookup::Empty);
}

#[test]
fn placement_clamps_into_the_grid() {
    let assets = Assets::new();
    let mut m = seeded(4, 4, 20);
    place(&mut m, 10, -3, Material::Rock, &assets);
    assert_eq!(material_at(&m, 3, 0), Material::Rock);
    assert_eq!(m.clamp_pos(p(-5, 9)), p(0, 3));
}

#[test]
fn relocate_swaps_different_materials() {
    let assets = Assets::new();
    let mut m = seeded(4, 4, 21);
    place(&mut m, 0, 0, Material::Sand, &assets);
    place(&mut m, 0, 1, Material::Water, &assets);
    let r = m.set_cell_by_pos(p(0, 1), p(0, 0), true);
    assert_eq!(r.material, Material::Sand);
    assert_eq!(r.pos, p(0, 1));
    assert_eq!(material_at(&m, 0, 0), Material::Water);
    assert_eq!(material_at(&m, 0, 1), Material::Sand);
    assert_index_consistent(&m);
}

#[test]
fn relocate_never_swaps_same_material() {
    let assets = Assets::new();
    let mut m = seeded(4, 4, 22);
    place(&mut m, 0, 0, Material::Sand, &assets);
    place(&mut m, 1, 0, Material::Sand, &assets);
    let before: Vec<_> = m.cells.clone();
    let data_before = m.data.clone();
    m.set_cell_by_pos(p(1, 0), p(0, 0), true);
    assert_eq!(m.cells, before);
    assert_eq!(m.data, data_before);
}

#[test]
fn relocate_without_swap_takes_over() {
    let assets = Assets::new();
    let mut m = seeded(4, 4, 23);
    place(&mut m, 0, 0, Material::Sand, &assets);
    place(&mut m, 1, 0, Material::Rock, &assets);
    m.set_cell_by_pos(p(1, 0), p(0, 0), false);
    assert_eq!(m.cells.len(), 1);
    assert_eq!(material_at(&m, 1, 0), Material::Sand);
    assert_eq!(m.lookup(p(0, 0)), Lookup::Empty);
    assert_index_consistent(&m);
}

#[test]
fn relocate_from_empty_returns_empty_cell() {
    let mut m = seeded(4, 4, 24);
    let r = m.set_cell_by_pos(p(1, 1), p(0, 0), true);
    assert_eq!(r.material, Material::Empty);
    assert_eq!(m.cells.len(), 0);
}

#[test]
fn gas_rises() {
    let assets = Assets::new();
    let mut m = seeded(6, 6, 25);
    place(&mut m, 2, 4, Material::Smoke, &assets);
    m.update(&assets);
    let c = m.cells[0];
    assert_eq!(c.material, Material::Smoke);
    assert!(c.pos.y < 4);
}

#[test]
fn liquid_spreads_sideways_on_a_floor() {
    let assets = Assets::new();
    let mut m = seeded(30, 3, 26);
    for x in 0..30 {
        place(&mut m, x, 2, Material::Rock, &assets);
    }
    place(&mut m, 15, 1, Material::Water, &assets);
    for _ in 0..5 {
        m.update(&assets);
    }
    let w = m.cells.iter().find(|c| c.material == Material::Water).unwrap();
    assert_eq!(w.pos.y, 1);
    assert_ne!(w.pos.x, 15);
}

#[test]
fn neighbour_cells_of_radius_one_are_orthogonal() {
    let assets = Assets::new();
    let mut m = seeded(5, 5, 27);
    place(&mut m, 1, 2, Material::Sand, &assets);
    place(&mut m, 1, 1, Material::Rock, &assets);
    place(&mut m, 3, 3, Material::Wood, &assets);
    let n = m.get_neighbor_cells(p(2, 2), 1);
    assert_eq!(n.len(), 1);
    assert_eq!(n[0].material, Material::Sand);
    let n2 = m.get_neighbor_cells(p(2, 2), 2);
    assert_eq!(n2.len(), 3);
}

#[test]
fn draw_writes_colours_per_position() {
    let assets = Assets::new();
    let mut m = seeded(3, 2, 28);
    place(&mut m, 1, 0, Material::Water, &assets);
    let mut screen = vec![7u8; 4 * 3 * 2];
    m.draw(&mut screen);
    assert_eq!(&screen[0..4], &[0, 0, 0, 0]);
    assert_eq!(&screen[4..8], &[255, 0, 204, 255]);
    m.debug_draw = true;
    m.update(&assets);
    let mut screen2 = vec![0u8; 4 * 3 * 2];
    m.chunks[0].should_step = true;
    m.draw(&mut screen2);
    let c = m.cells[0];
    let i = 4 * (c.pos.x as usize + c.pos.y as usize * 3);
    assert_eq!(&screen2[i..i + 4], &[255, 0, 0, 255]);
}

#[test]
fn brush_paints_a_square() {
    let assets = Assets::new();
    let mut m = seeded(10, 10, 29);
    m.brush.size = 3;
    m.draw_brush(p(5, 5), Material::Rock, &assets);
    assert_eq!(m.cells.len(), 9);
    for y in 4..7 {
        for x in 4..7 {
            assert_eq!(material_at(&m, x, y), Material::Rock);
        }
    }
    m.brush.size = 1;
    m.draw_brush(p(0, 0), Material::Sand, &assets);
    assert_eq!(material_at(&m, 0, 0), Material::Sand);
    assert_eq!(m.cells.len(), 10);
    m.brush.size = 3;
    m.draw_brush(p(5, 5), Material::Empty, &assets);
    assert_eq!(m.cells.len(), 1);
}

#[test]
fn brush_ignites_only_flammable_cells() {
    let assets = Assets::new();
    let mut m = seeded(10, 10, 30);
    place(&mut m, 5, 5, Material::Wood, &assets);
    place(&mut m, 6, 5, Material::Rock, &assets);
    place(&mut m, 9, 9, Material::Wood, &assets);
    m.brush.size = 4;
    m.brush.place_fire = true;
    m.draw_brush(p(5, 5), Material::Sand, &assets);
    assert!(m.get_cell_by_pos(p(5, 5)).is_on_fire);
    assert!(!m.get_cell_by_pos(p(6, 5)).is_on_fire);
    assert!(!m.get_cell_by_pos(p(9, 9)).is_on_fire);
    assert_eq!(m.get_cell_by_pos(p(5, 5)).material, Material::Wood);
    assert_eq!(m.cells.len(), 3);
}

#[test]
fn line_stamps_each_point_until_it_leaves_the_grid() {
    let assets = Assets::new();
    let mut m = seeded(10, 10, 31);
    m.brush.size = 1;
    m.set_line(0, 0, 4, 0, Material::Rock, &assets);
    for x in 0..5 {
        assert_eq!(material_at(&m, x, 0), Material::Rock);
    }
    assert_eq!(m.cells.len(), 5);
    m.set_line(8, 5, 20, 5, Material::Sand, &assets);
    assert_eq!(material_at(&m, 9, 5), Material::Sand);
    assert_eq!(m.cells.len(), 7);
}

#[test]
fn new_grid_requests_every_chunk() {
    let m = Matrix::new_empty(40, 20);
    assert_eq!(m.chunks.len(), 3 * 2);
    assert!(m.chunks.iter().all(|c| c.should_step_next_frame && !c.should_step));
    assert_eq!(m.data.len(), 800);
    assert!(m.update_left);
    assert_eq!(m.brush.size, 35);
}

#[test]
fn update_alternates_sweep_direction() {
    let assets = Assets::new();
    let mut m = seeded(4, 4, 32);
    assert!(m.update_left);
    m.update(&assets);
    assert!(!m.update_left);
    m.update(&assets);
    assert!(m.update_left);
}

#[test]
fn chunk_activity_marks() {
    let mut m = Matrix::new_empty(64, 64);
    for c in m.chunks.iter_mut() {
        c.should_step_next_frame = false;
    }
    m.set_chunk_active(p(20, 3));
    assert!(m.chunks[1].should_step_next_frame);
    assert_eq!(m.chunks.iter().filter(|c| c.should_step_next_frame).count(), 1);
    m.set_chunk_active(p(-1, 3));
    assert_eq!(m.chunks.iter().filter(|c| c.should_step_next_frame).count(), 1);
    m.set_chunk_cluster_active(p(20, 20));
    assert_eq!(m.chunks.iter().filter(|c| c.should_step_next_frame).count(), 9);
    assert!(m.chunk_in_bounds(p(3, 3)));
    assert!(!m.chunk_in_bounds(p(4, 0)));
}

#[test]
fn wall_is_distinct_from_empty() {
    let m = seeded(4, 4, 40);
    let wall = m.get_cell_by_pos(p(-1, 2));
    let empty = m.get_cell_by_pos(p(1, 2));
    assert_eq!(wall.material, Material::Empty);
    assert_eq!(empty.material, Material::Empty);
    assert_ne!(wall, empty);
    assert_eq!(wall.pos, p(-1, -1));
}

#[test]
fn gas_step_rises_into_empty_above() {
    let assets = Assets::new();
    let mut m = seeded(5, 5, 41);
    place(&mut m, 2, 3, Material::Smoke, &assets);
    let r = gas_step(&mut m, p(2, 3), true);
    assert_eq!(r, p(2, 2));
    assert_eq!(m.lookup(p(2, 3)), Lookup::Empty);
    assert_eq!(material_at(&m, 2, 2), Material::Smoke);
}

#[test]
fn liquid_step_spreads_to_the_chosen_side() {
    let assets = Assets::new();
    let mut m = seeded(30, 3, 42);
    for x in 0..30 {
        place(&mut m, x, 2, Material::Rock, &assets);
    }
    place(&mut m, 15, 1, Material::Water, &assets);
    let mut w = m.get_cell_by_pos(p(15, 1));
    w.is_free_falling = false;
    m.update_cell(w);
    let r = liquid_step(&mut m, p(15, 1), false, true);
    assert_eq!(r.y, 1);
    assert!(r.x < 15 && r.x >= 5);
    let mut m2 = seeded(30, 3, 43);
    for x in 0..30 {
        place(&mut m2, x, 2, Material::Rock, &assets);
    }
    place(&mut m2, 15, 1, Material::Water, &assets);
    let mut w2 = m2.get_cell_by_pos(p(15, 1));
    w2.is_free_falling = false;
    m2.update_cell(w2);
    let r2 = liquid_step(&mut m2, p(15, 1), true, false);
    assert_eq!(r2.y, 1);
    assert!(r2.x > 15 && r2.x <= 25);
}

#[test]
fn bounced_sand_never_rises() {
    let assets = Assets::new();
    let mut m = seeded(3, 3, 44);
    for x in 0..3 {
        place(&mut m, x, 2, Material::Rock, &assets);
    }
    place(&mut m, 1, 1, Material::Sand, &assets);
    let mut s = m.get_cell_by_pos(p(1, 1));
    s.velocity.y = -3000;
    s.is_free_falling = false;
    m.update_cell(s);
    let r = movable_solid_step(&mut m, p(1, 1), false);
    assert_eq!(r, p(1, 1));
    assert_eq!(m.get_cell_by_pos(p(1, 1)).velocity.y, 0);
}

#[test]
fn falling_sand_bounces() {
    let assets = Assets::new();
    let mut m = seeded(3, 3, 45);
    for x in 0..3 {
        place(&mut m, x, 2, Material::Rock, &assets);
    }
    place(&mut m, 1, 1, Material::Sand, &assets);
    let mut s = m.get_cell_by_pos(p(1, 1));
    s.velocity.y = 3000;
    s.velocity.x = 0;
    s.is_free_falling = true;
    m.update_cell(s);
    let r = movable_solid_step(&mut m, p(1, 1), true);
    let c = m.get_cell_by_pos(r);
    assert_eq!(c.velocity.x, -750);
    assert_eq!(c.velocity.y, -300);
}

#[test]
fn lone_burning_wood_loses_health_each_frame() {
    let assets = Assets::new();
    let mut m = seeded(8, 8, 46);
    place(&mut m, 3, 7, Material::Wood, &assets);
    let mut c = m.get_cell_by_pos(p(3, 7));
    c.is_on_fire = true;
    m.update_cell(c);
    let mut hp = m.cells[0].hp;
    for _ in 0..5 {
        m.update(&assets);
        assert_eq!(m.cells.len(), 1);
        assert!(m.cells[0].hp < hp);
        hp = m.cells[0].hp;
    }
}

#[test]
fn handle_cell_leaves_a_solid_in_place() {
    let assets = Assets::new();
    let mut m = seeded(4, 4, 47);
    place(&mut m, 1, 1, Material::Rock, &assets);
    let before = m.cells.clone();
    let r = handle_cell(&mut m, p(1, 1), &assets);
    assert_eq!(r, p(1, 1));
    assert_eq!(m.cells, before);
}

#[test]
fn fire_scan_follows_order_and_draws() {
    let assets = Assets::new();
    let mut m = seeded(10, 10, 48);
    place(&mut m, 5, 5, Material::Wood, &assets);
    place(&mut m, 6, 5, Material::Dirt, &assets);
    place(&mut m, 4, 5, Material::Dirt, &assets);
    let nb = m.get_neighbor_cells(p(5, 5), 2);
    assert_eq!(nb.iter().map(|c| c.pos).collect::<Vec<_>>(), vec![p(4, 5), p(5, 5), p(6, 5)]);
    let (ext, spread) = select_fire_targets(&m, p(5, 5), &nb, &vec![2, 1, 0], &vec![0, 0, 999]);
    assert_eq!(ext, None);
    assert_eq!(spread, vec![p(4, 5)]);
    place(&mut m, 5, 4, Material::Water, &assets);
    let nb2 = m.get_neighbor_cells(p(5, 5), 2);
    let order: Vec<usize> = (0..nb2.len()).rev().collect();
    let draws = vec![0u32; nb2.len()];
    let (ext2, spread2) = select_fire_targets(&m, p(5, 5), &nb2, &order, &draws);
    assert_eq!(ext2, Some((p(5, 4), 50)));
    assert!(spread2.is_empty());
}

#[test]
fn exactly_the_scanned_cells_catch_fire() {
    let assets = Assets::new();
    let mut m = seeded(10, 10, 49);
    place(&mut m, 5, 5, Material::Wood, &assets);
    place(&mut m, 6, 5, Material::Dirt, &assets);
    place(&mut m, 4, 5, Material::Dirt, &assets);
    ignite(&mut m, 5, 5);
    let nb = m.get_neighbor_cells(p(5, 5), 2);
    fire_step_with(&mut m, p(5, 5), &assets, &nb, &vec![2, 1, 0], &vec![0, 0, 999]);
    assert!(m.get_cell_by_pos(p(4, 5)).is_on_fire);
    assert!(!m.get_cell_by_pos(p(6, 5)).is_on_fire);
    let f = m.get_cell_by_pos(p(5, 5));
    assert!(f.is_on_fire);
    assert_eq!(f.hp, Material::Wood.get_hp() - 1);
}

#[test]
fn neighbours_of_radius_one_come_left_right_above_below() {
    let assets = Assets::new();
    let mut m = seeded(5, 5, 50);
    place(&mut m, 2, 3, Material::Water, &assets);
    place(&mut m, 3, 2, Material::Rock, &assets);
    place(&mut m, 1, 2, Material::Sand, &assets);
    place(&mut m, 2, 1, Material::Wood, &assets);
    let n = m.get_neighbor_cells(p(2, 2), 1);
    let mats: Vec<Material> = n.iter().map(|c| c.material).collect();
    assert_eq!(mats, vec![Material::Sand, Material::Rock, Material::Wood, Material::Water]);
}
