use evacuation::plan::TileMap;
use evacuation::rules::{spawn_smoke_sprite, update_smoke_sprite};
use evacuation::smoke::{Density, Smoke, SmokeTile, StoreySmoke};
use evacuation::tile::TileType;

fn total(field: &StoreySmoke) -> u64 {
    field.map.iter().flatten().map(|cell| cell.get_density()).sum()
}

#[test]
fn diffusion_takes_the_mean_of_the_open_neighbourhood() {
    let mut field = StoreySmoke::new(3, 3);
    field.map[1][1] = Smoke::Diffusible(Density::new(9_000));
    field.diffuse();
    // the middle has four neighbours: 9000 / 5
    assert_eq!(field.map[1][1].get_density(), 1_800);
    // an edge cell has three neighbours and itself: 9000 / 4
    assert_eq!(field.map[0][1].get_density(), 2_250);
    assert_eq!(field.map[1][0].get_density(), 2_250);
    // a corner does not touch the middle
    assert_eq!(field.map[0][0].get_density(), 0);
}

#[test]
fn diffusion_reads_the_densities_from_before_the_step() {
    let mut field = StoreySmoke::new(1, 3);
    field.map[0][0] = Smoke::Diffusible(Density::new(6_000));
    field.diffuse();
    // (6000 + 0) / 2, (6000 + 0 + 0) / 3, (0 + 0) / 2
    assert_eq!(field.map[0][0].get_density(), 3_000);
    assert_eq!(field.map[0][1].get_density(), 2_000);
    assert_eq!(field.map[0][2].get_density(), 0);
}

#[test]
fn diffusion_leaves_closed_cells_out_of_the_mean() {
    let mut field = StoreySmoke::new(1, 3);
    field.map[0][0] = Smoke::Diffusible(Density::new(6_000));
    field.map[0][1] = Smoke::InDiffusible;
    field.diffuse();
    // the first cell has no open neighbour and keeps its smoke
    assert_eq!(field.map[0][0], Smoke::Diffusible(Density::new(6_000)));
    assert_eq!(field.map[0][1], Smoke::InDiffusible);
    assert_eq!(field.map[0][2], Smoke::Diffusible(Density::new(0)));
}

#[test]
fn diffusion_rounds_the_mean_down() {
    let mut field = StoreySmoke::new(1, 2);
    field.map[0][0] = Smoke::Diffusible(Density::new(5));
    field.diffuse();
    assert_eq!(field.map[0][0].get_density(), 2);
    assert_eq!(field.map[0][1].get_density(), 2);
}

#[test]
fn diffusion_keeps_the_smoke_of_an_inner_region() {
    let mut field = StoreySmoke::new(7, 7);
    field.map[3][3] = Smoke::Diffusible(Density::new(25_000));
    assert_eq!(total(&field), 25_000);
    field.diffuse();
    assert_eq!(field.map[3][3].get_density(), 5_000);
    assert_eq!(field.map[2][3].get_density(), 5_000);
    assert_eq!(field.map[4][3].get_density(), 5_000);
    assert_eq!(field.map[3][2].get_density(), 5_000);
    assert_eq!(field.map[3][4].get_density(), 5_000);
    assert_eq!(total(&field), 25_000);
}

#[test]
fn diffusion_loses_no_more_than_the_rounding_takes() {
    let mut field = StoreySmoke::new(7, 7);
    field.map[3][3] = Smoke::Diffusible(Density::new(7));
    field.diffuse();
    // five cells take 7 / 5 = 1 each; 5 * 5 + the five remainders of 2 = 5 * 7
    assert_eq!(total(&field), 5);
}

#[test]
fn diffusion_at_the_rim_does_not_keep_the_sum() {
    let mut field = StoreySmoke::new(1, 3);
    field.map[0][1] = Smoke::Diffusible(Density::new(6_000));
    field.diffuse();
    assert_eq!(field.map[0][0].get_density(), 3_000);
    assert_eq!(field.map[0][1].get_density(), 2_000);
    assert_eq!(field.map[0][2].get_density(), 3_000);
}

#[test]
fn smoke_does_not_enter_walls_and_exits() {
    let mut plan = TileMap::new(2, 3);
    plan.set_tile(0, 0, TileType::Wall);
    plan.set_tile(0, 1, TileType::Exit);
    plan.set_tile(0, 2, TileType::Furniture);
    plan.set_tile(1, 0, TileType::Stone);
    let mut field = StoreySmoke::new(2, 3);
    field.init_from_map(&plan);
    assert_eq!(field.map[0][0], Smoke::InDiffusible);
    assert_eq!(field.map[0][1], Smoke::InDiffusible);
    assert_eq!(field.map[0][2], Smoke::new_diffusible());
    assert_eq!(field.map[1][0], Smoke::new_diffusible());
    assert_eq!(field.map[1][1], Smoke::new_diffusible());
}

#[test]
fn density_goes_up_without_a_bound_but_the_last() {
    let mut cell = Smoke::new_diffusible();
    cell.density_up(1_500);
    cell.density_up(2_500);
    assert_eq!(cell.get_density(), 4_000);
    cell.density_up(u64::MAX);
    assert_eq!(cell.get_density(), u64::MAX);
    let mut closed = Smoke::InDiffusible;
    closed.density_up(1_000);
    assert_eq!(closed, Smoke::InDiffusible);
    assert_eq!(closed.get_density(), 0);
}

#[test]
fn a_density_starts_at_nothing() {
    assert_eq!(Density::default().value, 0);
    let mut density = Density::new(3);
    density.density_up(4);
    assert_eq!(density.value, 7);
}

#[test]
fn the_opacity_of_smoke_stops_at_one() {
    assert_eq!(Smoke::Diffusible(Density::new(400)).opacity(), 400);
    assert_eq!(Smoke::Diffusible(Density::new(1_000)).opacity(), 1_000);
    assert_eq!(Smoke::Diffusible(Density::new(50_000)).opacity(), 1_000);
    assert_eq!(Smoke::InDiffusible.opacity(), 0);
    let mut field = StoreySmoke::new(1, 2);
    field.map[0][1] = Smoke::Diffusible(Density::new(2_345));
    assert_eq!(update_smoke_sprite(&field, &SmokeTile::new(0, 0)), 0);
    assert_eq!(update_smoke_sprite(&field, &SmokeTile::new(0, 1)), 1_000);
    assert_eq!(update_smoke_sprite(&field, &SmokeTile::new(5, 5)), 0);
}

#[test]
fn smoke_sprites_cover_the_cells_that_smoke_can_enter() {
    let mut field = StoreySmoke::new(2, 2);
    field.map[0][1] = Smoke::InDiffusible;
    let tiles = spawn_smoke_sprite(&field);
    let cells: Vec<(usize, usize)> = tiles.iter().map(|tile| tile.pos).collect();
    assert_eq!(cells, vec![(0, 0), (1, 0), (1, 1)]);
}
