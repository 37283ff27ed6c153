use evacuation::fire::{
    fire_reaches, jittered, BuildingFire, Fire, FireTile, FireTimer, StoreyFire, EMISSION,
};
use evacuation::plan::{MapAlbum, TileMap};
use evacuation::rules::{
    burning, ignition, init_building_fire, init_building_smoke, init_random_fire, spawn_fire_sprite,
    update_fire_visibility,
};
use evacuation::smoke::{BuildingSmoke, Smoke, StoreySmoke};
use evacuation::storey::MapMarker;
use evacuation::tile::TileType;
use evacuation::timer::{Timer, TimerMode};
use rand::rngs::StdRng;
use rand::SeedableRng;

fn burning_for(elapsed: u32) -> Fire {
    let mut timer = FireTimer::with_durations(100_000, 1_000);
    timer.burning_timer.elapsed = elapsed;
    Fire::On(timer)
}

fn stage(fire: &Fire) -> u8 {
    match fire {
        Fire::Off => 0,
        Fire::On(_) => 1,
        Fire::NeverBurn => 2,
    }
}

/// A strip of three cells: a fire that has burnt for `elapsed` milliseconds,
/// and two unburnt cells at the distances 1 and 2.
fn strip(elapsed: u32, k: u32) -> StoreyFire {
    let mut field = StoreyFire::new_with(1, 3, 100_000, 1_000, k);
    field.map[0][0] = burning_for(elapsed);
    field.map[0][1] = Fire::Off;
    field.map[0][2] = Fire::Off;
    field
}

#[test]
fn furniture_can_burn_and_nothing_else() {
    let mut plan = TileMap::new(2, 3);
    plan.set_tile(0, 0, TileType::Furniture);
    plan.set_tile(0, 1, TileType::Wall);
    plan.set_tile(1, 2, TileType::Exit);
    let mut field = StoreyFire::new(2, 3);
    field.init_from_map(&plan);
    assert_eq!(field.map[0][0], Fire::Off);
    assert_eq!(field.map[0][1], Fire::NeverBurn);
    assert_eq!(field.map[0][2], Fire::NeverBurn);
    assert_eq!(field.map[1][0], Fire::NeverBurn);
    assert_eq!(field.map[1][2], Fire::NeverBurn);
    assert_eq!((field.burning_time, field.smoking_time, field.k), (100_000, 1_000, 1_000));
}

#[test]
fn every_storey_starts_with_its_furniture_unburnt_and_its_walls_closed_to_smoke() {
    let mut album = MapAlbum::new();
    let mut plan = TileMap::new(2, 2);
    plan.set_tile(0, 0, TileType::Furniture);
    plan.set_tile(0, 1, TileType::Wall);
    plan.set_tile(1, 0, TileType::Exit);
    album.add_map("f1".to_string(), plan);
    album.add_map("f2".to_string(), TileMap::new(1, 1));
    let mut fire = BuildingFire::default();
    init_building_fire(&mut fire, &album);
    let mut smoke = BuildingSmoke::default();
    init_building_smoke(&mut smoke, &album);
    assert_eq!(fire.maps.len(), 2);
    assert_eq!(smoke.maps.len(), 2);
    let f1 = fire.maps.get(&MapMarker::named("f1")).unwrap();
    assert_eq!(f1.map, vec![vec![Fire::Off, Fire::NeverBurn], vec![Fire::NeverBurn, Fire::NeverBurn]]);
    let s1 = smoke.maps.get(&MapMarker::named("f1")).unwrap();
    assert_eq!(
        s1.map,
        vec![
            vec![Smoke::new_diffusible(), Smoke::InDiffusible],
            vec![Smoke::InDiffusible, Smoke::new_diffusible()]
        ]
    );
    assert_eq!(fire.maps.get(&MapMarker::named("f2")).unwrap().map, vec![vec![Fire::NeverBurn]]);
    assert_eq!(fire.texture_path, "./movethings/fire.png");
    assert_eq!(smoke.texture_path, "./movethings/smoke.png");
}

#[test]
fn a_fire_reaches_as_far_as_its_time_over_the_coefficient() {
    // one second and a half, coefficient 1: the distance 1 is reached, 2 is not
    assert!(fire_reaches(1_500, (0, 0), (0, 1), 1_000));
    assert!(!fire_reaches(1_500, (0, 0), (0, 2), 1_000));
    // the bound itself is not enough
    assert!(!fire_reaches(1_000, (0, 0), (0, 1), 1_000));
    assert!(fire_reaches(1_001, (0, 0), (0, 1), 1_000));
    assert!(!fire_reaches(2_000, (0, 0), (0, 2), 1_000));
    assert!(fire_reaches(2_001, (0, 0), (0, 2), 1_000));
    // across the corner the distance is the root of 2: 1.414 < 1.415
    assert!(!fire_reaches(1_414, (3, 3), (4, 2), 1_000));
    assert!(fire_reaches(1_415, (3, 3), (4, 2), 1_000));
    // a coefficient of 0 lets every fire that has burnt at all reach everywhere
    assert!(fire_reaches(1, (0, 0), (900, 900), 0));
    assert!(!fire_reaches(0, (0, 0), (0, 1), 0));
    assert!(!fire_reaches(u32::MAX, (0, 0), (usize::MAX, usize::MAX), 1));
}

#[test]
fn the_fire_spreads_to_the_cells_that_it_reaches() {
    let mut rng = StdRng::seed_from_u64(1);
    let mut field = strip(1_500, 1_000);
    field.get_neighbours_fire_on(&mut rng);
    assert!(matches!(field.map[0][1], Fire::On(_)));
    assert_eq!(field.map[0][2], Fire::Off);
    assert_eq!(field.map[0][0], burning_for(1_500));

    let mut field = strip(1_000, 1_000);
    field.get_neighbours_fire_on(&mut rng);
    assert_eq!(field.map[0][1], Fire::Off);
    assert_eq!(field.map[0][2], Fire::Off);

    let mut field = strip(2_001, 1_000);
    field.get_neighbours_fire_on(&mut rng);
    assert!(matches!(field.map[0][1], Fire::On(_)));
    assert!(matches!(field.map[0][2], Fire::On(_)));
}

#[test]
fn a_fire_that_has_just_caught_does_not_spread_in_the_same_step() {
    let mut rng = StdRng::seed_from_u64(2);
    // with a coefficient of 0 any fire that has burnt reaches everywhere,
    // but a fire that has just caught has not burnt yet
    let mut field = StoreyFire::new_with(1, 3, 100_000, 1_000, 0);
    field.map[0][0] = burning_for(0);
    field.map[0][1] = Fire::Off;
    field.get_neighbours_fire_on(&mut rng);
    assert_eq!(field.map[0][1], Fire::Off);
}

#[test]
fn a_cell_that_catches_fire_gets_fresh_timers_around_the_set_times() {
    let mut rng = StdRng::seed_from_u64(3);
    for _ in 0..50 {
        let mut field = strip(5_000, 1_000);
        field.get_neighbours_fire_on(&mut rng);
        match field.map[0][1] {
            Fire::On(timer) => {
                assert_eq!(timer.burning_timer.elapsed, 0);
                assert_eq!(timer.smoking_timer.elapsed, 0);
                assert!(!timer.burning_timer.finished && !timer.smoking_timer.finished);
                assert_eq!(timer.burning_timer.mode, TimerMode::Once);
                assert_eq!(timer.smoking_timer.mode, TimerMode::Repeating);
                assert!(80_000 <= timer.burning_timer.duration
                    && timer.burning_timer.duration < 120_000);
                assert!(800 <= timer.smoking_timer.duration && timer.smoking_timer.duration < 1_200);
            }
            other => panic!("the cell did not catch fire: {:?}", other),
        }
    }
}

#[test]
fn a_jittered_time_stays_within_a_fifth() {
    let mut rng = StdRng::seed_from_u64(4);
    let mut seen_other = false;
    for _ in 0..200 {
        let drawn = jittered(1_000, &mut rng);
        assert!(800 <= drawn && drawn < 1_200);
        if drawn != 800 {
            seen_other = true;
        }
    }
    assert!(seen_other);
    assert_eq!(jittered(0, &mut rng), 0);
    assert_eq!(jittered(1, &mut rng), 0);
    let longest = jittered(u32::MAX, &mut rng);
    assert!(longest >= u32::MAX / 5 * 4 && longest < u32::MAX);
}

#[test]
fn random_ignition_never_lights_with_no_chance_and_always_with_every_chance() {
    let mut rng = StdRng::seed_from_u64(5);
    let mut field = StoreyFire::new_with(2, 2, 10_000, 500, 1_000);
    field.map[0][0] = Fire::Off;
    field.map[0][1] = Fire::Off;
    field.map[1][0] = burning_for(7);
    field.get_p_fire(0, &mut rng);
    assert_eq!(field.map[0][0], Fire::Off);
    assert_eq!(field.map[0][1], Fire::Off);
    field.get_p_fire(1_000, &mut rng);
    assert!(matches!(field.map[0][0], Fire::On(_)));
    assert!(matches!(field.map[0][1], Fire::On(_)));
    // what burns or cannot burn stays as it is
    assert_eq!(field.map[1][0], burning_for(7));
    assert_eq!(field.map[1][1], Fire::NeverBurn);
}

#[test]
fn random_ignition_lights_some_with_half_a_chance() {
    let mut rng = StdRng::seed_from_u64(6);
    let mut field = StoreyFire::new_with(20, 20, 10_000, 500, 1_000);
    for row in field.map.iter_mut() {
        for cell in row.iter_mut() {
            *cell = Fire::Off;
        }
    }
    field.get_p_fire(500, &mut rng);
    let lit = field.map.iter().flatten().filter(|cell| matches!(cell, Fire::On(_))).count();
    assert!(100 < lit && lit < 300, "{} of 400 cells were lit", lit);
}

#[test]
fn fire_on_and_fire_off_go_one_way() {
    let mut rng = StdRng::seed_from_u64(7);
    let mut cell = Fire::Off;
    cell.fire_off();
    assert_eq!(cell, Fire::Off);
    cell.fire_on(1_000, 100, &mut rng);
    assert!(matches!(cell, Fire::On(_)));
    let burning = cell;
    cell.fire_on(1_000, 100, &mut rng);
    assert_eq!(cell, burning);
    cell.fire_off();
    assert_eq!(cell, Fire::NeverBurn);
    cell.fire_on(1_000, 100, &mut rng);
    assert_eq!(cell, Fire::NeverBurn);
    cell.fire_off();
    assert_eq!(cell, Fire::NeverBurn);
    let mut second = Fire::Off;
    second.fire_on_with(FireTimer::default());
    assert_eq!(second, Fire::On(FireTimer::with_durations(60_000, 2_000)));
    assert_eq!(Fire::default(), Fire::Off);
}

#[test]
fn the_burning_time_is_that_of_the_burning_timer() {
    assert_eq!(burning_for(1_234).get_burning_time(), 1_234);
    assert_eq!(Fire::Off.get_burning_time(), 0);
    assert_eq!(Fire::NeverBurn.get_burning_time(), 0);
    let mut timer = FireTimer::with_durations(500, 100);
    timer.tick(120);
    assert_eq!(timer.get_burning_time(), 120);
    assert_eq!(timer.smoking_timer.elapsed, 20);
    assert!(timer.smoking_timer.finished);
}

#[test]
fn a_fire_emits_by_the_part_of_its_time_that_has_passed() {
    assert_eq!(EMISSION, 5_000);
    let mut timer = FireTimer::with_durations(1_000, 100);
    assert_eq!(timer.get_emission(), 0);
    timer.burning_timer.elapsed = 250;
    assert_eq!(timer.get_emission(), 1_250);
    timer.burning_timer.elapsed = 333;
    assert_eq!(timer.get_emission(), 1_665);
    timer.burning_timer.elapsed = 1_000;
    assert_eq!(timer.get_emission(), 5_000);
    assert_eq!(FireTimer::with_durations(0, 100).get_emission(), 5_000);
}

#[test]
fn a_burning_cell_smokes_when_its_smoke_timer_runs_out_and_ends_when_its_time_is_up() {
    let mut cell = Fire::On(FireTimer::with_durations(1_000, 400));
    assert_eq!(cell.burn(300), 0);
    assert_eq!(cell.get_burning_time(), 300);
    // the smoke timer runs out at 400: 5000 * 500 / 1000
    assert_eq!(cell.burn(200), 2_500);
    assert_eq!(cell.burn(100), 0);
    // at 800 it runs out again: 5000 * 800 / 1000
    assert_eq!(cell.burn(200), 4_000);
    assert!(matches!(cell, Fire::On(_)));
    // the fire ends at 1000
    assert_eq!(cell.burn(200), 0);
    assert_eq!(cell, Fire::NeverBurn);
    assert_eq!(cell.burn(1_000), 0);
    assert_eq!(cell, Fire::NeverBurn);
    let mut unburnt = Fire::Off;
    assert_eq!(unburnt.burn(1_000), 0);
    assert_eq!(unburnt, Fire::Off);
}

#[test]
fn a_fire_that_ends_while_its_smoke_timer_runs_out_emits_one_last_time() {
    let mut cell = Fire::On(FireTimer::with_durations(1_000, 400));
    assert_eq!(cell.burn(1_200), 5_000);
    assert_eq!(cell, Fire::NeverBurn);
}

#[test]
fn burning_feeds_the_smoke_of_the_same_cell() {
    let mut fire = StoreyFire::new_with(1, 3, 1_000, 400, 1_000);
    fire.map[0][0] = Fire::On(FireTimer::with_durations(1_000, 400));
    fire.map[0][1] = Fire::Off;
    let mut smoke = StoreySmoke::new(1, 3);
    smoke.map[0][2] = Smoke::InDiffusible;
    fire.burn(&mut smoke, 500);
    assert_eq!(smoke.map[0][0].get_density(), 2_500);
    assert_eq!(smoke.map[0][1].get_density(), 0);
    assert_eq!(smoke.map[0][2], Smoke::InDiffusible);
    assert_eq!(fire.map[0][0].get_burning_time(), 500);
    assert_eq!(fire.map[0][1], Fire::Off);
    assert_eq!(fire.map[0][2], Fire::NeverBurn);
    fire.burn(&mut smoke, 500);
    assert_eq!(fire.map[0][0], Fire::NeverBurn);
    // the smoke timer showed 100 and has run out at 400 again: all of 5000 on top
    assert_eq!(smoke.map[0][0].get_density(), 7_500);
}

#[test]
fn no_cell_ever_goes_back_a_stage() {
    let mut rng = StdRng::seed_from_u64(8);
    let mut album = MapAlbum::new();
    let mut plan = TileMap::new(6, 6);
    for i in 0..6 {
        for j in 0..6 {
            if (i + j) % 2 == 0 {
                plan.set_tile(i, j, TileType::Furniture);
            }
        }
    }
    album.add_map("f1".to_string(), plan);
    let mut fire = BuildingFire::default();
    init_building_fire(&mut fire, &album);
    let mut smoke = BuildingSmoke::default();
    init_building_smoke(&mut smoke, &album);
    fire.maps.entries[0].1.burning_time = 3_000;
    fire.maps.entries[0].1.map[0][0] = Fire::On(FireTimer::with_durations(3_000, 500));
    init_random_fire(&mut fire, &mut rng);
    let mut seen_on = false;
    let mut seen_out = false;
    for _ in 0..100 {
        let before = fire.maps.entries[0].1.map.clone();
        ignition(&mut fire, &mut rng);
        burning(&mut fire, &mut smoke, 250);
        let after = &fire.maps.entries[0].1.map;
        for i in 0..6 {
            for j in 0..6 {
                assert!(stage(&before[i][j]) <= stage(&after[i][j]));
                seen_on = seen_on || (stage(&before[i][j]) == 0 && stage(&after[i][j]) == 1);
                seen_out = seen_out || (stage(&before[i][j]) == 1 && stage(&after[i][j]) == 2);
            }
        }
    }
    assert!(seen_on && seen_out);
    // in the end all furniture has burnt out
    for row in fire.maps.entries[0].1.map.iter() {
        for cell in row.iter() {
            assert_eq!(*cell, Fire::NeverBurn);
        }
    }
    assert!(smoke.maps.entries[0].1.map[0][0].get_density() > 0);
}

#[test]
fn fire_sprites_cover_what_can_burn_and_show_what_burns() {
    let mut field = StoreyFire::new(2, 2);
    field.map[0][1] = Fire::Off;
    field.map[1][0] = burning_for(10);
    let tiles = spawn_fire_sprite(&field);
    let cells: Vec<(usize, usize)> = tiles.iter().map(|tile| tile.pos).collect();
    assert_eq!(cells, vec![(0, 1), (1, 0)]);
    assert_eq!(update_fire_visibility(&field, &FireTile::new(0, 0)), Some(0));
    assert_eq!(update_fire_visibility(&field, &FireTile::new(0, 1)), None);
    assert_eq!(update_fire_visibility(&field, &FireTile::new(1, 0)), Some(1_000));
    assert_eq!(update_fire_visibility(&field, &FireTile::new(2, 0)), None);
    assert!(field.map[1][0].is_visible());
    assert!(!field.map[0][1].is_visible());
    assert!(field.map[0][1].is_off());
}

#[test]
fn the_timers_of_a_fire_are_plain_timers() {
    let timer = FireTimer::default();
    assert_eq!(timer.burning_timer, Timer::new(60_000, TimerMode::Once));
    assert_eq!(timer.smoking_timer, Timer::new(2_000, TimerMode::Repeating));
}
