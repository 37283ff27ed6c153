use evacuation::building::{light, Building, NeededParameters, SetupError};
use evacuation::crowd::{
    change_storey, init_crowd_target_and_path, init_the_crowd, people_run, to_get_safe, TheCrowd,
};
use evacuation::fire::{BuildingFire, Fire};
use evacuation::human::{ChangeStorey, Dead, Evacuated, Human, LifecycleEvent, RouteError};
use evacuation::pass::BuildingPass;
use evacuation::plan::{MapAlbum, TileMap};
use evacuation::rules::{
    init_building_fire, init_building_pass, init_building_smoke, smoke_diffusion,
};
use evacuation::smoke::{BuildingSmoke, Density, Smoke};
use evacuation::storey::MapMarker;
use evacuation::tile::TileType;
use rand::rngs::StdRng;
use rand::SeedableRng;

fn plan_of(rows: &[&str]) -> TileMap {
    let mut plan = TileMap::new(rows.len(), rows[0].len());
    for (i, row) in rows.iter().enumerate() {
        for (j, tile) in row.chars().enumerate() {
            let tile = match tile {
                '.' => TileType::Floor,
                '#' => TileType::Wall,
                'E' => TileType::Exit,
                'F' => TileType::Furniture,
                'S' => TileType::Stone,
                'P' => TileType::SavePlace,
                other => panic!("no tile for {}", other),
            };
            plan.set_tile(i, j, tile);
        }
    }
    plan
}

/// A storey of five by five cells of floor with one exit in the top right
/// corner, and one person in full health in the bottom left corner.
struct Storey {
    album: MapAlbum,
    smoke: BuildingSmoke,
    pass: BuildingPass,
    crowd: TheCrowd,
}

fn five_by_five() -> Storey {
    let mut album = MapAlbum::new();
    album.add_map("f1".to_string(), plan_of(&["....E", ".....", ".....", ".....", "....."]));
    let mut smoke = BuildingSmoke::default();
    init_building_smoke(&mut smoke, &album);
    let mut pass = BuildingPass::default();
    init_building_pass(&mut pass, &album);
    let mut crowd = TheCrowd::new();
    crowd.board_width = 5_000_000;
    crowd.board_height = 5_000_000;
    let mut human = Human::default();
    human.now_tile = (4, 0);
    human.storey = MapMarker::named("f1");
    crowd.add_human(human);
    init_crowd_target_and_path(&mut crowd, &pass).unwrap();
    Storey { album, smoke, pass, crowd }
}

fn parameters() -> NeededParameters {
    NeededParameters {
        k: 1_000,
        p: 0,
        burning_time: 10_000,
        smoking_time: 1_000,
        human_seed: 1_000,
        s: 1_000,
        h: 100,
        v: 100,
        c: 0,
    }
}

#[test]
fn someone_in_clear_air_reaches_the_exit_and_is_evacuated_once() {
    let mut storey = five_by_five();
    let ground = MapMarker::named("f1");
    let connector = MapMarker::named("f2");
    assert_eq!(storey.crowd.humans[0].target_tile, (0, 4));
    assert_eq!(storey.crowd.humans[0].my_path.len(), 8);
    let mut events = Vec::new();
    let mut ticks = 0;
    while !storey.crowd.humans[0].is_evacuated {
        smoke_diffusion(&mut storey.smoke);
        events.extend(people_run(&mut storey.crowd, &storey.smoke, 16, &ground, &connector));
        ticks += 1;
        assert!(ticks < 10_000, "nobody arrives");
    }
    for _ in 0..100 {
        events.extend(people_run(&mut storey.crowd, &storey.smoke, 16, &ground, &connector));
    }
    assert_eq!(events, vec![LifecycleEvent::Evacuated(Evacuated { id: 0 })]);
    let human = &storey.crowd.humans[0];
    assert_eq!(human.now_tile, (0, 4));
    assert!(!human.is_dead);
    assert_eq!(human.hp, human.max_hp);
    assert_eq!(storey.crowd.count_evacuated(), 1);
    assert_eq!(storey.crowd.count_dead(), 0);
    // eight cells of 1 pixel at 10 pixels a second, in steps of 16 ms
    assert!(ticks >= 8 * 7 && ticks <= 8 * 8 + 1, "{} ticks", ticks);
}

#[test]
fn someone_in_thick_smoke_dies_before_the_exit() {
    let mut storey = five_by_five();
    let ground = MapMarker::named("f1");
    let connector = MapMarker::named("f2");
    for row in storey.smoke.maps.entries[0].1.map.iter_mut() {
        for cell in row.iter_mut() {
            cell.density_up(50_000);
        }
    }
    assert_eq!(storey.smoke.maps.entries[0].1.map[0][4], Smoke::InDiffusible);
    assert_eq!(storey.smoke.maps.entries[0].1.map[4][0], Smoke::Diffusible(Density::new(50_000)));
    // a tick of an eighth of the health: 12.5 seconds
    let events = people_run(&mut storey.crowd, &storey.smoke, 12_500, &ground, &connector);
    assert_eq!(events, vec![LifecycleEvent::Dead(Dead { id: 0 })]);
    let human = &storey.crowd.humans[0];
    assert!(human.is_dead);
    assert_eq!(human.hp, -525_000_000);
    assert_eq!(human.now_tile, (4, 0));
    assert!(!human.is_evacuated);
    assert_eq!(storey.crowd.count_dead(), 1);
}

#[test]
fn someone_in_thick_smoke_dies_on_the_way_with_short_ticks() {
    let mut storey = five_by_five();
    let ground = MapMarker::named("f1");
    let connector = MapMarker::named("f2");
    for row in storey.smoke.maps.entries[0].1.map.iter_mut() {
        for cell in row.iter_mut() {
            cell.density_up(50_000);
        }
    }
    let mut events = Vec::new();
    let mut ticks = 0;
    while events.is_empty() {
        smoke_diffusion(&mut storey.smoke);
        events = people_run(&mut storey.crowd, &storey.smoke, 100, &ground, &connector);
        ticks += 1;
    }
    // 100 of health at 50 a second last two seconds
    assert_eq!(ticks, 20);
    assert_eq!(events, vec![LifecycleEvent::Dead(Dead { id: 0 })]);
    assert!(!storey.crowd.humans[0].is_evacuated);
    assert_ne!(storey.crowd.humans[0].now_tile, (0, 4));
}

#[test]
fn the_evacuated_are_sent_on_to_a_safe_place() {
    let mut album = MapAlbum::new();
    album.add_map("f1".to_string(), plan_of(&["..ESP"]));
    let mut pass = BuildingPass::default();
    init_building_pass(&mut pass, &album);
    let mut smoke = BuildingSmoke::default();
    init_building_smoke(&mut smoke, &album);
    let mut crowd = TheCrowd::new();
    for id in 0..2 {
        let mut human = Human::default();
        human.id = id;
        human.now_tile = (0, id);
        human.storey = MapMarker::named("f1");
        crowd.add_human(human);
    }
    init_crowd_target_and_path(&mut crowd, &pass).unwrap();
    let ground = MapMarker::named("f1");
    let connector = MapMarker::named("f2");
    let mut all = Vec::new();
    for _ in 0..1_000 {
        let events = people_run(&mut crowd, &smoke, 16, &ground, &connector);
        assert_eq!(to_get_safe(&mut crowd, &album, &events), Ok(()));
        all.extend(events);
    }
    assert_eq!(
        all,
        vec![
            LifecycleEvent::Evacuated(Evacuated { id: 1 }),
            LifecycleEvent::Evacuated(Evacuated { id: 0 })
        ]
    );
    for human in crowd.humans.iter() {
        assert_eq!(human.target_tile, (0, 4));
        assert_eq!(human.now_tile, (0, 4));
        assert!(human.is_evacuated);
    }
}

#[test]
fn who_has_no_way_to_safety_is_reported() {
    let mut album = MapAlbum::new();
    album.add_map("f1".to_string(), plan_of(&[".E.P"]));
    let mut crowd = TheCrowd::new();
    let mut human = Human::default();
    human.now_tile = (0, 1);
    human.storey = MapMarker::named("f1");
    crowd.add_human(human);
    let events = vec![
        LifecycleEvent::Dead(Dead { id: 0 }),
        LifecycleEvent::Evacuated(Evacuated { id: 0 }),
    ];
    assert_eq!(to_get_safe(&mut crowd, &album, &events), Err(RouteError::Unreachable));
    assert_eq!(crowd.humans[0].target_tile, (0, 3));
    assert!(crowd.humans[0].my_path.is_empty());
    // events that are no evacuations send nobody
    let mut idle = TheCrowd::new();
    idle.add_human(Human::default());
    assert_eq!(to_get_safe(&mut idle, &album, &vec![LifecycleEvent::Dead(Dead { id: 0 })]), Ok(()));
    assert_eq!(idle.humans[0].target_tile, (0, 0));
}

#[test]
fn who_reaches_the_exit_upstairs_goes_on_downstairs() {
    let mut album = MapAlbum::new();
    album.add_map("f1".to_string(), plan_of(&["E....", "....."]));
    album.add_map("f2".to_string(), plan_of(&["...E.", "....."]));
    let mut pass = BuildingPass::default();
    init_building_pass(&mut pass, &album);
    let mut smoke = BuildingSmoke::default();
    init_building_smoke(&mut smoke, &album);
    let mut crowd = TheCrowd::new();
    crowd.board_width = 5_000_000;
    crowd.board_height = 2_000_000;
    let mut human = Human::default();
    human.now_tile = (1, 3);
    human.storey = MapMarker::named("f2");
    crowd.add_human(human);
    init_crowd_target_and_path(&mut crowd, &pass).unwrap();
    assert_eq!(crowd.humans[0].target_tile, (0, 3));
    let ground = MapMarker::named("f1");
    let connector = MapMarker::named("f2");
    let mut all = Vec::new();
    for _ in 0..1_000 {
        let events = people_run(&mut crowd, &smoke, 16, &ground, &connector);
        assert_eq!(change_storey(&mut crowd, &pass, &events, &ground), Ok(()));
        if events.contains(&LifecycleEvent::ChangeStorey(ChangeStorey { id: 0 })) {
            let human = &crowd.humans[0];
            assert_eq!(human.storey.name, "f1");
            assert_eq!(human.now_tile, (0, 3));
            assert_eq!(human.target_tile, (0, 0));
            assert_eq!(human.my_path.len(), 3);
            assert_eq!(human.next_tile, (0, 2));
        }
        all.extend(events);
    }
    assert_eq!(
        all,
        vec![
            LifecycleEvent::ChangeStorey(ChangeStorey { id: 0 }),
            LifecycleEvent::Evacuated(Evacuated { id: 0 })
        ]
    );
    assert_eq!(crowd.humans[0].now_tile, (0, 0));
    assert!(crowd.humans[0].is_evacuated);
}

#[test]
fn who_has_no_way_out_downstairs_is_reported() {
    let mut album = MapAlbum::new();
    album.add_map("f1".to_string(), plan_of(&["E#.."]));
    let mut pass = BuildingPass::default();
    init_building_pass(&mut pass, &album);
    let mut crowd = TheCrowd::new();
    let mut human = Human::default();
    human.now_tile = (0, 3);
    human.storey = MapMarker::named("f2");
    crowd.add_human(human);
    let events = vec![LifecycleEvent::ChangeStorey(ChangeStorey { id: 0 })];
    let ground = MapMarker::named("f1");
    assert_eq!(change_storey(&mut crowd, &pass, &events, &ground), Err(RouteError::Unreachable));
    assert_eq!(crowd.humans[0].storey.name, "f2");
    assert_eq!(crowd.humans[0].target_tile, (0, 0));
    crowd.humans[0].now_tile = (0, 7);
    assert_eq!(change_storey(&mut crowd, &pass, &events, &ground), Err(RouteError::OffGrid));
}

#[test]
fn a_crowd_is_set_up_on_every_storey() {
    let mut album = MapAlbum::new();
    album.add_map("f1".to_string(), plan_of(&["E..", "#.F"]));
    album.add_map("f2".to_string(), plan_of(&[".E"]));
    let mut rng = StdRng::seed_from_u64(21);
    let mut crowd = TheCrowd::new();
    init_the_crowd(&mut crowd, &album, 20_000_000, 60_000_000, 40_000_000, 1_000, 50, 50, &mut rng);
    assert_eq!((crowd.element_size, crowd.board_width, crowd.board_height), (20_000_000,
        60_000_000, 40_000_000));
    let placed: Vec<(String, (usize, usize))> =
        crowd.humans.iter().map(|human| (human.storey.name.clone(), human.now_tile)).collect();
    assert_eq!(
        placed,
        vec![
            ("f1".to_string(), (0, 1)),
            ("f1".to_string(), (0, 2)),
            ("f1".to_string(), (1, 1)),
            ("f2".to_string(), (0, 0))
        ]
    );
    let mut pass = BuildingPass::default();
    init_building_pass(&mut pass, &album);
    assert_eq!(init_crowd_target_and_path(&mut crowd, &pass), Ok(()));
    let paths: Vec<usize> = crowd.humans.iter().map(|human| human.my_path.len()).collect();
    assert_eq!(paths, vec![1, 2, 2, 1]);
    assert_eq!(crowd.humans[2].next_tile, (0, 1));
    assert_eq!(crowd.humans[3].target_tile, (0, 1));
}

#[test]
fn a_building_is_set_up_from_its_album() {
    let mut album = MapAlbum::new();
    album.add_map("f1".to_string(), plan_of(&["E..F", "#..."]));
    album.add_map("f2".to_string(), plan_of(&["..E"]));
    let mut rng = StdRng::seed_from_u64(22);
    let mut lit = parameters();
    lit.p = 1_000;
    let building = Building::new(
        album,
        &lit,
        1_000_000,
        4_000_000,
        2_000_000,
        MapMarker::named("f1"),
        MapMarker::named("f2"),
        &mut rng,
    )
    .unwrap();
    assert_eq!(building.fire.maps.len(), 2);
    assert_eq!(building.smoke.maps.len(), 2);
    assert_eq!(building.pass.maps.len(), 2);
    let fire = building.fire.maps.get(&MapMarker::named("f1")).unwrap();
    assert_eq!((fire.burning_time, fire.smoking_time, fire.k), (10_000, 1_000, 1_000));
    assert!(matches!(fire.map[0][3], Fire::On(_)));
    assert_eq!(fire.map[0][1], Fire::NeverBurn);
    let smoke = building.smoke.maps.get(&MapMarker::named("f1")).unwrap();
    assert_eq!(smoke.map[0][0], Smoke::InDiffusible);
    assert_eq!(smoke.map[1][0], Smoke::InDiffusible);
    assert_eq!(smoke.map[0][3], Smoke::new_diffusible());
    let pass = building.pass.maps.get(&MapMarker::named("f2")).unwrap();
    assert_eq!(pass.exit, vec![(0, 2)]);
    // one person on each of the five cells of floor on f1 and the two on f2
    assert_eq!(building.crowd.humans.len(), 7);
    assert_eq!(building.crowd.humans[6].storey.name, "f2");
    assert_eq!(building.crowd.humans[6].my_path.len(), 1);
    assert_eq!(building.ground.name, "f1");
    assert_eq!(building.connector.name, "f2");
}

#[test]
fn a_building_is_not_set_up_with_bad_parameters() {
    let mut rng = StdRng::seed_from_u64(23);
    for bad in [
        NeededParameters { p: 1_001, ..parameters() },
        NeededParameters { human_seed: 1_001, ..parameters() },
        NeededParameters { h: 0, ..parameters() },
        NeededParameters { h: 1_001, ..parameters() },
        NeededParameters { v: 0, ..parameters() },
        NeededParameters { c: 2_000, ..parameters() },
        NeededParameters::default(),
    ] {
        assert!(!bad.is_valid());
        let mut album = MapAlbum::new();
        album.add_map("f1".to_string(), plan_of(&["E."]));
        let made = Building::new(album, &bad, 1, 1, 1, MapMarker::named("f1"), MapMarker::named("f2"), &mut rng);
        assert_eq!(made.err(), Some(SetupError::BadParameters));
    }
    assert!(parameters().is_valid());
}

#[test]
fn a_building_is_not_set_up_without_its_ground_floor() {
    let mut rng = StdRng::seed_from_u64(24);
    let mut album = MapAlbum::new();
    album.add_map("f2".to_string(), plan_of(&["E."]));
    let made = Building::new(
        album,
        &parameters(),
        1,
        1,
        1,
        MapMarker::named("f1"),
        MapMarker::named("f2"),
        &mut rng,
    );
    assert_eq!(made.err(), Some(SetupError::NoGroundFloor));
}

#[test]
fn a_building_is_not_set_up_where_someone_has_no_way_out() {
    let mut rng = StdRng::seed_from_u64(25);
    let mut album = MapAlbum::new();
    album.add_map("f1".to_string(), plan_of(&[".#E"]));
    let made = Building::new(
        album,
        &parameters(),
        1,
        1,
        1,
        MapMarker::named("f1"),
        MapMarker::named("f2"),
        &mut rng,
    );
    assert_eq!(made.err(), Some(SetupError::NoWayOut(RouteError::Unreachable)));
}

#[test]
fn a_building_in_a_fire_is_left_by_those_who_make_it() {
    let mut album = MapAlbum::new();
    album.add_map(
        "f1".to_string(),
        plan_of(&[
            "#######SSP", //
            "#..F...ESS", //
            "#......###", //
            "#..F..F###", //
            "##########", //
        ]),
    );
    album.add_map(
        "f2".to_string(),
        plan_of(&[
            "##########", //
            "#.F.....##", //
            "#E.....###", //
            "##########", //
        ]),
    );
    let mut rng = StdRng::seed_from_u64(26);
    let mut chosen = parameters();
    chosen.p = 1_000;
    chosen.human_seed = 300;
    chosen.burning_time = 4_000;
    chosen.smoking_time = 300;
    chosen.k = 200;
    let mut building = Building::new(
        album,
        &chosen,
        1_000_000,
        10_000_000,
        5_000_000,
        MapMarker::named("f1"),
        MapMarker::named("f2"),
        &mut rng,
    )
    .unwrap();
    let people = building.crowd.humans.len();
    assert!(people > 0);
    let upstairs = building.crowd.humans.iter().filter(|human| human.storey.name == "f2").count();
    let mut evacuated = Vec::new();
    let mut changed = Vec::new();
    let mut dead = std::collections::BTreeSet::new();
    let stage = |fire: &Fire| match fire {
        Fire::Off => 0,
        Fire::On(_) => 1,
        Fire::NeverBurn => 2,
    };
    for _ in 0..3_000 {
        let before: Vec<Vec<Vec<Fire>>> =
            building.fire.maps.entries.iter().map(|entry| entry.1.map.clone()).collect();
        let (events, sent) = building.tick(16, &mut rng);
        assert_eq!(sent, Ok(()));
        for event in events {
            match event {
                LifecycleEvent::Evacuated(evacuated_one) => evacuated.push(evacuated_one.id),
                LifecycleEvent::ChangeStorey(change) => changed.push(change.id),
                LifecycleEvent::Dead(dead_one) => {
                    dead.insert(dead_one.id);
                }
                LifecycleEvent::ChangeSafe(_) => panic!("nobody raises this"),
            }
        }
        for (s, entry) in building.fire.maps.entries.iter().enumerate() {
            for (i, row) in entry.1.map.iter().enumerate() {
                for (j, cell) in row.iter().enumerate() {
                    assert!(stage(&before[s][i][j]) <= stage(cell));
                }
            }
        }
    }
    assert_eq!(building.crowd.humans.len(), people);
    let stayed = building.crowd.humans.iter().filter(|human| human.storey.name == "f2").count();
    assert_eq!(changed.len() + stayed, upstairs);
    assert!(changed.len() > 0);
    let mut once = evacuated.clone();
    once.sort();
    once.dedup();
    assert_eq!(once.len(), evacuated.len());
    assert_eq!(building.crowd.count_evacuated(), evacuated.len());
    assert_eq!(building.crowd.count_dead(), dead.len());
    for human in building.crowd.humans.iter() {
        assert!(human.is_dead || human.is_evacuated, "{:?} is still inside", human);
        if human.is_evacuated && !human.is_dead {
            assert_eq!(human.storey.name, "f1");
            assert_eq!(human.now_tile, (0, 9));
        }
    }
    // all furniture has burnt out, and left its smoke
    for entry in building.fire.maps.entries.iter() {
        for cell in entry.1.map.iter().flatten() {
            assert_eq!(*cell, Fire::NeverBurn);
        }
    }
    let smoke: u64 = building.smoke.maps.entries[0].1.map.iter().flatten().map(|cell| cell.get_density()).sum();
    assert!(smoke > 0);
}

#[test]
fn the_sparks_of_the_start_take_the_chance_of_the_parameters() {
    let mut album = MapAlbum::new();
    album.add_map("f1".to_string(), plan_of(&["FF.", "F#E"]));
    let mut fire = BuildingFire::default();
    init_building_fire(&mut fire, &album);
    let mut rng = StdRng::seed_from_u64(27);
    let mut none = parameters();
    none.p = 0;
    light(&mut fire, &none, &mut rng);
    let field = &fire.maps.entries[0].1;
    assert_eq!(field.map[0], vec![Fire::Off, Fire::Off, Fire::NeverBurn]);
    assert_eq!((field.burning_time, field.smoking_time, field.k), (10_000, 1_000, 1_000));
    let mut all = parameters();
    all.p = 1_000;
    all.burning_time = 500;
    light(&mut fire, &all, &mut rng);
    let field = &fire.maps.entries[0].1;
    assert!(matches!(field.map[0][0], Fire::On(_)));
    assert!(matches!(field.map[0][1], Fire::On(_)));
    assert!(matches!(field.map[1][0], Fire::On(_)));
    assert_eq!(field.map[0][2], Fire::NeverBurn);
    assert_eq!(field.burning_time, 500);
}
