use evacuation::crowd::{HumanMarker, TheCrowd};
use evacuation::human::{
    copy_path, manhattan_between, Human, LifecycleEvent, Point, Dead, Evacuated, ChangeStorey, LAYER,
};
use evacuation::pass::StoreyPass;
use evacuation::plan::TileMap;
use evacuation::smoke::{Density, Smoke, StoreySmoke};
use evacuation::storey::MapMarker;
use evacuation::tile::TileType;
use rand::rngs::StdRng;
use rand::SeedableRng;

const SIZE: u64 = 1_000_000;
const WIDTH: u64 = 5_000_000;
const HEIGHT: u64 = 5_000_000;

fn smoke_of(rows: usize, cols: usize, density: u64) -> StoreySmoke {
    let mut smoke = StoreySmoke::new(rows, cols);
    for row in smoke.map.iter_mut() {
        for cell in row.iter_mut() {
            *cell = Smoke::Diffusible(Density::new(density));
        }
    }
    smoke
}

fn corridor() -> StoreyPass {
    let mut plan = TileMap::new(1, 4);
    plan.set_tile(0, 3, TileType::Exit);
    let mut pass = StoreyPass::new(1, 4);
    pass.init_from_map(&plan);
    pass
}

#[test]
fn a_newcomer_is_in_full_health_and_stands_still() {
    let human = Human::default();
    assert_eq!(human.id, 0);
    assert_eq!((human.hp, human.max_hp), (100_000_000, 100_000_000));
    assert_eq!((human.speed, human.max_speed), (0, 10_000));
    assert_eq!(human.position, Point { x: 0, y: 0, z: 0 });
    assert_eq!(human.now_tile, (0, 0));
    assert!(human.my_path.is_empty());
    assert_eq!(human.storey.name, "default");
    assert!(!human.is_dead && !human.is_evacuated && !human.is_safe);
}

#[test]
fn smoke_takes_time_times_density_off_the_health() {
    let mut human = Human::default();
    // density 2 for half a second: 1 of 100
    human.smoke_damage(&smoke_of(1, 1, 2_000), 500);
    assert_eq!(human.hp, 99_000_000);
    assert!(!human.is_dead);
    human.smoke_damage(&smoke_of(1, 1, 1), 1);
    assert_eq!(human.hp, 98_999_999);
    human.smoke_damage(&smoke_of(1, 1, 0), 10_000);
    assert_eq!(human.hp, 98_999_999);
}

#[test]
fn who_has_no_health_left_is_dead() {
    let mut human = Human::default();
    human.smoke_damage(&smoke_of(1, 1, 50_000), 1_999);
    assert_eq!(human.hp, 50_000);
    assert!(!human.is_dead);
    human.smoke_damage(&smoke_of(1, 1, 50_000), 1);
    assert_eq!(human.hp, 0);
    assert!(human.is_dead);
    let mut human = Human::default();
    human.smoke_damage(&smoke_of(1, 1, u64::MAX), u32::MAX);
    assert_eq!(human.hp, i64::MIN);
    assert!(human.is_dead);
}

#[test]
fn smoke_can_leave_less_than_no_health() {
    let mut human = Human::default();
    // density 50 for 12.5 seconds takes 625 of 100
    human.smoke_damage(&smoke_of(1, 1, 50_000), 12_500);
    assert_eq!(human.hp, -525_000_000);
    assert!(human.is_dead);
    human.smoke_damage(&smoke_of(1, 1, 1_000), 1_000);
    assert_eq!(human.hp, -526_000_000);
    human.change_my_speed();
    assert_eq!(human.speed, 0);
}

#[test]
fn smoke_does_no_harm_where_it_never_enters() {
    let mut smoke = smoke_of(1, 2, 9_000);
    smoke.map[0][0] = Smoke::InDiffusible;
    let mut human = Human::default();
    human.smoke_damage(&smoke, 1_000);
    assert_eq!(human.hp, 100_000_000);
    human.now_tile = (0, 1);
    human.smoke_damage(&smoke, 1_000);
    assert_eq!(human.hp, 91_000_000);
}

#[test]
fn the_speed_goes_by_the_health() {
    let mut human = Human::default();
    human.change_my_speed();
    assert_eq!(human.speed, 10_000);
    human.hp = 99_000_000;
    human.change_my_speed();
    assert_eq!(human.speed, 9_900);
    human.hp = 33_333_333;
    human.change_my_speed();
    assert_eq!(human.speed, 3_333);
    human.hp = 1;
    human.change_my_speed();
    assert_eq!(human.speed, 0);
    human.hp = 0;
    human.change_my_speed();
    assert_eq!(human.speed, 0);
}

#[test]
fn the_speed_stops_at_what_can_be_held() {
    let mut human = Human::default();
    human.max_hp = 0;
    human.change_my_speed();
    assert_eq!(human.speed, u64::MAX);
    human.max_hp = 1;
    human.hp = i64::MAX;
    human.max_speed = 3;
    human.change_my_speed();
    assert_eq!(human.speed, u64::MAX);
}

#[test]
fn positions_are_the_middles_of_cells() {
    let mut human = Human::default();
    human.now_tile = (4, 0);
    human.next_tile = (3, 0);
    human.clc_position(SIZE, WIDTH, HEIGHT);
    human.clc_next_position(SIZE, WIDTH, HEIGHT);
    assert_eq!(human.position, Point { x: -2_000_000, y: -2_000_000, z: LAYER });
    assert_eq!(human.next_position, Point { x: -2_000_000, y: -1_000_000, z: LAYER });
    human.change_my_direction();
    assert_eq!(human.direction, Point { x: 0, y: 1, z: 0 });
    human.next_tile = (4, 1);
    human.clc_next_position(SIZE, WIDTH, HEIGHT);
    human.change_my_direction();
    assert_eq!(human.direction, Point { x: 1, y: 0, z: 0 });
    human.next_tile = (4, 0);
    human.clc_next_position(SIZE, WIDTH, HEIGHT);
    human.change_my_direction();
    assert_eq!(human.direction, Point { x: 0, y: 0, z: 0 });
}

#[test]
fn walking_goes_towards_the_next_position_and_not_beyond() {
    let mut human = Human::default();
    human.position = Point { x: 0, y: 0, z: LAYER };
    human.next_position = Point { x: 1_000_000, y: 0, z: LAYER };
    human.speed = 10_000;
    human.walk(16);
    assert_eq!(human.position, Point { x: 160_000, y: 0, z: LAYER });
    human.walk(83);
    assert_eq!(human.position, Point { x: 990_000, y: 0, z: LAYER });
    human.walk(16);
    assert_eq!(human.position, Point { x: 1_000_000, y: 0, z: LAYER });
    human.walk(16);
    assert_eq!(human.position, Point { x: 1_000_000, y: 0, z: LAYER });
    human.next_position = Point { x: 1_000_000, y: -500_000, z: LAYER };
    human.walk(10);
    assert_eq!(human.position, Point { x: 1_000_000, y: -100_000, z: LAYER });
    human.speed = u64::MAX;
    human.walk(u32::MAX);
    assert_eq!(human.position, human.next_position);
    human.next_position = Point { x: i64::MIN, y: -500_000, z: LAYER };
    human.speed = 1;
    human.walk(1);
    assert_eq!(human.position, Point { x: 999_999, y: -500_000, z: LAYER });
    human.speed = u64::MAX;
    human.walk(u32::MAX);
    assert_eq!(human.position, human.next_position);
}

#[test]
fn setting_out_turns_to_the_first_cell_of_the_path() {
    let mut human = Human::default();
    human.now_tile = (0, 0);
    human.my_path.push_back((0, 1));
    human.my_path.push_back((0, 2));
    human.set_out(SIZE, WIDTH, HEIGHT);
    assert_eq!(human.next_tile, (0, 1));
    assert_eq!(human.position, Point { x: -2_000_000, y: 2_000_000, z: LAYER });
    assert_eq!(human.next_position, Point { x: -1_000_000, y: 2_000_000, z: LAYER });
    assert_eq!(human.direction, Point { x: 1, y: 0, z: 0 });
    assert_eq!(human.my_path.len(), 2);
    let mut idle = Human::default();
    idle.now_tile = (2, 2);
    idle.set_out(SIZE, WIDTH, HEIGHT);
    assert_eq!(idle.next_tile, (2, 2));
    assert_eq!(idle.position, idle.next_position);
    assert_eq!(idle.direction, Point { x: 0, y: 0, z: 0 });
}

#[test]
fn a_tick_wears_steps_on_and_walks() {
    let pass = corridor();
    let ground = MapMarker::named("f1");
    let connector = MapMarker::named("f2");
    let mut human = Human::default();
    human.storey = MapMarker::named("f1");
    human.head_for_exit(&pass, SIZE, 4_000_000, 1_000_000).unwrap();
    assert_eq!(human.target_tile, (0, 3));
    assert_eq!(human.my_path.len(), 3);
    let smoke = smoke_of(1, 4, 1_000);
    // 100 ms at density 1: 0.1 of health; speed 10000 * 99.9 / 100 = 9990
    let event = human.run(&smoke, 100, SIZE, 4_000_000, 1_000_000, &ground, &connector);
    assert_eq!(event, None);
    assert_eq!(human.hp, 99_900_000);
    assert_eq!(human.speed, 9_990);
    assert_eq!(human.position.x, -1_500_000 + 999_000);
    assert_eq!(human.now_tile, (0, 0));
    // the next tick arrives on the middle of the next cell
    human.run(&smoke, 100, SIZE, 4_000_000, 1_000_000, &ground, &connector);
    assert_eq!(human.position.x, -500_000);
    assert_eq!(human.my_path.len(), 3);
    // the tick after that steps on to it and turns to the cell after it
    human.run(&smoke, 100, SIZE, 4_000_000, 1_000_000, &ground, &connector);
    assert_eq!(human.now_tile, (0, 1));
    assert_eq!(human.next_tile, (0, 2));
    assert_eq!(human.my_path.len(), 2);
    assert_eq!(human.hp, 99_700_000);
    assert_eq!(human.position.x, -500_000 + 997_000);
}

#[test]
fn reaching_the_target_on_the_ground_floor_is_an_evacuation() {
    let pass = corridor();
    let ground = MapMarker::named("f1");
    let connector = MapMarker::named("f2");
    let clear = smoke_of(1, 4, 0);
    for (storey, expected) in [
        ("f1", Some(LifecycleEvent::Evacuated(Evacuated { id: 7 }))),
        ("f2", Some(LifecycleEvent::ChangeStorey(ChangeStorey { id: 7 }))),
        ("f3", None),
    ] {
        let mut human = Human::default();
        human.id = 7;
        human.storey = MapMarker::named(storey);
        human.now_tile = (0, 2);
        human.head_for_exit(&pass, SIZE, 4_000_000, 1_000_000).unwrap();
        let mut events = Vec::new();
        for _ in 0..20 {
            if let Some(event) = human.run(&clear, 50, SIZE, 4_000_000, 1_000_000, &ground, &connector) {
                events.push(event);
            }
        }
        assert_eq!(human.now_tile, (0, 3));
        assert_eq!(events, expected.into_iter().collect::<Vec<_>>());
        assert_eq!(human.is_evacuated, storey == "f1");
        assert!(human.my_path.is_empty());
    }
}

#[test]
fn the_dead_do_nothing_but_are_reported() {
    let ground = MapMarker::named("f1");
    let connector = MapMarker::named("f2");
    let mut human = Human::default();
    human.id = 3;
    human.my_path.push_back((0, 1));
    human.set_out(SIZE, WIDTH, HEIGHT);
    let before = human.position;
    let event = human.run(&smoke_of(1, 2, 50_000), 2_000, SIZE, WIDTH, HEIGHT, &ground, &connector);
    assert_eq!(event, Some(LifecycleEvent::Dead(Dead { id: 3 })));
    assert!(human.is_dead);
    assert_eq!(human.hp, 0);
    assert_eq!(human.speed, 0);
    assert_eq!(human.position, before);
    assert_eq!(human.my_path.len(), 1);
    let event = human.run(&smoke_of(1, 2, 1_000), 16, SIZE, WIDTH, HEIGHT, &ground, &connector);
    assert_eq!(event, Some(LifecycleEvent::Dead(Dead { id: 3 })));
    assert_eq!(human.hp, -16_000);
    assert_eq!(human.position, before);
}

#[test]
fn health_and_speed_are_drawn_from_their_parts() {
    let mut rng = StdRng::seed_from_u64(11);
    let mut low = i64::MAX;
    let mut high = 0;
    for _ in 0..300 {
        let mut human = Human::default();
        human.rand_my_hp(200, &mut rng);
        assert!(80_000_000 <= human.hp && human.hp < 100_000_000);
        low = low.min(human.hp);
        high = high.max(human.hp);
        human.rand_my_speed(100, &mut rng);
        assert!(9_000 <= human.speed && human.speed < 11_000);
        assert_eq!(human.max_speed, 10_000);
        assert_eq!(human.max_hp, 100_000_000);
    }
    assert!(low < 85_000_000 && high > 95_000_000);
}

#[test]
fn distances_are_counted_along_rows_and_columns() {
    assert_eq!(manhattan_between((0, 0), (0, 0)), 0);
    assert_eq!(manhattan_between((4, 0), (0, 4)), 8);
    assert_eq!(manhattan_between((2, 7), (5, 3)), 7);
    assert_eq!(manhattan_between((0, 0), (usize::MAX, usize::MAX)), 2 * (usize::MAX as u128));
}

#[test]
fn a_path_and_a_person_can_be_copied() {
    let mut human = Human::default();
    human.id = 5;
    human.my_path.push_back((1, 2));
    human.my_path.push_back((1, 3));
    human.storey = MapMarker::named("f9");
    let copy = human.clone();
    assert_eq!(copy.id, 5);
    assert_eq!(copy_path(&copy.my_path), human.my_path);
    assert_eq!(copy.storey.name, "f9");
    let marker = HumanMarker::from_human(&human);
    assert_eq!(marker.id, 5);
    assert_eq!(marker.storey.name, "f9");
}

#[test]
fn a_crowd_grows_and_shrinks() {
    let mut crowd = TheCrowd::new();
    assert_eq!((crowd.element_size, crowd.board_width, crowd.board_height), (1_000_000, 50_000_000,
        40_000_000));
    assert_eq!(crowd.texture_path, "./movethings/mango.png");
    for id in [0, 1, 2, 1] {
        let mut human = Human::default();
        human.id = id;
        human.is_dead = id == 1;
        human.is_evacuated = id == 2;
        crowd.add_human(human);
    }
    assert_eq!(crowd.humans.len(), 4);
    assert_eq!(crowd.count_dead(), 2);
    assert_eq!(crowd.count_evacuated(), 1);
    let mut gone = Human::default();
    gone.id = 1;
    crowd.remove_human(&gone);
    let ids: Vec<usize> = crowd.humans.iter().map(|human| human.id).collect();
    assert_eq!(ids, vec![0, 2]);
    assert_eq!(crowd.count_dead(), 0);
}

#[test]
fn people_are_put_on_floor_cells_only() {
    let mut plan = TileMap::new(3, 3);
    plan.set_tile(0, 0, TileType::Wall);
    plan.set_tile(1, 1, TileType::Furniture);
    plan.set_tile(2, 2, TileType::Exit);
    let mut rng = StdRng::seed_from_u64(12);
    let mut crowd = TheCrowd::new();
    crowd.extend_from_pass(&plan, MapMarker::named("f1"), 0, 100, 100, &mut rng);
    assert!(crowd.humans.is_empty());
    crowd.extend_from_pass(&plan, MapMarker::named("f1"), 1_000, 100, 200, &mut rng);
    let cells: Vec<(usize, usize)> = crowd.humans.iter().map(|human| human.now_tile).collect();
    assert_eq!(cells, vec![(0, 1), (0, 2), (1, 0), (1, 2), (2, 0), (2, 1)]);
    for (k, human) in crowd.humans.iter().enumerate() {
        assert_eq!(human.id, k);
        assert_eq!(human.storey.name, "f1");
        assert!(80_000_000 <= human.hp && human.hp < 100_000_000);
        assert!(9_000 <= human.speed && human.speed < 11_000);
    }
    crowd.extend_from_pass(&plan, MapMarker::named("f2"), 1_000, 100, 200, &mut rng);
    assert_eq!(crowd.humans.len(), 12);
    assert_eq!(crowd.humans[6].id, 6);
    assert_eq!(crowd.humans[6].storey.name, "f2");
    assert_eq!(crowd.humans[6].now_tile, (0, 1));
}

#[test]
fn people_are_the_same_by_their_number() {
    let mut first = Human::default();
    first.id = 4;
    let mut second = Human::default();
    second.id = 4;
    second.hp = 1;
    second.now_tile = (3, 3);
    assert!(first == second);
    second.id = 5;
    assert!(first != second);
}
