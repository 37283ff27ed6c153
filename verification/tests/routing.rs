use evacuation::human::{Human, RouteError};
use evacuation::pass::{exits_of, Danger, Pass, StoreyPass};
use evacuation::plan::TileMap;
use evacuation::route::shortest_route;
use evacuation::smoke::{Density, Smoke, StoreySmoke};
use evacuation::tile::TileType;

fn plan_of(rows: &[&str]) -> TileMap {
    let mut plan = TileMap::new(rows.len(), rows[0].len());
    for (i, row) in rows.iter().enumerate() {
        for (j, tile) in row.chars().enumerate() {
            let tile = match tile {
                '.' => TileType::Floor,
                '#' => TileType::Wall,
                'E' => TileType::Exit,
                'F' => TileType::Furniture,
                'S' => TileType::Stone,
                'P' => TileType::SavePlace,
                'D' => TileType::Door,
                other => panic!("no tile for {}", other),
            };
            plan.set_tile(i, j, tile);
        }
    }
    plan
}

fn pass_of(rows: &[&str]) -> StoreyPass {
    let plan = plan_of(rows);
    let (r, c) = plan.get_size();
    let mut pass = StoreyPass::new(r, c);
    pass.init_from_map(&plan);
    pass
}

fn person_on(tile: (usize, usize)) -> Human {
    let mut human = Human::default();
    human.now_tile = tile;
    human
}

fn path_of(human: &Human) -> Vec<(usize, usize)> {
    human.my_path.iter().copied().collect()
}

#[test]
fn walls_furniture_and_stone_cannot_be_walked_on() {
    let pass = pass_of(&[".#F", "SEP", "D.."]);
    let open = Pass::Passable(Danger::default());
    assert_eq!(
        pass.map,
        vec![
            vec![open, Pass::Impassable, Pass::Impassable],
            vec![Pass::Impassable, open, open],
            vec![open, open, open]
        ]
    );
    assert_eq!(pass.exit, vec![(1, 1)]);
}

#[test]
fn exits_are_listed_column_by_column() {
    let plan = plan_of(&["..E.", "E...", "..E.", ".E.E"]);
    assert_eq!(exits_of(&plan), vec![(1, 0), (3, 1), (0, 2), (2, 2), (3, 3)]);
    let pass = pass_of(&["..E.", "E...", "..E.", ".E.E"]);
    assert_eq!(pass.exit, vec![(1, 0), (3, 1), (0, 2), (2, 2), (3, 3)]);
}

#[test]
fn the_target_is_the_nearest_exit_and_the_first_of_equals() {
    let pass = pass_of(&["E...E", ".....", "....."]);
    let mut human = person_on((2, 1));
    human.find_my_target(&pass);
    assert_eq!(human.target_tile, (0, 0));
    let mut human = person_on((2, 3));
    human.find_my_target(&pass);
    assert_eq!(human.target_tile, (0, 4));
    // just as far from both: the first in the list, which is the left one
    let mut human = person_on((1, 2));
    human.find_my_target(&pass);
    assert_eq!(human.target_tile, (0, 0));
}

#[test]
fn without_exits_the_target_is_the_first_cell() {
    let pass = pass_of(&["...", "..."]);
    let mut human = person_on((1, 2));
    human.target_tile = (1, 1);
    human.find_my_target(&pass);
    assert_eq!(human.target_tile, (0, 0));
}

#[test]
fn a_corridor_of_n_cells_takes_n_less_one_steps() {
    for n in 2..12 {
        let mut row = ".".repeat(n - 1);
        row.push('E');
        let pass = pass_of(&[row.as_str()]);
        let mut human = person_on((0, 0));
        human.find_my_target(&pass);
        assert_eq!(human.target_tile, (0, n - 1));
        assert_eq!(human.find_my_path(&pass), Ok(()));
        assert_eq!(human.my_path.len(), n - 1);
        let expected: Vec<(usize, usize)> = (1..n).map(|j| (0, j)).collect();
        assert_eq!(path_of(&human), expected);
    }
}

#[test]
fn the_shortest_path_is_the_same_whatever_the_smoke() {
    let pass = pass_of(&[".....E"]);
    let mut calm = person_on((0, 0));
    calm.find_my_target(&pass);
    calm.find_my_path(&pass).unwrap();

    let mut smoky = pass_of(&[".....E"]);
    let mut smoke = StoreySmoke::new(1, 6);
    for j in 0..5 {
        smoke.map[0][j] = Smoke::Diffusible(Density::new(1_000 * (j as u64 + 1)));
    }
    smoke.map[0][5] = Smoke::InDiffusible;
    smoky.update_from_smoke(&smoke);
    assert_eq!(smoky.map[0][2], Pass::Passable(Danger { value: 3_000 }));
    assert_eq!(smoky.map[0][5], Pass::Passable(Danger { value: 0 }));
    let mut human = person_on((0, 0));
    human.find_my_target(&smoky);
    human.find_my_path(&smoky).unwrap();
    assert_eq!(path_of(&human), path_of(&calm));
    assert_eq!(human.my_path.len(), 5);
}

#[test]
fn the_danger_follows_the_smoke_where_one_can_walk() {
    let mut pass = pass_of(&[".F.", "..."]);
    pass.map[1][1] = Pass::Passable(Danger { value: 77 });
    let mut smoke = StoreySmoke::new(2, 3);
    smoke.map[0][0] = Smoke::Diffusible(Density::new(1_234));
    smoke.map[0][1] = Smoke::Diffusible(Density::new(999));
    smoke.map[1][1] = Smoke::InDiffusible;
    pass.update_from_smoke(&smoke);
    assert_eq!(pass.map[0][0], Pass::Passable(Danger { value: 1_234 }));
    assert_eq!(pass.map[0][1], Pass::Impassable);
    assert_eq!(pass.map[0][2], Pass::Passable(Danger { value: 0 }));
    // where smoke never enters the danger stays
    assert_eq!(pass.map[1][1], Pass::Passable(Danger { value: 77 }));
}

#[test]
fn the_path_goes_around_what_stands_in_the_way() {
    let pass = pass_of(&[
        "..#..", //
        ".F#.E", //
        ".....", //
    ]);
    let mut human = person_on((0, 0));
    human.find_my_target(&pass);
    assert_eq!(human.find_my_path(&pass), Ok(()));
    let path = path_of(&human);
    assert_eq!(path.len(), 7);
    assert_eq!(*path.last().unwrap(), (1, 4));
    let mut at = (0usize, 0usize);
    for cell in &path {
        assert_eq!(at.0.abs_diff(cell.0) + at.1.abs_diff(cell.1), 1);
        assert!(matches!(pass.map[cell.0][cell.1], Pass::Passable(_)));
        at = *cell;
    }
}

#[test]
fn of_two_shortest_paths_the_one_along_the_row_is_taken_first() {
    let pass = pass_of(&["...", "...", "..E"]);
    let mut human = person_on((0, 0));
    human.find_my_target(&pass);
    human.find_my_path(&pass).unwrap();
    assert_eq!(path_of(&human), vec![(0, 1), (0, 2), (1, 2), (2, 2)]);
}

#[test]
fn who_stands_on_the_target_has_an_empty_path() {
    let pass = pass_of(&["..E"]);
    let mut human = person_on((0, 2));
    human.my_path.push_back((9, 9));
    human.find_my_target(&pass);
    assert_eq!(human.find_my_path(&pass), Ok(()));
    assert!(human.my_path.is_empty());
}

#[test]
fn a_target_behind_walls_is_unreachable() {
    let pass = pass_of(&[".#E", ".#."]);
    let mut human = person_on((0, 0));
    human.my_path.push_back((1, 0));
    human.find_my_target(&pass);
    assert_eq!(human.find_my_path(&pass), Err(RouteError::Unreachable));
    // the path stays as it was
    assert_eq!(path_of(&human), vec![(1, 0)]);
    assert_eq!(human.target_tile, (0, 2));
}

#[test]
fn a_target_off_the_grid_is_unreachable() {
    let pass = pass_of(&["..."]);
    let mut human = person_on((0, 0));
    human.target_tile = (5, 5);
    assert_eq!(human.find_my_path(&pass), Err(RouteError::Unreachable));
    human.target_tile = (0, 3);
    assert_eq!(human.find_my_path(&pass), Err(RouteError::Unreachable));
}

#[test]
fn who_stands_off_the_grid_finds_no_path() {
    let pass = pass_of(&["..E"]);
    let mut human = person_on((1, 0));
    human.target_tile = (0, 2);
    assert_eq!(human.find_my_path(&pass), Err(RouteError::OffGrid));
    let mut human = person_on((0, 3));
    assert_eq!(human.find_my_path(&pass), Err(RouteError::OffGrid));
    let plan = plan_of(&["SSP"]);
    assert_eq!(human.find_my_safe_path(&plan), Err(RouteError::OffGrid));
}

#[test]
fn the_start_need_not_be_open() {
    let grid = vec![vec![false, true, true]];
    let route = shortest_route(&grid, (0, 0), (0, 2)).unwrap();
    assert_eq!(route.iter().copied().collect::<Vec<_>>(), vec![(0, 1), (0, 2)]);
    assert!(shortest_route(&grid, (0, 2), (0, 0)).is_none());
    assert!(shortest_route(&grid, (0, 0), (0, 0)).unwrap().is_empty());
}

#[test]
fn the_safe_place_is_the_nearest_one_and_the_first_of_equals() {
    let plan = plan_of(&["P...P", "..E..", "P...."]);
    let mut human = person_on((1, 2));
    human.find_my_safe_place(&plan);
    assert_eq!(human.target_tile, (0, 0));
    let mut human = person_on((1, 3));
    human.find_my_safe_place(&plan);
    assert_eq!(human.target_tile, (0, 4));
    let mut human = person_on((2, 1));
    human.find_my_safe_place(&plan);
    assert_eq!(human.target_tile, (2, 0));
    let none = plan_of(&["...", ".E."]);
    let mut human = person_on((1, 1));
    human.target_tile = (1, 1);
    human.find_my_safe_place(&none);
    assert_eq!(human.target_tile, (0, 0));
}

#[test]
fn the_way_to_safety_leads_over_stone_safe_places_and_exits() {
    let plan = plan_of(&[
        "..E..", //
        ".#S#.", //
        "PSS.P", //
    ]);
    let mut human = person_on((0, 2));
    human.find_my_safe_place(&plan);
    // both safe places are four steps away, the left one comes first
    assert_eq!(human.target_tile, (2, 0));
    assert_eq!(human.find_my_safe_path(&plan), Ok(()));
    assert_eq!(path_of(&human), vec![(1, 2), (2, 2), (2, 1), (2, 0)]);
    // the right one cannot be reached over floor
    human.target_tile = (2, 4);
    assert_eq!(human.find_my_safe_path(&plan), Err(RouteError::Unreachable));
}
