use evacuation::evacuate::{Evacuate, MoveDirection, StoreyEvacuation};
use evacuation::pass::{Danger, Pass, StoreyPass};
use evacuation::plan::TileMap;
use evacuation::tile::TileType;

fn pass_of(rows: &[&str]) -> StoreyPass {
    let mut plan = TileMap::new(rows.len(), rows[0].len());
    for (i, row) in rows.iter().enumerate() {
        for (j, tile) in row.chars().enumerate() {
            let tile = match tile {
                '.' => TileType::Floor,
                '#' => TileType::Wall,
                'E' => TileType::Exit,
                other => panic!("no tile for {}", other),
            };
            plan.set_tile(i, j, tile);
        }
    }
    let mut pass = StoreyPass::new(rows.len(), rows[0].len());
    pass.init_from_map(&plan);
    pass
}

fn endanger(pass: &mut StoreyPass, cell: (usize, usize), units: u64) {
    pass.map[cell.0][cell.1] = Pass::Passable(Danger { value: units * 1_000 });
}

/// The cell to which the field sends from `cell`.
fn ahead(field: &StoreyEvacuation, cell: (usize, usize)) -> Option<(usize, usize)> {
    match field.map[cell.0][cell.1] {
        Evacuate::Move(MoveDirection::Up) => Some((cell.0, cell.1 + 1)),
        Evacuate::Move(MoveDirection::Down) => Some((cell.0, cell.1 - 1)),
        Evacuate::Move(MoveDirection::Left) => Some((cell.0 + 1, cell.1)),
        Evacuate::Move(MoveDirection::Right) => Some((cell.0 - 1, cell.1)),
        _ => None,
    }
}

/// The cost of going where the field sends from `from` until `exit`: the
/// danger of every cell on the way but the exit, in whole units.
fn cost_along(field: &StoreyEvacuation, pass: &StoreyPass, from: (usize, usize), exit: (usize,
    usize)) -> u64 {
    let mut cost = 0;
    let mut at = from;
    let mut steps = 0;
    while at != exit {
        match pass.map[at.0][at.1] {
            Pass::Passable(danger) => cost += danger.value / 1_000,
            Pass::Impassable => panic!("the field leads over {:?}", at),
        }
        at = ahead(field, at).expect("the field ends before the exit");
        steps += 1;
        assert!(steps < 10_000, "the field goes in circles");
    }
    cost
}

#[test]
fn a_direction_belongs_to_each_offset() {
    assert_eq!(MoveDirection::from_ij(0, 1), MoveDirection::Up);
    assert_eq!(MoveDirection::from_ij(0, -1), MoveDirection::Down);
    assert_eq!(MoveDirection::from_ij(1, 0), MoveDirection::Left);
    assert_eq!(MoveDirection::from_ij(-1, 0), MoveDirection::Right);
    assert_eq!(MoveDirection::from_ij(0, 0), MoveDirection::Stay);
    assert_eq!(MoveDirection::from_ij(1, 1), MoveDirection::Stay);
    assert_eq!(MoveDirection::from_ij(2, 0), MoveDirection::Stay);
}

#[test]
fn a_direction_is_a_vector_of_the_plane() {
    assert_eq!(MoveDirection::Up.into_vec3(), (0, 1, 0));
    assert_eq!(MoveDirection::Down.into_vec3(), (0, -1, 0));
    assert_eq!(MoveDirection::Left.into_vec3(), (-1, 0, 0));
    assert_eq!(MoveDirection::Right.into_vec3(), (1, 0, 0));
    assert_eq!(MoveDirection::Stay.into_vec3(), (0, 0, 0));
}

#[test]
fn a_fresh_field_stays_where_one_can_walk() {
    let pass = pass_of(&[".#", "E."]);
    let field = StoreyEvacuation::init_from_pass(&pass);
    let stay = Evacuate::Move(MoveDirection::Stay);
    assert_eq!(field.map, vec![vec![stay, Evacuate::CanNotArrive], vec![stay, stay]]);
}

#[test]
fn the_field_leads_along_a_corridor_to_the_exit() {
    let pass = pass_of(&["...E"]);
    let mut field = StoreyEvacuation::init_from_pass(&pass);
    field.update_from_pass(&pass, (0, 3));
    assert_eq!(field.map[0][0], Evacuate::Move(MoveDirection::Up));
    assert_eq!(field.map[0][1], Evacuate::Move(MoveDirection::Up));
    assert_eq!(field.map[0][2], Evacuate::Move(MoveDirection::Up));
    // the exit keeps what it held
    assert_eq!(field.map[0][3], Evacuate::Move(MoveDirection::Stay));
}

#[test]
fn of_two_corridors_of_one_length_the_field_takes_the_one_with_less_danger() {
    let rows = [".....", ".###E", "....."];
    // danger along the upper corridor
    let mut pass = pass_of(&rows);
    for j in 0..5 {
        endanger(&mut pass, (0, j), 5);
    }
    let mut field = StoreyEvacuation::init_from_pass(&pass);
    field.update_from_pass(&pass, (1, 4));
    assert_eq!(field.map[1][0], Evacuate::Move(MoveDirection::Left));
    assert_eq!(ahead(&field, (1, 0)), Some((2, 0)));
    assert_eq!(cost_along(&field, &pass, (1, 0), (1, 4)), 0);
    // danger along the lower corridor
    let mut pass = pass_of(&rows);
    for j in 0..5 {
        endanger(&mut pass, (2, j), 5);
    }
    let mut field = StoreyEvacuation::init_from_pass(&pass);
    field.update_from_pass(&pass, (1, 4));
    assert_eq!(field.map[1][0], Evacuate::Move(MoveDirection::Right));
    assert_eq!(ahead(&field, (1, 0)), Some((0, 0)));
    assert_eq!(cost_along(&field, &pass, (1, 0), (1, 4)), 0);
}

#[test]
fn the_field_takes_a_longer_way_where_it_costs_less() {
    let mut pass = pass_of(&[
        ".....", //
        ".###.", //
        "....E", //
    ]);
    // the short way along the bottom is full of smoke
    endanger(&mut pass, (2, 1), 4);
    endanger(&mut pass, (2, 2), 4);
    endanger(&mut pass, (2, 3), 4);
    endanger(&mut pass, (0, 2), 1);
    let mut field = StoreyEvacuation::init_from_pass(&pass);
    field.update_from_pass(&pass, (2, 4));
    // from the bottom left: up and around costs 1, straight on costs 12
    assert_eq!(ahead(&field, (2, 0)), Some((1, 0)));
    assert_eq!(cost_along(&field, &pass, (2, 0), (2, 4)), 1);
    // from the middle of the bottom: 4 + 4 to the right, 4 + 4 + 1 around
    assert_eq!(ahead(&field, (2, 2)), Some((2, 3)));
    assert_eq!(cost_along(&field, &pass, (2, 2), (2, 4)), 8);
    assert_eq!(cost_along(&field, &pass, (2, 1), (2, 4)), 5);
}

#[test]
fn danger_below_one_unit_costs_nothing() {
    let mut pass = pass_of(&["...", ".#.", "..E"]);
    pass.map[0][1] = Pass::Passable(Danger { value: 999 });
    pass.map[2][1] = Pass::Passable(Danger { value: 1_000 });
    let mut field = StoreyEvacuation::init_from_pass(&pass);
    field.update_from_pass(&pass, (2, 2));
    assert_eq!(cost_along(&field, &pass, (1, 0), (2, 2)), 0);
    assert_eq!(ahead(&field, (1, 0)), Some((0, 0)));
}

#[test]
fn the_field_leads_from_every_cell_to_the_exit_at_the_least_cost() {
    let mut pass = pass_of(&[
        "......", //
        ".##.#.", //
        "...#..", //
        ".#...E", //
    ]);
    let dangers = [
        ((0, 1), 3), ((0, 2), 1), ((0, 4), 7), ((1, 3), 2), ((2, 0), 9), ((2, 1), 1),
        ((2, 4), 2), ((3, 2), 6), ((3, 3), 1), ((1, 5), 4), ((0, 5), 1), ((3, 4), 8),
    ];
    for (cell, units) in dangers {
        endanger(&mut pass, cell, units);
    }
    let exit = (3, 5);
    let mut field = StoreyEvacuation::init_from_pass(&pass);
    field.update_from_pass(&pass, exit);
    // the least costs, found by trying all walks
    let rows = pass.map.len();
    let cols = pass.map[0].len();
    let weight = |cell: (usize, usize)| match pass.map[cell.0][cell.1] {
        Pass::Passable(danger) => Some(danger.value / 1_000),
        Pass::Impassable => None,
    };
    let mut least = vec![vec![u64::MAX; cols]; rows];
    least[exit.0][exit.1] = 0;
    for _ in 0..rows * cols {
        for i in 0..rows {
            for j in 0..cols {
                let Some(own) = weight((i, j)) else { continue };
                if (i, j) == exit {
                    continue;
                }
                let mut beside = Vec::new();
                if i > 0 { beside.push((i - 1, j)); }
                if j > 0 { beside.push((i, j - 1)); }
                if i + 1 < rows { beside.push((i + 1, j)); }
                if j + 1 < cols { beside.push((i, j + 1)); }
                for next in beside {
                    if weight(next).is_some() && least[next.0][next.1] != u64::MAX {
                        least[i][j] = least[i][j].min(least[next.0][next.1] + own);
                    }
                }
            }
        }
    }
    for i in 0..rows {
        for j in 0..cols {
            if weight((i, j)).is_none() {
                assert_eq!(field.map[i][j], Evacuate::CanNotArrive);
            } else if (i, j) != exit {
                assert_eq!(cost_along(&field, &pass, (i, j), exit), least[i][j], "from {:?}", (i, j));
            }
        }
    }
}

#[test]
fn cells_that_are_cut_off_keep_what_they_held() {
    let pass = pass_of(&["..#.E"]);
    let mut field = StoreyEvacuation::init_from_pass(&pass);
    field.map[0][0] = Evacuate::Move(MoveDirection::Down);
    field.update_from_pass(&pass, (0, 4));
    assert_eq!(field.map[0][0], Evacuate::Move(MoveDirection::Down));
    assert_eq!(field.map[0][1], Evacuate::Move(MoveDirection::Stay));
    assert_eq!(field.map[0][2], Evacuate::CanNotArrive);
    assert_eq!(field.map[0][3], Evacuate::Move(MoveDirection::Up));
}

#[test]
fn an_exit_off_the_grid_or_in_a_wall_changes_nothing() {
    let pass = pass_of(&["..#"]);
    let fresh = StoreyEvacuation::init_from_pass(&pass);
    let mut field = StoreyEvacuation::init_from_pass(&pass);
    field.update_from_pass(&pass, (3, 3));
    assert_eq!(field.map, fresh.map);
    field.update_from_pass(&pass, (0, 2));
    assert_eq!(field.map, fresh.map);
}

#[test]
fn a_second_sweep_turns_the_field_to_another_exit() {
    let pass = pass_of(&["E..E"]);
    let mut field = StoreyEvacuation::init_from_pass(&pass);
    field.update_from_pass(&pass, (0, 3));
    assert_eq!(ahead(&field, (0, 1)), Some((0, 2)));
    assert_eq!(ahead(&field, (0, 0)), Some((0, 1)));
    field.update_from_pass(&pass, (0, 0));
    assert_eq!(ahead(&field, (0, 1)), Some((0, 0)));
    assert_eq!(ahead(&field, (0, 3)), Some((0, 2)));
    // the exit of the sweep keeps what the sweep before wrote
    assert_eq!(ahead(&field, (0, 0)), Some((0, 1)));
}

#[test]
fn of_two_first_steps_that_cost_the_same_the_one_found_first_stays() {
    let pass = pass_of(&["..", ".."]);
    let mut field = StoreyEvacuation::init_from_pass(&pass);
    field.update_from_pass(&pass, (0, 0));
    assert_eq!(field.map[0][0], Evacuate::Move(MoveDirection::Stay));
    assert_eq!(field.map[0][1], Evacuate::Move(MoveDirection::Down));
    assert_eq!(field.map[1][0], Evacuate::Move(MoveDirection::Right));
    // The far corner is as near through either cell beside it; the cell of
    // the exit's row is settled first and sends it to the row above.
    assert_eq!(field.map[1][1], Evacuate::Move(MoveDirection::Right));
    assert_eq!(ahead(&field, (1, 1)), Some((0, 1)));
}

#[test]
fn a_cost_as_low_as_the_one_a_cell_has_changes_nothing() {
    let mut pass = pass_of(&["...", "..."]);
    endanger(&mut pass, (0, 1), 1);
    endanger(&mut pass, (1, 0), 1);
    let mut field = StoreyEvacuation::init_from_pass(&pass);
    field.update_from_pass(&pass, (0, 0));
    // Both ways to the cell below the middle cost one unit; the one through
    // the exit's row was offered first.
    assert_eq!(field.map[1][1], Evacuate::Move(MoveDirection::Right));
    assert_eq!(field.map[0][2], Evacuate::Move(MoveDirection::Down));
    // Of the two cells beside the far corner, which cost the same, the one
    // below the middle leaves the waiting entries first.
    assert_eq!(field.map[1][2], Evacuate::Move(MoveDirection::Down));
}

#[test]
fn the_field_reads_danger_in_whole_units_only() {
    let mut coarse = pass_of(&["....", ".#..", "...."]);
    let mut fine = pass_of(&["....", ".#..", "...."]);
    let dangers = [
        ((0, 1), 3_000u64, 3_999u64),
        ((1, 0), 2_000, 2_001),
        ((2, 2), 0, 999),
        ((1, 2), 7_000, 7_500),
    ];
    for (cell, whole, more) in dangers {
        coarse.map[cell.0][cell.1] = Pass::Passable(Danger { value: whole });
        fine.map[cell.0][cell.1] = Pass::Passable(Danger { value: more });
    }
    let mut one = StoreyEvacuation::init_from_pass(&coarse);
    let mut other = StoreyEvacuation::init_from_pass(&fine);
    one.update_from_pass(&coarse, (2, 3));
    other.update_from_pass(&fine, (2, 3));
    for i in 0..3 {
        for j in 0..4 {
            assert_eq!(one.map[i][j], other.map[i][j], "cell ({}, {})", i, j);
        }
    }
}
