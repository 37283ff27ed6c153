use evacuation::plan::{MapAlbum, TileMap};
use evacuation::storey::{MapMarker, StoreyTable};
use evacuation::tile::TileType;

#[test]
fn a_new_plan_is_all_floor() {
    let plan = TileMap::new(3, 4);
    assert_eq!(plan.get_size(), (3, 4));
    for i in 0..3 {
        for j in 0..4 {
            assert_eq!(plan.get_tile(i, j), TileType::Floor);
        }
    }
}

#[test]
fn a_plan_without_rows_has_no_columns() {
    let plan = TileMap::new(0, 7);
    assert_eq!(plan.get_size(), (0, 0));
}

#[test]
fn set_tile_changes_one_cell() {
    let mut plan = TileMap::new(2, 2);
    plan.set_tile(1, 0, TileType::Wall);
    assert_eq!(plan.get_tile(1, 0), TileType::Wall);
    assert_eq!(plan.get_tile(0, 0), TileType::Floor);
    assert_eq!(plan.get_tile(0, 1), TileType::Floor);
    assert_eq!(plan.get_tile(1, 1), TileType::Floor);
}

#[test]
fn clean_turns_everything_into_floor() {
    let mut plan = TileMap::new(2, 3);
    plan.set_tile(0, 0, TileType::Exit);
    plan.set_tile(1, 2, TileType::Furniture);
    plan.clean();
    assert_eq!(plan.get_size(), (2, 3));
    for i in 0..2 {
        for j in 0..3 {
            assert_eq!(plan.get_tile(i, j), TileType::Floor);
        }
    }
}

#[test]
fn the_default_tile_is_floor() {
    assert_eq!(TileType::default(), TileType::Floor);
}

#[test]
fn a_table_finds_what_was_put_in() {
    let mut table: StoreyTable<u32> = StoreyTable::new();
    assert_eq!(table.len(), 0);
    table.insert(MapMarker::named("f1"), 1);
    table.insert(MapMarker::named("f2"), 2);
    assert_eq!(table.len(), 2);
    assert_eq!(table.get(&MapMarker::named("f1")), Some(&1));
    assert_eq!(table.get(&MapMarker::named("f2")), Some(&2));
    assert_eq!(table.get(&MapMarker::named("f3")), None);
    assert_eq!(table.find(&MapMarker::named("f2")), Some(1));
}

#[test]
fn a_table_keeps_one_value_per_storey() {
    let mut table: StoreyTable<u32> = StoreyTable::new();
    table.insert(MapMarker::named("f1"), 1);
    table.insert(MapMarker::named("f2"), 2);
    table.insert(MapMarker::named("f1"), 10);
    assert_eq!(table.len(), 2);
    assert_eq!(table.get(&MapMarker::named("f1")), Some(&10));
    assert_eq!(table.find(&MapMarker::named("f1")), Some(0));
}

#[test]
fn a_table_hands_out_what_it_removes() {
    let mut table: StoreyTable<u32> = StoreyTable::new();
    table.insert(MapMarker::named("a"), 1);
    table.insert(MapMarker::named("b"), 2);
    table.insert(MapMarker::named("c"), 3);
    assert_eq!(table.remove(&MapMarker::named("b")), Some(2));
    assert_eq!(table.remove(&MapMarker::named("b")), None);
    assert_eq!(table.len(), 2);
    assert_eq!(table.find(&MapMarker::named("c")), Some(1));
}

#[test]
fn markers_of_one_name_are_the_same() {
    let a = MapMarker::named("f1");
    assert!(a.same(&MapMarker::named("f1")));
    assert!(!a.same(&MapMarker::named("f2")));
    assert!(a.same(&a.copy()));
}

#[test]
fn the_default_album_holds_one_plan_of_floor() {
    let album = MapAlbum::default();
    assert_eq!(album.now_map.name, "map0");
    assert_eq!(album.maps.len(), 1);
    let plan = album.maps.get(&MapMarker::named("map0")).unwrap();
    assert_eq!(plan.get_size(), (40, 50));
    assert_eq!(plan.get_tile(39, 49), TileType::Floor);
}

#[test]
fn an_album_adds_removes_and_cleans_plans() {
    let mut album = MapAlbum::new();
    assert_eq!(album.now_map.name, "default");
    let mut plan = TileMap::new(2, 2);
    plan.set_tile(0, 1, TileType::Stone);
    album.add_map("f1".to_string(), plan);
    album.add_map("f2".to_string(), TileMap::new(1, 1));
    assert_eq!(album.maps.len(), 2);
    album.clean();
    assert_eq!(album.maps.get(&MapMarker::named("f1")).unwrap().get_tile(0, 1), TileType::Floor);
    album.remove_map(&MapMarker::named("f1"));
    assert_eq!(album.maps.len(), 1);
    assert!(album.maps.get(&MapMarker::named("f1")).is_none());
}

#[test]
fn an_album_goes_to_named_plans_and_back() {
    let mut album = MapAlbum::new();
    let mut plan = TileMap::new(1, 2);
    plan.set_tile(0, 1, TileType::Exit);
    album.add_map("f1".to_string(), plan);
    album.add_map("f2".to_string(), TileMap::new(2, 1));
    let named = album.into_string_map();
    assert_eq!(named.len(), 2);
    assert_eq!(named[0].0, "f1");
    assert_eq!(named[0].1.get_tile(0, 1), TileType::Exit);
    assert_eq!(named[1].0, "f2");
    let back = MapAlbum::from_string_map(named);
    assert_eq!(back.maps.len(), 2);
    assert_eq!(back.maps.get(&MapMarker::named("f1")).unwrap().get_tile(0, 1), TileType::Exit);
    assert_eq!(back.maps.get(&MapMarker::named("f2")).unwrap().get_size(), (2, 1));
}

#[test]
fn of_two_named_plans_the_later_one_stays() {
    let named = vec![
        ("f1".to_string(), TileMap::new(1, 1)),
        ("f1".to_string(), TileMap::new(3, 3)),
    ];
    let album = MapAlbum::from_string_map(named);
    assert_eq!(album.maps.len(), 1);
    assert_eq!(album.maps.get(&MapMarker::named("f1")).unwrap().get_size(), (3, 3));
}
