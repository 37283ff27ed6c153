//! What happens to the fields of a whole building: how they are set up from
//! the floor plans, and what one tick does to each storey.

use rand::rngs::StdRng;
use vstd::prelude::*;
use crate::fire::{
    burnt_field, caught_field, fresh_fire, smoked_field, sparked_field, BuildingFire, Fire,
        FireTile, StoreyFire,
};
use crate::human::row_first;
use crate::route::{at, in_grid};
use crate::pass::{fresh_pass, BuildingPass, StoreyPass};
use crate::plan::MapAlbum;
use crate::smoke::{
    diffused_field, fresh_smoke, opacity_of, BuildingSmoke, Smoke, SmokeTile, StoreySmoke,
};

verus! {

/// The storeys among the first `k` of `album`.
pub open spec fn first_storeys(album: &MapAlbum, k: int) -> Set<Seq<char>> {
    Set::new(|name: Seq<char>| exists|a: int| 0 <= a < k && album.maps.at(a, name))
}

/// The first `k` storeys of an album with `k` storeys are its storeys.
proof fn lemma_all_storeys(album: &MapAlbum)
    ensures
        first_storeys(album, album.maps.count() as int) == album.maps@.dom(),
{
    assert(first_storeys(album, album.maps.count() as int) =~= album.maps@.dom());
}

/// Gives every storey of `map_album` a fire field in which the furniture is
/// ready to burn and nothing else can. The fields of other storeys stay.
pub fn init_building_fire(building_fire: &mut BuildingFire, map_album: &MapAlbum)
    requires
        old(building_fire).wf(),
        map_album.wf(),
    ensures
        final(building_fire).wf(),
        final(building_fire).texture_path == old(building_fire).texture_path,
        final(building_fire).maps@.dom() == old(building_fire).maps@.dom().union(
            map_album.maps@.dom(),
        ),
        forall|name: Seq<char>|
            map_album.maps@.dom().contains(name) ==> fresh_fire(
                #[trigger] final(building_fire).maps@[name],
                map_album.maps@[name],
            ),
        forall|name: Seq<char>|
            old(building_fire).maps@.dom().contains(name) && !map_album.maps@.dom().contains(name)
                ==> #[trigger] final(building_fire).maps@[name] == old(building_fire).maps@[name],
{
    let mut k: usize = 0;
    while k < map_album.maps.entries.len()
        invariant
            k <= map_album.maps.count(),
            map_album.wf(),
            building_fire.wf(),
            building_fire.texture_path == old(building_fire).texture_path,
            building_fire.maps@.dom() == old(building_fire).maps@.dom().union(
                first_storeys(map_album, k as int),
            ),
            forall|a: int|
                0 <= a < k ==> fresh_fire(
                    building_fire.maps@[(#[trigger] map_album.maps.entries[a]).0@],
                    map_album.maps.entries[a].1,
                ),
            forall|name: Seq<char>|
                old(building_fire).maps@.dom().contains(name) && !first_storeys(
                    map_album,
                    k as int,
                ).contains(name) ==> #[trigger] building_fire.maps@[name]
                    == old(building_fire).maps@[name],
        decreases map_album.maps.count() - k,
    {
        let ghost before = building_fire.maps;
        let plan = &map_album.maps.entries[k].1;
        let marker = map_album.maps.entries[k].0.copy();
        let (rows, cols) = plan.get_size();
        let mut field = StoreyFire::new(rows, cols);
        field.init_from_map(plan);
        building_fire.maps.insert(marker, field);
        proof {
            let name = map_album.maps.entries[k as int].0@;
            assert(map_album.maps.at(k as int, name));
            assert(first_storeys(map_album, k + 1) =~= first_storeys(map_album, k as int).insert(
                name,
            ));
            assert(building_fire.maps@.dom() =~= old(building_fire).maps@.dom().union(
                first_storeys(map_album, k + 1),
            ));
            assert(fresh_fire(field, *plan));
            assert forall|a: int| 0 <= a < k + 1 implies fresh_fire(
                building_fire.maps@[(#[trigger] map_album.maps.entries[a]).0@],
                map_album.maps.entries[a].1,
            ) by {
                if a < k {
                    assert(map_album.maps.entries[a].0@ != map_album.maps.entries[k as int].0@);
                }
            }
            assert forall|i: int| 0 <= i < building_fire.maps.count() implies (
            #[trigger] building_fire.maps.entries[i]).1.wf() by {
                if i != building_fire.maps.place(name) {
                    assert(building_fire.maps.entries[i] == before.entries[i]);
                }
            }
        }
        k += 1;
    }
    proof {
        lemma_all_storeys(map_album);
        assert forall|name: Seq<char>| map_album.maps@.dom().contains(name) implies fresh_fire(
            #[trigger] building_fire.maps@[name],
            map_album.maps@[name],
        ) by {
            let a = map_album.maps.place(name);
            assert(map_album.maps.at(a, name));
            map_album.maps.lemma_place(a, name);
        }
    }
}

/// Gives every storey of `map_album` a smoke field that is clear, and closed
/// to smoke on walls and exits. The fields of other storeys stay.
pub fn init_building_smoke(building_smoke: &mut BuildingSmoke, map_album: &MapAlbum)
    requires
        old(building_smoke).wf(),
        map_album.wf(),
    ensures
        final(building_smoke).wf(),
        final(building_smoke).texture_path == old(building_smoke).texture_path,
        final(building_smoke).maps@.dom() == old(building_smoke).maps@.dom().union(
            map_album.maps@.dom(),
        ),
        forall|name: Seq<char>|
            map_album.maps@.dom().contains(name) ==> fresh_smoke(
                #[trigger] final(building_smoke).maps@[name],
                map_album.maps@[name],
            ),
        forall|name: Seq<char>|
            old(building_smoke).maps@.dom().contains(name) && !map_album.maps@.dom().contains(name)
                ==> #[trigger] final(building_smoke).maps@[name] == old(building_smoke).maps@[name],
{
    let mut k: usize = 0;
    while k < map_album.maps.entries.len()
        invariant
            k <= map_album.maps.count(),
            map_album.wf(),
            building_smoke.wf(),
            building_smoke.texture_path == old(building_smoke).texture_path,
            building_smoke.maps@.dom() == old(building_smoke).maps@.dom().union(
                first_storeys(map_album, k as int),
            ),
            forall|a: int|
                0 <= a < k ==> fresh_smoke(
                    building_smoke.maps@[(#[trigger] map_album.maps.entries[a]).0@],
                    map_album.maps.entries[a].1,
                ),
            forall|name: Seq<char>|
                old(building_smoke).maps@.dom().contains(name) && !first_storeys(
                    map_album,
                    k as int,
                ).contains(name) ==> #[trigger] building_smoke.maps@[name]
                    == old(building_smoke).maps@[name],
        decreases map_album.maps.count() - k,
    {
        let ghost before = building_smoke.maps;
        let plan = &map_album.maps.entries[k].1;
        let marker = map_album.maps.entries[k].0.copy();
        let (rows, cols) = plan.get_size();
        let mut field = StoreySmoke::new(rows, cols);
        field.init_from_map(plan);
        building_smoke.maps.insert(marker, field);
        proof {
            let name = map_album.maps.entries[k as int].0@;
            assert(map_album.maps.at(k as int, name));
            assert(first_storeys(map_album, k + 1) =~= first_storeys(map_album, k as int).insert(
                name,
            ));
            assert(building_smoke.maps@.dom() =~= old(building_smoke).maps@.dom().union(
                first_storeys(map_album, k + 1),
            ));
            assert(fresh_smoke(field, *plan));
            assert forall|a: int| 0 <= a < k + 1 implies fresh_smoke(
                building_smoke.maps@[(#[trigger] map_album.maps.entries[a]).0@],
                map_album.maps.entries[a].1,
            ) by {
                if a < k {
                    assert(map_album.maps.entries[a].0@ != map_album.maps.entries[k as int].0@);
                }
            }
            assert forall|i: int| 0 <= i < building_smoke.maps.count() implies (
            #[trigger] building_smoke.maps.entries[i]).1.wf() by {
                if i != building_smoke.maps.place(name) {
                    assert(building_smoke.maps.entries[i] == before.entries[i]);
                }
            }
        }
        k += 1;
    }
    proof {
        lemma_all_storeys(map_album);
        assert forall|name: Seq<char>| map_album.maps@.dom().contains(name) implies fresh_smoke(
            #[trigger] building_smoke.maps@[name],
            map_album.maps@[name],
        ) by {
            let a = map_album.maps.place(name);
            assert(map_album.maps.at(a, name));
            map_album.maps.lemma_place(a, name);
        }
    }
}

/// Gives every storey of `map_album` the field of its walkable cells, with
/// its exits. The fields of other storeys stay.
pub fn init_building_pass(building_pass: &mut BuildingPass, map_album: &MapAlbum)
    requires
        old(building_pass).wf(),
        map_album.wf(),
    ensures
        final(building_pass).wf(),
        final(building_pass).maps@.dom() == old(building_pass).maps@.dom().union(
            map_album.maps@.dom(),
        ),
        forall|name: Seq<char>|
            map_album.maps@.dom().contains(name) ==> fresh_pass(
                #[trigger] final(building_pass).maps@[name],
                map_album.maps@[name],
            ),
        forall|name: Seq<char>|
            old(building_pass).maps@.dom().contains(name) && !map_album.maps@.dom().contains(name)
                ==> #[trigger] final(building_pass).maps@[name] == old(building_pass).maps@[name],
{
    let mut k: usize = 0;
    while k < map_album.maps.entries.len()
        invariant
            k <= map_album.maps.count(),
            map_album.wf(),
            building_pass.wf(),
            building_pass.maps@.dom() == old(building_pass).maps@.dom().union(
                first_storeys(map_album, k as int),
            ),
            forall|a: int|
                0 <= a < k ==> fresh_pass(
                    building_pass.maps@[(#[trigger] map_album.maps.entries[a]).0@],
                    map_album.maps.entries[a].1,
                ),
            forall|name: Seq<char>|
                old(building_pass).maps@.dom().contains(name) && !first_storeys(
                    map_album,
                    k as int,
                ).contains(name) ==> #[trigger] building_pass.maps@[name]
                    == old(building_pass).maps@[name],
        decreases map_album.maps.count() - k,
    {
        let ghost before = building_pass.maps;
        let plan = &map_album.maps.entries[k].1;
        let marker = map_album.maps.entries[k].0.copy();
        let (rows, cols) = plan.get_size();
        let mut field = StoreyPass::new(rows, cols);
        field.init_from_map(plan);
        building_pass.maps.insert(marker, field);
        proof {
            let name = map_album.maps.entries[k as int].0@;
            assert(map_album.maps.at(k as int, name));
            assert(first_storeys(map_album, k + 1) =~= first_storeys(map_album, k as int).insert(
                name,
            ));
            assert(building_pass.maps@.dom() =~= old(building_pass).maps@.dom().union(
                first_storeys(map_album, k + 1),
            ));
            assert(fresh_pass(field, *plan));
            assert forall|a: int| 0 <= a < k + 1 implies fresh_pass(
                building_pass.maps@[(#[trigger] map_album.maps.entries[a]).0@],
                map_album.maps.entries[a].1,
            ) by {
                if a < k {
                    assert(map_album.maps.entries[a].0@ != map_album.maps.entries[k as int].0@);
                }
            }
            assert forall|i: int| 0 <= i < building_pass.maps.count() implies (
            #[trigger] building_pass.maps.entries[i]).1.wf() by {
                if i != building_pass.maps.place(name) {
                    assert(building_pass.maps.entries[i] == before.entries[i]);
                }
            }
        }
        k += 1;
    }
    proof {
        lemma_all_storeys(map_album);
        assert forall|name: Seq<char>| map_album.maps@.dom().contains(name) implies fresh_pass(
            #[trigger] building_pass.maps@[name],
            map_album.maps@[name],
        ) by {
            let a = map_album.maps.place(name);
            assert(map_album.maps.at(a, name));
            map_album.maps.lemma_place(a, name);
        }
    }
}

/// Sets every unburnt cell of every storey on fire with a chance of one in
/// twenty.
pub fn init_random_fire(building_fire: &mut BuildingFire, rng: &mut StdRng)
    requires
        old(building_fire).wf(),
    ensures
        final(building_fire).wf(),
        final(building_fire).texture_path == old(building_fire).texture_path,
        final(building_fire).maps.count() == old(building_fire).maps.count(),
        forall|k: int|
            0 <= k < old(building_fire).maps.count() ==> (
            #[trigger] final(building_fire).maps.entries[k]).0 == old(building_fire).maps.entries[k].0
                && sparked_field(
                old(building_fire).maps.entries[k].1,
                final(building_fire).maps.entries[k].1,
                50,
            ),
{
    let mut k: usize = 0;
    while k < building_fire.maps.entries.len()
        invariant
            k <= building_fire.maps.count() == old(building_fire).maps.count(),
            building_fire.wf(),
            building_fire.texture_path == old(building_fire).texture_path,
            forall|a: int|
                0 <= a < old(building_fire).maps.count() ==> (
                #[trigger] building_fire.maps.entries[a]).0 == old(building_fire).maps.entries[a].0,
            forall|a: int|
                k <= a < old(building_fire).maps.count() ==> #[trigger] building_fire.maps.entries[a]
                    == old(building_fire).maps.entries[a],
            forall|a: int|
                0 <= a < k ==> sparked_field(
                    old(building_fire).maps.entries[a].1,
                    (#[trigger] building_fire.maps.entries[a]).1,
                    50,
                ),
        decreases building_fire.maps.count() - k,
    {
        assert(building_fire.maps.entries[k as int].1.wf());
        building_fire.maps.entries[k].1.get_p_fire(50, rng);
        k += 1;
    }
}

/// Lets the fire spread on every storey.
pub fn ignition(building_fire: &mut BuildingFire, rng: &mut StdRng)
    requires
        old(building_fire).wf(),
    ensures
        final(building_fire).wf(),
        final(building_fire).texture_path == old(building_fire).texture_path,
        final(building_fire).maps.count() == old(building_fire).maps.count(),
        forall|k: int|
            0 <= k < old(building_fire).maps.count() ==> (
            #[trigger] final(building_fire).maps.entries[k]).0 == old(building_fire).maps.entries[k].0
                && caught_field(
                old(building_fire).maps.entries[k].1,
                final(building_fire).maps.entries[k].1,
            ),
{
    let mut k: usize = 0;
    while k < building_fire.maps.entries.len()
        invariant
            k <= building_fire.maps.count() == old(building_fire).maps.count(),
            building_fire.wf(),
            building_fire.texture_path == old(building_fire).texture_path,
            forall|a: int|
                0 <= a < old(building_fire).maps.count() ==> (
                #[trigger] building_fire.maps.entries[a]).0 == old(building_fire).maps.entries[a].0,
            forall|a: int|
                k <= a < old(building_fire).maps.count() ==> #[trigger] building_fire.maps.entries[a]
                    == old(building_fire).maps.entries[a],
            forall|a: int|
                0 <= a < k ==> caught_field(
                    old(building_fire).maps.entries[a].1,
                    (#[trigger] building_fire.maps.entries[a]).1,
                ),
        decreases building_fire.maps.count() - k,
    {
        assert(building_fire.maps.entries[k as int].1.wf());
        building_fire.maps.entries[k].1.get_neighbours_fire_on(rng);
        k += 1;
    }
}

/// Whether every storey that burns has a smoke field of its shape.
pub open spec fn smoke_covers(building_fire: &BuildingFire, building_smoke: &BuildingSmoke) -> bool {
    forall|k: int|
        0 <= k < building_fire.maps.count() ==> {
            let name = (#[trigger] building_fire.maps.entries[k]).0@;
            &&& building_smoke.maps.has(name)
            &&& building_smoke.maps@[name].rows() == building_fire.maps.entries[k].1.rows()
            &&& building_smoke.maps@[name].cols() == building_fire.maps.entries[k].1.cols()
        }
}

/// Lets `delta` milliseconds pass on every fire: the timers of the burning
/// cells go on, the smoke that they emit goes into the smoke field of
/// their storey, and the cells whose time is up have burnt out. The smoke of
/// storeys without a fire field stays as it is.
pub fn burning(building_fire: &mut BuildingFire, building_smoke: &mut BuildingSmoke, delta: u32)
    requires
        old(building_fire).wf(),
        old(building_smoke).wf(),
        smoke_covers(old(building_fire), old(building_smoke)),
    ensures
        final(building_fire).wf(),
        final(building_smoke).wf(),
        smoke_covers(final(building_fire), final(building_smoke)),
        final(building_fire).texture_path == old(building_fire).texture_path,
        final(building_smoke).texture_path == old(building_smoke).texture_path,
        final(building_fire).maps.count() == old(building_fire).maps.count(),
        final(building_smoke).maps.count() == old(building_smoke).maps.count(),
        forall|k: int|
            0 <= k < old(building_fire).maps.count() ==> (
            #[trigger] final(building_fire).maps.entries[k]).0 == old(building_fire).maps.entries[k].0
                && burnt_field(
                old(building_fire).maps.entries[k].1,
                final(building_fire).maps.entries[k].1,
                delta,
            ),
        forall|k: int|
            0 <= k < old(building_smoke).maps.count() ==> (
            #[trigger] final(building_smoke).maps.entries[k]).0 == old(building_smoke).maps.entries[k].0
                && final(building_smoke).maps.entries[k].1.rows()
                == old(building_smoke).maps.entries[k].1.rows()
                && final(building_smoke).maps.entries[k].1.cols()
                == old(building_smoke).maps.entries[k].1.cols(),
        forall|k: int|
            0 <= k < old(building_fire).maps.count() ==> smoked_field(
                old(building_smoke).maps@[(#[trigger] old(building_fire).maps.entries[k]).0@],
                final(building_smoke).maps@[old(building_fire).maps.entries[k].0@],
                old(building_fire).maps.entries[k].1,
                delta,
            ),
        forall|name: Seq<char>|
            old(building_smoke).maps.has(name) && !old(building_fire).maps.has(name)
                ==> #[trigger] final(building_smoke).maps@[name] == old(building_smoke).maps@[name],
{
    let mut k: usize = 0;
    while k < building_fire.maps.entries.len()
        invariant
            k <= building_fire.maps.count() == old(building_fire).maps.count(),
            building_smoke.maps.count() == old(building_smoke).maps.count(),
            old(building_fire).wf(),
            old(building_smoke).wf(),
            building_fire.wf(),
            building_smoke.wf(),
            building_fire.texture_path == old(building_fire).texture_path,
            building_smoke.texture_path == old(building_smoke).texture_path,
            smoke_covers(old(building_fire), old(building_smoke)),
            forall|a: int|
                0 <= a < old(building_fire).maps.count() ==> (
                #[trigger] building_fire.maps.entries[a]).0 == old(building_fire).maps.entries[a].0,
            forall|a: int|
                k <= a < old(building_fire).maps.count() ==> #[trigger] building_fire.maps.entries[a]
                    == old(building_fire).maps.entries[a],
            forall|a: int|
                0 <= a < k ==> burnt_field(
                    old(building_fire).maps.entries[a].1,
                    (#[trigger] building_fire.maps.entries[a]).1,
                    delta,
                ),
            forall|b: int|
                0 <= b < old(building_smoke).maps.count() ==> (
                #[trigger] building_smoke.maps.entries[b]).0 == old(building_smoke).maps.entries[b].0,
            forall|b: int|
                0 <= b < old(building_smoke).maps.count() ==> (
                #[trigger] building_smoke.maps.entries[b]).1.rows()
                    == old(building_smoke).maps.entries[b].1.rows()
                    && building_smoke.maps.entries[b].1.cols()
                    == old(building_smoke).maps.entries[b].1.cols(),
            forall|a: int|
                0 <= a < k ==> smoked_field(
                    old(building_smoke).maps.entries[old(building_smoke).maps.place(
                        (#[trigger] old(building_fire).maps.entries[a]).0@,
                    )].1,
                    building_smoke.maps.entries[old(building_smoke).maps.place(
                        old(building_fire).maps.entries[a].0@,
                    )].1,
                    old(building_fire).maps.entries[a].1,
                    delta,
                ),
            forall|b: int|
                0 <= b < old(building_smoke).maps.count() && (forall|a: int|
                    0 <= a < k ==> (#[trigger] old(building_fire).maps.entries[a]).0@
                        != old(building_smoke).maps.entries[b].0@)
                        ==> #[trigger] building_smoke.maps.entries[b]
                        == old(building_smoke).maps.entries[b],
        decreases building_fire.maps.count() - k,
    {
        let ghost smoke_before = building_smoke.maps;
        let ghost name = building_fire.maps.entries[k as int].0@;
        assert(building_fire.maps.entries[k as int].1.wf());
        assert(old(building_fire).maps.entries[k as int].0@ == name);
        let place = building_smoke.maps.find(&building_fire.maps.entries[k].0);
        proof {
            let p = old(building_smoke).maps.place(name);
            assert(old(building_smoke).maps.at(p, name));
            assert(building_smoke.maps.at(p, name));
            old(building_smoke).maps.lemma_place(p, name);
            building_smoke.maps.lemma_place(p, name);
        }
        match place {
            Some(p) => {
                proof {
                    building_smoke.maps.lemma_place(p as int, name);
                    assert(old(building_smoke).maps.at(p as int, name));
                    old(building_smoke).maps.lemma_place(p as int, name);
                    assert(building_smoke.maps.entries[p as int].1.wf());
                    assert forall|a: int| 0 <= a < k implies (
                    #[trigger] old(building_fire).maps.entries[a]).0@
                        != old(building_smoke).maps.entries[p as int].0@ by {
                        assert(old(building_fire).maps.entries[a].0@
                            != old(building_fire).maps.entries[k as int].0@);
                    }
                    assert(building_smoke.maps.entries[p as int]
                        == old(building_smoke).maps.entries[p as int]);
                }
                building_fire.maps.entries[k].1.burn(&mut building_smoke.maps.entries[p].1, delta);
                proof {
                    assert(smoked_field(
                        old(building_smoke).maps.entries[p as int].1,
                        building_smoke.maps.entries[p as int].1,
                        old(building_fire).maps.entries[k as int].1,
                        delta,
                    ));
                    assert forall|a: int| 0 <= a < k + 1 implies smoked_field(
                        old(building_smoke).maps.entries[old(building_smoke).maps.place(
                            (#[trigger] old(building_fire).maps.entries[a]).0@,
                        )].1,
                        building_smoke.maps.entries[old(building_smoke).maps.place(
                            old(building_fire).maps.entries[a].0@,
                        )].1,
                        old(building_fire).maps.entries[a].1,
                        delta,
                    ) by {
                        if a < k {
                            let q = old(building_smoke).maps.place(
                                old(building_fire).maps.entries[a].0@,
                            );
                            let other = old(building_fire).maps.entries[a].0@;
                            assert(old(building_fire).maps.entries[a].0@
                                != old(building_fire).maps.entries[k as int].0@);
                            assert(old(building_smoke).maps.has(other));
                            assert(old(building_smoke).maps.at(q, other));
                            assert(q != p);
                            assert(building_smoke.maps.entries[q] == smoke_before.entries[q]);
                        }
                    }
                    assert forall|b: int|
                        0 <= b < old(building_smoke).maps.count() && (forall|a: int|
                            0 <= a < k + 1 ==> (#[trigger] old(building_fire).maps.entries[a]).0@
                                != old(building_smoke).maps.entries[b].0@)
                                    implies #[trigger] building_smoke.maps.entries[b]
                        == old(building_smoke).maps.entries[b] by {
                        assert(old(building_fire).maps.entries[k as int].0@
                            != old(building_smoke).maps.entries[b].0@);
                        assert(b != p);
                        assert(building_smoke.maps.entries[b] == smoke_before.entries[b]);
                        assert forall|a: int| 0 <= a < k implies (
                        #[trigger] old(building_fire).maps.entries[a]).0@
                            != old(building_smoke).maps.entries[b].0@ by {}
                    }
                    assert forall|b: int| 0 <= b < building_smoke.maps.count() implies (
                    #[trigger] building_smoke.maps.entries[b]).1.wf() by {
                        if b != p {
                            assert(building_smoke.maps.entries[b] == smoke_before.entries[b]);
                        }
                    }
                    assert forall|a: int| 0 <= a < building_fire.maps.count() implies (
                    #[trigger] building_fire.maps.entries[a]).1.wf() by {}
                }
            },
            None => {
                proof {
                    assert(building_smoke.maps.has(name));
                }
            },
        }
        k += 1;
    }
    proof {
        assert forall|a: int| 0 <= a < old(building_fire).maps.count() implies smoked_field(
            old(building_smoke).maps@[(#[trigger] old(building_fire).maps.entries[a]).0@],
            building_smoke.maps@[old(building_fire).maps.entries[a].0@],
            old(building_fire).maps.entries[a].1,
            delta,
        ) by {
            let name = old(building_fire).maps.entries[a].0@;
            let q = old(building_smoke).maps.place(name);
            assert(old(building_smoke).maps.has(name));
            assert(old(building_smoke).maps.at(q, name));
            assert(building_smoke.maps.at(q, name));
            building_smoke.maps.lemma_place(q, name);
        }
        assert forall|name: Seq<char>|
            old(building_smoke).maps.has(name) && !old(building_fire).maps.has(
                name,
            ) implies #[trigger] building_smoke.maps@[name] == old(building_smoke).maps@[name] by {
            let b = old(building_smoke).maps.place(name);
            assert(old(building_smoke).maps.at(b, name));
            assert forall|a: int| 0 <= a < old(building_fire).maps.count() implies (
            #[trigger] old(building_fire).maps.entries[a]).0@
                != old(building_smoke).maps.entries[b].0@ by {
                if old(building_fire).maps.entries[a].0@ == name {
                    assert(old(building_fire).maps.at(a, name));
                }
            }
            assert(building_smoke.maps.at(b, name));
            building_smoke.maps.lemma_place(b, name);
        }
        assert forall|a: int| 0 <= a < building_fire.maps.count() implies {
            let name = (#[trigger] building_fire.maps.entries[a]).0@;
            &&& building_smoke.maps.has(name)
            &&& building_smoke.maps@[name].rows() == building_fire.maps.entries[a].1.rows()
            &&& building_smoke.maps@[name].cols() == building_fire.maps.entries[a].1.cols()
        } by {
            let name = building_fire.maps.entries[a].0@;
            assert(old(building_fire).maps.entries[a].0@ == name);
            let q = old(building_smoke).maps.place(name);
            assert(old(building_smoke).maps.has(name));
            assert(old(building_smoke).maps.at(q, name));
            old(building_smoke).maps.lemma_place(q, name);
            assert(building_smoke.maps.at(q, name));
            building_smoke.maps.lemma_place(q, name);
            assert(burnt_field(
                old(building_fire).maps.entries[a].1,
                building_fire.maps.entries[a].1,
                delta,
            ));
        }
    }
}

/// One diffusion step of the smoke of every storey.
pub fn smoke_diffusion(building_smoke: &mut BuildingSmoke)
    requires
        old(building_smoke).wf(),
    ensures
        final(building_smoke).wf(),
        final(building_smoke).texture_path == old(building_smoke).texture_path,
        final(building_smoke).maps.count() == old(building_smoke).maps.count(),
        forall|k: int|
            0 <= k < old(building_smoke).maps.count() ==> (
            #[trigger] final(building_smoke).maps.entries[k]).0 == old(building_smoke).maps.entries[k].0
                && diffused_field(
                old(building_smoke).maps.entries[k].1,
                final(building_smoke).maps.entries[k].1,
            ),
{
    let mut k: usize = 0;
    while k < building_smoke.maps.entries.len()
        invariant
            k <= building_smoke.maps.count() == old(building_smoke).maps.count(),
            building_smoke.wf(),
            building_smoke.texture_path == old(building_smoke).texture_path,
            forall|a: int|
                0 <= a < old(building_smoke).maps.count() ==> (
                #[trigger] building_smoke.maps.entries[a]).0 == old(building_smoke).maps.entries[a].0,
            forall|a: int|
                k <= a < old(building_smoke).maps.count() ==> #[trigger] building_smoke.maps.entries[a]
                    == old(building_smoke).maps.entries[a],
            forall|a: int|
                0 <= a < k ==> diffused_field(
                    old(building_smoke).maps.entries[a].1,
                    (#[trigger] building_smoke.maps.entries[a]).1,
                ),
        decreases building_smoke.maps.count() - k,
    {
        assert(building_smoke.maps.entries[k as int].1.wf());
        building_smoke.maps.entries[k].1.diffuse();
        k += 1;
    }
}

/// Whether `tiles` lists the cells of `field` that can burn or burn, each
/// once, row by row.
pub open spec fn lists_fires(tiles: Seq<FireTile>, field: Seq<Vec<Fire>>) -> bool {
    &&& forall|k: int|
        0 <= k < tiles.len() ==> in_grid(field, (#[trigger] tiles[k]).pos) && !(at(field, tiles[k].pos)
            is NeverBurn)
    &&& forall|c: (usize, usize)|
        in_grid(field, c) && !(#[trigger] at(field, c) is NeverBurn) ==> exists|k: int|
            0 <= k < tiles.len() && (#[trigger] tiles[k]).pos == c
    &&& forall|a: int, b: int|
        0 <= a < b < tiles.len() ==> row_first((#[trigger] tiles[a]).pos, (#[trigger] tiles[b]).pos)
}

/// The cells of `storey` that get a fire sprite: those that can burn or
/// burn, row by row.
pub fn spawn_fire_sprite(storey: &StoreyFire) -> (tiles: Vec<FireTile>)
    requires
        storey.wf(),
    ensures
        lists_fires(tiles@, storey.map@),
{
    let rows = storey.map.len();
    let mut tiles: Vec<FireTile> = Vec::new();
    let mut i: usize = 0;
    while i < rows
        invariant
            i <= rows,
            rows == storey.rows(),
            storey.wf(),
            forall|k: int|
                0 <= k < tiles@.len() ==> in_grid(storey.map@, (#[trigger] tiles[k]).pos) && !(at(
                    storey.map@,
                    tiles[k].pos,
                ) is NeverBurn) && tiles[k].pos.0 < i,
            forall|c: (usize, usize)|
                in_grid(storey.map@, c) && c.0 < i && !(#[trigger] at(storey.map@, c) is NeverBurn)
                    ==> exists|k: int| 0 <= k < tiles@.len() && (#[trigger] tiles[k]).pos == c,
            forall|a: int, b: int|
                0 <= a < b < tiles@.len() ==> row_first(
                    (#[trigger] tiles[a]).pos,
                    (#[trigger] tiles[b]).pos,
                ),
        decreases rows - i,
    {
        let cols = storey.map[i].len();
        let mut j: usize = 0;
        while j < cols
            invariant
                i < rows,
                j <= cols,
                rows == storey.rows(),
                cols == storey.cols(),
                storey.wf(),
                forall|k: int|
                    0 <= k < tiles@.len() ==> in_grid(storey.map@, (#[trigger] tiles[k]).pos) && !(at(
                        storey.map@,
                        tiles[k].pos,
                    ) is NeverBurn) && (tiles[k].pos.0 < i || (tiles[k].pos.0 == i && tiles[k].pos.1
                        < j)),
                forall|c: (usize, usize)|
                    in_grid(storey.map@, c) && (c.0 < i || (c.0 == i && c.1 < j)) && !(#[trigger] at(
                        storey.map@,
                        c,
                    ) is NeverBurn) ==> exists|k: int|
                        0 <= k < tiles@.len() && (#[trigger] tiles[k]).pos == c,
                forall|a: int, b: int|
                    0 <= a < b < tiles@.len() ==> row_first(
                        (#[trigger] tiles[a]).pos,
                        (#[trigger] tiles[b]).pos,
                    ),
            decreases cols - j,
        {
            let ghost seen = tiles@;
            let shown = match storey.map[i][j] {
                Fire::NeverBurn => false,
                _ => true,
            };
            if shown {
                tiles.push(FireTile::new(i, j));
            }
            proof {
                assert forall|k: int| 0 <= k < seen.len() implies tiles[k] == seen[k] by {}
                assert forall|c: (usize, usize)|
                    in_grid(storey.map@, c) && (c.0 < i || (c.0 == i && c.1 < j + 1)) && !(
                    #[trigger] at(storey.map@, c) is NeverBurn) implies exists|k: int|
                    0 <= k < tiles@.len() && (#[trigger] tiles[k]).pos == c by {
                    if c == (i, j) {
                        assert(tiles[seen.len() as int].pos == c);
                    } else {
                        let k = choose|k: int| 0 <= k < seen.len() && (#[trigger] seen[k]).pos == c;
                        assert(tiles[k] == seen[k]);
                    }
                }
            }
            j += 1;
        }
        i += 1;
    }
    tiles
}

/// Whether `tiles` lists the cells of `field` that smoke can enter, each
/// once, row by row.
pub open spec fn lists_smoke(tiles: Seq<SmokeTile>, field: Seq<Vec<Smoke>>) -> bool {
    &&& forall|k: int|
        0 <= k < tiles.len() ==> in_grid(field, (#[trigger] tiles[k]).pos) && at(field, tiles[k].pos)
            is Diffusible
    &&& forall|c: (usize, usize)|
        in_grid(field, c) && #[trigger] at(field, c) is Diffusible ==> exists|k: int|
            0 <= k < tiles.len() && (#[trigger] tiles[k]).pos == c
    &&& forall|a: int, b: int|
        0 <= a < b < tiles.len() ==> row_first((#[trigger] tiles[a]).pos, (#[trigger] tiles[b]).pos)
}

/// The cells of `storey` that get a smoke sprite: those that smoke can
/// enter, row by row.
pub fn spawn_smoke_sprite(storey: &StoreySmoke) -> (tiles: Vec<SmokeTile>)
    requires
        storey.wf(),
    ensures
        lists_smoke(tiles@, storey.map@),
{
    let rows = storey.map.len();
    let mut tiles: Vec<SmokeTile> = Vec::new();
    let mut i: usize = 0;
    while i < rows
        invariant
            i <= rows,
            rows == storey.rows(),
            storey.wf(),
            forall|k: int|
                0 <= k < tiles@.len() ==> in_grid(storey.map@, (#[trigger] tiles[k]).pos) && at(
                    storey.map@,
                    tiles[k].pos,
                ) is Diffusible && tiles[k].pos.0 < i,
            forall|c: (usize, usize)|
                in_grid(storey.map@, c) && c.0 < i && #[trigger] at(storey.map@, c) is Diffusible
                    ==> exists|k: int| 0 <= k < tiles@.len() && (#[trigger] tiles[k]).pos == c,
            forall|a: int, b: int|
                0 <= a < b < tiles@.len() ==> row_first(
                    (#[trigger] tiles[a]).pos,
                    (#[trigger] tiles[b]).pos,
                ),
        decreases rows - i,
    {
        let cols = storey.map[i].len();
        let mut j: usize = 0;
        while j < cols
            invariant
                i < rows,
                j <= cols,
                rows == storey.rows(),
                cols == storey.cols(),
                storey.wf(),
                forall|k: int|
                    0 <= k < tiles@.len() ==> in_grid(storey.map@, (#[trigger] tiles[k]).pos) && at(
                        storey.map@,
                        tiles[k].pos,
                    ) is Diffusible && (tiles[k].pos.0 < i || (tiles[k].pos.0 == i && tiles[k].pos.1
                        < j)),
                forall|c: (usize, usize)|
                    in_grid(storey.map@, c) && (c.0 < i || (c.0 == i && c.1 < j)) && #[trigger] at(
                        storey.map@,
                        c,
                    ) is Diffusible ==> exists|k: int|
                        0 <= k < tiles@.len() && (#[trigger] tiles[k]).pos == c,
                forall|a: int, b: int|
                    0 <= a < b < tiles@.len() ==> row_first(
                        (#[trigger] tiles[a]).pos,
                        (#[trigger] tiles[b]).pos,
                    ),
            decreases cols - j,
        {
            let ghost seen = tiles@;
            let shown = match storey.map[i][j] {
                Smoke::Diffusible(_) => true,
                Smoke::InDiffusible => false,
            };
            if shown {
                tiles.push(SmokeTile::new(i, j));
            }
            proof {
                assert forall|k: int| 0 <= k < seen.len() implies tiles[k] == seen[k] by {}
                assert forall|c: (usize, usize)|
                    in_grid(storey.map@, c) && (c.0 < i || (c.0 == i && c.1 < j + 1)) && #[trigger] at(
                        storey.map@,
                        c,
                    ) is Diffusible implies exists|k: int|
                    0 <= k < tiles@.len() && (#[trigger] tiles[k]).pos == c by {
                    if c == (i, j) {
                        assert(tiles[seen.len() as int].pos == c);
                    } else {
                        let k = choose|k: int| 0 <= k < seen.len() && (#[trigger] seen[k]).pos == c;
                        assert(tiles[k] == seen[k]);
                    }
                }
            }
            j += 1;
        }
        i += 1;
    }
    tiles
}

/// The opacity, in thousandths, that the fire sprite on `tile` takes: all of
/// it while the cell burns, none once it has burnt out; nothing changes
/// while the cell is unburnt, or where `tile` is no cell of the storey.
pub open spec fn fire_opacity(field: Seq<Vec<Fire>>, tile: FireTile) -> Option<u64> {
    if !in_grid(field, tile.pos) {
        None
    } else {
        match at(field, tile.pos) {
            Fire::On(_) => Some(1000u64),
            Fire::NeverBurn => Some(0u64),
            Fire::Off => None,
        }
    }
}

/// The opacity that the fire sprite on `tile` is to take, if it changes.
pub fn update_fire_visibility(storey: &StoreyFire, tile: &FireTile) -> (opacity: Option<u64>)
    ensures
        opacity == fire_opacity(storey.map@, *tile),
{
    let (i, j) = tile.pos;
    if i < storey.map.len() && j < storey.map[i].len() {
        match storey.map[i][j] {
            Fire::On(_) => Some(1000),
            Fire::NeverBurn => Some(0),
            Fire::Off => None,
        }
    } else {
        None
    }
}

/// The opacity, in thousandths, of the smoke sprite on `tile`: the density
/// on its cell, held at 1000; nothing where `tile` is no cell of the storey.
pub open spec fn smoke_opacity(field: Seq<Vec<Smoke>>, tile: SmokeTile) -> u64 {
    if in_grid(field, tile.pos) {
        opacity_of(at(field, tile.pos).density())
    } else {
        0
    }
}

/// The opacity that the smoke sprite on `tile` is to take.
pub fn update_smoke_sprite(storey: &StoreySmoke, tile: &SmokeTile) -> (opacity: u64)
    ensures
        opacity == smoke_opacity(storey.map@, *tile),
{
    let (i, j) = tile.pos;
    if i < storey.map.len() && j < storey.map[i].len() {
        storey.map[i][j].opacity()
    } else {
        0
    }
}

} // verus!
