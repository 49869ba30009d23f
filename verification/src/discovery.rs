//! What the discovery of worlds promises, said of the directories and the files
//! that are there.

use vstd::prelude::*;
use vstd::utf8::encode_utf8;
use crate::order::law_sorting_keeps_elements;
use crate::order::{law_texts_are_ordered_by_first_difference, sorted_from, text_before, Ranked};
use crate::paths::{path_texts, FilePath};
use crate::naming::Dimension;
use crate::picking::lemma_filter_map_has;
use crate::roots::always_says;
use crate::text::begins_with;
use crate::text::{decimal_text, i32_text, law_decimal_reads_back};
use crate::worlds::{describes_world, discovers, has_world};
use crate::worlds::{describe_dimensions, describe_multiworlds, describes_dimension};
use crate::worlds::{describes_minimap_world, describes_multiworld, dimension_items};
use crate::worlds::{folder_waypoints, law_minimap_only_worlds_are_new, minimap_only, offered};
use crate::worlds::{law_waypoints_are_never_lost, lists_dimensions, lists_multiworlds};
use crate::worlds::{lists_waypoints, multiworld_items, settled, waypoint_texts, world_map_roots};
use crate::worlds::{cave_layer_of, with_minimap_worlds, world_waypoints, CaveItem, DimEntry};
use crate::worlds::{database_names, MinimapFolder, MinimapRoot, MinimapWorld, MwEntry, MwItem};
use crate::worlds::{finds_minimap, holds_map_data, minimap_roots, CandidateEntry};
use crate::worlds::{WaypointFolder, WaypointName, World, WorldItem};

verus! {

// ------------------------------------------------------------- candidates --

/// Whatever scanning the directory `at` brings, `w` is among it.
pub open spec fn scan_brings<S: Fn(&FilePath) -> Option<Vec<World>>>(
    scan: S,
    at: Seq<Seq<u8>>,
    w: World,
) -> bool {
    forall|p: FilePath, o: Option<Vec<World>>| #[trigger]
        call_ensures(scan, (&p,), o) && p@ == at ==> (o matches Some(found) && found@.contains(w))
}

/// `at` is a directory, no world lies in it, and taken as a world it is `w`.
pub open spec fn is_itself<
    S: Fn(&FilePath) -> Option<Vec<World>>,
    D: Fn(&FilePath) -> Option<World>,
>(scan: S, direct: D, at: Seq<Seq<u8>>, w: World) -> bool {
    &&& forall|p: FilePath, o: Option<Vec<World>>| #[trigger]
        call_ensures(scan, (&p,), o) && p@ == at ==> (o matches Some(found) && found@.len() == 0)
    &&& forall|p: FilePath, o: Option<World>| #[trigger]
        call_ensures(direct, (&p,), o) && p@ == at ==> o == Some(w)
}

/// `at` is no directory, or no world lies in it and it is none itself.
pub open spec fn has_no_world<
    S: Fn(&FilePath) -> Option<Vec<World>>,
    D: Fn(&FilePath) -> Option<World>,
>(scan: S, direct: D, at: Seq<Seq<u8>>) -> bool {
    &&& forall|p: FilePath, o: Option<Vec<World>>| #[trigger]
        call_ensures(scan, (&p,), o) && p@ == at ==> (o matches Some(found) ==> found@.len() == 0)
    &&& forall|p: FilePath, o: Option<World>| #[trigger]
        call_ensures(direct, (&p,), o) && p@ == at ==> o is None
}

proof fn lemma_offer<S: Fn(&FilePath) -> Option<Vec<World>>, D: Fn(&FilePath) -> Option<World>>(
    scan: S,
    direct: D,
    p: FilePath,
    worlds: Seq<World>,
    w: World,
)
    requires
        offered(scan, direct, p, worlds),
    ensures
        has_no_world(scan, direct, p@) ==> worlds.len() == 0,
        scan_brings(scan, p@, w) || is_itself(scan, direct, p@, w) ==> worlds.contains(w),
        forall|i: int|
            0 <= i < worlds.len() ==> was_brought(scan, direct, p, #[trigger] worlds[i]),
{
    if !(call_ensures(scan, (&p,), None) && worlds.len() == 0) {
        let found = choose|found: Vec<World>| #[trigger]
            call_ensures(scan, (&p,), Some(found)) && if found@.len() > 0 {
                worlds == found@
            } else {
                exists|itself: Option<World>| #[trigger]
                    call_ensures(direct, (&p,), itself) && worlds == (match itself {
                        Some(w) => seq![w],
                        None => Seq::empty(),
                    })
            };
        if found@.len() > 0 {
            assert forall|i: int| 0 <= i < worlds.len() implies was_brought(
                scan,
                direct,
                p,
                #[trigger] worlds[i],
            ) by {
                assert(found@.contains(worlds[i]));
            }
        } else {
            let itself = choose|itself: Option<World>| #[trigger]
                call_ensures(direct, (&p,), itself) && worlds == (match itself {
                    Some(w) => seq![w],
                    None => Seq::empty(),
                });
            if let Some(one) = itself {
                assert(call_ensures(direct, (&p,), Some(one)));
                assert(worlds[0] == one);
            }
        }
    }
}

/// `w` came out of a scan of the directory `p`, or is that directory itself.
pub open spec fn was_brought<
    S: Fn(&FilePath) -> Option<Vec<World>>,
    D: Fn(&FilePath) -> Option<World>,
>(scan: S, direct: D, p: FilePath, w: World) -> bool {
    ||| exists|found: Vec<World>| #[trigger]
        call_ensures(scan, (&p,), Some(found)) && found@.contains(w)
    ||| call_ensures(direct, (&p,), Some(w))
}

/// The worlds that lie in `<path>/xaero/world-map` are discovered; where none
/// does, those of `<path>/config/xaero/world-map`; then those of
/// `<path>/world-map`; and at last those of `<path>` itself. A candidate that
/// holds no world may be one itself.
pub proof fn law_first_candidate_with_worlds_is_discovered<
    S: Fn(&FilePath) -> Option<Vec<World>>,
    D: Fn(&FilePath) -> Option<World>,
>(
    scan: S,
    direct: D,
    path: Seq<Seq<u8>>,
    minimap: Option<MinimapRoot>,
    r: Seq<World>,
    w: World,
)
    requires
        discovers(scan, direct, path, minimap, r),
        ({
            let xaero = path.push(encode_utf8("xaero"@)).push(encode_utf8("world-map"@));
            let config = path.push(encode_utf8("config"@)).push(encode_utf8("xaero"@)).push(
                encode_utf8("world-map"@),
            );
            let bare = path.push(encode_utf8("world-map"@));
            ||| scan_brings(scan, xaero, w) || is_itself(scan, direct, xaero, w)
            ||| {
                &&& has_no_world(scan, direct, xaero)
                &&& scan_brings(scan, config, w) || is_itself(scan, direct, config, w)
            }
            ||| {
                &&& has_no_world(scan, direct, xaero)
                &&& has_no_world(scan, direct, config)
                &&& scan_brings(scan, bare, w) || is_itself(scan, direct, bare, w)
            }
            ||| {
                &&& has_no_world(scan, direct, xaero)
                &&& has_no_world(scan, direct, config)
                &&& has_no_world(scan, direct, bare)
                &&& scan_brings(scan, path, w) || is_itself(scan, direct, path, w)
            }
        }),
    ensures
        r.contains(w),
{
    let (worlds, all) = lemma_stages(scan, direct, path, minimap, r);
    let tried = lemma_tried(scan, direct, path, worlds);
    let roots = world_map_roots(path);
    let n = tried.len() as int;
    let xaero = path.push(encode_utf8("xaero"@)).push(encode_utf8("world-map"@));
    let config = path.push(encode_utf8("config"@)).push(encode_utf8("xaero"@)).push(
        encode_utf8("world-map"@),
    );
    let bare = path.push(encode_utf8("world-map"@));
    assert(roots.len() == 4 && roots[0] == xaero && roots[1] == config && roots[2] == bare
        && roots[3] == path);
    assert forall|i: int| 0 <= i < n implies (#[trigger] tried[i])@ == roots[i] by {
        assert(path_texts(tried)[i] == roots.take(n)[i]);
    }
    assert forall|i: int| 0 <= i < n - 1 implies !scan_brings(
        scan,
        roots[i],
        w,
    ) && !is_itself(scan, direct, #[trigger] roots[i], w) by {
        lemma_offer(scan, direct, tried[i], Seq::empty(), w);
    }
    lemma_offer(scan, direct, tried.last(), worlds, w);
    assert(tried.last()@ == roots[n - 1]);
    assert(worlds.contains(w));
    let k = choose|k: int| 0 <= k < worlds.len() && worlds[k] == w;
    assert(all[k] == w);
    law_sorting_keeps_elements(all, r, w);
}

proof fn lemma_stages<S: Fn(&FilePath) -> Option<Vec<World>>, D: Fn(&FilePath) -> Option<World>>(
    scan: S,
    direct: D,
    path: Seq<Seq<u8>>,
    minimap: Option<MinimapRoot>,
    r: Seq<World>,
) -> (stages: (Seq<World>, Seq<World>))
    requires
        discovers(scan, direct, path, minimap, r),
    ensures
        settled(scan, direct, path, stages.0),
        match minimap {
            Some(m) => with_minimap_worlds(m.path@, stages.0, m.folders@, stages.1),
            None => stages.1 == stages.0,
        },
        sorted_from(stages.1, r),
{
    choose|worlds: Seq<World>, all: Seq<World>|
        {
            &&& #[trigger] settled(scan, direct, path, worlds)
            &&& match minimap {
                Some(m) => with_minimap_worlds(m.path@, worlds, m.folders@, all),
                None => all == worlds,
            }
            &&& #[trigger] sorted_from(all, r)
        }
}

proof fn lemma_tried<S: Fn(&FilePath) -> Option<Vec<World>>, D: Fn(&FilePath) -> Option<World>>(
    scan: S,
    direct: D,
    path: Seq<Seq<u8>>,
    worlds: Seq<World>,
) -> (tried: Seq<FilePath>)
    requires
        settled(scan, direct, path, worlds),
    ensures
        1 <= tried.len() <= 4,
        path_texts(tried) == world_map_roots(path).take(tried.len() as int),
        forall|i: int|
            0 <= i < tried.len() - 1 ==> offered(
                scan,
                direct,
                #[trigger] tried[i],
                Seq::<World>::empty(),
            ),
        offered(scan, direct, tried.last(), worlds),
        worlds.len() > 0 || tried.len() == 4,
{
    choose|tried: Seq<FilePath>|
        {
            &&& 1 <= tried.len() <= 4
            &&& #[trigger] path_texts(tried) == world_map_roots(path).take(tried.len() as int)
            &&& forall|i: int|
                0 <= i < tried.len() - 1 ==> offered(
                    scan,
                    direct,
                    #[trigger] tried[i],
                    Seq::<World>::empty(),
                )
            &&& offered(scan, direct, tried.last(), worlds)
            &&& worlds.len() > 0 || tried.len() == 4
        }
}

/// The folder is made up to a world of its own: it is a directory that is no
/// backup and not `temp_to_add`, and a folder in it of which the same holds has
/// a waypoint file.
pub open spec fn has_waypoints(f: MinimapFolder) -> bool {
    &&& f.kind is Directory
    &&& !f.is_backup
    &&& f.name@ != "temp_to_add"@
    &&& exists|j: int, k: int| #[trigger] is_waypoint_at(f.folders@, j, k)
}

/// File `k` of folder `j` is a waypoint file that the mod loads.
pub open spec fn is_waypoint_at(folders: Seq<WaypointFolder>, j: int, k: int) -> bool {
    &&& 0 <= j < folders.len()
    &&& folders[j].kind is Directory
    &&& !folders[j].is_backup
    &&& folders[j].name@ != "temp_to_add"@
    &&& 0 <= k < folders[j].files@.len()
    &&& folders[j].files@[k].is_waypoint
}

/// Nothing else is discovered: a world comes out of one of the four candidates,
/// or it is a minimap folder with waypoints, found below the minimap root and
/// without a map.
pub proof fn law_nothing_else_is_discovered<
    S: Fn(&FilePath) -> Option<Vec<World>>,
    D: Fn(&FilePath) -> Option<World>,
>(
    scan: S,
    direct: D,
    path: Seq<Seq<u8>>,
    minimap: Option<MinimapRoot>,
    r: Seq<World>,
    i: int,
)
    requires
        discovers(scan, direct, path, minimap, r),
        0 <= i < r.len(),
    ensures
        (exists|p: FilePath| #[trigger] was_brought(scan, direct, p, r[i]) && ({
            ||| p@ == path.push(encode_utf8("xaero"@)).push(encode_utf8("world-map"@))
            ||| p@ == path.push(encode_utf8("config"@)).push(encode_utf8("xaero"@)).push(
                encode_utf8("world-map"@),
            )
            ||| p@ == path.push(encode_utf8("world-map"@))
            ||| p@ == path
        })) || (minimap matches Some(m) && exists|k: int|
            0 <= k < m.folders@.len() && has_waypoints(#[trigger] m.folders@[k]) && r[i].id
                == m.folders@[k].name && r[i].world_map_path is None && r[i].dims@.len() == 0
                && r[i].databases@.len() == 0 && (r[i].minimap_path matches Some(p) && p@
                == m.path@.push(m.folders@[k].raw@))),
{
    let (worlds, all) = lemma_stages(scan, direct, path, minimap, r);
    let tried = lemma_tried(scan, direct, path, worlds);
    assert(r.contains(r[i]));
    law_sorting_keeps_elements(all, r, r[i]);
    let k = choose|k: int| 0 <= k < all.len() && all[k] == r[i];
    if k < worlds.len() {
        lemma_offer(scan, direct, tried.last(), worlds, r[i]);
        assert(was_brought(scan, direct, tried.last(), worlds[k]));
        let n = tried.len() as int;
        assert(path_texts(tried)[n - 1] == world_map_roots(path).take(n)[n - 1]);
        assert(tried.last()@ == world_map_roots(path)[n - 1]);
    } else if let Some(m) = minimap {
        let extra = minimap_only(m.path@, worlds, m.folders@);
        let f = extra[k - worlds.len()];
        assert(describes_minimap_world(m.path@, f, all[k]));
        law_minimap_only_worlds_are_new(m.path@, worlds, m.folders@, k - worlds.len());
        lemma_minimap_only_among(m.path@, worlds, m.folders@, k - worlds.len());
        lemma_some_waypoint(m.path@.push(f.raw@), f.folders@);
        let h = choose|h: int| 0 <= h < m.folders@.len() && m.folders@[h] == f;
        assert(has_waypoints(m.folders@[h]));
    }
}

proof fn lemma_minimap_only_among(
    root: Seq<Seq<u8>>,
    worlds: Seq<World>,
    folders: Seq<MinimapFolder>,
    i: int,
)
    requires
        0 <= i < minimap_only(root, worlds, folders).len(),
    ensures
        folders.contains(minimap_only(root, worlds, folders)[i]),
    decreases folders.len(),
{
    if folders.len() > 0 {
        let front = folders.drop_last();
        let before = minimap_only(root, worlds, front);
        if i < before.len() {
            lemma_minimap_only_among(root, worlds, front, i);
            let k = choose|k: int| 0 <= k < front.len() && front[k] == before[i];
            assert(folders[k] == before[i]);
        } else {
            assert(folders[folders.len() - 1] == folders.last());
        }
    }
}

proof fn lemma_some_waypoint(world: Seq<Seq<u8>>, folders: Seq<WaypointFolder>)
    ensures
        world_waypoints(world, folders).len() > 0 <==> exists|j: int, k: int| #[trigger]
            is_waypoint_at(folders, j, k),
{
    if world_waypoints(world, folders).len() > 0 {
        lemma_waypoint_stands(world, folders, 0);
    }
    assert forall|j: int, k: int| #[trigger] is_waypoint_at(folders, j, k) implies world_waypoints(
        world,
        folders,
    ).len() > 0 by {
        lemma_waypoint_is_found(world, folders, j, k);
    }
}

proof fn lemma_waypoint_stands(world: Seq<Seq<u8>>, folders: Seq<WaypointFolder>, i: int)
    requires
        0 <= i < world_waypoints(world, folders).len(),
    ensures
        exists|j: int, k: int| #[trigger] is_waypoint_at(folders, j, k) && world_waypoints(
            world,
            folders,
        )[i] == (
            folders[j].name@,
            world.push(folders[j].raw@).push(folders[j].files@[k].raw@),
        ),
    decreases folders.len(),
{
    if folders.len() > 0 {
        let front = folders.drop_last();
        let before = world_waypoints(world, front);
        let last = folders.len() - 1;
        let folder = folders[last];
        let found = world_waypoints(world, folders)[i];
        if i < before.len() {
            lemma_waypoint_stands(world, front, i);
            let (j, k) = choose|j: int, k: int| #[trigger]
                is_waypoint_at(front, j, k) && before[i] == (
                    front[j].name@,
                    world.push(front[j].raw@).push(front[j].files@[k].raw@),
                );
            assert(is_waypoint_at(folders, j, k));
        } else {
            let f = |f: WaypointName|
                if f.is_waypoint {
                    Some((folder.name@, world.push(folder.raw@).push(f.raw@)))
                } else {
                    None
                };
            assert(folder_waypoints(world, folder)[i - before.len()] == found);
            assert(folder.files@.filter_map(f).contains(found));
            folder.files@.lemma_filter_map_contains(f, found);
            let x = choose|x: WaypointName| #[trigger]
                folder.files@.contains(x) && f(x) == Some(found);
            let k = choose|k: int| 0 <= k < folder.files@.len() && folder.files@[k] == x;
            assert(is_waypoint_at(folders, last, k));
        }
    }
}

proof fn lemma_waypoint_is_found(
    world: Seq<Seq<u8>>,
    folders: Seq<WaypointFolder>,
    j: int,
    k: int,
)
    requires
        is_waypoint_at(folders, j, k),
    ensures
        world_waypoints(world, folders).contains(
            (folders[j].name@, world.push(folders[j].raw@).push(folders[j].files@[k].raw@)),
        ),
    decreases folders.len(),
{
    let front = folders.drop_last();
    let before = world_waypoints(world, front);
    let all = world_waypoints(world, folders);
    let folder = folders[j];
    let file = (folder.name@, world.push(folder.raw@).push(folder.files@[k].raw@));
    if j < front.len() {
        assert(is_waypoint_at(front, j, k));
        lemma_waypoint_is_found(world, front, j, k);
        let i = choose|i: int| 0 <= i < before.len() && before[i] == file;
        assert(all[i] == file);
    } else {
        let f = |f: WaypointName|
            if f.is_waypoint {
                Some((folder.name@, world.push(folder.raw@).push(f.raw@)))
            } else {
                None
            };
        lemma_filter_map_has(folder.files@, f, k);
        let here = folder_waypoints(world, folder);
        let i = choose|i: int| 0 <= i < here.len() && here[i] == file;
        assert(all[before.len() + i] == file);
    }
}

/// A minimap folder with waypoints always shows up: a world of its name is
/// discovered.
pub proof fn law_minimap_worlds_are_discovered<
    S: Fn(&FilePath) -> Option<Vec<World>>,
    D: Fn(&FilePath) -> Option<World>,
>(
    scan: S,
    direct: D,
    path: Seq<Seq<u8>>,
    m: MinimapRoot,
    r: Seq<World>,
    k: int,
)
    requires
        discovers(scan, direct, path, Some(m), r),
        0 <= k < m.folders@.len(),
        has_waypoints(m.folders@[k]),
    ensures
        exists|i: int| 0 <= i < r.len() && (#[trigger] r[i]).id@ == m.folders@[k].name@,
{
    let (worlds, all) = lemma_stages(scan, direct, path, Some(m), r);
    let f = m.folders@[k];
    let n = worlds.len() as int;
    lemma_some_waypoint(m.path@.push(f.raw@), f.folders@);
    law_waypoints_are_never_lost(m.path@, worlds, m.folders@, k);
    let at = if has_world(worlds, f.name@) {
        let i = choose|i: int| 0 <= i < worlds.len() && (#[trigger] worlds[i]).id@ == f.name@;
        assert(all[i] == worlds[i]);
        i
    } else {
        let extra = minimap_only(m.path@, worlds, m.folders@);
        let i = choose|i: int| 0 <= i < extra.len() && (#[trigger] extra[i]).name@ == f.name@;
        assert(describes_minimap_world(m.path@, extra[(n + i) - n], all[n + i]));
        n + i
    };
    assert(all.contains(all[at]));
    law_sorting_keeps_elements(all, r, all[at]);
    let i = choose|i: int| 0 <= i < r.len() && r[i] == all[at];
    assert(r[i].id@ == f.name@);
}

/// The worlds come in order of their ids, as texts are ordered.
pub proof fn law_worlds_come_in_order_of_id<
    S: Fn(&FilePath) -> Option<Vec<World>>,
    D: Fn(&FilePath) -> Option<World>,
>(
    scan: S,
    direct: D,
    path: Seq<Seq<u8>>,
    minimap: Option<MinimapRoot>,
    r: Seq<World>,
    i: int,
    j: int,
)
    requires
        discovers(scan, direct, path, minimap, r),
        0 <= i < j < r.len(),
    ensures
        r[i].id@ == r[j].id@ || text_before(r[i].id@, r[j].id@),
{
    let (worlds, all) = lemma_stages(scan, direct, path, minimap, r);
    assert(World::le(r[i].rank(), r[j].rank()));
    law_texts_are_ordered_by_first_difference(r[i].id@, r[j].id@);
}

/// `file` is the waypoint file `k` of folder `j`: the folder's name and the
/// file's path below `world`.
pub open spec fn lists_file(
    world: Seq<Seq<u8>>,
    folders: Seq<WaypointFolder>,
    file: (String, FilePath),
    j: int,
    k: int,
) -> bool {
    &&& is_waypoint_at(folders, j, k)
    &&& file.0@ == folders[j].name@
    &&& file.1@ == world.push(folders[j].raw@).push(folders[j].files@[k].raw@)
}

/// `file` is a waypoint file of one of `folders`.
pub open spec fn stands_among(
    world: Seq<Seq<u8>>,
    folders: Seq<WaypointFolder>,
    file: (String, FilePath),
) -> bool {
    exists|j: int, k: int| lists_file(world, folders, file, j, k)
}

/// The waypoint files of a minimap world folder are those in its folders, by
/// folder name and path: every one that the mod loads is listed, and nothing
/// else is.
pub proof fn law_waypoint_files_are_listed(
    world: Seq<Seq<u8>>,
    folders: Seq<WaypointFolder>,
    r: Seq<(String, FilePath)>,
)
    requires
        lists_waypoints(world, folders, r),
    ensures
        forall|j: int, k: int| #[trigger]
            is_waypoint_at(folders, j, k) ==> exists|i: int|
                0 <= i < r.len() && lists_file(world, folders, #[trigger] r[i], j, k),
        forall|i: int|
            0 <= i < r.len() ==> stands_among(world, folders, #[trigger] r[i]),
{
    let found = choose|found: Seq<(String, FilePath)>|
        waypoint_texts(found) == world_waypoints(world, folders) && #[trigger] sorted_from(
            found,
            r,
        );
    let texts = world_waypoints(world, folders);
    assert forall|j: int, k: int| #[trigger] is_waypoint_at(folders, j, k) implies exists|i: int|
        0 <= i < r.len() && lists_file(world, folders, #[trigger] r[i], j, k) by {
        lemma_waypoint_is_found(world, folders, j, k);
        let file = (
            folders[j].name@,
            world.push(folders[j].raw@).push(folders[j].files@[k].raw@),
        );
        let h = choose|h: int| 0 <= h < texts.len() && texts[h] == file;
        assert(waypoint_texts(found)[h] == file);
        assert(found.contains(found[h]));
        law_sorting_keeps_elements(found, r, found[h]);
        let i = choose|i: int| 0 <= i < r.len() && r[i] == found[h];
        assert(lists_file(world, folders, r[i], j, k));
    }
    assert forall|i: int| 0 <= i < r.len() implies stands_among(
        world,
        folders,
        #[trigger] r[i],
    ) by {
        assert(r.contains(r[i]));
        law_sorting_keeps_elements(found, r, r[i]);
        let h = choose|h: int| 0 <= h < found.len() && found[h] == r[i];
        assert(waypoint_texts(found)[h] == texts[h]);
        lemma_waypoint_stands(world, folders, h);
        let (j, k) = choose|j: int, k: int| #[trigger]
            is_waypoint_at(folders, j, k) && texts[h] == (
                folders[j].name@,
                world.push(folders[j].raw@).push(folders[j].files@[k].raw@),
            );
        assert(lists_file(world, folders, r[i], j, k));
    }
}

// ---------------------------------------------------------------- contents --

/// Item `m` is a directory with the name of a multiworld.
pub open spec fn is_multiworld_at(items: Seq<MwItem>, m: int) -> bool {
    0 <= m < items.len() && items[m].kind is Directory && items[m].is_multiworld
}

/// `e` is the multiworld item `m`: its name, the name it is shown under, and
/// the layers that its `caves` directory has directories of, in rising order.
pub open spec fn is_multiworld_of(m: MwItem, e: MwEntry) -> bool {
    &&& e.id == m.name
    &&& e.display == m.display
    &&& forall|c: int|
        0 <= c < m.caves@.len() && (#[trigger] m.caves@[c]).kind is Directory ==> forall|n: i32|
            m.caves@[c].name@ == #[trigger] decimal_text(n as int) ==> e.cave_layers@.contains(n)
    &&& forall|h: int|
        0 <= h < e.cave_layers@.len() ==> exists|c: int|
            0 <= c < m.caves@.len() && (#[trigger] m.caves@[c]).kind is Directory && i32_text(
                m.caves@[c].name@,
            ) == Some(#[trigger] e.cave_layers@[h])
    &&& forall|h: int, g: int|
        0 <= h < g < e.cave_layers@.len() ==> #[trigger] e.cave_layers@[h]
            <= #[trigger] e.cave_layers@[g]
}

/// One of `r` is the multiworld item `m`.
pub open spec fn shows_multiworld(r: Seq<MwEntry>, m: MwItem) -> bool {
    exists|h: int| 0 <= h < r.len() && is_multiworld_of(m, #[trigger] r[h])
}

/// `e` is one of the multiworlds among `items`.
pub open spec fn is_among_multiworlds(items: Seq<MwItem>, e: MwEntry) -> bool {
    exists|m: int| #[trigger] is_multiworld_at(items, m) && is_multiworld_of(items[m], e)
}

proof fn lemma_multiworld(m: MwItem, e: MwEntry)
    requires
        describes_multiworld(m, e),
    ensures
        is_multiworld_of(m, e),
{
    let f = |c: CaveItem| cave_layer_of(c);
    let found = m.caves@.filter_map(f);
    let r = e.cave_layers@;
    assert forall|c: int|
        0 <= c < m.caves@.len() && (#[trigger] m.caves@[c]).kind is Directory implies forall|n: i32|
        m.caves@[c].name@ == #[trigger] decimal_text(n as int) ==> r.contains(n) by {
        assert forall|n: i32| m.caves@[c].name@ == #[trigger] decimal_text(
            n as int,
        ) implies r.contains(n) by {
            law_decimal_reads_back(n as int);
            lemma_filter_map_has(m.caves@, f, c);
            law_sorting_keeps_elements(found, r, n);
        }
    }
    assert forall|h: int| 0 <= h < r.len() implies exists|c: int|
        0 <= c < m.caves@.len() && (#[trigger] m.caves@[c]).kind is Directory && i32_text(
            m.caves@[c].name@,
        ) == Some(#[trigger] r[h]) by {
        assert(r.contains(r[h]));
        law_sorting_keeps_elements(found, r, r[h]);
        m.caves@.lemma_filter_map_contains(f, r[h]);
        let x = choose|x: CaveItem| #[trigger] m.caves@.contains(x) && f(x) == Some(r[h]);
        let c = choose|c: int| 0 <= c < m.caves@.len() && m.caves@[c] == x;
        assert(m.caves@[c].kind is Directory);
    }
    assert forall|h: int, g: int| 0 <= h < g < r.len() implies #[trigger] r[h]
        <= #[trigger] r[g] by {
        assert(<i32 as Ranked>::le(r[h].rank(), r[g].rank()));
    }
}

proof fn lemma_filter_at<A>(s: Seq<A>, p: spec_fn(A) -> bool, i: int)
    requires
        0 <= i < s.filter(p).len(),
    ensures
        exists|k: int| 0 <= k < s.len() && p(#[trigger] s[k]) && s[k] == s.filter(p)[i],
    decreases s.len(),
{
    reveal(Seq::filter);
    let front = s.drop_last();
    if i < front.filter(p).len() {
        lemma_filter_at(front, p, i);
        let k = choose|k: int|
            0 <= k < front.len() && p(#[trigger] front[k]) && front[k] == front.filter(p)[i];
        assert(s[k] == front[k]);
    } else {
        assert(p(s[s.len() - 1]));
    }
}

proof fn lemma_filter_holds<A>(s: Seq<A>, p: spec_fn(A) -> bool, k: int) -> (i: int)
    requires
        0 <= k < s.len(),
        p(s[k]),
    ensures
        0 <= i < s.filter(p).len(),
        s.filter(p)[i] == s[k],
    decreases s.len(),
{
    reveal(Seq::filter);
    let front = s.drop_last();
    if k < front.len() {
        lemma_filter_holds(front, p, k)
    } else {
        front.filter(p).len() as int
    }
}

/// The multiworlds of a dimension folder are its directories with names of
/// multiworlds: each of them is listed, with its cave layers, and nothing else
/// is, by id.
pub proof fn law_multiworlds_are_listed(items: Seq<MwItem>, r: Seq<MwEntry>)
    requires
        lists_multiworlds(items, r),
    ensures
        forall|m: int| #[trigger]
            is_multiworld_at(items, m) ==> shows_multiworld(r, items[m]),
        forall|h: int|
            0 <= h < r.len() ==> is_among_multiworlds(items, #[trigger] r[h]),
        forall|h: int, g: int|
            0 <= h < g < r.len() ==> (#[trigger] r[h]).id@ == (#[trigger] r[g]).id@ || text_before(
                r[h].id@,
                r[g].id@,
            ),
{
    let found = choose|found: Seq<MwEntry>|
        describe_multiworlds(items, found) && #[trigger] sorted_from(found, r);
    let p = |m: MwItem| m.counts();
    assert forall|m: int| #[trigger] is_multiworld_at(items, m) implies shows_multiworld(
        r,
        items[m],
    ) by {
        let i = lemma_filter_holds(items, p, m);
        assert(describes_multiworld(multiworld_items(items)[i], found[i]));
        lemma_multiworld(items[m], found[i]);
        assert(found.contains(found[i]));
        law_sorting_keeps_elements(found, r, found[i]);
        let h = choose|h: int| 0 <= h < r.len() && r[h] == found[i];
        assert(is_multiworld_of(items[m], r[h]));
    }
    assert forall|h: int| 0 <= h < r.len() implies is_among_multiworlds(
        items,
        #[trigger] r[h],
    ) by {
        assert(r.contains(r[h]));
        law_sorting_keeps_elements(found, r, r[h]);
        let i = choose|i: int| 0 <= i < found.len() && found[i] == r[h];
        assert(describes_multiworld(multiworld_items(items)[i], found[i]));
        lemma_filter_at(items, p, i);
        let m = choose|m: int|
            0 <= m < items.len() && p(#[trigger] items[m]) && items[m] == items.filter(p)[i];
        lemma_multiworld(items[m], r[h]);
        assert(is_multiworld_at(items, m));
    }
    assert forall|h: int, g: int| 0 <= h < g < r.len() implies (#[trigger] r[h]).id@ == (
    #[trigger] r[g]).id@ || text_before(r[h].id@, r[g].id@) by {
        assert(MwEntry::le(r[h].rank(), r[g].rank()));
        law_texts_are_ordered_by_first_difference(r[h].id@, r[g].id@);
    }
}

/// Item `k` is a directory that is a dimension: it has the name of one, or a
/// config and a multiworld.
pub open spec fn is_dimension_at(items: Seq<WorldItem>, k: int) -> bool {
    &&& 0 <= k < items.len()
    &&& items[k].kind is Directory
    &&& items[k].dimension is Some || (items[k].has_config && exists|m: int| #[trigger]
        is_multiworld_at(items[k].multiworlds@, m))
}

/// `d` is the dimension item `item`: its name, the dimension that the name is
/// read as, its type as its own config has it, or else as the minimap's has it
/// for a dimension that is known by name, and its multiworlds.
pub open spec fn is_dimension_of(item: WorldItem, d: DimEntry) -> bool {
    &&& d.folder == item.name
    &&& d.dimension == item.dimension
    &&& match item.type_id {
        Some(t) => d.config.dimension_type_id == Some(t),
        None => d.config.dimension_type_id == (if item.dimension is Some {
            item.minimap_type_id
        } else {
            None
        }),
    }
    &&& forall|m: int| #[trigger]
        is_multiworld_at(item.multiworlds@, m) ==> shows_multiworld(
            d.multiworlds@,
            item.multiworlds@[m],
        )
    &&& forall|h: int|
        0 <= h < d.multiworlds@.len() ==> is_among_multiworlds(
            item.multiworlds@,
            #[trigger] d.multiworlds@[h],
        )
}

/// One of `r` is the dimension item `item`.
pub open spec fn shows_dimension(r: Seq<DimEntry>, item: WorldItem) -> bool {
    exists|h: int| 0 <= h < r.len() && is_dimension_of(item, #[trigger] r[h])
}

/// `d` is one of the dimensions among `items`.
pub open spec fn is_among_dimensions(items: Seq<WorldItem>, d: DimEntry) -> bool {
    exists|k: int| #[trigger] is_dimension_at(items, k) && is_dimension_of(items[k], d)
}

/// The folder `a` may stand before the folder `b`.
pub open spec fn folders_in_order(a: Seq<char>, b: Seq<char>) -> bool {
    ||| place_of(a) < place_of(b)
    ||| place_of(a) == place_of(b) && (place_of(a) < 3 || a == b || text_before(a, b))
}

proof fn lemma_counts(items: Seq<WorldItem>, k: int)
    requires
        0 <= k < items.len(),
    ensures
        items[k].counts() <==> is_dimension_at(items, k),
{
    let mws = items[k].multiworlds@;
    let p = |m: MwItem| m.counts();
    if multiworld_items(mws).len() > 0 {
        lemma_filter_at(mws, p, 0);
        let m = choose|m: int|
            0 <= m < mws.len() && p(#[trigger] mws[m]) && mws[m] == mws.filter(p)[0];
        assert(is_multiworld_at(mws, m));
    }
    if exists|m: int| #[trigger] is_multiworld_at(mws, m) {
        let m = choose|m: int| #[trigger] is_multiworld_at(mws, m);
        let i = lemma_filter_holds(mws, p, m);
    }
}

proof fn lemma_dimension(item: WorldItem, d: DimEntry)
    requires
        describes_dimension(item, d),
    ensures
        is_dimension_of(item, d),
{
    law_multiworlds_are_listed(item.multiworlds@, d.multiworlds@);
}

/// The dimensions of a world are its directories that are dimensions, each with
/// its multiworlds, and nothing else. The overworld (`null` or `DIM0`) comes
/// first, then the nether (`DIM-1`), then the end (`DIM1`), then the others by
/// name.
pub proof fn law_dimensions_are_listed(items: Seq<WorldItem>, r: Seq<DimEntry>)
    requires
        lists_dimensions(items, r),
    ensures
        forall|k: int| #[trigger]
            is_dimension_at(items, k) ==> shows_dimension(r, items[k]),
        forall|h: int|
            0 <= h < r.len() ==> is_among_dimensions(items, #[trigger] r[h]),
        forall|h: int, g: int|
            0 <= h < g < r.len() ==> folders_in_order(
                (#[trigger] r[h]).folder@,
                (#[trigger] r[g]).folder@,
            ),
{
    let found = choose|found: Seq<DimEntry>|
        describe_dimensions(items, found) && #[trigger] sorted_from(found, r);
    let p = |item: WorldItem| item.counts();
    assert forall|k: int| #[trigger] is_dimension_at(items, k) implies shows_dimension(
        r,
        items[k],
    ) by {
        lemma_counts(items, k);
        let i = lemma_filter_holds(items, p, k);
        assert(describes_dimension(dimension_items(items)[i], found[i]));
        lemma_dimension(items[k], found[i]);
        assert(found.contains(found[i]));
        law_sorting_keeps_elements(found, r, found[i]);
        let h = choose|h: int| 0 <= h < r.len() && r[h] == found[i];
        assert(is_dimension_of(items[k], r[h]));
    }
    assert forall|h: int| 0 <= h < r.len() implies is_among_dimensions(
        items,
        #[trigger] r[h],
    ) by {
        assert(r.contains(r[h]));
        law_sorting_keeps_elements(found, r, r[h]);
        let i = choose|i: int| 0 <= i < found.len() && found[i] == r[h];
        assert(describes_dimension(dimension_items(items)[i], found[i]));
        lemma_filter_at(items, p, i);
        let k = choose|k: int|
            0 <= k < items.len() && p(#[trigger] items[k]) && items[k] == items.filter(p)[i];
        lemma_counts(items, k);
        lemma_dimension(items[k], r[h]);
        assert(is_dimension_at(items, k));
    }
    assert forall|h: int, g: int| 0 <= h < g < r.len() implies folders_in_order(
        (#[trigger] r[h]).folder@,
        (#[trigger] r[g]).folder@,
    ) by {
        assert(DimEntry::le(r[h].rank(), r[g].rank()));
        law_texts_are_ordered_by_first_difference(r[h].folder@, r[g].folder@);
    }
}

/// Where a dimension folder stands among the others.
pub open spec fn place_of(folder: Seq<char>) -> int {
    if folder == "null"@ || folder == "DIM0"@ {
        0
    } else if folder == "DIM-1"@ {
        1
    } else if folder == "DIM1"@ {
        2
    } else {
        3
    }
}

/// `name` ends in `.db`.
pub open spec fn ends_in_db(name: Seq<char>) -> bool {
    name.len() >= 3 && name.skip(name.len() - 3) == seq!['.', 'd', 'b']
}

proof fn lemma_ends_in_db(name: Seq<char>)
    ensures
        crate::text::finishes_with(name, ".db"@) <==> ends_in_db(name),
{
    reveal_strlit(".db");
    assert(".db"@ =~= seq!['.', 'd', 'b']);
    if name.len() >= 3 {
        assert(name.skip(name.len() - 3) =~= name.subrange(name.len() - 3, name.len() as int));
    }
}

/// A world shows what its folder holds: its id and its path, its dimensions,
/// the names of its files that end in `.db`, each once for every such file, and
/// its waypoint files, which are those of its minimap folder.
pub proof fn law_world_shows_what_is_there(
    id: String,
    world_dir: FilePath,
    minimap: Option<MinimapWorld>,
    items: Seq<WorldItem>,
    w: World,
)
    requires
        describes_world(id, world_dir, minimap, items, w),
    ensures
        w.id == id,
        w.world_map_path == Some(world_dir),
        minimap is None ==> w.minimap_path is None && w.waypoint_files@.len() == 0,
        minimap matches Some(m) ==> w.minimap_path == Some(m.path) && lists_waypoints(
            m.path@,
            m.folders@,
            w.waypoint_files@,
        ),
        lists_dimensions(items, w.dims@),
        forall|name: String| #[trigger]
            w.databases@.contains(name) <==> exists|k: int|
                0 <= k < items.len() && (#[trigger] items[k]).kind is File && items[k].name == name
                    && ends_in_db(name@),
        forall|h: int, g: int|
            0 <= h < g < w.databases@.len() ==> (#[trigger] w.databases@[h])@ == (
            #[trigger] w.databases@[g])@ || text_before(w.databases@[h]@, w.databases@[g]@),
{
    let f = |item: WorldItem|
        if item.is_database() {
            Some(item.name)
        } else {
            None
        };
    let found = database_names(items);
    let r = w.databases@;
    assert forall|name: String| #[trigger] r.contains(name) <==> exists|k: int|
        0 <= k < items.len() && (#[trigger] items[k]).kind is File && items[k].name == name
            && ends_in_db(name@) by {
        law_sorting_keeps_elements(found, r, name);
        lemma_ends_in_db(name@);
        if found.contains(name) {
            items.lemma_filter_map_contains(f, name);
            let x = choose|x: WorldItem| #[trigger] items.contains(x) && f(x) == Some(name);
            let k = choose|k: int| 0 <= k < items.len() && items[k] == x;
            assert(items[k].kind is File);
        }
        if exists|k: int|
            0 <= k < items.len() && (#[trigger] items[k]).kind is File && items[k].name == name
                && ends_in_db(name@) {
            let k = choose|k: int|
                0 <= k < items.len() && (#[trigger] items[k]).kind is File && items[k].name == name
                    && ends_in_db(name@);
            lemma_filter_map_has(items, f, k);
        }
    }
    assert forall|h: int, g: int| 0 <= h < g < r.len() implies (#[trigger] r[h])@ == (
    #[trigger] r[g])@ || text_before(r[h]@, r[g]@) by {
        assert(<String as Ranked>::le(r[h].rank(), r[g].rank()));
        law_texts_are_ordered_by_first_difference(r[h]@, r[g]@);
    }
}

/// A folder is a world exactly where it holds a dimension, or a file whose name
/// ends in `.db`.
pub proof fn law_world_holds_a_dimension_or_a_database(items: Seq<WorldItem>)
    ensures
        holds_map_data(items) <==> (exists|k: int| #[trigger] is_dimension_at(items, k)) || (exists|
            k: int,
        |
            0 <= k < items.len() && (#[trigger] items[k]).kind is File && ends_in_db(
                items[k].name@,
            )),
{
    let p = |item: WorldItem| item.counts();
    let f = |item: WorldItem|
        if item.is_database() {
            Some(item.name)
        } else {
            None
        };
    if dimension_items(items).len() > 0 {
        lemma_filter_at(items, p, 0);
        let k = choose|k: int|
            0 <= k < items.len() && p(#[trigger] items[k]) && items[k] == items.filter(p)[0];
        lemma_counts(items, k);
    }
    if exists|k: int| #[trigger] is_dimension_at(items, k) {
        let k = choose|k: int| #[trigger] is_dimension_at(items, k);
        lemma_counts(items, k);
        let i = lemma_filter_holds(items, p, k);
    }
    if database_names(items).len() > 0 {
        let name = database_names(items)[0];
        assert(database_names(items).contains(name));
        items.lemma_filter_map_contains(f, name);
        let x = choose|x: WorldItem| #[trigger] items.contains(x) && f(x) == Some(name);
        let k = choose|k: int| 0 <= k < items.len() && items[k] == x;
        lemma_ends_in_db(name@);
        assert(items[k].kind is File);
    }
    if exists|k: int|
        0 <= k < items.len() && (#[trigger] items[k]).kind is File && ends_in_db(items[k].name@) {
        let k = choose|k: int|
            0 <= k < items.len() && (#[trigger] items[k]).kind is File && ends_in_db(
                items[k].name@,
            );
        lemma_ends_in_db(items[k].name@);
        lemma_filter_map_has(items, f, k);
    }
}

/// A folder shows that it is a world by a directory that is a dimension, or by
/// a file named `XaeroPlus….db`; nothing else in it does.
pub proof fn law_entries_show_a_world(e: CandidateEntry)
    ensures
        e.kind is Directory ==> (e.shows_world() <==> e.is_dimension),
        e.kind is File ==> (e.shows_world() <==> begins_with(e.name@, "XaeroPlus"@)
            && ends_in_db(e.name@)),
        e.kind !is Directory && e.kind !is File ==> !e.shows_world(),
{
    lemma_ends_in_db(e.name@);
}

/// A dimension behaves as its configured type says, where that is one of the
/// vanilla ones, and else as what its folder makes it.
pub proof fn law_configured_type_decides(d: DimEntry)
    ensures
        d.config.dimension_type_id is None ==> d.behaves_like() == d.dimension,
        d.config.dimension_type_id matches Some(t) ==> {
            &&& t@ == "minecraft:overworld"@ ==> d.behaves_like() == Some(Dimension::Overworld)
            &&& t@ == "minecraft:the_nether"@ ==> d.behaves_like() == Some(Dimension::Nether)
            &&& t@ == "minecraft:the_end"@ ==> d.behaves_like() == Some(Dimension::End)
            &&& t@ != "minecraft:overworld"@ && t@ != "minecraft:the_nether"@ && t@
                != "minecraft:the_end"@ ==> d.behaves_like() == d.dimension
        },
{
    reveal_strlit("minecraft:overworld");
    reveal_strlit("minecraft:the_nether");
    reveal_strlit("minecraft:the_end");
    assert("minecraft:overworld"@.len() == 19);
    assert("minecraft:the_nether"@.len() == 20);
    assert("minecraft:the_end"@.len() == 17);
}

/// The minimap tree is looked for in `xaero/minimap`, `config/xaero/minimap`
/// and `minimap` below the path, and then in `minimap` beside it: the first of
/// them that is a directory is taken, and none where none is.
pub proof fn law_first_minimap_directory_is_taken<F: Fn(&FilePath) -> bool>(
    path: Seq<Seq<u8>>,
    parent: Seq<Seq<u8>>,
    is_dir: F,
    r: Option<FilePath>,
)
    requires
        finds_minimap(path, parent, is_dir, r),
    ensures
        ({
            let minimap = encode_utf8("minimap"@);
            let a = path.push(encode_utf8("xaero"@)).push(minimap);
            let b = path.push(encode_utf8("config"@)).push(encode_utf8("xaero"@)).push(minimap);
            let c = path.push(minimap);
            let d = parent.push(minimap);
            let no_a = always_says(is_dir, a, false);
            let no_b = no_a && always_says(is_dir, b, false);
            let no_c = no_b && always_says(is_dir, c, false);
            &&& always_says(is_dir, a, true) ==> r is Some && r->0@ == a
            &&& no_a && always_says(is_dir, b, true) ==> r is Some && r->0@ == b
            &&& no_b && always_says(is_dir, c, true) ==> r is Some && r->0@ == c
            &&& no_c && always_says(is_dir, d, true) ==> r is Some && r->0@ == d
            &&& no_c && always_says(is_dir, d, false) ==> r is None
            &&& r matches Some(found) ==> {
                &&& found@ == a || found@ == b || found@ == c || found@ == d
                &&& call_ensures(is_dir, (&found,), true)
            }
        }),
{
    let tried = choose|tried: Seq<FilePath>|
        {
            &&& tried.len() <= 4
            &&& #[trigger] path_texts(tried) == minimap_roots(path, parent).take(tried.len() as int)
            &&& match r {
                Some(found) => {
                    &&& tried.len() > 0 && found == tried.last()
                    &&& call_ensures(is_dir, (&found,), true)
                    &&& forall|i: int|
                        0 <= i < tried.len() - 1 ==> call_ensures(
                            is_dir,
                            (&#[trigger] tried[i],),
                            false,
                        )
                },
                None => {
                    &&& tried.len() == 4
                    &&& forall|i: int|
                        0 <= i < 4 ==> call_ensures(is_dir, (&#[trigger] tried[i],), false)
                },
            }
        };
    let roots = minimap_roots(path, parent);
    assert forall|i: int| 0 <= i < tried.len() implies (#[trigger] tried[i])@ == roots[i] by {
        assert(path_texts(tried)[i] == tried[i]@);
    }
    if r is None {
        assert(call_ensures(is_dir, (&tried[0],), false));
        assert(call_ensures(is_dir, (&tried[1],), false));
        assert(call_ensures(is_dir, (&tried[2],), false));
        assert(call_ensures(is_dir, (&tried[3],), false));
    } else {
        assert(tried.len() > 1 ==> call_ensures(is_dir, (&tried[0],), false));
        assert(tried.len() > 2 ==> call_ensures(is_dir, (&tried[1],), false));
        assert(tried.len() > 3 ==> call_ensures(is_dir, (&tried[2],), false));
        assert(tried[tried.len() - 1]@ == roots[tried.len() - 1]);
    }
}

} // verus!
