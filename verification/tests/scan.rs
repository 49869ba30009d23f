use xaerotools::listing::EntryKind;
use xaerotools::naming::{Dimension, DimensionConfig};
use xaerotools::order::sort;
use xaerotools::paths::FilePath;
use xaerotools::regions::{index_regions, layer_dir, region_file_name, region_meta};
use xaerotools::regions::{scan_region_alternates, AlternateSource, BackupFile, FileStat, LayerEntry};
use xaerotools::roots::{default_root_candidates, home_directory, instance_paths};
use xaerotools::text::{contains, decimal, ends_with, parse_i32, starts_with, strip_suffix};
use xaerotools::trees::world_map_tree;
use xaerotools::waypoints::{is_tree_copy, live_tree_paths, scan_waypoint_files, LiveTrees};
use xaerotools::waypoints::{MinimapNode, RootEntry, TreeLevel, TreeListing, WaypointSourceKind};
use xaerotools::worlds::{append_minimap_only_worlds, collect_waypoint_files, dim_sort_key};
use xaerotools::worlds::{discover_root, find_minimap_root, looks_like_world_dir, minimap_candidate};
use xaerotools::worlds::{scan_multiworlds, scan_world, scan_world_map_root, CandidateEntry, CaveItem};
use xaerotools::worlds::{DimEntry, MinimapFolder, MinimapRoot, MinimapWorld, MwItem, ScannedDir};
use xaerotools::worlds::{WaypointFolder, WaypointName, World, WorldItem};

fn path(text: &str) -> FilePath {
    FilePath::empty().join_pieces(text)
}

fn shown(p: &FilePath) -> String {
    let names: Vec<&str> = p.parts().iter().map(|n| std::str::from_utf8(n).unwrap()).collect();
    names.join("/")
}

fn raw(name: &str) -> Vec<u8> {
    name.as_bytes().to_vec()
}

// ---------------------------------------------------------------- regions --

fn stat(size: u64) -> Option<FileStat> {
    Some(FileStat { modified: Some((5, 7_999_999)), size })
}

fn plain(name: &str, kind: EntryKind) -> LayerEntry {
    LayerEntry {
        name: raw(name),
        kind,
        region: None,
        conflict: None,
        backup: None,
        stat: stat(1),
        files: None,
    }
}

fn region(rx: i32, rz: i32, zip: bool, size: u64) -> LayerEntry {
    let ext = if zip { "zip" } else { "xaero" };
    LayerEntry {
        region: Some((rx, rz, zip)),
        stat: stat(size),
        ..plain(&region_file_name(rx, rz, ext), EntryKind::File)
    }
}

#[test]
fn classifies_layer_alternates() {
    let backup_file = |name: &str, at: (i32, i32)| BackupFile {
        name: raw(name),
        region: Some((at.0, at.1, true)),
        stat: stat(8),
    };
    let entries = vec![
        LayerEntry {
            backup: Some((458760, 3)),
            files: Some(vec![backup_file("0_0.zip", (0, 0)), backup_file("-9_4.zip", (-9, 4))]),
            ..plain("458760_backup_3", EntryKind::Directory)
        },
        plain("cache_1", EntryKind::Directory),
        region(0, 0, true, 4),
        plain("0_0.zip.temp.backup7", EntryKind::File),
        LayerEntry {
            conflict: Some((0, 0, true, "20240705-215039-QQNGROR".into())),
            ..plain("0_0.sync-conflict-20240705-215039-QQNGROR.zip", EntryKind::File)
        },
    ];

    // The live index sees exactly one region and no longer trips on the
    // backup dir's name.
    let idx = index_regions(path("layer"), &entries);
    assert_eq!(idx.entries.len(), 1);

    let alts = scan_region_alternates(&path("layer"), &entries);
    assert_eq!(alts.len(), 3);
    let only: Vec<_> = alts.iter().filter(|a| !a.live).collect();
    assert_eq!(only.len(), 1);
    assert_eq!((only[0].rx, only[0].rz), (-9, 4));
    assert_eq!(
        only[0].source,
        AlternateSource::VersionBackup {
            version: 458760,
            index: 3
        }
    );
    assert!(alts.iter().any(|a| a.live
        && a.source
            == AlternateSource::SyncConflict {
                tag: "20240705-215039-QQNGROR".into()
            }));
    // Ordered by (rz, rx, source).
    assert_eq!(shown(&alts[0].path), "layer/458760_backup_3/0_0.zip");
    assert_eq!(shown(&alts[1].path), "layer/0_0.sync-conflict-20240705-215039-QQNGROR.zip");
    assert_eq!(shown(&alts[2].path), "layer/458760_backup_3/-9_4.zip");
    assert_eq!(alts[2].meta.mtime_ms, 5007);
}

#[test]
fn a_live_file_counts_even_when_its_metadata_cannot_be_read() {
    let mut live = region(1, 1, true, 4);
    live.stat = None;
    let conflict = LayerEntry {
        conflict: Some((1, 1, false, "t".into())),
        ..plain("c", EntryKind::Other)
    };
    let entries = vec![conflict, live];
    assert!(index_regions(path("l"), &entries).entries.is_empty());
    let alts = scan_region_alternates(&path("l"), &entries);
    assert!(alts[0].live && !alts[0].meta.is_zip);
}

#[test]
fn the_zip_is_preferred_in_any_order() {
    for order in [[true, false], [false, true]] {
        let entries = order.iter().map(|zip| region(3, -4, *zip, *zip as u64)).collect();
        let idx = index_regions(path("l"), &entries);
        assert_eq!(idx.get(3, -4).unwrap().size, 1);
        assert_eq!(shown(&idx.region_path(3, -4).unwrap()), "l/3_-4.zip");
    }
    let idx = index_regions(path("l"), &vec![region(0, 0, false, 9), region(0, 0, false, 10)]);
    assert_eq!(idx.get(0, 0).unwrap().size, 9);
    assert_eq!(shown(&idx.region_path(0, 0).unwrap()), "l/0_0.xaero");
    assert!(idx.region_path(0, 1).is_none());
}

#[test]
fn bounds_are_tight() {
    let idx = |at: &[(i32, i32)]| {
        index_regions(path("l"), &at.iter().map(|p| region(p.0, p.1, true, 1)).collect())
    };
    assert_eq!(idx(&[]).bounds(), None);
    assert_eq!(idx(&[(5, -6)]).bounds(), Some((5, -6, 5, -6)));
    assert_eq!(
        idx(&[(5, -6), (-1, 9), (i32::MIN, 0), (0, i32::MAX)]).bounds(),
        Some((i32::MIN, -6, 5, i32::MAX))
    );
}

#[test]
fn layer_directories() {
    assert_eq!(shown(&layer_dir(&path("w"), "null", "mw$default", None)), "w/null/mw$default");
    assert_eq!(
        shown(&layer_dir(&path("w"), "DIM-1", "mw$default", Some(-3))),
        "w/DIM-1/mw$default/caves/-3"
    );
}

#[test]
fn modification_times_are_milliseconds() {
    let at = |modified: Option<(u64, u32)>| region_meta(FileStat { modified, size: 0 }, true).mtime_ms;
    assert_eq!(at(None), 0);
    assert_eq!(at(Some((0, 999_999))), 0);
    assert_eq!(at(Some((1, 1_000_000))), 1001);
    assert_eq!(at(Some((u64::MAX, 0))), (u64::MAX as u128 * 1000) as u64);
}

// ----------------------------------------------------------------- worlds --

fn mw(name: &str, caves: &[&str]) -> MwItem {
    MwItem {
        name: name.into(),
        kind: EntryKind::Directory,
        is_multiworld: name.starts_with("mw$"),
        display: name.to_uppercase(),
        caves: caves
            .iter()
            .map(|c| CaveItem { name: c.to_string(), kind: EntryKind::Directory })
            .collect(),
    }
}

fn item(name: &str, dimension: Option<Dimension>, has_config: bool, mws: Vec<MwItem>) -> WorldItem {
    WorldItem {
        name: name.into(),
        kind: EntryKind::Directory,
        dimension,
        has_config,
        type_id: None,
        minimap_type_id: Some("minecraft:the_nether".into()),
        multiworlds: mws,
    }
}

fn file(name: &str) -> WorldItem {
    WorldItem { kind: EntryKind::File, ..item(name, None, false, vec![]) }
}

fn folder(name: &str, files: &[&str]) -> WaypointFolder {
    WaypointFolder {
        name: name.into(),
        raw: raw(name),
        kind: EntryKind::Directory,
        is_backup: name.starts_with("backup"),
        files: files
            .iter()
            .map(|f| WaypointName { raw: raw(f), is_waypoint: f.ends_with(".txt") })
            .collect(),
    }
}

#[test]
fn pairs_a_split_minimap_and_world_map() {
    // Two mods, two configs: minimap under xaero/, world map under
    // config/xaero/. The map must still be found, with its waypoints.
    let root = path("root");
    let dirs = ["root/xaero/minimap", "root/config/xaero/world-map"];
    let is_dir = |p: &FilePath| dirs.contains(&shown(p).as_str());
    let mm = find_minimap_root(&root, &path(""), is_dir).unwrap();
    assert_eq!(shown(&mm), "root/xaero/minimap");
    let waypoints = || vec![folder("dim%0", &["mw$default_1.txt"])];
    let scan = |p: &FilePath| {
        if !is_dir(p) {
            return None;
        }
        let looks = looks_like_world_dir(
            false,
            &vec![CandidateEntry { name: "null".into(), kind: EntryKind::Directory, is_dimension: true }],
        );
        assert!(looks);
        let mut overworld =
            item("null", Some(Dimension::Overworld), true, vec![mw("mw$default", &[])]);
        overworld.type_id = Some("minecraft:overworld".into());
        let id = "Multiplayer_split";
        let candidate = minimap_candidate(Some(&mm), None, id).unwrap();
        let minimap = MinimapWorld { path: candidate, folders: waypoints() };
        let world = scan_world(Some(id.into()), p.join(id), Some(minimap), Some(&vec![overworld]));
        let dir = ScannedDir { kind: EntryKind::Directory, looks_like_world: looks, world };
        Some(scan_world_map_root(vec![dir]))
    };
    let minimap = MinimapRoot {
        path: mm.copied(),
        folders: vec![MinimapFolder {
            name: "Multiplayer_split".into(),
            raw: raw("Multiplayer_split"),
            kind: EntryKind::Directory,
            is_backup: false,
            folders: waypoints(),
        }],
    };
    let worlds = discover_root(&root, Some(minimap), scan, |_: &FilePath| None);
    assert_eq!(worlds.len(), 1);
    assert!(worlds[0].world_map_path.is_some(), "map data was dropped");
    assert_eq!(worlds[0].dims.len(), 1);
    assert_eq!(worlds[0].waypoint_files.len(), 1);
    assert_eq!(
        shown(&worlds[0].waypoint_files[0].1),
        "root/xaero/minimap/Multiplayer_split/dim%0/mw$default_1.txt"
    );
}

/// A shared server's world starts as highlight databases and nothing else:
/// the chunk finds arrive before the first region upload.
#[test]
fn finds_a_world_that_is_only_highlight_databases() {
    let root = path("root");
    let scan = |p: &FilePath| {
        if shown(p) != "root/world-map" {
            return None;
        }
        let dir = |id: &str, db: &str| {
            let entry =
                CandidateEntry { name: db.into(), kind: EntryKind::File, is_dimension: false };
            let items = vec![file(db)];
            ScannedDir {
                kind: EntryKind::Directory,
                looks_like_world: looks_like_world_dir(false, &vec![entry]),
                world: scan_world(Some(id.into()), p.join(id), None, Some(&items)),
            }
        };
        // A stray database elsewhere must not turn its folder into a world.
        Some(scan_world_map_root(vec![
            dir("notes", "recipes.db"),
            dir("Multiplayer_2b2t", "XaeroPlusNewChunks.db"),
        ]))
    };
    let worlds = discover_root(&root, None, scan, |_: &FilePath| None);
    assert_eq!(worlds.len(), 1);
    assert_eq!(worlds[0].id, "Multiplayer_2b2t");
    assert!(worlds[0].dims.is_empty());
    assert_eq!(worlds[0].databases, vec!["XaeroPlusNewChunks.db"]);
}

fn bare_world(id: &str) -> World {
    World {
        id: id.into(),
        world_map_path: Some(path(id)),
        minimap_path: None,
        dims: vec![],
        databases: vec![],
        waypoint_files: vec![],
    }
}

#[test]
fn the_first_candidate_with_worlds_wins() {
    let found = |at: &'static str| {
        let scan = move |p: &FilePath| {
            if shown(p) == at {
                Some(vec![bare_world("b"), bare_world("a")])
            } else if shown(p) == "r/xaero/world-map" {
                Some(vec![])
            } else {
                None
            }
        };
        discover_root(&path("r"), None, scan, |_: &FilePath| None)
    };
    for at in ["r/config/xaero/world-map", "r/world-map", "r"] {
        let ids: Vec<String> = found(at).into_iter().map(|w| w.id).collect();
        assert_eq!(ids, vec!["a", "b"]);
    }
    assert!(found("elsewhere").is_empty());
    // A single world folder given directly.
    let direct = |p: &FilePath| (shown(p) == "r").then(|| bare_world("r"));
    let worlds = discover_root(&path("r"), None, |_: &FilePath| Some(vec![]), direct);
    assert_eq!(worlds.len(), 1);
}

#[test]
fn minimap_only_worlds_are_added_once() {
    let named = |name: &str, files: &[&str]| MinimapFolder {
        name: name.into(),
        raw: raw(name),
        kind: EntryKind::Directory,
        is_backup: name.starts_with("backup"),
        folders: vec![folder("dim%0", files)],
    };
    let root = MinimapRoot {
        path: path("mm"),
        folders: vec![
            named("pvp", &["waypoints.txt", "mw$default_1.txt"]),
            named("masonic", &["config.cfg"]),
            named("backup", &["waypoints.txt"]),
            named("temp_to_add", &["waypoints.txt"]),
            named("known", &["waypoints.txt"]),
            named("pvp", &["waypoints.txt"]),
        ],
    };
    let worlds = append_minimap_only_worlds(&root, vec![bare_world("known")]);
    assert_eq!(worlds.len(), 2);
    assert!(worlds[0].world_map_path.is_some());
    let pvp = &worlds[1];
    assert_eq!(pvp.id, "pvp");
    assert!(pvp.world_map_path.is_none() && pvp.dims.is_empty() && pvp.databases.is_empty());
    assert_eq!(shown(pvp.minimap_path.as_ref().unwrap()), "mm/pvp");
    let files: Vec<String> = pvp.waypoint_files.iter().map(|f| shown(&f.1)).collect();
    assert_eq!(files, vec!["mm/pvp/dim%0/mw$default_1.txt", "mm/pvp/dim%0/waypoints.txt"]);
}

#[test]
fn waypoint_files_are_sorted_by_folder_and_path() {
    let mut file_folder = folder("dim%7", &["a.txt"]);
    file_folder.kind = EntryKind::File;
    let folders = vec![
        folder("dim%1", &["b.txt", "x", "a.txt"]),
        folder("dim%0", &["z.txt"]),
        folder("backup", &["a.txt"]),
        folder("temp_to_add", &["a.txt"]),
        file_folder,
    ];
    let found = collect_waypoint_files(&path("w"), &folders);
    let texts: Vec<(String, String)> = found.iter().map(|f| (f.0.clone(), shown(&f.1))).collect();
    assert_eq!(
        texts,
        vec![
            ("dim%0".into(), "w/dim%0/z.txt".into()),
            ("dim%1".into(), "w/dim%1/a.txt".into()),
            ("dim%1".into(), "w/dim%1/b.txt".into()),
        ]
    );
}

#[test]
fn a_world_lists_its_dimensions_in_order() {
    let custom = || Some(Dimension::Custom("minecraft:sky".into()));
    let items = vec![
        file("z.db"),
        file("a.db"),
        file("server_config.txt"),
        item("minecraft$sky", custom(), false, vec![]),
        item("DIM1", Some(Dimension::End), false, vec![]),
        item("DIM-1", Some(Dimension::Nether), false, vec![mw("mw$b", &[]), mw("mw$a", &["3", "-1"])]),
        item("null", Some(Dimension::Overworld), false, vec![mw("other", &[])]),
        item("configured", None, true, vec![mw("mw$x", &[])]),
        item("configured-but-empty", None, true, vec![]),
        item("foreign", None, false, vec![mw("mw$x", &[])]),
    ];
    let w = scan_world(Some("w".into()), path("w"), None, Some(&items)).unwrap();
    let folders: Vec<&str> = w.dims.iter().map(|d| d.folder.as_str()).collect();
    assert_eq!(folders, vec!["null", "DIM-1", "DIM1", "configured", "minecraft$sky"]);
    assert_eq!(w.databases, vec!["a.db", "z.db"]);
    assert!(w.dims[0].multiworlds.is_empty());
    assert_eq!(w.dims[1].multiworlds[0].id, "mw$a");
    assert_eq!(w.dims[1].multiworlds[0].display, "MW$A");
    assert_eq!(w.dims[1].multiworlds[0].cave_layers, vec![-1, 3]);
    // The minimap's config tells the type only of a known dimension.
    assert_eq!(w.dims[3].config.dimension_type_id, None);
    assert_eq!(w.dims[4].dimension_type(), Some(Dimension::Nether));
    assert!(scan_world(Some("w".into()), path("w"), None, Some(&vec![])).is_none());
    assert!(scan_world(None, path("w"), None, Some(&items)).is_none());
    assert!(scan_world(Some("w".into()), path("w"), None, None).is_none());
}

#[test]
fn cave_layers_are_numbered_directories() {
    let mut m = mw("mw$default", &["7", "-12", "x", "+3", "2147483648", "-2147483648", ""]);
    m.caves.push(CaveItem { name: "9".into(), kind: EntryKind::File });
    let found = scan_multiworlds(&vec![m]);
    assert_eq!(found[0].cave_layers, vec![i32::MIN, -12, 3, 7]);
}

#[test]
fn dimension_types_ids_and_labels() {
    let entry = |dimension: Option<Dimension>, type_id: Option<&str>| DimEntry {
        folder: "f".into(),
        dimension,
        config: DimensionConfig { dimension_type_id: type_id.map(String::from) },
        multiworlds: vec![],
    };
    let key = |d: &Dimension| format!("{d:?}");
    let custom = || Some(Dimension::Custom("minecraft:worlds/2b2t/2b2t_1".into()));
    let d = entry(custom(), Some("minecraft:overworld"));
    assert_eq!(d.dimension_type(), Some(Dimension::Overworld));
    assert_eq!(d.dimension_id(key), Some("Custom(\"minecraft:worlds/2b2t/2b2t_1\")".into()));
    assert_eq!(d.label(key), "Custom(\"minecraft:worlds/2b2t/2b2t_1\")");
    assert_eq!(entry(custom(), Some("x:y")).dimension_type(), custom());
    let d = entry(None, Some("minecraft:the_end"));
    assert_eq!((d.dimension_id(key), d.label(key)), (None, "End".into()));
    assert_eq!(entry(None, None).label(key), "f");
    assert_eq!(dim_sort_key("DIM0"), (0, String::new()));
    assert_eq!(dim_sort_key("sky"), (3, "sky".into()));
}

#[test]
fn the_minimap_of_a_world_is_looked_for_in_two_places() {
    let mm = path("mm");
    let beside = path("x");
    let at = |a: Option<&FilePath>, b: Option<&FilePath>| minimap_candidate(a, b, "w").map(|p| shown(&p));
    assert_eq!(at(Some(&mm), Some(&beside)).unwrap(), "mm/w");
    assert_eq!(at(None, Some(&beside)).unwrap(), "x/minimap/w");
    assert_eq!(at(None, None), None);
    let only = |want: &'static str| {
        find_minimap_root(&path("a/world-map"), &path("a"), move |p: &FilePath| shown(p) == want)
    };
    assert!(only("a/minimap").is_some() && only("a/world-map/minimap").is_some());
    assert!(only("elsewhere").is_none());
}

#[test]
fn a_server_config_makes_a_world() {
    assert!(looks_like_world_dir(true, &vec![]));
    assert!(!looks_like_world_dir(false, &vec![]));
    let entry = |name: &str, kind: EntryKind, is_dimension: bool| {
        vec![CandidateEntry { name: name.into(), kind, is_dimension }]
    };
    assert!(!looks_like_world_dir(false, &entry("null", EntryKind::File, true)));
    assert!(!looks_like_world_dir(false, &entry("XaeroPlus.db", EntryKind::Directory, false)));
    assert!(!looks_like_world_dir(false, &entry("XaeroPlusA.db", EntryKind::Other, false)));
    assert!(looks_like_world_dir(false, &entry("XaeroPlus.db", EntryKind::File, false)));
}

// -------------------------------------------------------------- waypoints --

fn node(name: &str, children: Vec<MinimapNode>) -> MinimapNode {
    MinimapNode {
        name: name.into(),
        raw: raw(name),
        is_dir: true,
        is_backup: name.starts_with("backup"),
        waypoint: None,
        dimension: (name == "dim%0").then_some(Dimension::Overworld),
        children,
    }
}

fn leaf(name: &str) -> MinimapNode {
    let waypoint = match name {
        "waypoints.txt" => Some(None),
        _ => name.strip_suffix("_1.txt").map(|mw| Some(mw.to_string())),
    };
    MinimapNode { is_dir: false, waypoint, ..node(name, vec![]) }
}

fn tree(nodes: Vec<MinimapNode>) -> TreeListing {
    TreeListing { is_dir: true, nodes }
}

fn none() -> TreeListing {
    TreeListing { is_dir: false, nodes: vec![node("ignored", vec![leaf("waypoints.txt")])] }
}

#[test]
fn snapshots_are_archived_and_pending_files_skipped() {
    let dim = |file: &str| node("dim%0", vec![leaf(file), leaf("config.cfg")]);
    let live = LiveTrees {
        xaero: tree(vec![
            node("w", vec![
                dim("mw$a_1.txt"),
                node("backup", vec![dim("mw$old_1.txt"), node("backup2", vec![leaf("waypoints.txt")])]),
                node("temp_to_add", vec![leaf("waypoints.txt")]),
                leaf("waypoints.txt"),
            ]),
            node("backup", vec![node("w", vec![dim("mw$b_1.txt")])]),
            node("temp_to_add", vec![dim("mw$c_1.txt")]),
            leaf("mw$stray_1.txt"),
        ]),
        config: none(),
        bare: tree(vec![node("v", vec![dim("mw$d_1.txt")])]),
    };
    let entries = vec![
        RootEntry {
            name: "XaeroWaypoints_BACKUP240807".into(),
            raw: raw("XaeroWaypoints_BACKUP240807"),
            is_dir: true,
            nodes: vec![node("w", vec![dim("mw$e_1.txt")])],
        },
        RootEntry {
            name: "other".into(),
            raw: raw("other"),
            is_dir: true,
            nodes: vec![node("w", vec![dim("mw$f_1.txt")])],
        },
    ];
    let files = scan_waypoint_files(&path("r"), &live, &entries);
    let found: Vec<(bool, String)> = files
        .iter()
        .map(|f| (f.kind == WaypointSourceKind::Live, shown(&f.path)))
        .collect();
    assert_eq!(
        found,
        vec![
            (false, "r/XaeroWaypoints_BACKUP240807/w/dim%0/mw$e_1.txt".into()),
            (true, "r/minimap/v/dim%0/mw$d_1.txt".into()),
            (false, "r/xaero/minimap/backup/w/dim%0/mw$b_1.txt".into()),
            (false, "r/xaero/minimap/w/backup/backup2/waypoints.txt".into()),
            (false, "r/xaero/minimap/w/backup/dim%0/mw$old_1.txt".into()),
            (true, "r/xaero/minimap/w/dim%0/mw$a_1.txt".into()),
            (true, "r/xaero/minimap/w/waypoints.txt".into()),
        ]
    );
    let in_folder = &files[5];
    assert_eq!(in_folder.world, "w");
    assert_eq!(in_folder.dim_folder.as_deref(), Some("dim%0"));
    assert_eq!(in_folder.dimension, Some(Dimension::Overworld));
    assert_eq!(in_folder.mw.as_deref(), Some("mw$a"));
    assert_eq!(shown(&in_folder.tree), "r/xaero/minimap");
    let bare = &files[6];
    assert_eq!((&bare.dim_folder, &bare.dimension, &bare.mw), (&None, &None, &None));
    assert_eq!(shown(&files[2].tree), "r/xaero/minimap/backup");
}

#[test]
fn a_file_that_is_found_twice_is_listed_once() {
    let twice = || vec![node("w", vec![leaf("waypoints.txt"), leaf("waypoints.txt")])];
    let live = LiveTrees { xaero: tree(twice()), config: none(), bare: none() };
    assert_eq!(scan_waypoint_files(&path("r"), &live, &vec![]).len(), 1);
    let texts: Vec<String> = live_tree_paths(&path("r")).iter().map(shown).collect();
    assert_eq!(texts, vec!["r/xaero/minimap", "r/config/xaero/minimap", "r/minimap"]);
    assert!(is_tree_copy("XaeroWaypoints") && !is_tree_copy("Xaero"));
    assert_eq!(TreeLevel::Tree.below(false), Some(TreeLevel::World));
    assert_eq!(TreeLevel::Tree.below(true), Some(TreeLevel::Tree));
    assert_eq!(TreeLevel::World.below(true), Some(TreeLevel::World));
    assert_eq!(TreeLevel::World.below(false).unwrap().below(false), None);
}

// ------------------------------------------------------------------ roots --

#[test]
fn default_roots_hold_the_mods_data() {
    let home = path("h");
    let bases = instance_paths(&home);
    assert_eq!(bases.len(), 15);
    let mut listings: Vec<Vec<Vec<u8>>> = bases.iter().map(|_| Vec::new()).collect();
    listings[5] = (0..70).map(|i| raw(&format!("i{i}"))).collect();
    let base = "h/curseforge/minecraft/Instances";
    assert_eq!(shown(&bases[5]), base);
    let is_dir = |p: &FilePath| {
        let p = shown(p);
        p == "h/.minecraft/xaero"
            || p == format!("{base}/i63/xaero")
            || p == format!("{base}/i1/minecraft/config/xaero")
            || p == format!("{base}/i64/xaero")
    };
    let found = default_root_candidates(Some(&home), &listings, is_dir);
    let texts: Vec<String> = found.iter().map(shown).collect();
    assert_eq!(
        texts,
        vec![String::from("h/.minecraft"), format!("{base}/i1/minecraft"), format!("{base}/i63")]
    );
    assert!(default_root_candidates(None, &listings, |_: &FilePath| true).is_empty());
    listings[5] = vec![raw("a"), raw("a")];
    let all = default_root_candidates(Some(&home), &listings, |_: &FilePath| true);
    assert_eq!(all.len(), 3 + 3, "each location once");
}

#[test]
fn the_home_directory_has_a_fallback() {
    let at = |h: Option<&str>, u: Option<&str>| home_directory(h.map(path), u.map(path)).map(|p| shown(&p));
    assert_eq!(at(Some("h"), Some("u")).unwrap(), "h");
    assert_eq!(at(None, Some("u")).unwrap(), "u");
    assert_eq!(at(None, None), None);
}

// ------------------------------------------------------------------- rest --

#[test]
fn builds_the_expected_layout() {
    let places = world_map_tree(&vec![("srv".into(), -10, -1)]);
    assert_eq!(places.len(), 1);
    let p = places[0].directory.join(&places[0].file_name);
    assert_eq!(shown(&p), "world-map/srv/null/0/-10_-1.zip");
}

#[test]
fn numbers_print_and_read_back() {
    for n in [0, 7, 10, -1, 100_000, i32::MAX, i32::MIN] {
        assert_eq!(decimal(n as i128), n.to_string());
        assert_eq!(parse_i32(&decimal(n as i128)), Some(n));
    }
    for bad in ["", "-", "+", "1 ", " 1", "1.0", "2147483648", "-2147483649", "99999999999999999999"] {
        assert_eq!(parse_i32(bad), bad.parse::<i32>().ok(), "{bad}");
    }
    assert_eq!(parse_i32("+007"), Some(7));
}

#[test]
fn text_is_searched_by_character() {
    assert!(contains("héllo", "éll") && contains("a", "") && !contains("", "a"));
    assert!(starts_with("ab", "a") && starts_with("", "") && !starts_with("a", "ab"));
    assert!(ends_with("ab", "b") && !ends_with("b", "ab"));
    assert_eq!(strip_suffix("a-lines", "-lines").as_deref(), Some("a"));
    assert_eq!(strip_suffix("a-line", "-lines"), None);
}

#[test]
fn sorting_is_stable_and_total() {
    let strings = |v: &[&str]| v.iter().map(|s| s.to_string()).collect::<Vec<_>>();
    let mut names = strings(&["b", "a", "", "é", "B", "ab", "z", "\u{10000}", "\u{ffff}"]);
    let sorted = sort(names.clone());
    names.sort();
    assert_eq!(sorted, names);
    assert_eq!(sort(vec![3, -1, 2, -1]), vec![-1, -1, 2, 3]);
    // Elements of equal rank keep their order.
    let shown = |w: &World| shown(w.world_map_path.as_ref().unwrap());
    let at = |id: &str, p: &str| World { world_map_path: Some(path(p)), ..bare_world(id) };
    let worlds = sort(vec![at("b", "1"), at("a", "2"), at("b", "3"), at("a", "4")]);
    assert_eq!(worlds.iter().map(shown).collect::<Vec<_>>(), vec!["2", "4", "1", "3"]);
    let pairs = vec![(2u8, 5), (1u8, 9), (2u8, 4)];
    assert_eq!(sort(pairs), vec![(1, 9), (2, 4), (2, 5)]);
}

#[test]
fn region_names_are_distinct() {
    let mut names = Vec::new();
    for rx in -12..12 {
        for rz in -12..12 {
            names.push(region_file_name(rx, rz, "zip"));
        }
    }
    assert!(names.contains(&String::from("-1_11.zip")));
    let count = names.len();
    names.sort();
    names.dedup();
    assert_eq!(names.len(), count);
}

#[test]
fn discovered_worlds_come_once_and_in_order() {
    let dir = |id: &str, items: Vec<WorldItem>| ScannedDir {
        kind: EntryKind::Directory,
        looks_like_world: true,
        world: scan_world(Some(id.into()), path("r").join(id), None, Some(&items)),
    };
    let scan = |p: &FilePath| {
        if shown(p) != "r/world-map" {
            return None;
        }
        Some(scan_world_map_root(vec![
            dir("m", vec![file("a.db")]),
            dir("b", vec![file("b.db")]),
            dir("empty", vec![file("notes.txt")]),
        ]))
    };
    let minimap = |name: &str| MinimapFolder {
        name: name.into(),
        raw: raw(name),
        kind: EntryKind::Directory,
        is_backup: false,
        folders: vec![folder("dim%0", &["waypoints.txt"])],
    };
    let folders = vec![minimap("m"), minimap("c"), minimap("a"), minimap("c")];
    let root = MinimapRoot { path: path("r/minimap"), folders };
    let worlds = discover_root(&path("r"), Some(root), scan, |_: &FilePath| None);
    let ids: Vec<&str> = worlds.iter().map(|w| w.id.as_str()).collect();
    assert_eq!(ids, vec!["a", "b", "c", "m"]);
    for w in &worlds {
        let mapped = !w.dims.is_empty() || !w.databases.is_empty();
        assert_eq!(w.world_map_path.is_some(), mapped, "{}", w.id);
        assert!(mapped || !w.waypoint_files.is_empty(), "{}", w.id);
    }
}
