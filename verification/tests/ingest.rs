use xaerotools::ingest::{has_zip_magic, ingest_roots, layer_known, layer_rel, let_in, safe_segment};
use xaerotools::ingest::{validate, write_failure, write_region_file, NamedEntry, RegionQuery};
use xaerotools::ingest::{WorldEntry, WriteStep, COORD_CAP, REGION_BODY_MAX};
use xaerotools::naming::{Dimension, DimensionConfig};
use xaerotools::paths::FilePath;
use xaerotools::preview::preview_message;
use xaerotools::regions::layer_dir;
use xaerotools::request::{ingest_region, IngestRequest, RequestAction, RequestEvent};
use xaerotools::upload::{store_upload, Content, StoreUpload, UploadAction, UploadEvent};
use xaerotools::worlds::{DimEntry, MwEntry, World};

fn q(world: &str, dim: &str, mw: &str) -> RegionQuery {
    RegionQuery {
        world: world.into(),
        dim: dim.into(),
        mw: mw.into(),
        rx: 1,
        rz: -2,
        cave: None,
    }
}

fn path(text: &str) -> FilePath {
    FilePath::empty().join_pieces(text)
}

fn shown(p: &FilePath) -> String {
    let names: Vec<&str> = p.parts().iter().map(|n| std::str::from_utf8(n).unwrap()).collect();
    names.join("/")
}

/// Whether the folder is one of the dimensions these tests speak of.
fn is_dim(folder: &str) -> bool {
    ["null", "DIM-1", "minecraft$worlds%2b2t%2b2t_1"].contains(&folder)
}

/// Whether the folder is one of the multiworlds these tests speak of.
fn is_mw(folder: &str) -> bool {
    folder.starts_with("mw$") || folder.starts_with("cm$")
}

fn check(q: &RegionQuery) -> Result<(), &'static str> {
    validate(q, is_dim(&q.dim), is_mw(&q.mw))
}

#[test]
fn validates_path_segments() {
    assert!(check(&q("Multiplayer_2b2t", "null", "mw$default")).is_ok());
    assert!(check(&q("Multiplayer_2b2t.org", "DIM-1", "mw$-542221765")).is_ok());
    assert!(check(&q(
        "Multiplayer_Minecraft Server",
        "minecraft$worlds%2b2t%2b2t_1",
        "cm$converted"
    ))
    .is_ok());
    // Traversal, separators, hidden files, foreign folders.
    assert!(check(&q("../evil", "null", "mw$default")).is_err());
    assert!(check(&q("a/b", "null", "mw$default")).is_err());
    assert!(check(&q("w", "not-a-dim", "mw$default")).is_err());
    assert!(check(&q("w", "null", "region-files")).is_err());
    assert!(check(&q(".hidden", "null", "mw$default")).is_err());
    assert!(check(&q("", "null", "mw$default")).is_err());
    let mut far = q("w", "null", "mw$default");
    far.rx = COORD_CAP + 1;
    assert!(check(&far).is_err());
}

#[test]
fn every_fault_has_its_message() {
    assert_eq!(check(&q("", "null", "mw$default")), Err("bad world folder name"));
    assert_eq!(check(&q("w", "", "mw$default")), Err("bad dim folder name"));
    assert_eq!(check(&q("w", "null", "x")), Err("bad multiworld folder name"));
    for (rx, rz) in [(COORD_CAP + 1, 0), (0, COORD_CAP + 1), (i32::MIN, 0), (0, -COORD_CAP - 1)] {
        let mut far = q("w", "null", "mw$default");
        far.rx = rx;
        far.rz = rz;
        assert_eq!(check(&far), Err("region coordinates out of range"));
    }
    let mut edge = q("w", "null", "mw$default");
    edge.rx = -COORD_CAP;
    edge.rz = COORD_CAP;
    assert_eq!(check(&edge), Ok(()));
}

#[test]
fn safe_segments() {
    for good in ["a", "A b", "x.y", "mw$-1", "(1)", "it's,+&@~%", &"a".repeat(128)] {
        assert!(safe_segment(good), "{good}");
    }
    for bad in ["", ".", "..", ".a", "a/b", "a\\b", "C:", "a\0", "é", "a\n", "\"", &"a".repeat(129)] {
        assert!(!safe_segment(bad), "{bad}");
    }
}

#[test]
fn layer_rel_shapes() {
    let mut r = q("W", "null", "mw$default");
    assert_eq!(layer_rel(&r), path("world-map/W/null/mw$default"));
    r.cave = Some(7);
    assert_eq!(
        layer_rel(&r),
        path("world-map/W/null/mw$default/caves/7")
    );
    r.cave = Some(i32::MIN);
    assert_eq!(shown(&layer_rel(&r)), "world-map/W/null/mw$default/caves/-2147483648");
}

#[test]
fn refusals_come_in_order() {
    let good = q("w", "null", "mw$default");
    let mut cave = q("w", "null", "mw$default");
    cave.cave = Some(1);
    let status = |player: &str, q: &RegionQuery, no_caves: bool, len: usize| {
        let verdict = let_in(player, q, is_dim(&q.dim), is_mw(&q.mw), no_caves, len);
        verdict.map_err(|e| (e.status, e.message))
    };
    let unsafe_name =
        "player name is not filesystem-safe — regenerate the token for a simpler name";
    assert_eq!(status("", &q("", "", ""), true, 0), Err((403, unsafe_name.into())));
    assert_eq!(status("p", &q("", "", ""), true, 0), Err((400, "bad world folder name".into())));
    let caves = "cave-layer uploads are disabled on this server (--ingest-no-caves)";
    assert_eq!(status("p", &cave, true, 0), Err((403, caves.into())));
    assert_eq!(status("p", &cave, false, 0), Err((400, "empty body".into())));
    assert_eq!(status("p", &cave, false, 1), Ok(()));
    assert_eq!(status("p", &good, true, REGION_BODY_MAX), Ok(()));
    assert_eq!(
        status("p", &good, true, REGION_BODY_MAX + 1),
        Err((413, "region too large".into()))
    );
}

#[test]
fn region_files_go_by_their_magic() {
    let dir = path("d");
    let w = write_region_file(&dir, 1, -2, b"PK\x03\x04");
    assert_eq!(shown(&w.write.dir), "d");
    assert_eq!(shown(&w.write.tmp), "d/1_-2.zip.tmp-xt");
    assert_eq!(shown(&w.write.dst), "d/1_-2.zip");
    assert_eq!(shown(&w.stale), "d/1_-2.xaero");
    let w = write_region_file(&dir, 1, -2, b"\x00P");
    assert_eq!(shown(&w.write.dst), "d/1_-2.xaero");
    assert_eq!(shown(&w.stale), "d/1_-2.zip");
    assert!(!has_zip_magic(b"P") && !has_zip_magic(b"") && has_zip_magic(b"PK"));
    assert_eq!(write_failure(WriteStep::MakeDirectory, "/d", "no"), "mkdir /d: no");
    assert_eq!(write_failure(WriteStep::Write, "/d", "no"), "write /d: no");
    assert_eq!(write_failure(WriteStep::Rename, "/d", "no"), "rename /d: no");
}

#[test]
fn managed_roots_are_players_and_merged() {
    let named = |raw: &str, is_dir: bool| NamedEntry { raw: raw.as_bytes().to_vec(), is_dir };
    let players = vec![named("Bob", true), named("Alice", true), named("notes.txt", false)];
    let roots = ingest_roots(&path("in"), &players, true);
    let texts: Vec<String> = roots.iter().map(shown).collect();
    assert_eq!(texts, vec!["in/merged", "in/players/Alice", "in/players/Bob"]);
    assert!(ingest_roots(&path("in"), &vec![], false).is_empty());
}

fn world(root: &str, id: &str, dim: &str, mw: &str, caves: Vec<i32>) -> WorldEntry {
    let mw = MwEntry { id: mw.into(), display: mw.into(), cave_layers: caves };
    let dim = DimEntry {
        folder: dim.into(),
        dimension: Some(Dimension::Overworld),
        config: DimensionConfig { dimension_type_id: None },
        multiworlds: vec![mw],
    };
    let world = World {
        id: id.into(),
        world_map_path: None,
        minimap_path: None,
        dims: vec![dim],
        databases: vec![],
        waypoint_files: vec![],
    };
    WorldEntry { root: path(root), world }
}

#[test]
fn a_layer_is_known_when_both_roots_carry_it() {
    let mut r = q("w", "null", "mw$default");
    let mine = world("in/players/p", "w", "null", "mw$default", vec![3]);
    let merged = world("in/merged", "w", "null", "mw$default", vec![]);
    let known = |worlds: &Vec<WorldEntry>, r: &RegionQuery| {
        layer_known(worlds, &path("in/players/p"), &path("in/merged"), r)
    };
    let mut worlds = vec![mine];
    assert!(!known(&worlds, &r));
    worlds.push(merged);
    assert!(known(&worlds, &r));
    r.cave = Some(3);
    assert!(!known(&worlds, &r), "the merged root has no such cave layer");
    r.cave = None;
    r.mw = "mw$other".into();
    assert!(!known(&worlds, &r));
}

fn upload(bytes: &[u8]) -> StoreUpload {
    store_upload(path("in"), "Alice".into(), q("w", "null", "mw$default"), bytes)
}

fn feed(mut s: StoreUpload, events: Vec<UploadEvent>) -> (Vec<String>, StoreUpload) {
    let mut asked = Vec::new();
    for event in events {
        asked.push(match s.action() {
            UploadAction::Decode => String::from("decode"),
            UploadAction::Write { place, content } => {
                let what = if content == Content::Upload { "upload" } else { "merged" };
                format!("{what} -> {}", shown(&place.write.dst))
            }
            UploadAction::Probe { zip, xaero } => format!("{} | {}", shown(&zip), shown(&xaero)),
            UploadAction::Load { path } => format!("load {}", shown(&path)),
            UploadAction::Merge => String::from("merge"),
            UploadAction::Finish => String::from("finish"),
        });
        assert!(s.accepts(&event));
        s.step(event);
    }
    (asked, s)
}

const LAYER: &str = "world-map/w/null/mw$default";

#[test]
fn the_first_upload_is_stored_verbatim_twice() {
    let events = vec![
        UploadEvent::Decoded { truncated: false },
        UploadEvent::Wrote,
        UploadEvent::Probed { zip: false, xaero: false },
        UploadEvent::Wrote,
    ];
    let (asked, s) = feed(upload(b"PK.."), events);
    assert_eq!(
        asked,
        vec![
            String::from("decode"),
            format!("upload -> in/players/Alice/{LAYER}/1_-2.zip"),
            format!("in/merged/{LAYER}/1_-2.zip | in/merged/{LAYER}/1_-2.xaero"),
            format!("upload -> in/merged/{LAYER}/1_-2.zip"),
        ]
    );
    assert!(s.is_finished());
    assert_eq!(s.finish(), Ok(()));
}

#[test]
fn a_later_upload_is_merged_over_what_is_there() {
    let events = vec![
        UploadEvent::Decoded { truncated: false },
        UploadEvent::Wrote,
        UploadEvent::Probed { zip: true, xaero: true },
        UploadEvent::Loaded(true),
        UploadEvent::Merged(b"PK merged".to_vec()),
        UploadEvent::Wrote,
    ];
    let (asked, s) = feed(upload(b"raw"), events);
    assert_eq!(asked[1], format!("upload -> in/players/Alice/{LAYER}/1_-2.xaero"));
    assert_eq!(asked[3], format!("load in/merged/{LAYER}/1_-2.zip"));
    assert_eq!(asked[4], "merge");
    assert_eq!(asked[5], format!("merged -> in/merged/{LAYER}/1_-2.zip"));
    assert_eq!(s.container(), b"PK merged");
    assert_eq!(s.finish(), Ok(()));
}

#[test]
fn an_unreadable_merged_file_is_replaced() {
    let events = vec![
        UploadEvent::Decoded { truncated: false },
        UploadEvent::Wrote,
        UploadEvent::Probed { zip: false, xaero: true },
        UploadEvent::Loaded(false),
        UploadEvent::Wrote,
    ];
    let (asked, s) = feed(upload(b"PK"), events);
    assert_eq!(asked[3], format!("load in/merged/{LAYER}/1_-2.xaero"));
    assert_eq!(asked[4], format!("upload -> in/merged/{LAYER}/1_-2.zip"));
    assert!(s.finish().is_ok());
}

#[test]
fn every_refusal_of_an_upload() {
    let refused = |events: Vec<UploadEvent>| {
        let (asked, s) = feed(upload(b"PK"), events);
        let e = s.finish().unwrap_err();
        (asked.len(), e.status, e.message)
    };
    let ok = || UploadEvent::Decoded { truncated: false };
    assert_eq!(
        refused(vec![UploadEvent::Unreadable("e".into())]),
        (1, 400, "unreadable region container: e".into())
    );
    assert_eq!(
        refused(vec![UploadEvent::Undecodable("e".into())]),
        (1, 400, "region does not decode: e".into())
    );
    assert_eq!(
        refused(vec![UploadEvent::Decoded { truncated: true }]),
        (1, 400, "region is truncated — retry after the file settles".into())
    );
    assert_eq!(
        refused(vec![ok(), UploadEvent::WriteFailed("mkdir".into())]),
        (2, 500, "mkdir".into())
    );
    let there = || UploadEvent::Probed { zip: true, xaero: false };
    let merging = || vec![ok(), UploadEvent::Wrote, there(), UploadEvent::Loaded(true)];
    let mut events = merging();
    events.push(UploadEvent::SelfCheckFailed("e".into()));
    assert_eq!(refused(events), (5, 500, "merge self-check: e".into()));
    let mut events = merging();
    events.push(UploadEvent::PackFailed("e".into()));
    assert_eq!(refused(events), (5, 500, "zip: e".into()));
}

fn request(len: usize) -> IngestRequest {
    ingest_region(path("in"), "Alice".into(), q("w", "null", "mw$default"), true, true, false, len)
}

fn drive(mut r: IngestRequest, events: Vec<RequestEvent>) -> (Vec<String>, u16, Option<String>) {
    let mut asked = Vec::new();
    for event in events {
        asked.push(match r.action() {
            RequestAction::Charge => String::from("charge"),
            RequestAction::LookUp => String::from("look up"),
            RequestAction::Store => String::from("store"),
            RequestAction::Notify { player_file, merged_file } => {
                format!("{} + {}", shown(&player_file), shown(&merged_file))
            }
            RequestAction::ClearPreview { delay_ms, rx, rz } => format!("{delay_ms} {rx} {rz}"),
            RequestAction::LookUpAlone => String::from("look up alone"),
            RequestAction::Rescan => String::from("rescan"),
            RequestAction::Reply { .. } => panic!("answered already"),
        });
        assert!(r.accepts(&event));
        r.step(event);
    }
    match r.action() {
        RequestAction::Reply { status, message } => (asked, status, message),
        other => panic!("not answered: {other:?}"),
    }
}

#[test]
fn a_new_layer_is_rescanned_once() {
    let events = |again: Vec<RequestEvent>, before: bool| {
        let mut all = vec![
            RequestEvent::Charged(true),
            RequestEvent::Known(before),
            RequestEvent::Stored,
            RequestEvent::Done,
            RequestEvent::Done,
        ];
        all.extend(again);
        all
    };
    let (asked, status, message) =
        drive(request(9), events(vec![RequestEvent::Known(false), RequestEvent::Done], false));
    assert_eq!((status, message), (204, None));
    assert_eq!(
        asked,
        vec![
            String::from("charge"),
            String::from("look up"),
            String::from("store"),
            format!("in/players/Alice/{LAYER}/1_-2.zip + in/merged/{LAYER}/1_-2.zip"),
            String::from("2500 1 -2"),
            String::from("look up alone"),
            String::from("rescan"),
        ]
    );
    // Another upload has brought the layer in while this one waited.
    let (asked, status, _) = drive(request(9), events(vec![RequestEvent::Known(true)], false));
    assert_eq!((asked.len(), status), (6, 204));
    let (asked, status, _) = drive(request(9), events(vec![], true));
    assert_eq!((asked.len(), status), (5, 204));
}

#[test]
fn every_refusal_of_a_request() {
    let refused = |events: Vec<RequestEvent>| {
        let (_, status, message) = drive(request(9), events);
        (status, message.unwrap())
    };
    assert_eq!(drive(request(0), vec![]), (vec![], 400, Some("empty body".into())));
    assert_eq!(refused(vec![RequestEvent::Charged(false)]), (429, "rate limited".into()));
    let stored = |e: RequestEvent| vec![RequestEvent::Charged(true), RequestEvent::Known(true), e];
    assert_eq!(refused(stored(RequestEvent::StoreLost)), (500, "store task failed".into()));
    let (_, s) = feed(upload(b"PK"), vec![UploadEvent::Unreadable("e".into())]);
    let e = s.finish().unwrap_err();
    assert_eq!(
        refused(stored(RequestEvent::NotStored(e))),
        (400, "unreadable region container: e".into())
    );
}

#[test]
fn preview_messages_are_json() {
    let text = preview_message("minecraft:a\"b\\c\n\u{1}é", -3, 4, u64::MAX);
    assert_eq!(
        text,
        "{\"dim\":\"minecraft:a\\\"b\\\\c\\n\\u0001é\",\"regions\":[[-3,4]],\
         \"type\":\"preview\",\"v\":18446744073709551615}"
    );
    let v: serde_json::Value = serde_json::from_str(&text).unwrap();
    assert_eq!(v["dim"], "minecraft:a\"b\\c\n\u{1}é");
    assert_eq!(v["type"], "preview");
    assert_eq!(v["regions"][0][0], -3);
    assert_eq!(v["v"], u64::MAX);
    // As the whole object prints.
    assert_eq!(v.to_string(), text);
}

#[test]
fn every_control_character_is_escaped() {
    for c in (0u8..0x80).map(char::from) {
        let text = preview_message(&c.to_string(), 0, 0, 0);
        let v: serde_json::Value = serde_json::from_str(&text).unwrap();
        assert_eq!(v["dim"].as_str().unwrap(), c.to_string());
        assert!(text.chars().all(|c| c >= ' '));
    }
}

#[test]
fn uploads_land_where_layers_are_read() {
    let mut r = q("W", "DIM-1", "mw$default");
    for cave in [None, Some(-4)] {
        r.cave = cave;
        let read = layer_dir(&path("root/world-map/W"), "DIM-1", "mw$default", cave);
        assert_eq!(path("root").join_path(&layer_rel(&r)), read);
    }
}

#[test]
fn an_admitted_upload_is_written_under_safe_names() {
    let mut far = q("Multiplayer_2b2t", "DIM-1", "mw$-542221765");
    far.rx = -COORD_CAP;
    far.rz = COORD_CAP;
    far.cave = Some(-4);
    assert_eq!(let_in("Alice", &far, true, true, false, 10), Ok(()));
    for bytes in [&b"PK.."[..], &b"raw"[..]] {
        let mut s = store_upload(path("in/dir"), "Alice".into(), far.clone(), bytes);
        let events = vec![
            UploadEvent::Decoded { truncated: false },
            UploadEvent::Wrote,
            UploadEvent::Probed { zip: false, xaero: false },
            UploadEvent::Wrote,
        ];
        let mut written = 0;
        for event in events {
            if let UploadAction::Write { place, .. } = s.action() {
                written += 1;
                for p in [&place.write.tmp, &place.write.dst, &place.stale] {
                    let text = shown(p);
                    let names: Vec<&str> = text.split('/').collect();
                    assert_eq!(names[..2], ["in", "dir"]);
                    assert!(names[2..].iter().all(|n| safe_segment(n)), "{text}");
                }
            }
            s.step(event);
        }
        assert_eq!(written, 2);
    }
    assert!(let_in("..", &far, true, true, false, 10).is_err());
}
