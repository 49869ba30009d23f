use rusqlite::{params_from_iter, Connection, OpenFlags};
use std::path::Path;
use std::time::Duration;
use xaerotools::database::{count_sql, inspect, list_tables, MetadataShape};
use xaerotools::database::{LIST_TABLES_SQL, MAX_VERSION_SQL, METADATA_COLUMNS_SQL};
use xaerotools::drawing::{is_drawing_db, DimensionDrawings, DimensionRows, DrawingDb, DrawingFamily};
use xaerotools::drawing::{DrawingHighlight, EllipseRow, HighlightRow, LineRow, TextRow};
use xaerotools::drawing_merge::{attach_uri, merge_into, ColumnInfo, DrawingMergeReport};
use xaerotools::drawing_merge::{MergeAction, MergeReply};
use xaerotools::sql::quote_ident;

fn texts(conn: &Connection, sql: &str) -> Vec<String> {
    let mut stmt = conn.prepare(sql).unwrap();
    let rows = stmt.query_map([], |r| r.get::<_, String>(0)).unwrap();
    rows.flatten().collect()
}

struct Opened {
    conn: Connection,
    db: DrawingDb,
}

fn open_readonly(path: &Path) -> Opened {
    let conn = Connection::open_with_flags(path, OpenFlags::SQLITE_OPEN_READ_ONLY).unwrap();
    let listing = list_tables(texts(&conn, LIST_TABLES_SQL));
    let (columns, max) = if listing.has_metadata {
        let max = conn.query_row(MAX_VERSION_SQL, [], |r| r.get::<_, Option<i64>>(0));
        (texts(&conn, METADATA_COLUMNS_SQL), max.ok().flatten())
    } else {
        (Vec::new(), None)
    };
    let (version, metadata, tables) = inspect(listing, &columns, max);
    Opened { conn, db: DrawingDb { version, metadata, tables } }
}

fn rows<T>(
    conn: &Connection,
    sql: &Option<String>,
    read: impl FnMut(&rusqlite::Row<'_>) -> rusqlite::Result<T>,
) -> Vec<T> {
    match sql {
        Some(sql) => {
            let mut stmt = conn.prepare(sql).unwrap();
            let found = stmt.query_map([], read).unwrap();
            found.flatten().collect()
        }
        None => Vec::new(),
    }
}

impl Opened {
    fn read_dimension(&self, key: &str) -> DimensionDrawings {
        let sql = self.db.read_dimension_sql(key);
        let c = &self.conn;
        let found = DimensionRows {
            highlights: rows(c, &sql.highlights, |r| {
                Ok(HighlightRow { x: r.get(0).ok(), z: r.get(1).ok(), color: r.get(2).ok() })
            }),
            lines: rows(c, &sql.lines, |r| {
                Ok(LineRow {
                    x1: r.get(0).ok(),
                    z1: r.get(1).ok(),
                    x2: r.get(2).ok(),
                    z2: r.get(3).ok(),
                    color: r.get(4).ok(),
                })
            }),
            texts: rows(c, &sql.texts, |r| {
                Ok(TextRow {
                    value: r.get(0).ok(),
                    x: r.get(1).ok(),
                    z: r.get(2).ok(),
                    color: r.get(3).ok(),
                    scale_bits: r.get::<_, f64>(4).ok().map(|s| (s as f32).to_bits()),
                })
            }),
            ellipses: rows(c, &sql.ellipses, |r| {
                Ok(EllipseRow {
                    center_x: r.get(0).ok(),
                    center_z: r.get(1).ok(),
                    radius_x: r.get(2).ok(),
                    radius_z: r.get(3).ok(),
                    color: r.get(4).ok(),
                })
            }),
        };
        self.db.read_dimension(key, &found)
    }

    fn highlights_in_window(&self, key: &str, w: [i64; 4]) -> Vec<DrawingHighlight> {
        let found = match self.db.highlights_in_window_sql(key, w[0], w[1], w[2], w[3]) {
            Some(q) => {
                let mut stmt = self.conn.prepare(&q.sql).unwrap();
                let found = stmt
                    .query_map(q.params, |r| {
                        Ok(HighlightRow {
                            x: r.get(0).ok(),
                            z: r.get(1).ok(),
                            color: r.get(2).ok(),
                        })
                    })
                    .unwrap();
                found.flatten().collect()
            }
            None => Vec::new(),
        };
        self.db.highlights_in_window(key, &found)
    }
}

fn perform(conn: &mut Option<Connection>, action: MergeAction) -> rusqlite::Result<MergeReply> {
    let c = conn.as_ref();
    Ok(match action {
        MergeAction::Open { path, writable } => {
            let opened = if writable {
                Connection::open(path)?
            } else {
                Connection::open_with_flags(
                    path,
                    OpenFlags::SQLITE_OPEN_READ_ONLY
                        | OpenFlags::SQLITE_OPEN_URI
                        | OpenFlags::SQLITE_OPEN_NO_MUTEX,
                )?
            };
            *conn = Some(opened);
            MergeReply::Done
        }
        MergeAction::BusyTimeout { millis } => {
            c.unwrap().busy_timeout(Duration::from_millis(millis))?;
            MergeReply::Done
        }
        MergeAction::Pragma { name, value } => {
            c.unwrap().pragma_update(None, &name, &value)?;
            MergeReply::Done
        }
        MergeAction::Run { sql, params } => {
            if params.is_empty() {
                c.unwrap().execute_batch(&sql)?;
            } else {
                c.unwrap().execute(&sql, params_from_iter(params.iter()))?;
            }
            MergeReply::Done
        }
        MergeAction::Count { sql, params } => MergeReply::Count(
            c.unwrap().query_row(&sql, params_from_iter(params.iter()), |r| r.get(0))?,
        ),
        MergeAction::Tables { sql } => {
            let mut stmt = c.unwrap().prepare(&sql)?;
            let found = stmt.query_map([], |r| Ok((r.get(0)?, r.get(1)?)))?;
            MergeReply::Tables(found.flatten().collect())
        }
        MergeAction::Columns { sql, params } => {
            let mut stmt = c.unwrap().prepare(&sql)?;
            let found = stmt.query_map(params_from_iter(params.iter()), |r| {
                Ok(ColumnInfo { name: r.get(0)?, pk: r.get(1)? })
            })?;
            MergeReply::Columns(found.flatten().collect())
        }
        MergeAction::Finish => unreachable!(),
    })
}

fn merge(dest: &Path, sources: &[&Path], apply: bool) -> Result<DrawingMergeReport, String> {
    let shown = |p: &Path| p.display().to_string();
    let mut merge = merge_into(shown(dest), sources.iter().map(|s| shown(s)).collect(), apply);
    let mut conn = None;
    while !merge.is_finished() {
        let reply = match perform(&mut conn, merge.action()) {
            Ok(reply) => reply,
            Err(e) => MergeReply::Failed(e.to_string()),
        };
        assert!(merge.accepts(&reply));
        merge.step(reply);
    }
    assert!(matches!(merge.action(), MergeAction::Finish));
    merge.finish()
}

/// A v1 drawing DB with the vanilla families plus one custom dimension.
fn mk_drawing(path: &Path, dim: &str, seed: i32, with_ellipses: bool) {
    let conn = Connection::open(path).unwrap();
    conn.execute_batch(
        "CREATE TABLE metadata (version INTEGER PRIMARY KEY, \
         time DATETIME NOT NULL default CURRENT_TIMESTAMP);
         INSERT INTO metadata (version) VALUES (0);",
    )
    .unwrap();
    let q = |family: &str| quote_ident(&format!("{dim}-{family}"));
    let (h, l, t, e) = (q("highlights"), q("lines"), q("texts"), q("ellipses"));
    conn.execute_batch(&format!(
        "CREATE TABLE {h} (x INTEGER, z INTEGER, color INTEGER, PRIMARY KEY (x, z));
         CREATE TABLE {l} (x1 INTEGER, z1 INTEGER, x2 INTEGER, z2 INTEGER, color INTEGER, \
           PRIMARY KEY (x1, z1, x2, z2));
         CREATE TABLE {t} (value TEXT, x INTEGER, z INTEGER, color INTEGER, scale REAL, \
           PRIMARY KEY (x, z));"
    ))
    .unwrap();
    if with_ellipses {
        conn.execute_batch(&format!(
            "INSERT INTO metadata (version) VALUES (1);
             CREATE TABLE {e} (centerX INTEGER, centerZ INTEGER, radiusX INTEGER, \
               radiusZ INTEGER, color INTEGER, PRIMARY KEY (centerX, centerZ, radiusX, radiusZ));
             INSERT INTO {e} VALUES ({seed}, {seed}, 10, 20, 1694433280);"
        ))
        .unwrap();
    }
    let seed2 = seed + 100;
    conn.execute_batch(&format!(
        "INSERT INTO {h} VALUES ({seed}, {seed}, 1694433280);
         INSERT INTO {l} VALUES ({seed}, {seed}, {seed2}, {seed2}, 1694433280);
         INSERT INTO {t} VALUES ('mark{seed}', {seed}, {seed}, 1694433280, 1.5);"
    ))
    .unwrap();
}

#[test]
fn version_is_max_not_first_row() {
    let dir = tempfile::tempdir().unwrap();
    let p = dir.path().join("XaeroPlusDrawing.db");
    mk_drawing(&p, "minecraft:overworld", 5, true);
    let o = open_readonly(&p);
    // The ledger holds rows 0 and 1; reading the first row reports v0.
    assert_eq!(o.db.version, 1);
    assert_eq!(o.db.metadata, MetadataShape::Drawing);
    assert!(o.db.table_for("minecraft:overworld", DrawingFamily::Ellipses).is_some());
}

#[test]
fn reads_families_and_dimensions() {
    let dir = tempfile::tempdir().unwrap();
    let p = dir.path().join("XaeroPlusDrawing.db");
    mk_drawing(&p, "minecraft:overworld", 7, true);
    let o = open_readonly(&p);
    assert_eq!(o.db.dimensions(), vec!["minecraft:overworld".to_string()]);
    let d = o.read_dimension("minecraft:overworld");
    assert!(!d.is_empty());
    assert_eq!(d.highlights.len(), 1);
    assert_eq!(d.highlights[0].x, 7);
    // 1694433280 == 0x64FF0000: alpha 100, pure red.
    assert_eq!(d.highlights[0].color, 0x64FF_0000);
    assert_eq!(d.lines[0].x2, 107);
    assert_eq!(d.texts[0].value, "mark7");
    assert_eq!(f32::from_bits(d.texts[0].scale_bits), 1.5);
    assert_eq!(d.ellipses[0].radius_z, 20);
    // Windowed read is chunk-coordinate based.
    assert_eq!(o.highlights_in_window("minecraft:overworld", [0, 8, 0, 8]).len(), 1);
    assert!(o.highlights_in_window("minecraft:overworld", [100, 200, 0, 8]).is_empty());
    assert!(o.read_dimension("minecraft:the_end").is_empty());
    assert!(o.highlights_in_window("minecraft:the_end", [0, 8, 0, 8]).is_empty());
    let counts = o.db.tables.iter().map(|t| {
        o.conn.query_row(&count_sql(t), [], |r| r.get(0)).map_err(|e| e.to_string())
    });
    assert_eq!(o.db.counts(counts.collect()).unwrap().len(), 4);
}

#[test]
fn merge_unions_both_sides_and_creates_missing_tables() {
    let dir = tempfile::tempdir().unwrap();
    let dest = dir.path().join("dest.db");
    let src = dir.path().join("src.db");
    // Destination: vanilla overworld only, v0 (no ellipses).
    mk_drawing(&dest, "minecraft:overworld", 1, false);
    // Source: a custom dimension the destination has never seen, v1.
    mk_drawing(&src, "minecraft:brazil", 2, true);
    // ..plus an overworld row the destination lacks.
    Connection::open(&src)
        .unwrap()
        .execute_batch(
            "CREATE TABLE \"minecraft:overworld-highlights\" (x INTEGER, z INTEGER, \
               color INTEGER, PRIMARY KEY (x, z));
             INSERT INTO \"minecraft:overworld-highlights\" VALUES (1, 1, 999), (3, 3, -1);",
        )
        .unwrap();

    let dry = merge(&dest, &[&src], false).unwrap();
    assert!(!dry.applied);
    let ow = dry
        .tables
        .iter()
        .find(|t| t.table == "minecraft:overworld-highlights")
        .unwrap();
    assert_eq!(ow.source_rows, 2);
    assert_eq!(ow.overlap, 1);
    assert_eq!(ow.dest_rows_before, 1);
    assert_eq!(ow.dest_rows_after, 2);
    // Dry run wrote nothing.
    assert_eq!(
        open_readonly(&dest).db.dimensions(),
        vec!["minecraft:overworld".to_string()]
    );

    let applied = merge(&dest, &[&src], true).unwrap();
    assert!(applied.applied);
    // What the dry run foretold is what came about.
    for (a, b) in dry.tables.iter().zip(applied.tables.iter()) {
        assert_eq!(a.table, b.table);
        assert_eq!(a.dest_rows_after, b.dest_rows_after);
    }
    let o = open_readonly(&dest);
    assert_eq!(
        o.db.dimensions(),
        vec![
            "minecraft:brazil".to_string(),
            "minecraft:overworld".to_string()
        ]
    );
    let ow = o.read_dimension("minecraft:overworld");
    assert_eq!(ow.highlights.len(), 2, "both sides survive the merge");
    // Destination wins on the shared key (1,1).
    let kept = ow.highlights.iter().find(|h| h.x == 1).unwrap();
    assert_eq!(kept.color, 0x64FF_0000);
    assert_eq!(ow.highlights.iter().find(|h| h.x == 3).unwrap().color, 0xFFFF_FFFF);
    let br = o.read_dimension("minecraft:brazil");
    assert_eq!(br.highlights.len(), 1);
    assert_eq!(br.ellipses.len(), 1, "v1 ellipse table created on the dest");
    assert_eq!(o.db.version, 1, "migration ledger is unioned too");

    // Source untouched.
    let s = open_readonly(&src);
    assert_eq!(s.db.dimensions().len(), 2);
    assert!(s.read_dimension("minecraft:overworld").lines.is_empty());
}

#[test]
fn a_failed_merge_names_what_failed() {
    let dir = tempfile::tempdir().unwrap();
    let dest = dir.path().join("dest.db");
    mk_drawing(&dest, "minecraft:overworld", 1, false);
    let gone = dir.path().join("gone.db");
    let e = merge(&dest, &[&gone], false).unwrap_err();
    assert!(e.starts_with(&format!("attach {}: ", gone.display())), "{e}");
    let e = merge(&gone, &[&dest], false).unwrap_err();
    assert!(e.starts_with(&format!("open {}: ", gone.display())), "{e}");
    let none = merge(&dest, &[], true).unwrap();
    assert!(none.tables.is_empty() && none.applied);
}

#[test]
fn a_failure_midway_still_detaches_the_source() {
    let mut m = merge_into("d".into(), vec!["s".into()], false);
    let mut asked = Vec::new();
    let mut replies = vec![
        MergeReply::Done,
        MergeReply::Done,
        MergeReply::Done,
        MergeReply::Failed("locked".into()),
        MergeReply::Done,
    ]
    .into_iter();
    while !m.is_finished() {
        asked.push(m.action());
        let reply = replies.next().unwrap();
        assert!(m.accepts(&reply));
        m.step(reply);
    }
    match asked.last().unwrap() {
        MergeAction::Run { sql, .. } => assert_eq!(sql, "DETACH DATABASE src0"),
        other => panic!("{other:?}"),
    }
    assert_eq!(m.finish().unwrap_err(), "locked");
}

#[test]
fn the_merge_statements_are_exact() {
    let mut m = merge_into("d".into(), vec!["a?b".into()], true);
    let column = |name: &str, pk: i64| ColumnInfo { name: name.into(), pk };
    let tables = vec![(String::from("t"), String::from("CREATE TABLE t (x)"))];
    let replies = vec![
        MergeReply::Done,
        MergeReply::Done,
        MergeReply::Failed("ignored".into()),
        MergeReply::Failed("ignored".into()),
        MergeReply::Done,
        MergeReply::Tables(tables),
        MergeReply::Count(3),
        MergeReply::Count(1),
        MergeReply::Columns(vec![column("x", 1), column("y", 2), column("c", 0)]),
        MergeReply::Count(5),
        MergeReply::Count(2),
        MergeReply::Columns(vec![column("y", 1), column("x", 2)]),
        MergeReply::Done,
        MergeReply::Count(6),
        MergeReply::Count(1),
        MergeReply::Count(0),
        MergeReply::Done,
        MergeReply::Done,
        MergeReply::Done,
        MergeReply::Failed("ignored".into()),
    ];
    let mut asked = Vec::new();
    for reply in replies {
        let (sql, params) = match m.action() {
            MergeAction::Run { sql, params }
            | MergeAction::Count { sql, params }
            | MergeAction::Columns { sql, params } => (sql, params),
            MergeAction::Tables { sql } => (sql, vec![]),
            other => (format!("{other:?}"), vec![]),
        };
        asked.push((sql, params));
        assert!(m.accepts(&reply));
        m.step(reply);
    }
    assert!(m.is_finished());
    let sql = |i: usize| asked[i].0.as_str();
    assert_eq!(sql(4), "ATTACH DATABASE ?1 AS src0");
    assert_eq!(asked[4].1, vec!["file:a%3Fb?mode=ro"]);
    assert_eq!(
        sql(5),
        "SELECT name, COALESCE(sql,'') FROM src0.sqlite_master WHERE type='table' \
         AND name NOT LIKE 'sqlite_%' AND name != 'metadata' ORDER BY name"
    );
    assert_eq!(sql(6), "SELECT COUNT(*) FROM src0.\"t\"");
    assert_eq!(
        sql(7),
        "SELECT COUNT(*) FROM main.sqlite_master WHERE type='table' AND name = ?1"
    );
    assert_eq!(asked[8].1, vec!["t", "src0"]);
    assert_eq!(
        sql(10),
        "SELECT COUNT(*) FROM src0.\"t\" s JOIN \"t\" m ON s.\"x\" = m.\"x\" AND s.\"y\" = m.\"y\""
    );
    assert_eq!(asked[11].1, vec!["t", "main"]);
    assert_eq!(
        sql(12),
        "INSERT OR IGNORE INTO \"t\" (\"x\", \"y\") SELECT \"x\", \"y\" FROM src0.\"t\""
    );
    assert_eq!(asked[14].1, vec!["metadata"]);
    assert_eq!(
        sql(16),
        "CREATE TABLE IF NOT EXISTS metadata (version INTEGER PRIMARY KEY, \
         time DATETIME NOT NULL default CURRENT_TIMESTAMP)"
    );
    assert_eq!(
        sql(17),
        "INSERT OR IGNORE INTO main.metadata (version, time) \
         SELECT version, time FROM src0.metadata"
    );
    assert_eq!(sql(18), "DETACH DATABASE src0");
    assert_eq!(sql(19), "PRAGMA wal_checkpoint(TRUNCATE); PRAGMA optimize;");
    let report = m.finish().unwrap();
    let t = &report.tables[0];
    assert_eq!((t.source_rows, t.dest_rows_before, t.overlap, t.dest_rows_after), (3, 5, 2, 6));
}

#[test]
fn counts_that_do_not_add_up_are_not_taken() {
    let mut m = merge_into("d".into(), vec!["s".into()], false);
    let tables = vec![(String::from("t"), String::new())];
    let key = vec![ColumnInfo { name: "x".into(), pk: 1 }];
    for reply in [
        MergeReply::Done,
        MergeReply::Done,
        MergeReply::Done,
        MergeReply::Tables(tables),
        MergeReply::Count(1),
        MergeReply::Count(1),
        MergeReply::Columns(key),
        MergeReply::Count(1),
    ] {
        assert!(m.accepts(&reply));
        m.step(reply);
    }
    assert!(!m.accepts(&MergeReply::Count(3)));
    assert!(!m.accepts(&MergeReply::Done));
    assert!(m.accepts(&MergeReply::Count(2)));
}

#[test]
fn a_question_mark_cannot_end_the_path_of_a_source() {
    assert_eq!(attach_uri("/a b/c.db"), "file:/a b/c.db?mode=ro");
    assert_eq!(attach_uri("?x?mode=rw"), "file:%3Fx%3Fmode=rw?mode=ro");
}

#[test]
fn table_names_tell_dimension_and_family() {
    for family in DrawingFamily::all() {
        let name = format!("minecraft:a-lines{}", family.suffix());
        let (dim, found) = DrawingFamily::from_table(&name).unwrap();
        assert_eq!(dim, "minecraft:a-lines");
        assert_eq!(found, family);
    }
    assert!(DrawingFamily::from_table("minecraft:overworld").is_none());
    assert_eq!(DrawingFamily::from_table("-texts").unwrap().0, "");
}

#[test]
fn dimensions_are_listed_once_and_sorted() {
    let db = DrawingDb {
        version: 1,
        metadata: MetadataShape::Drawing,
        tables: ["b-lines", "a-texts", "b-highlights", "other", "a-ellipses"]
            .iter()
            .map(|t| t.to_string())
            .collect(),
    };
    assert_eq!(db.dimensions(), vec!["a", "b"]);
    assert_eq!(db.table_for("a", DrawingFamily::Texts).as_deref(), Some("a-texts"));
    assert_eq!(db.table_for("a", DrawingFamily::Lines), None);
}

#[test]
fn unreadable_drawings_are_passed_over() {
    let db = DrawingDb {
        version: 0,
        metadata: MetadataShape::Drawing,
        tables: vec!["d-highlights".into()],
    };
    let row = |x: Option<i64>, color: Option<i64>| HighlightRow { x, z: Some(0), color };
    let found = db.highlights_in_window(
        "d",
        &vec![
            row(Some(1), Some(-1)),
            row(None, Some(1)),
            row(Some(1 << 40), Some(1)),
            row(Some(2), None),
            row(Some(3), Some(0x1_0000_0005)),
        ],
    );
    assert_eq!(found.len(), 2);
    assert_eq!(found[0].color, u32::MAX);
    assert_eq!((found[1].x, found[1].color), (3, 5));
}

#[test]
fn drawing_databases_are_told_by_name() {
    assert!(is_drawing_db("XaeroPlusDrawing.db"));
    assert!(!is_drawing_db("XaeroPlusNewChunks.db"));
}

#[test]
fn every_source_is_merged_in_turn() {
    let dir = tempfile::tempdir().unwrap();
    let at = |name: &str| dir.path().join(name);
    let (dest, a, b) = (at("dest.db"), at("a.db"), at("b.db"));
    mk_drawing(&dest, "minecraft:overworld", 1, false);
    mk_drawing(&a, "minecraft:overworld", 1, true);
    mk_drawing(&b, "minecraft:overworld", 2, false);
    let report = merge(&dest, &[&a, &b], true).unwrap();
    assert_eq!(report.dest, dest.display().to_string());
    assert_eq!(report.sources.len(), 2);
    let tables: Vec<&str> = report.tables.iter().map(|t| t.table.as_str()).collect();
    let families = ["ellipses", "highlights", "lines", "texts"];
    let of = |family: &str| format!("minecraft:overworld-{family}");
    let want: Vec<String> =
        families.iter().chain(families[1..].iter()).map(|f| of(f)).collect();
    assert_eq!(tables, want);
    let rows: Vec<(u64, u64, u64)> = report
        .tables
        .iter()
        .map(|t| (t.dest_rows_before, t.overlap, t.dest_rows_after))
        .collect();
    let (same, new) = ((1, 1, 1), (1, 0, 2));
    assert_eq!(rows, vec![(0, 0, 1), same, same, same, new, new, new]);
    assert_eq!(open_readonly(&dest).read_dimension("minecraft:overworld").texts.len(), 2);
}

fn numbers(report: &DrawingMergeReport) -> Vec<(String, u64, u64, u64, u64)> {
    let of = report.tables.iter().map(|t| {
        (t.table.clone(), t.source_rows, t.dest_rows_before, t.overlap, t.dest_rows_after)
    });
    of.collect()
}

#[test]
fn a_merge_reports_what_its_dry_run_foretold() {
    let dir = tempfile::tempdir().unwrap();
    let at = |name: &str| dir.path().join(name);
    let (dest, src) = (at("dest.db"), at("src.db"));
    mk_drawing(&dest, "minecraft:overworld", 1, false);
    mk_drawing(&src, "minecraft:overworld", 1, true);
    Connection::open(&src)
        .unwrap()
        .execute_batch("INSERT INTO \"minecraft:overworld-texts\" VALUES ('new', 8, 9, 0, 1.0);")
        .unwrap();
    let dry = merge(&dest, &[&src], false).unwrap();
    let applied = merge(&dest, &[&src], true).unwrap();
    let of = |family: &str| format!("minecraft:overworld-{family}");
    let want = vec![
        (of("ellipses"), 1, 0, 0, 1),
        (of("highlights"), 1, 1, 1, 1),
        (of("lines"), 1, 1, 1, 1),
        (of("texts"), 2, 1, 1, 2),
    ];
    assert_eq!(numbers(&dry), want);
    assert_eq!(numbers(&applied), want);
}

#[test]
fn merging_again_changes_nothing() {
    let dir = tempfile::tempdir().unwrap();
    let at = |name: &str| dir.path().join(name);
    let (dest, a, b) = (at("dest.db"), at("a.db"), at("b.db"));
    mk_drawing(&dest, "minecraft:overworld", 1, false);
    mk_drawing(&a, "minecraft:overworld", 2, true);
    mk_drawing(&b, "minecraft:brazil", 3, false);
    let first = merge(&dest, &[&a, &b], true).unwrap();
    assert!(first.tables.iter().all(|t| t.overlap == 0));
    let colors = |d: &DimensionDrawings| -> Vec<(i32, u32)> {
        d.highlights.iter().map(|h| (h.x, h.color)).collect()
    };
    let before = colors(&open_readonly(&dest).read_dimension("minecraft:overworld"));
    assert_eq!(before.len(), 2);
    let again = merge(&dest, &[&a, &b], true).unwrap();
    assert_eq!(again.tables.len(), first.tables.len());
    for t in &again.tables {
        assert_eq!(t.overlap, t.source_rows, "{}", t.table);
        assert_eq!(t.dest_rows_after, t.dest_rows_before, "{}", t.table);
    }
    let after = colors(&open_readonly(&dest).read_dimension("minecraft:overworld"));
    assert_eq!(after, before);
}

#[test]
fn a_window_is_part_of_its_dimension() {
    let dir = tempfile::tempdir().unwrap();
    let p = dir.path().join("XaeroPlusDrawing.db");
    mk_drawing(&p, "minecraft:overworld", 7, false);
    Connection::open(&p)
        .unwrap()
        .execute_batch(
            "INSERT INTO \"minecraft:overworld-highlights\" VALUES
               (-1, 0, 1), (0, 0, 2), (3, 4, 3), (4, 3, 4), (0, -5, 5),
               (1.5, 1, 6), ('east', 2, 7), (NULL, 2, 8), (99999999999, 2, 9);",
        )
        .unwrap();
    let o = open_readonly(&p);
    let key = "minecraft:overworld";
    let at = |h: &DrawingHighlight| (h.x as i64, h.z as i64, h.color);
    let whole: Vec<_> = o.read_dimension(key).highlights.iter().map(at).collect();
    assert_eq!(whole.len(), 6);
    let windows = [[0, 4, 0, 5], [-1, 8, -5, 8], [0, 100_000_000_000, 0, 8], [4, 4, 0, 8], [0, 8, 8, 0]];
    for w in windows {
        let mut want: Vec<_> = whole.clone();
        want.retain(|h| w[0] <= h.0 && h.0 < w[1] && w[2] <= h.1 && h.1 < w[3]);
        want.sort();
        let mut got: Vec<_> = o.highlights_in_window(key, w).iter().map(at).collect();
        got.sort();
        assert_eq!(got, want, "{w:?}");
    }
    assert_eq!(o.highlights_in_window(key, [0, 4, 0, 5]).len(), 2);
    assert!(o.highlights_in_window(key, [4, 4, 0, 8]).is_empty());
}

#[test]
fn the_migration_ledger_is_united() {
    let dir = tempfile::tempdir().unwrap();
    let at = |name: &str| dir.path().join(name);
    let ledger = |name: &str, rows: &str| {
        let conn = Connection::open(at(name)).unwrap();
        conn.execute_batch("CREATE TABLE t (x INTEGER PRIMARY KEY); INSERT INTO t VALUES (1);")
            .unwrap();
        if !rows.is_empty() {
            conn.execute_batch(&format!(
                "CREATE TABLE metadata (version INTEGER PRIMARY KEY, \
                   time DATETIME NOT NULL default CURRENT_TIMESTAMP);
                 INSERT INTO metadata VALUES {rows};"
            ))
            .unwrap();
        }
    };
    let read = |name: &str| {
        let conn = Connection::open(at(name)).unwrap();
        texts(&conn, "SELECT version || ' ' || time FROM metadata ORDER BY version")
    };
    ledger("dest.db", "(0, 'd0'), (2, 'd2')");
    ledger("a.db", "(0, 'a0'), (1, 'a1')");
    ledger("none.db", "");
    ledger("b.db", "(1, 'b1'), (3, 'b3')");
    let sources = [at("a.db"), at("none.db"), at("b.db")];
    let sources: Vec<&Path> = sources.iter().map(|p| p.as_path()).collect();
    merge(&at("dest.db"), &sources, false).unwrap();
    assert_eq!(read("dest.db"), vec!["0 d0", "2 d2"], "a dry run leaves the ledger");
    merge(&at("dest.db"), &sources, true).unwrap();
    let united = vec!["0 d0", "1 a1", "2 d2", "3 b3"];
    assert_eq!(read("dest.db"), united);
    merge(&at("dest.db"), &sources, true).unwrap();
    assert_eq!(read("dest.db"), united);
    // A destination without a ledger gets one.
    merge(&at("none.db"), &[&at("b.db")], true).unwrap();
    assert_eq!(read("none.db"), vec!["1 b1", "3 b3"]);
}

#[test]
fn rows_without_a_key_are_all_kept() {
    let dir = tempfile::tempdir().unwrap();
    let at = |name: &str| dir.path().join(name);
    let bag = |name: &str, rows: &str| {
        Connection::open(at(name))
            .unwrap()
            .execute_batch(&format!("CREATE TABLE notes (s TEXT); INSERT INTO notes VALUES {rows};"))
            .unwrap();
    };
    bag("dest.db", "('x'), ('y')");
    bag("src.db", "('y'), ('y'), ('z')");
    let want = vec![(String::from("notes"), 3, 2, 0, 5)];
    assert_eq!(numbers(&merge(&at("dest.db"), &[&at("src.db")], false).unwrap()), want);
    assert_eq!(numbers(&merge(&at("dest.db"), &[&at("src.db")], true).unwrap()), want);
    let conn = Connection::open(at("dest.db")).unwrap();
    assert_eq!(texts(&conn, "SELECT s FROM notes ORDER BY s"), vec!["x", "y", "y", "y", "z"]);
}
