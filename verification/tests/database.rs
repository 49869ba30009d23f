use rusqlite::{Connection, OpenFlags};
use std::sync::atomic::{AtomicBool, Ordering};
use std::sync::Arc;
use std::time::{Duration, Instant};
use xaerotools::database::{count_sql, inspect, list_tables, HighlightDb, MetadataShape};
use xaerotools::database::{LIST_TABLES_SQL, MAX_VERSION_SQL, METADATA_COLUMNS_SQL};
use xaerotools::highlights::{highlight_db_info, highlight_semantics, hl_palette};
use xaerotools::highlights::{HighlightSemantics, LavaColumnStyle};
use xaerotools::sql::quote_ident;
use xaerotools::tiles::{HighlightGrid, RowRead, ScanEvent, ScanStep, TileQuery, TileScan, TimeLimit};

fn texts(conn: &Connection, sql: &str) -> Vec<String> {
    let mut stmt = conn.prepare(sql).unwrap();
    let rows = stmt.query_map([], |r| r.get::<_, String>(0)).unwrap();
    rows.flatten().collect()
}

fn inspected(conn: &Connection) -> HighlightDb {
    let listing = list_tables(texts(conn, LIST_TABLES_SQL));
    let (columns, max) = if listing.has_metadata {
        let max = conn.query_row(MAX_VERSION_SQL, [], |r| r.get::<_, Option<i64>>(0));
        (texts(conn, METADATA_COLUMNS_SQL), max.ok().flatten())
    } else {
        (Vec::new(), None)
    };
    let (version, metadata, tables) = inspect(listing, &columns, max);
    HighlightDb { version, metadata, tables }
}

fn count(conn: &Connection, table: &str) -> Result<u64, String> {
    conn.query_row(&count_sql(table), [], |r| r.get(0)).map_err(|e| e.to_string())
}

fn tile_grid(conn: &Connection, db: &HighlightDb, table: &str, q: &TileQuery) -> HighlightGrid {
    assert!(q.grid_fits());
    let request = db.tile_grid(table, q);
    let mut scan: TileScan = request.scan;
    let limit = Duration::new(request.time_limit.secs, request.time_limit.nanos);
    let deadline = Instant::now().checked_add(limit);
    let fired = Arc::new(AtomicBool::new(false));
    let flag = fired.clone();
    conn.progress_handler(
        20_000,
        Some(move || match deadline {
            Some(d) if Instant::now() >= d => {
                flag.store(true, Ordering::Relaxed);
                true
            }
            _ => false,
        }),
    );
    let mut stmt = conn.prepare(&request.sql).unwrap();
    let mut rows = stmt.query(rusqlite::params_from_iter(request.params.iter())).unwrap();
    loop {
        let event = match rows.next() {
            Ok(Some(row)) => {
                let column = |i: usize| row.get::<_, i64>(i).map_err(|e| e.to_string());
                ScanEvent::Row(RowRead { x: column(0), z: column(1), value: column(2) })
            }
            Ok(None) => ScanEvent::End,
            Err(e) => ScanEvent::Failed {
                deadline_fired: fired.load(Ordering::Relaxed),
                interrupted: e.sqlite_error_code() == Some(rusqlite::ErrorCode::OperationInterrupted),
                message: e.to_string(),
            },
        };
        if scan.step(event).unwrap() == ScanStep::Finished {
            break;
        }
    }
    drop(rows);
    conn.progress_handler(0, None::<fn() -> bool>);
    scan.finish()
}

#[test]
fn v0_numeric_tables_resolve() {
    let dir = tempfile::tempdir().unwrap();
    let p = dir.path().join("XaeroPlusNewChunks.db");
    Connection::open(&p)
        .unwrap()
        .execute_batch(
            "CREATE TABLE \"0\" (x INTEGER, z INTEGER, foundTime INTEGER);
             CREATE UNIQUE INDEX unique_xzO ON \"0\" (x, z);
             CREATE TABLE \"-1\" (x INTEGER, z INTEGER, foundTime INTEGER);
             CREATE UNIQUE INDEX unique_xzN ON \"-1\" (x, z);
             CREATE TABLE \"1\" (x INTEGER, z INTEGER, foundTime INTEGER);
             CREATE UNIQUE INDEX unique_xzE ON \"1\" (x, z);
             INSERT INTO \"0\" VALUES (-3, -3, 1000), (5, 7, 2000);
             INSERT INTO \"-1\" VALUES (9, 9, 42);",
        )
        .unwrap();
    let conn = Connection::open_with_flags(&p, OpenFlags::SQLITE_OPEN_READ_ONLY).unwrap();
    let db = inspected(&conn);
    assert_eq!(db.version, 0);
    assert_eq!(db.metadata, MetadataShape::Absent);
    assert_eq!(db.table_for_dimension("minecraft:overworld").as_deref(), Some("0"));
    assert_eq!(db.table_for_dimension("minecraft:the_nether").as_deref(), Some("-1"));
    assert_eq!(db.table_for_dimension("minecraft:sky3"), None);
    let t = db.table_for_dimension("minecraft:overworld").unwrap();
    assert_eq!(count(&conn, &t).unwrap(), 2);
    assert!(conn.prepare(&db.is_highlight_table_sql("0")).is_ok());
    assert!(conn.prepare(&db.is_highlight_table_sql("sqlite_master")).is_err());

    // The window is half-open on both axes.
    let read = |x0: i64, x1: i64, z0: i64, z1: i64| {
        let w = db.query_window_sql("0", x0, x1, z0, z1);
        let mut stmt = conn.prepare(&w.sql).unwrap();
        let rows = stmt
            .query_map(w.params, |r| Ok((r.get(0).ok(), r.get(1).ok(), r.get(2).ok())))
            .unwrap();
        db.query_window(&rows.flatten().collect())
    };
    assert_eq!(read(-3, 6, -3, 8).len(), 2);
    assert_eq!(read(-3, 5, -3, 8).len(), 1);
    assert_eq!(read(5, 6, 7, 8)[0].found_time, 2000);
    assert!(read(5, 6, 8, 9).is_empty());
}

#[test]
fn a_table_of_the_key_itself_is_preferred() {
    let db = |tables: &[&str]| HighlightDb {
        version: 1,
        metadata: MetadataShape::Highlight,
        tables: tables.iter().map(|t| t.to_string()).collect(),
    };
    let both = db(&["0", "minecraft:overworld"]);
    assert_eq!(
        both.table_for_dimension("minecraft:overworld").as_deref(),
        Some("minecraft:overworld")
    );
    assert_eq!(db(&["1"]).table_for_dimension("minecraft:the_end").as_deref(), Some("1"));
    assert_eq!(db(&["0"]).table_for_dimension("minecraft:the_end"), None);
    assert_eq!(db(&["0"]).table_for_dimension("0").as_deref(), Some("0"));
}

#[test]
fn unreadable_rows_are_passed_over() {
    let db = HighlightDb { version: 1, metadata: MetadataShape::Highlight, tables: vec![] };
    let rows = vec![
        (Some(1), Some(2), Some(3)),
        (None, Some(2), Some(3)),
        (Some(1), Some(1 << 31), Some(3)),
        (Some(1), Some(2), None),
        (Some(-(1 << 31)), Some((1 << 31) - 1), Some(i64::MIN)),
    ];
    let found = db.query_window(&rows);
    assert_eq!(found.len(), 2);
    assert_eq!((found[1].x, found[1].z, found[1].found_time), (i32::MIN, i32::MAX, i64::MIN));
}

#[test]
fn the_schema_version_falls_back_by_family() {
    let listing = |metadata: bool| {
        let mut names = vec![String::from("b"), String::from("a")];
        if metadata {
            names.push(String::from("metadata"));
        }
        list_tables(names)
    };
    let id = vec![String::from("id"), String::from("version")];
    let ledger = vec![String::from("version"), String::from("time")];
    assert_eq!(listing(false).tables, vec!["a", "b"]);
    assert_eq!(inspect(listing(false), &id, Some(9)).0, 0);
    assert_eq!(inspect(listing(true), &id, None).0, 1);
    assert_eq!(inspect(listing(true), &id, Some(2)).0, 2);
    assert_eq!(inspect(listing(true), &id, Some(-1)).0, 1);
    assert_eq!(inspect(listing(true), &ledger, None).0, 0);
    assert_eq!(inspect(listing(true), &ledger, Some(1)).1, MetadataShape::Drawing);
    assert_eq!(inspect(listing(true), &id, Some(1)).1, MetadataShape::Highlight);
}

#[test]
fn the_first_failed_count_is_the_answer() {
    let db = HighlightDb {
        version: 1,
        metadata: MetadataShape::Highlight,
        tables: vec!["a".into(), "b".into(), "c".into()],
    };
    let counts = db.dimension_counts(vec![Ok(1), Ok(2), Ok(3)]).unwrap();
    assert_eq!(counts, vec![("a".into(), 1), ("b".into(), 2), ("c".into(), 3)]);
    let failed = db.dimension_counts(vec![Ok(1), Err("x".into()), Err("y".into())]);
    assert_eq!(failed, Err(String::from("x")));
}

#[test]
fn tile_grid_buckets_negative_coordinates() {
    let dir = tempfile::tempdir().unwrap();
    let conn = Connection::open(dir.path().join("XaeroPlusNewChunks.db")).unwrap();
    conn.execute_batch(
        "CREATE TABLE metadata (id INTEGER PRIMARY KEY, version INTEGER);
         INSERT INTO metadata VALUES (0, 2);
         CREATE TABLE \"minecraft:overworld\" (x INTEGER, z INTEGER, foundTime INTEGER,
           PRIMARY KEY (x, z)) WITHOUT ROWID;
         INSERT INTO \"minecraft:overworld\" VALUES
           (-64, -64, 500), (-63, -64, 400), (-1, -1, 900), (0, 0, 100), (63, 63, 700);",
    )
    .unwrap();
    let db = inspected(&conn);
    // 128-chunk window starting at -64, 4 cells => 32 chunks per cell.
    // Cell 0 covers [-64,-32), cell 1 [-32,0), cell 2 [0,32), cell 3 [32,64).
    let q = TileQuery::new("XaeroPlusNewChunks.db", -64, -64, 128, 4);
    let g = tile_grid(&conn, &db, "minecraft:overworld", &q);
    assert_eq!(g.cells, 4);
    assert_eq!(g.cell_px, 1);
    assert_eq!(g.rows, 5);
    assert!(!g.truncated);
    assert_eq!(g.count_at(0, 0), 2, "both -64/-63 rows land in cell 0");
    assert_eq!(g.count_at(1, 1), 1, "(-1,-1) is its own cell, not merged with (0,0)");
    assert_eq!(g.count_at(2, 2), 1);
    assert_eq!(g.count_at(3, 3), 1);
    assert!(g.values.is_none(), "timestamps skip the value column");

    // Zoomed in: fewer chunks than pixels, so cells == span and each cell
    // paints cell_px pixels.
    let q = TileQuery::new("XaeroPlusNewChunks.db", -64, -64, 32, 512);
    let g = tile_grid(&conn, &db, "minecraft:overworld", &q);
    assert_eq!(g.cells, 32);
    assert_eq!(g.cell_px, 16);
    assert_eq!(g.rows, 2);

    // Row cap truncates instead of running away.
    let q = TileQuery::new("XaeroPlusNewChunks.db", -64, -64, 128, 4).with_row_cap(2);
    let g = tile_grid(&conn, &db, "minecraft:overworld", &q);
    assert!(g.truncated);
    assert_eq!(g.rows, 2);

    // A window that exactly fills the cap is complete, not truncated:
    // otherwise a cap-sized tile is cached as a partial one forever.
    let q = TileQuery::new("XaeroPlusNewChunks.db", -64, -64, 128, 4).with_row_cap(5);
    let g = tile_grid(&conn, &db, "minecraft:overworld", &q);
    assert_eq!(g.rows, 5);
    assert!(!g.truncated, "5 rows under a cap of 5 is a complete scan");
    assert_eq!(g.counts.iter().sum::<u32>() as u64, g.rows);
}

#[test]
fn lava_columns_are_heights_not_times() {
    assert_eq!(
        highlight_semantics("XaeroPlusLavaColumns.db"),
        HighlightSemantics::ColumnHeight
    );
    assert_eq!(
        highlight_semantics("XaeroPlusNewChunks.db"),
        HighlightSemantics::Timestamp
    );
    let s = LavaColumnStyle::default();
    assert_eq!(s.alpha(0), None);
    assert_eq!(s.alpha(4), None);
    assert_eq!(s.alpha(5), Some(40));
    assert_eq!(s.alpha(32), Some(255));
    assert_eq!(s.alpha(123), Some(255));

    let dir = tempfile::tempdir().unwrap();
    let conn = Connection::open(dir.path().join("XaeroPlusLavaColumns.db")).unwrap();
    conn.execute_batch(
        "CREATE TABLE metadata (id INTEGER PRIMARY KEY, version INTEGER);
         INSERT INTO metadata VALUES (0, 2);
         CREATE TABLE \"minecraft:the_nether\" (x INTEGER, z INTEGER, foundTime INTEGER,
           PRIMARY KEY (x, z)) WITHOUT ROWID;
         INSERT INTO \"minecraft:the_nether\" VALUES
           (0, 0, 0), (1, 0, 3), (2, 0, 7), (3, 0, 40);",
    )
    .unwrap();
    let db = inspected(&conn);
    // Default min height 5 hides the 0 and 3 rows in SQL.
    let q = TileQuery::new("XaeroPlusLavaColumns.db", 0, 0, 4, 4);
    let g = tile_grid(&conn, &db, "minecraft:the_nether", &q);
    assert_eq!(g.rows, 2);
    assert_eq!(g.value_at(2, 0), Some(7));
    assert_eq!(g.value_at(3, 0), Some(40));
    assert_eq!(g.value_at(0, 0), None);
    // Coarser grid: the tallest column in the cell wins, not the shortest.
    let q = TileQuery::new("XaeroPlusLavaColumns.db", 0, 0, 4, 1);
    let g = tile_grid(&conn, &db, "minecraft:the_nether", &q);
    assert_eq!(g.value_at(0, 0), Some(40));
    assert_eq!(g.value_at(1, 0), None);
    assert_eq!(g.count_at(0, 1), 0);
}

#[test]
fn tile_grid_deadline_interrupts_the_scan() {
    let dir = tempfile::tempdir().unwrap();
    let conn = Connection::open(dir.path().join("XaeroPlusNewChunks.db")).unwrap();
    conn.execute_batch(
        "CREATE TABLE \"minecraft:overworld\" (x INTEGER, z INTEGER, foundTime INTEGER,
           PRIMARY KEY (x, z)) WITHOUT ROWID;
         WITH RECURSIVE n(i) AS (SELECT 0 UNION ALL SELECT i+1 FROM n WHERE i < 199999)
         INSERT INTO \"minecraft:overworld\" SELECT i % 512, i / 512, i FROM n;",
    )
    .unwrap();
    let db = inspected(&conn);
    let q = TileQuery::new("XaeroPlusNewChunks.db", 0, 0, 512, 512)
        .with_time_limit(TimeLimit { secs: 0, nanos: 0 });
    let g = tile_grid(&conn, &db, "minecraft:overworld", &q);
    assert!(g.truncated, "an expired budget must abort the scan");
    assert!(g.rows < 200_000);
    // The handler is per-connection: the next query must not inherit it.
    let q = TileQuery::new("XaeroPlusNewChunks.db", 0, 0, 512, 512);
    let g = tile_grid(&conn, &db, "minecraft:overworld", &q);
    assert!(!g.truncated);
    assert_eq!(g.rows, 200_000);
    let counts = db.tables.iter().map(|t| count(&conn, t)).collect();
    assert_eq!(
        db.dimension_counts(counts).unwrap(),
        vec![("minecraft:overworld".to_string(), 200_000u64)]
    );
}

#[test]
fn only_an_interrupt_of_a_fired_deadline_truncates() {
    let q = TileQuery::new("x", 0, 0, 4, 4);
    let failed = |deadline_fired: bool, interrupted: bool| {
        let mut scan = TileScan::new(q);
        let event = ScanEvent::Failed { deadline_fired, interrupted, message: "disk".into() };
        scan.step(event).map(|_| scan.finish().truncated)
    };
    assert_eq!(failed(true, true), Ok(true));
    assert_eq!(failed(true, false), Err(String::from("disk")));
    assert_eq!(failed(false, true), Err(String::from("disk")));
}

#[test]
fn a_row_that_cannot_be_read_fails_the_scan() {
    let row = |x: Result<i64, String>, z: Result<i64, String>, value: Result<i64, String>| {
        ScanEvent::Row(RowRead { x, z, value })
    };
    let bad = || Err(String::from("bad"));
    let times = TileQuery::new("x", 0, 0, 4, 4);
    assert!(TileScan::new(times).step(row(bad(), Ok(0), Ok(0))).is_err());
    assert!(TileScan::new(times).step(row(Ok(0), bad(), Ok(0))).is_err());
    // A value that nothing asks for is not looked at.
    assert_eq!(TileScan::new(times).step(row(Ok(0), Ok(0), bad())), Ok(ScanStep::Continue));
    let heights = TileQuery::new("LavaColumns", 0, 0, 4, 4);
    assert!(TileScan::new(heights).step(row(Ok(0), Ok(0), bad())).is_err());
    // Once the cap is reached the row in hand is not read any more.
    let full = times.with_row_cap(0);
    assert_eq!(TileScan::new(full).step(row(bad(), bad(), bad())), Ok(ScanStep::Finished));
}

#[test]
fn oldest_time_represents_a_cell_that_reads_values() {
    let q = TileQuery::new("x", 0, 0, 4, 1).with_min_value(Some(0));
    let mut scan = TileScan::new(q);
    for v in [30, 10, 20] {
        let event = ScanEvent::Row(RowRead { x: Ok(v % 4), z: Ok(1), value: Ok(v) });
        assert_eq!(scan.step(event), Ok(ScanStep::Continue));
    }
    let g = scan.finish();
    assert_eq!(g.value_at(0, 0), Some(10));
    assert_eq!(g.count_at(0, 0), 3);
    assert!(!g.is_empty());
}

#[test]
fn every_palette_entry_has_a_distinct_color() {
    for (i, a) in hl_palette().iter().enumerate() {
        for b in hl_palette().iter().skip(i + 1) {
            assert_ne!(a.color, b.color, "{} and {} share a color", a.pattern, b.pattern);
        }
    }
    // Order matters: the longer patterns must be matched first.
    assert_eq!(
        highlight_db_info("XaeroPlusNewChunksLiquidInverse.db").unwrap().pattern,
        "NewChunksLiquidInverse"
    );
    assert_eq!(
        highlight_db_info("XaeroPlusPaletteNewChunks.db").unwrap().pattern,
        "PaletteNewChunks"
    );
}

#[test]
fn every_pattern_finds_its_own_entry() {
    let palette = hl_palette();
    assert_eq!(palette.len(), 10);
    for info in &palette {
        let found = highlight_db_info(&format!("XaeroPlus{}.db", info.pattern)).unwrap();
        assert_eq!(found.pattern, info.pattern);
        assert_eq!(found.label, info.label);
    }
    assert!(highlight_db_info("XaeroPlusDrawing.db").is_none());
    assert_eq!(palette[9].color, [0xee, 0xee, 0xee]);
}

#[test]
fn a_taller_column_is_never_fainter() {
    let s = LavaColumnStyle { min_height: -10, alpha_shift: -20, alpha_step: 3 };
    let alphas: Vec<u8> = (-10..200).map(|h| s.alpha(h).unwrap()).collect();
    assert!(alphas.windows(2).all(|w| w[0] <= w[1]));
    assert_eq!(s.alpha(-10), Some(0));
    assert_eq!(s.alpha(20), Some(40));
    assert_eq!(s.alpha(-11), None);
}

#[test]
fn identifiers_are_quoted_for_sqlite() {
    assert_eq!(quote_ident("minecraft:overworld"), "\"minecraft:overworld\"");
    assert_eq!(quote_ident("a\"b"), "\"a\"\"b\"");
    assert_eq!(quote_ident(""), "\"\"");
    let conn = Connection::open_in_memory().unwrap();
    for name in ["plain", "a\"b", "\"\"", "it's; --"] {
        let q = quote_ident(name);
        conn.execute_batch(&format!("CREATE TABLE {q} (x)")).unwrap();
        assert!(texts(&conn, LIST_TABLES_SQL).contains(&name.to_string()));
    }
}

#[test]
fn only_lava_columns_hold_heights() {
    for info in hl_palette() {
        let heights = highlight_semantics(info.pattern).prefers_max();
        assert_eq!(heights, info.pattern == "LavaColumns");
    }
    assert_eq!(highlight_semantics("unknown.db"), HighlightSemantics::Timestamp);
}

#[test]
fn cells_fit_in_the_tile_and_the_window_in_the_cells() {
    for (span, tile_size) in [(128, 4), (32, 512), (3, 10), (0, 0), (-5, 7), (1, 1), (7, 3)] {
        let q = TileQuery::new("x", -4, 9, span, tile_size);
        let mut scan = TileScan::new(q);
        let chunks = span.max(1);
        for d in 0..chunks {
            let event = ScanEvent::Row(RowRead { x: Ok(-4 + d), z: Ok(9 + d), value: Ok(0) });
            assert_eq!(scan.step(event), Ok(ScanStep::Continue));
        }
        // Just outside the window.
        for (x, z) in [(-5, 9), (-4, 8), (-4 + chunks, 9), (-4, 9 + chunks)] {
            let event = ScanEvent::Row(RowRead { x: Ok(x), z: Ok(z), value: Ok(0) });
            assert_eq!(scan.step(event), Ok(ScanStep::Continue));
        }
        let g = scan.finish();
        assert!(g.cells >= 1 && g.cell_px >= 1);
        assert!(g.cells * g.cell_px <= tile_size.max(1));
        assert_eq!(g.rows, chunks as u64);
        assert_eq!(g.counts.iter().map(|n| *n as u64).sum::<u64>(), g.rows);
    }
}

#[test]
fn a_window_at_the_edge_of_the_world_saturates() {
    let db = HighlightDb { version: 1, metadata: MetadataShape::Highlight, tables: vec![] };
    let q = TileQuery::new("LavaColumns", i64::MAX - 1, 0, 10, 2);
    let request = db.tile_grid("t", &q);
    assert_eq!(request.params, vec![i64::MAX - 1, i64::MAX, 0, 10, 5]);
    assert_eq!(
        request.sql,
        "SELECT x, z, foundTime FROM \"t\" WHERE x >= ?1 AND x < ?2 AND z >= ?3 AND z < ?4 \
         AND foundTime >= ?5"
    );
    assert_eq!(request.time_limit, TimeLimit { secs: 45, nanos: 0 });
    let plain = db.tile_grid("t", &q.with_min_value(None));
    assert_eq!(plain.params.len(), 4);
    assert!(plain.sql.starts_with("SELECT x, z, foundTime FROM "));
    let times = db.tile_grid("t", &TileQuery::new("x", 0, 0, 1, 1));
    assert_eq!(
        times.sql,
        "SELECT x, z FROM \"t\" WHERE x >= ?1 AND x < ?2 AND z >= ?3 AND z < ?4"
    );
}

#[test]
fn the_tallest_column_has_an_alpha() {
    let s = LavaColumnStyle::default();
    assert_eq!(s.alpha(i64::MAX), Some(255));
    assert_eq!(s.alpha(i64::MIN), None);
    let down = LavaColumnStyle { min_height: i32::MIN.into(), alpha_shift: 7, alpha_step: -1 };
    assert_eq!(down.alpha(i64::MAX), Some(0));
    assert_eq!(down.alpha(-3), Some(10));
}

#[test]
fn a_deadline_keeps_what_was_read() {
    let q = TileQuery::new("x", 0, 0, 4, 4);
    let row = |x: i64| ScanEvent::Row(RowRead { x: Ok(x), z: Ok(1), value: Ok(0) });
    let late = ScanEvent::Failed { deadline_fired: true, interrupted: true, message: "".into() };
    let mut cut = TileScan::new(q);
    assert_eq!(cut.step(row(0)), Ok(ScanStep::Continue));
    assert_eq!(cut.step(row(2)), Ok(ScanStep::Continue));
    assert_eq!(cut.step(late), Ok(ScanStep::Finished));
    let cut = cut.finish();
    assert!(cut.truncated);
    assert_eq!(cut.rows, 2);
    assert_eq!(cut.count_at(2, 1), 1);
    let mut whole = TileScan::new(q);
    assert_eq!(whole.step(row(0)), Ok(ScanStep::Continue));
    assert_eq!(whole.step(row(2)), Ok(ScanStep::Continue));
    assert_eq!(whole.step(ScanEvent::End), Ok(ScanStep::Finished));
    let whole = whole.finish();
    assert!(!whole.truncated);
    assert_eq!((whole.rows, whole.counts), (cut.rows, cut.counts));
}

#[test]
fn counts_are_told_without_values() {
    let grid = HighlightGrid {
        cells: 2,
        cell_px: 1,
        counts: vec![1, 2, 3, 4],
        values: Some(Vec::new()),
        rows: 10,
        truncated: false,
    };
    assert_eq!(grid.count_at(1, 0), 2);
    assert_eq!(grid.count_at(0, 1), 3);
    assert_eq!(grid.count_at(2, 0), 0);
    // Only the cell that is asked for has to be held.
    let short = HighlightGrid { counts: vec![0, 2], values: Some(vec![7, 8]), ..grid };
    assert_eq!(short.count_at(1, 0), 2);
    assert_eq!(short.value_at(1, 0), Some(8));
    assert_eq!(short.value_at(0, 0), None);
    assert_eq!(short.value_at(0, 2), None);
}
