//! Chunk-highlight databases: which tables a file holds, what schema it is on
//! and how its rows are read.
//!
//! Highlight DBs (`XaeroPlusNewChunks.db`, `...OldChunks.db`, ..) hold one
//! table per dimension with `(x, z, foundTime)` rows, x/z in CHUNK
//! coordinates. Known schema versions:
//!   v0: tables named "0"/"-1"/"1", no metadata table
//!   v1: resource-key tables + `unique_xz_*` indexes + metadata(id,version)
//!   v2: resource-key tables WITHOUT ROWID, PRIMARY KEY (x,z)

use vstd::prelude::*;
use crate::order::{law_sorting_keeps_elements, law_sorting_permutes, sort, sorted_from};
use crate::order::{law_texts_are_ordered_by_first_difference, text_before, Ranked};
use crate::sql::{quote_ident, quoted};
use crate::picking::{climbs, lemma_filter_map_places};
use crate::text::same;

verus! {

/// Lists the tables of a database, without SQLite's own.
pub const LIST_TABLES_SQL: &'static str =
    "SELECT name FROM sqlite_master WHERE type='table' AND name NOT LIKE 'sqlite_%'";

/// Lists the columns of the `metadata` table.
pub const METADATA_COLUMNS_SQL: &'static str = "SELECT name FROM pragma_table_info('metadata')";

/// Reads the schema version: `MAX(version)` is right for both families, while
/// the first row reports a v1 drawing DB as v0.
pub const MAX_VERSION_SQL: &'static str = "SELECT MAX(version) FROM metadata";

/// Layout of the `metadata` table, which differs between the two XaeroPlus DB
/// families.
#[derive(Debug, Clone, Copy, PartialEq, Eq, Structural)]
pub enum MetadataShape {
    /// No `metadata` table: a highlight DB still on schema v0.
    Absent,
    /// `metadata (id INTEGER PRIMARY KEY, version INTEGER)`: a single row
    /// holding the current highlight-DB schema version.
    Highlight,
    /// `metadata (version INTEGER PRIMARY KEY, time DATETIME ..)`: one row per
    /// applied migration.
    Drawing,
}

/// One highlighted chunk.
#[derive(Debug, Clone, Copy, PartialEq, Eq, Structural)]
pub struct ChunkHighlight {
    pub x: i32,
    pub z: i32,
    pub found_time: i64,
}

/// `name` is one of `names`.
pub open spec fn has_name(names: Seq<String>, name: Seq<char>) -> bool {
    exists|i: int| 0 <= i < names.len() && (#[trigger] names[i])@ == name
}

/// True when `name` is one of `names`.
pub fn lists(names: &Vec<String>, name: &str) -> (r: bool)
    ensures
        r == has_name(names@, name@),
{
    let mut i: usize = 0;
    while i < names.len()
        invariant
            i <= names@.len(),
            forall|k: int| 0 <= k < i ==> (#[trigger] names@[k])@ != name@,
        decreases names@.len() - i,
    {
        if same(names[i].as_str(), name) {
            return true;
        }
        i = i + 1;
    }
    false
}

/// The tables of a database file, the migration ledger told apart.
#[derive(Debug)]
pub struct TableListing {
    /// Whether there is a `metadata` table.
    pub has_metadata: bool,
    /// Every other table, sorted by name.
    pub tables: Vec<String>,
}

/// The table names of `names` other than `metadata`.
pub open spec fn data_tables(names: Seq<String>) -> Seq<String> {
    names.filter(|n: String| n@ != "metadata"@)
}

/// Sets the `metadata` table apart from the dimension tables and sorts these.
pub fn list_tables(names: Vec<String>) -> (r: TableListing)
    ensures
        r.has_metadata == has_name(names@, "metadata"@),
        sorted_from(data_tables(names@), r.tables@),
{
    let ghost full = names@;
    let mut has_metadata = false;
    let mut tables: Vec<String> = Vec::new();
    let ghost keep = |n: String| n@ != "metadata"@;
    proof {
        reveal(Seq::filter);
    }
    assert(full.take(0) =~= Seq::<String>::empty());
    for name in it: names.into_iter()
        invariant
            it.seq() == full,
            keep == (|n: String| n@ != "metadata"@),
            has_metadata == has_name(full.take(it.index() as int), "metadata"@),
            tables@ == full.take(it.index() as int).filter(keep),
    {
        let ghost done = full.take(it.index() as int);
        proof {
            assert(full.take(it.index() + 1) =~= done.push(name));
            done.lemma_filter_push(name, keep);
            if has_name(done, "metadata"@) {
                let i = choose|i: int| 0 <= i < done.len() && (#[trigger] done[i])@ == "metadata"@;
                assert(done.push(name)[i] == done[i]);
            }
            assert(done.push(name)[done.len() as int] == name);
        }
        if same(name.as_str(), "metadata") {
            has_metadata = true;
        } else {
            tables.push(name);
        }
        proof {
            if has_name(done.push(name), "metadata"@) && name@ != "metadata"@ {
                let i = choose|i: int|
                    0 <= i < done.push(name).len() && (#[trigger] done.push(name)[i])@
                        == "metadata"@;
                assert(done[i] == done.push(name)[i]);
            }
        }
    }
    assert(full.take(full.len() as int) =~= full);
    TableListing { has_metadata, tables: sort(tables) }
}

/// The family that the columns of a `metadata` table tell of: highlight DBs
/// key it on `id`, drawing DBs on `version`.
pub open spec fn shape_of(has_metadata: bool, columns: Seq<String>) -> MetadataShape {
    if !has_metadata {
        MetadataShape::Absent
    } else if has_name(columns, "id"@) {
        MetadataShape::Highlight
    } else {
        MetadataShape::Drawing
    }
}

/// The schema version. A ledger that names none counts as the first version of
/// its family.
pub open spec fn version_of(shape: MetadataShape, max_version: Option<i64>) -> int {
    match (shape, max_version) {
        (MetadataShape::Absent, _) => 0,
        (_, Some(v)) if 0 <= v <= u32::MAX => v as int,
        (MetadataShape::Highlight, _) => 1,
        (MetadataShape::Drawing, _) => 0,
    }
}

/// Tells the schema version and the family of a database from its tables and,
/// where it has a `metadata` table, from that table's columns and its greatest
/// version (`None` when there is no row, or none that is an integer).
pub fn inspect(listing: TableListing, columns: &Vec<String>, max_version: Option<i64>) -> (r: (
    u32,
    MetadataShape,
    Vec<String>,
))
    ensures
        r.1 == shape_of(listing.has_metadata, columns@),
        r.0 == version_of(r.1, max_version),
        r.2 == listing.tables,
{
    if !listing.has_metadata {
        return (0, MetadataShape::Absent, listing.tables);
    }
    let shape = if lists(columns, "id") {
        MetadataShape::Highlight
    } else {
        MetadataShape::Drawing
    };
    let fallback: u32 = match shape {
        MetadataShape::Highlight => 1,
        _ => 0,
    };
    let version: u32 = match max_version {
        Some(v) => if 0 <= v && v <= 0xffff_ffffi64 {
            v as u32
        } else {
            fallback
        },
        None => fallback,
    };
    (version, shape, listing.tables)
}

/// A statement and the integers bound to its parameters.
#[derive(Debug)]
pub struct WindowSql {
    pub sql: String,
    pub params: [i64; 4],
}

/// An inspected highlight database.
#[derive(Debug)]
pub struct HighlightDb {
    pub version: u32,
    /// Shape of the `metadata` table: distinguishes a highlight DB from a
    /// drawing DB without string-matching the filename.
    pub metadata: MetadataShape,
    /// Dimension tables present (raw table names, e.g. "minecraft:overworld").
    pub tables: Vec<String>,
}

/// The numeric table name that schema v0 used for a vanilla dimension.
pub open spec fn legacy_name(dimension_key: Seq<char>) -> Option<Seq<char>> {
    if dimension_key == "minecraft:overworld"@ {
        Some("0"@)
    } else if dimension_key == "minecraft:the_nether"@ {
        Some("-1"@)
    } else if dimension_key == "minecraft:the_end"@ {
        Some("1"@)
    } else {
        None
    }
}

impl HighlightDb {
    /// The table holding `dimension_key` rows, resolving the v0 numeric names.
    pub fn table_for_dimension(&self, dimension_key: &str) -> (r: Option<String>)
        ensures
            match r {
                Some(t) => if has_name(self.tables@, dimension_key@) {
                    t@ == dimension_key@
                } else {
                    legacy_name(dimension_key@) == Some(t@) && has_name(self.tables@, t@)
                },
                None => {
                    &&& !has_name(self.tables@, dimension_key@)
                    &&& legacy_name(dimension_key@) matches Some(l) ==> !has_name(self.tables@, l)
                },
            },
    {
        if lists(&self.tables, dimension_key) {
            return Some(dimension_key.to_owned());
        }
        let legacy = if same(dimension_key, "minecraft:overworld") {
            "0"
        } else if same(dimension_key, "minecraft:the_nether") {
            "-1"
        } else if same(dimension_key, "minecraft:the_end") {
            "1"
        } else {
            return None;
        };
        if lists(&self.tables, legacy) {
            Some(legacy.to_owned())
        } else {
            None
        }
    }

    /// The statement that can be prepared exactly when `table` looks like a
    /// chunk-highlight dimension table.
    pub fn is_highlight_table_sql(&self, table: &str) -> (r: String)
        ensures
            r@ == "SELECT x, z, foundTime FROM "@ + quoted(table@) + " LIMIT 0"@,
    {
        let mut sql = String::new();
        sql.append("SELECT x, z, foundTime FROM ");
        sql.append(quote_ident(table).as_str());
        sql.append(" LIMIT 0");
        sql
    }

    /// The statement that reads the rows of `table` in the half-open
    /// chunk-coordinate window [x0,x1) x [z0,z1).
    ///
    /// Every row is materialized: only safe for windows known to be small. Tile
    /// renderers must use [`HighlightDb::tile_grid`], which is bounded.
    pub fn query_window_sql(&self, table: &str, x0: i64, x1: i64, z0: i64, z1: i64) -> (r:
        WindowSql)
        ensures
            r.sql@ == "SELECT x, z, foundTime FROM "@ + quoted(table@)
                + " WHERE x >= ?1 AND x < ?2 AND z >= ?3 AND z < ?4"@,
            r.params@ == seq![x0, x1, z0, z1],
    {
        let mut sql = String::new();
        sql.append("SELECT x, z, foundTime FROM ");
        sql.append(quote_ident(table).as_str());
        sql.append(" WHERE x >= ?1 AND x < ?2 AND z >= ?3 AND z < ?4");
        WindowSql { sql, params: [x0, x1, z0, z1] }
    }

    /// The highlights in the rows (x, z, foundTime) that a window brought, in
    /// order; a row that cannot be read is passed over.
    pub fn query_window(&self, rows: &Vec<(Column, Column, Column)>) -> (r: Vec<ChunkHighlight>)
        ensures
            r@ == rows@.filter_map(|row: (Column, Column, Column)| highlight_in(row)),
    {
        window_highlights(rows)
    }

    /// Row count of every dimension table, so callers can tell an overlay that
    /// is legitimately empty here from one that failed to load. `counts` holds
    /// what counting each table brought, in the order of `tables`; the first
    /// failure is the answer.
    pub fn dimension_counts(&self, counts: Vec<Result<u64, String>>) -> (r: Result<
        Vec<(String, u64)>,
        String,
    >)
        requires
            counts@.len() == self.tables@.len(),
        ensures
            counted(self.tables@, counts@, r),
    {
        pair_counts(&self.tables, counts)
    }
}

/// `r` pairs every table with its count, or is the first failure of `counts`.
pub open spec fn counted(
    tables: Seq<String>,
    counts: Seq<Result<u64, String>>,
    r: Result<Vec<(String, u64)>, String>,
) -> bool {
    match r {
        Ok(out) => {
            &&& out@.len() == tables.len()
            &&& forall|i: int|
                0 <= i < tables.len() ==> (#[trigger] out@[i]).0@ == tables[i]@ && counts[i] == Ok::<
                    u64,
                    String,
                >(out@[i].1)
        },
        Err(e) => exists|k: int|
            0 <= k < counts.len() && #[trigger] counts[k] == Err::<u64, String>(e) && (forall|i: int|
                0 <= i < k ==> (#[trigger] counts[i]) is Ok),
    }
}

/// Pairs every table with its count; the first failure is the answer.
pub fn pair_counts(tables: &Vec<String>, counts: Vec<Result<u64, String>>) -> (r: Result<
    Vec<(String, u64)>,
    String,
>)
    requires
        counts@.len() == tables@.len(),
    ensures
        counted(tables@, counts@, r),
{
    let ghost all = counts@;
    let mut out: Vec<(String, u64)> = Vec::new();
    let mut i: usize = 0;
    for c in it: counts.into_iter()
        invariant
            it.seq() == all,
            all.len() == tables@.len(),
            i == it.index(),
            out@.len() == i,
            forall|k: int|
                0 <= k < i ==> (#[trigger] out@[k]).0@ == tables@[k]@ && all[k] == Ok::<
                    u64,
                    String,
                >(out@[k].1),
    {
        match c {
            Ok(n) => {
                assert(i < tables.len());
                out.push((tables[i].clone(), n));
                i = i + 1;
            },
            Err(e) => {
                assert(all[i as int] == Err::<u64, String>(e));
                assert forall|k: int| 0 <= k < i implies (#[trigger] all[k]) is Ok by {
                    assert(all[k] == Ok::<u64, String>(out@[k].1));
                }
                return Err(e);
            },
        }
    }
    Ok(out)
}

/// The statement that counts the rows of `table`.
pub fn count_sql(table: &str) -> (r: String)
    ensures
        r@ == "SELECT COUNT(*) FROM "@ + quoted(table@),
{
    let mut sql = String::new();
    sql.append("SELECT COUNT(*) FROM ");
    sql.append(quote_ident(table).as_str());
    sql
}

/// A column as it was read: its integer, or nothing when it holds none.
pub type Column = Option<i64>;

/// The column as a 32-bit coordinate.
pub open spec fn coordinate(c: Column) -> Option<i32> {
    match c {
        Some(v) if i32::MIN <= v <= i32::MAX => Some(v as i32),
        _ => None,
    }
}

/// The column as a 32-bit coordinate, if it is an integer in range.
pub fn to_coordinate(c: Column) -> (r: Option<i32>)
    ensures
        r == coordinate(c),
{
    match c {
        Some(v) => if -0x8000_0000i64 <= v && v <= 0x7fff_ffffi64 {
            Some(v as i32)
        } else {
            None
        },
        None => None,
    }
}

/// The highlight in one row: none when a column cannot be read as what it
/// should hold.
pub open spec fn highlight_in(row: (Column, Column, Column)) -> Option<ChunkHighlight> {
    match (coordinate(row.0), coordinate(row.1), row.2) {
        (Some(x), Some(z), Some(found_time)) => Some(ChunkHighlight { x, z, found_time }),
        _ => None,
    }
}

/// The highlights in `rows` (x, z, foundTime), in order; a row that cannot be
/// read is passed over.
fn window_highlights(rows: &Vec<(Column, Column, Column)>) -> (r: Vec<ChunkHighlight>)
    ensures
        r@ == rows@.filter_map(|row: (Column, Column, Column)| highlight_in(row)),
{
    let mut out: Vec<ChunkHighlight> = Vec::new();
    let mut i: usize = 0;
    let ghost f = |row: (Column, Column, Column)| highlight_in(row);
    assert(rows@.take(0).filter_map(f) =~= Seq::<ChunkHighlight>::empty());
    while i < rows.len()
        invariant
            i <= rows@.len(),
            f == (|row: (Column, Column, Column)| highlight_in(row)),
            out@ == rows@.take(i as int).filter_map(f),
        decreases rows@.len() - i,
    {
        proof {
            rows@.lemma_filter_map_take_succ(f, i as int);
        }
        let (x, z, t) = rows[i];
        match (to_coordinate(x), to_coordinate(z), t) {
            (Some(x), Some(z), Some(found_time)) => {
                out.push(ChunkHighlight { x, z, found_time });
            },
            _ => {},
        }
        i = i + 1;
    }
    assert(rows@.take(rows@.len() as int) =~= rows@);
    out
}

/// The highlights of a window are its rows, field by field: the first two
/// columns are the chunk and the third its time. They come in the order of the
/// rows, one for every row whose chunk is of 32 bits and whose time is an
/// integer.
pub proof fn law_window_rows_are_highlights(rows: Seq<(Column, Column, Column)>) -> (at: Seq<int>)
    ensures
        ({
            let found = rows.filter_map(|row: (Column, Column, Column)| highlight_in(row));
            &&& at.len() == found.len()
            &&& climbs(at, rows.len() as int)
            &&& forall|k: int|
                0 <= k < rows.len() ==> (at.contains(k) <==> ({
                    let row = #[trigger] rows[k];
                    &&& row.0 matches Some(x) && -0x8000_0000 <= x <= 0x7fff_ffff
                    &&& row.1 matches Some(z) && -0x8000_0000 <= z <= 0x7fff_ffff
                    &&& row.2 is Some
                }))
            &&& forall|i: int|
                0 <= i < found.len() ==> ({
                    let row = rows[at[i]];
                    let h = #[trigger] found[i];
                    &&& row.0 == Some(h.x as i64)
                    &&& row.1 == Some(h.z as i64)
                    &&& row.2 == Some(h.found_time)
                })
        }),
{
    let f = |row: (Column, Column, Column)| highlight_in(row);
    let at = lemma_filter_map_places(rows, f);
    assert forall|i: int| 0 <= i < at.len() implies f(rows[at[i]]) is Some by {
        assert(f(rows[at[i]]) == Some(rows.filter_map(f)[i]));
    }
    assert forall|k: int| 0 <= k < rows.len() implies (at.contains(k) <==> f(
        #[trigger] rows[k],
    ) is Some) by {}
    at
}

/// A database without a `metadata` table is on version 0. With one, it is a
/// highlight database where that table has an `id` column, and a drawing
/// database where it has none; its version is the greatest that is recorded. A
/// version that cannot be one counts as 1 for highlights and as 0 for drawings.
pub proof fn law_schema_is_told_by_the_ledger(
    columns: Seq<String>,
    max_version: Option<i64>,
)
    ensures
        shape_of(false, columns) is Absent,
        version_of(MetadataShape::Absent, max_version) == 0,
        has_name(columns, "id"@) ==> shape_of(true, columns) is Highlight,
        !has_name(columns, "id"@) ==> shape_of(true, columns) is Drawing,
        max_version matches Some(v) ==> (0 <= v <= 0xffff_ffff ==> {
            &&& version_of(MetadataShape::Highlight, max_version) == v
            &&& version_of(MetadataShape::Drawing, max_version) == v
        }),
        !(max_version matches Some(v) && 0 <= v <= 0xffff_ffff) ==> {
            &&& version_of(MetadataShape::Highlight, max_version) == 1
            &&& version_of(MetadataShape::Drawing, max_version) == 0
        },
{
}

/// The tables of a file are all that it lists but `metadata`, in order of name,
/// each as often as it is listed.
pub proof fn law_every_table_but_the_ledger_is_listed(names: Seq<String>, tables: Seq<String>)
    requires
        sorted_from(data_tables(names), tables),
    ensures
        forall|name: String| #[trigger]
            tables.contains(name) <==> names.contains(name) && name@ != "metadata"@,
        tables.to_multiset() == names.filter(|n: String| n@ != "metadata"@).to_multiset(),
        forall|i: int, j: int|
            0 <= i < j < tables.len() ==> (#[trigger] tables[i])@ == (#[trigger] tables[j])@
                || text_before(tables[i]@, tables[j]@),
{
    let kept = data_tables(names);
    let p = |n: String| n@ != "metadata"@;
    law_sorting_permutes(kept, tables);
    assert forall|name: String| #[trigger] tables.contains(name) <==> names.contains(name)
        && name@ != "metadata"@ by {
        law_sorting_keeps_elements(kept, tables, name);
        if kept.contains(name) {
            names.lemma_filter_contains_rev(p, name);
            let i = choose|i: int| 0 <= i < kept.len() && kept[i] == name;
            names.lemma_filter_pred(p, i);
        }
        if names.contains(name) && p(name) {
            let i = choose|i: int| 0 <= i < names.len() && names[i] == name;
            names.lemma_filter_contains(p, i);
        }
    }
    assert forall|i: int, j: int| 0 <= i < j < tables.len() implies (#[trigger] tables[i])@ == (
    #[trigger] tables[j])@ || text_before(tables[i]@, tables[j]@) by {
        assert(<String as Ranked>::le(tables[i].rank(), tables[j].rank()));
        law_texts_are_ordered_by_first_difference(tables[i]@, tables[j]@);
    }
}

/// The numbered tables are those of the three vanilla dimensions: 0 the
/// overworld, -1 the nether, 1 the end.
pub proof fn law_numbered_tables_are_vanilla(dimension_key: Seq<char>)
    ensures
        legacy_name("minecraft:overworld"@) == Some("0"@),
        legacy_name("minecraft:the_nether"@) == Some("-1"@),
        legacy_name("minecraft:the_end"@) == Some("1"@),
        legacy_name(dimension_key) is Some ==> dimension_key == "minecraft:overworld"@
            || dimension_key == "minecraft:the_nether"@ || dimension_key == "minecraft:the_end"@,
{
    reveal_strlit("minecraft:overworld");
    reveal_strlit("minecraft:the_nether");
    reveal_strlit("minecraft:the_end");
    assert("minecraft:overworld"@.len() == 19 && "minecraft:the_nether"@.len() == 20
        && "minecraft:the_end"@.len() == 17);
}

/// Counting fails only where counting a table failed.
pub proof fn law_counts_fail_only_by_a_failure(
    tables: Seq<String>,
    counts: Seq<Result<u64, String>>,
    r: Result<Vec<(String, u64)>, String>,
)
    requires
        counted(tables, counts, r),
        counts.len() == tables.len(),
    ensures
        r is Ok <==> forall|i: int| 0 <= i < counts.len() ==> (#[trigger] counts[i]) is Ok,
        r matches Ok(out) ==> forall|i: int|
            0 <= i < tables.len() ==> (#[trigger] out@[i]).0@ == tables[i]@ && counts[i] == Ok::<
                u64,
                String,
            >(out@[i].1),
{
    if let Ok(out) = r {
        assert forall|i: int| 0 <= i < counts.len() implies (#[trigger] counts[i]) is Ok by {
            assert(out@[i].0@ == tables[i]@);
        }
    }
}

/// A column is read as a coordinate exactly where it is an integer of 32 bits,
/// and then as that integer.
pub proof fn law_coordinates_are_32_bit_integers(c: Column, n: i32)
    ensures
        coordinate(c) == Some(n) <==> c == Some(n as i64),
        coordinate(c) is None <==> !(c matches Some(v) && -0x8000_0000 <= v <= 0x7fff_ffff),
{
}

} // verus!
