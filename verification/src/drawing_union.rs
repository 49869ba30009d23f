//! What a merge of drawing databases does to their rows.
//!
//! The rows of a table with a primary key are a map from key to row; those of a
//! table without one are a bag. The migration ledger is a map from version to
//! time. A merge is followed here through every answer of databases that hold
//! such rows, so that what it reports can be held against the rows before and
//! after.

use vstd::multiset::Multiset;
use vstd::prelude::*;
use crate::drawing_merge::{column_list, escaped, joined, key_columns, run, same_key};
use crate::drawing_merge::{shared_columns, Ask, ColumnInfo, MergePhase, MergeReply, MergeState};
use crate::drawing_merge::TableMergeReport;
use crate::sql::quoted;
use crate::text::decimal_text;

verus! {

/// The rows of a table.
#[verifier::ext_equal]
#[verifier::reject_recursive_types(K)]
#[verifier::reject_recursive_types(R)]
pub enum Rows<K, R> {
    /// Rows by primary key.
    Keyed(Map<K, R>),
    /// Rows of a table that declares no primary key.
    Bag(Multiset<R>),
}

impl<K, R> Rows<K, R> {
    /// How many rows there are.
    pub open spec fn count(self) -> nat {
        match self {
            Rows::Keyed(m) => m.dom().len(),
            Rows::Bag(b) => b.len(),
        }
    }

    /// There are finitely many rows.
    pub open spec fn is_finite(self) -> bool {
        match self {
            Rows::Keyed(m) => m.dom().finite(),
            Rows::Bag(_) => true,
        }
    }

    /// No rows, in a table that is declared like this one.
    pub open spec fn emptied(self) -> Rows<K, R> {
        match self {
            Rows::Keyed(_) => Rows::Keyed(Map::empty()),
            Rows::Bag(_) => Rows::Bag(Multiset::empty()),
        }
    }

    /// Both tables declare a primary key, or neither does.
    pub open spec fn is_like(self, other: Rows<K, R>) -> bool {
        self is Keyed <==> other is Keyed
    }

    /// How many rows of `source` have a key that is here too.
    pub open spec fn shared(self, source: Rows<K, R>) -> nat {
        match (self, source) {
            (Rows::Keyed(m), Rows::Keyed(s)) => m.dom().intersect(s.dom()).len(),
            _ => 0,
        }
    }

    /// These rows and those of `source`: where both have a key, the row here
    /// stays.
    pub open spec fn with(self, source: Rows<K, R>) -> Rows<K, R> {
        match (self, source) {
            (Rows::Keyed(m), Rows::Keyed(s)) => Rows::Keyed(s.union_prefer_right(m)),
            (Rows::Bag(b), Rows::Bag(s)) => Rows::Bag(b.add(s)),
            _ => self,
        }
    }

    /// Every one of these rows is in `after`, as it is.
    pub open spec fn stays_in(self, after: Rows<K, R>) -> bool {
        match (self, after) {
            (Rows::Keyed(m), Rows::Keyed(a)) => m.submap_of(a),
            (Rows::Bag(b), Rows::Bag(a)) => b.subset_of(a),
            _ => false,
        }
    }

    /// Every one of these rows is in `after`, or another one with its key.
    pub open spec fn arrives_in(self, after: Rows<K, R>) -> bool {
        match (self, after) {
            (Rows::Keyed(m), Rows::Keyed(a)) => m.dom().subset_of(a.dom()),
            (Rows::Bag(b), Rows::Bag(a)) => b.subset_of(a),
            _ => false,
        }
    }
}

/// The tables of a destination, but for the migration ledger: for each name, its
/// rows.
pub type DestTables<K, R> = Map<Seq<char>, Rows<K, R>>;

/// The tables of a source, but for the migration ledger: names and rows, in the
/// order in which the source lists them.
pub type SourceTables<K, R> = Seq<(Seq<char>, Rows<K, R>)>;

/// A migration ledger: the time of every version, where there is one.
pub type Ledger<T> = Option<Map<i64, T>>;

/// What a destination holds.
#[verifier::ext_equal]
#[verifier::reject_recursive_types(K)]
#[verifier::reject_recursive_types(R)]
pub struct Dest<K, R, T> {
    pub tables: DestTables<K, R>,
    pub ledger: Ledger<T>,
}

/// What a source holds.
#[verifier::ext_equal]
#[verifier::reject_recursive_types(K)]
#[verifier::reject_recursive_types(R)]
pub struct Source<K, R, T> {
    pub tables: SourceTables<K, R>,
    pub ledger: Ledger<T>,
}

/// The rows that a destination has of the table that a source calls `table`:
/// none where there is no such table.
pub open spec fn rows_of<K, R>(
    dest: DestTables<K, R>,
    table: (Seq<char>, Rows<K, R>),
) -> Rows<K, R> {
    if dest.contains_key(table.0) {
        dest[table.0]
    } else {
        table.1.emptied()
    }
}

/// A table's rows on both sides.
pub open spec fn union_rows<K, R>(
    dest: DestTables<K, R>,
    table: (Seq<char>, Rows<K, R>),
) -> Rows<K, R> {
    rows_of(dest, table).with(table.1)
}

/// The destination with the first `n` tables of `source` merged in.
pub open spec fn united<K, R>(
    dest: DestTables<K, R>,
    source: SourceTables<K, R>,
    n: int,
) -> DestTables<K, R>
    decreases n,
{
    if n <= 0 {
        dest
    } else {
        let before = united(dest, source, n - 1);
        before.insert(source[n - 1].0, union_rows(before, source[n - 1]))
    }
}

/// The destination's ledger with that of a source merged in: where both have a
/// version, the destination's time stays.
pub open spec fn united_ledger<T>(dest: Ledger<T>, source: Ledger<T>) -> Ledger<T> {
    match (dest, source) {
        (_, None) => dest,
        (None, Some(s)) => Some(s),
        (Some(d), Some(s)) => Some(s.union_prefer_right(d)),
    }
}

/// The ledger records `version`.
pub open spec fn records<T>(ledger: Ledger<T>, version: i64) -> bool {
    ledger matches Some(m) && m.contains_key(version)
}

/// The destination's tables hold finitely many rows, and they declare a primary
/// key exactly where the sources' tables of the same name do.
pub open spec fn suits<K, R, T>(
    dest: DestTables<K, R>,
    sources: Seq<Source<K, R, T>>,
) -> bool {
    &&& forall|name: Seq<char>| #[trigger] dest.contains_key(name) ==> dest[name].is_finite()
    &&& forall|k: int, j: int|
        0 <= k < sources.len() && 0 <= j < sources[k].tables.len() && dest.contains_key(
            (#[trigger] sources[k].tables[j]).0,
        ) ==> dest[sources[k].tables[j].0].is_like(sources[k].tables[j].1)
}

/// Each source lists each of its tables once, they hold finitely many rows, and
/// tables of one name declare a primary key in all sources or in none.
pub open spec fn are_sources<K, R, T>(sources: Seq<Source<K, R, T>>) -> bool {
    &&& forall|k: int, i: int, j: int|
        0 <= k < sources.len() && 0 <= i < j < sources[k].tables.len()
            ==> (#[trigger] sources[k].tables[i]).0 != (#[trigger] sources[k].tables[j]).0
    &&& forall|k: int, j: int|
        0 <= k < sources.len() && 0 <= j < sources[k].tables.len() ==> (
        #[trigger] sources[k].tables[j]).1.is_finite()
    &&& forall|k: int, j: int, h: int, i: int|
        0 <= k < sources.len() && 0 <= j < sources[k].tables.len() && 0 <= h < sources.len() && 0
            <= i < sources[h].tables.len() && (#[trigger] sources[k].tables[j]).0 == (
        #[trigger] sources[h].tables[i]).0 ==> sources[k].tables[j].1.is_like(
            sources[h].tables[i].1,
        )
}

/// What a report says of one table.
#[verifier::ext_equal]
pub struct TableCounts {
    pub table: Seq<char>,
    pub source_rows: int,
    pub dest_rows_before: int,
    pub overlap: int,
    pub dest_rows_after: int,
}

/// What `reports` say.
pub open spec fn counts_of(reports: Seq<TableMergeReport>) -> Seq<TableCounts> {
    reports.map_values(
        |r: TableMergeReport|
            TableCounts {
                table: r.table@,
                source_rows: r.source_rows as int,
                dest_rows_before: r.dest_rows_before as int,
                overlap: r.overlap as int,
                dest_rows_after: r.dest_rows_after as int,
            },
    )
}

/// What the rows say of one table.
pub open spec fn foretold<K, R>(
    dest: DestTables<K, R>,
    table: (Seq<char>, Rows<K, R>),
) -> TableCounts {
    let have = rows_of(dest, table);
    let overlap = have.shared(table.1) as int;
    TableCounts {
        table: table.0,
        source_rows: table.1.count() as int,
        dest_rows_before: have.count() as int,
        overlap,
        dest_rows_after: have.count() + table.1.count() - overlap,
    }
}

/// What the rows say of every table of `source`, in the order of the source.
pub open spec fn foretold_of<K, R>(
    dest: DestTables<K, R>,
    source: SourceTables<K, R>,
) -> Seq<TableCounts> {
    Seq::new(source.len(), |i: int| foretold(dest, source[i]))
}

/// The destination when the turn of source `i` comes: a dry run leaves it as it
/// was.
pub open spec fn dest_at<K, R, T>(
    dest: Dest<K, R, T>,
    sources: Seq<Source<K, R, T>>,
    apply: bool,
    i: int,
) -> Dest<K, R, T>
    decreases i,
{
    if i <= 0 || !apply {
        dest
    } else {
        let before = dest_at(dest, sources, apply, i - 1);
        let source = sources[i - 1];
        Dest {
            tables: united(before.tables, source.tables, source.tables.len() as int),
            ledger: united_ledger(before.ledger, source.ledger),
        }
    }
}

/// What the rows say of the first `i` sources.
pub open spec fn foretold_up_to<K, R, T>(
    dest: Dest<K, R, T>,
    sources: Seq<Source<K, R, T>>,
    apply: bool,
    i: int,
) -> Seq<TableCounts>
    decreases i,
{
    if i <= 0 {
        Seq::empty()
    } else {
        foretold_up_to(dest, sources, apply, i - 1) + foretold_of(
            dest_at(dest, sources, apply, i - 1).tables,
            sources[i - 1].tables,
        )
    }
}

/// `listed` names the tables of `source` in order, each with its DDL.
pub open spec fn lists_tables<K, R>(
    listed: Seq<(String, String)>,
    source: SourceTables<K, R>,
) -> bool {
    &&& listed.len() == source.len()
    &&& forall|k: int|
        0 <= k < listed.len() ==> (#[trigger] listed[k]).0@ == source[k].0 && listed[k].1@.len() > 0
}

/// The table `name` of the source at position `i`, as a statement names it.
pub open spec fn in_source(i: int, name: Seq<char>) -> Seq<char> {
    "src"@ + decimal_text(i) + "."@ + quoted(name)
}

/// A source row `s` and a destination row `m` agree in every one of `columns`
/// that is part of the key.
pub open spec fn agree_on_key(columns: Seq<ColumnInfo>) -> Seq<char>
    decreases columns.len(),
{
    if columns.len() == 0 {
        Seq::empty()
    } else {
        let before = columns.drop_last();
        let name = quoted(columns.last().name@);
        if columns.last().pk <= 0 {
            agree_on_key(before)
        } else if declares_key(before) {
            agree_on_key(before) + " AND "@ + ("s."@ + name + " = m."@ + name)
        } else {
            "s."@ + name + " = m."@ + name
        }
    }
}

/// One of `columns` is part of the primary key.
pub open spec fn declares_key(columns: Seq<ColumnInfo>) -> bool {
    exists|i: int| 0 <= i < columns.len() && (#[trigger] columns[i]).pk > 0
}

/// The names of `columns`, with commas between.
pub open spec fn listed_names(columns: Seq<ColumnInfo>) -> Seq<char>
    decreases columns.len(),
{
    if columns.len() == 0 {
        Seq::empty()
    } else if columns.len() == 1 {
        quoted(columns[0].name@)
    } else {
        listed_names(columns.drop_last()) + ", "@ + quoted(columns.last().name@)
    }
}

/// The action counts the rows of `table`.
pub open spec fn counts_rows(ask: Ask, table: Seq<char>) -> bool {
    ask == (Ask::Count { sql: "SELECT COUNT(*) FROM "@ + table, params: Seq::empty() })
}

/// The action counts the pairs of rows of `from` and `into` that agree in every
/// key column.
pub open spec fn counts_pairs(
    ask: Ask,
    from: Seq<char>,
    into: Seq<char>,
    columns: Seq<ColumnInfo>,
) -> bool {
    ask == (Ask::Count {
        sql: "SELECT COUNT(*) FROM "@ + from + " s JOIN "@ + into + " m ON "@ + agree_on_key(
            columns,
        ),
        params: Seq::empty(),
    })
}

/// The action counts the tables of `schema` that are called `name`.
pub open spec fn probes(ask: Ask, schema: Seq<char>, name: Seq<char>) -> bool {
    ask == (Ask::Count {
        sql: "SELECT COUNT(*) FROM "@ + schema
            + ".sqlite_master WHERE type='table' AND name = ?1"@,
        params: seq![name],
    })
}

/// The action reads the columns of the table `name` of `schema`.
pub open spec fn reads_columns(ask: Ask, schema: Seq<char>, name: Seq<char>) -> bool {
    ask == (Ask::Columns {
        sql: "SELECT name, pk FROM pragma_table_info(?1, ?2)"@,
        params: seq![name, schema],
    })
}

/// The action lists the tables of `schema` by name, but for SQLite's own and
/// the migration ledger.
pub open spec fn lists_schema(ask: Ask, schema: Seq<char>) -> bool {
    ask == (Ask::Tables {
        sql: "SELECT name, COALESCE(sql,'') FROM "@ + schema
            + ".sqlite_master WHERE type='table' AND name NOT LIKE 'sqlite_%' AND name != 'metadata' ORDER BY name"@,
    })
}

/// The action copies `columns` of the rows of `from` into `into`; a row whose
/// key is there already is left out.
pub open spec fn copies_new_rows(
    ask: Ask,
    into: Seq<char>,
    columns: Seq<ColumnInfo>,
    from: Seq<char>,
) -> bool {
    ask == (Ask::Run {
        sql: "INSERT OR IGNORE INTO "@ + into + " ("@ + listed_names(columns) + ") SELECT "@
            + listed_names(columns) + " FROM "@ + from,
        params: Seq::empty(),
    })
}

/// The action copies the versions of the ledger of `schema`; one that is
/// recorded already is left out.
pub open spec fn copies_new_versions(ask: Ask, schema: Seq<char>) -> bool {
    ask == (Ask::Run {
        sql: "INSERT OR IGNORE INTO main.metadata (version, time) SELECT version, time FROM "@
            + schema + ".metadata"@,
        params: Seq::empty(),
    })
}

/// The action makes an empty ledger, where there is none.
pub open spec fn creates_ledger(ask: Ask) -> bool {
    ask == (Ask::Run {
        sql: "CREATE TABLE IF NOT EXISTS metadata (version INTEGER PRIMARY KEY, time DATETIME NOT NULL default CURRENT_TIMESTAMP)"@,
        params: Seq::empty(),
    })
}

/// The action changes no row: it opens or configures the connection to `dest`,
/// attaches the database at `source` under `schema` for reading, detaches it,
/// reads, or has what was written flushed.
pub open spec fn changes_no_row(
    ask: Ask,
    dest: Seq<char>,
    source: Seq<char>,
    schema: Seq<char>,
) -> bool {
    match ask {
        Ask::Open { path, .. } => path == dest,
        Ask::BusyTimeout { .. } => true,
        Ask::Pragma { name, .. } => name == "journal_mode"@ || name == "synchronous"@,
        Ask::Run { sql, params } => {
            ||| {
                &&& sql == "ATTACH DATABASE ?1 AS "@ + schema
                &&& params == seq!["file:"@ + escaped(source) + "?mode=ro"@]
            }
            ||| sql == "DETACH DATABASE "@ + schema
            ||| sql == "PRAGMA wal_checkpoint(TRUNCATE); PRAGMA optimize;"@
        },
        Ask::Count { sql, .. } => "SELECT COUNT(*) FROM "@.is_prefix_of(sql),
        Ask::Tables { sql } => "SELECT name, COALESCE(sql,'') FROM "@.is_prefix_of(sql),
        Ask::Columns { sql, .. } => sql == "SELECT name, pk FROM pragma_table_info(?1, ?2)"@,
        Ask::Finish => true,
    }
}

/// `reply` is what databases that hold `now` and `sources` answer to the action
/// that is asked for: no action fails that the merge depends on, a statement
/// that counts rows brings their number, the columns of a source's table tell
/// whether it has a primary key, and both sides share columns. Of any other
/// statement nothing is said.
pub open spec fn tells<K, R, T>(
    s: MergeState,
    now: Dest<K, R, T>,
    sources: Seq<Source<K, R, T>>,
    reply: MergeReply,
) -> bool {
    let source = sources[s.source];
    let table = source.tables[s.table];
    let ask = s.asks();
    let schema = "src"@ + decimal_text(s.source);
    match reply {
        MergeReply::Failed(_) => s.phase.best_effort(),
        MergeReply::Done => true,
        MergeReply::Tables(tables) => lists_schema(ask, schema) ==> lists_tables(
            tables@,
            source.tables,
        ),
        MergeReply::Columns(columns) => if s.phase is SourceColumns {
            reads_columns(ask, schema, table.0) ==> (declares_key(columns@) <==> table.1 is Keyed)
        } else {
            reads_columns(ask, "main"@, table.0) ==> shared_columns(s.columns, columns@).len() > 0
        },
        MergeReply::Count(n) => match s.phase {
            MergePhase::CountSource => counts_rows(ask, in_source(s.source, table.0)) ==> n
                == table.1.count(),
            MergePhase::ProbeTable => probes(ask, "main"@, table.0) ==> (n > 0
                <==> now.tables.contains_key(table.0)),
            MergePhase::CountBefore | MergePhase::CountAfter => counts_rows(ask, quoted(table.0))
                ==> n == rows_of(now.tables, table).count(),
            MergePhase::CountOverlap => counts_pairs(
                ask,
                in_source(s.source, table.0),
                quoted(table.0),
                s.columns,
            ) ==> n == rows_of(now.tables, table).shared(table.1),
            MergePhase::ProbeSourceLedger => probes(ask, schema, "metadata"@) ==> (n > 0
                <==> source.ledger is Some),
            MergePhase::ProbeLedger => probes(ask, "main"@, "metadata"@) ==> (n > 0
                <==> now.ledger is Some),
            _ => true,
        },
    }
}

/// What the action that is asked for makes of the destination, by its
/// statement: the table's own DDL creates it empty, rows and versions that are
/// copied yield to what is there, and reading changes nothing. What any other
/// statement would do is left open.
pub open spec fn acted<K, R, T>(
    s: MergeState,
    now: Dest<K, R, T>,
    sources: Seq<Source<K, R, T>>,
) -> Dest<K, R, T> {
    let source = sources[s.source];
    let table = source.tables[s.table];
    let ask = s.asks();
    let schema = "src"@ + decimal_text(s.source);
    if s.phase is CreateTable && ask == (Ask::Run {
        sql: s.queue[s.table].1@,
        params: Seq::empty(),
    }) {
        Dest { tables: now.tables.insert(table.0, table.1.emptied()), ..now }
    } else if s.phase is Insert && copies_new_rows(
        ask,
        quoted(table.0),
        s.shared,
        in_source(s.source, table.0),
    ) {
        Dest { tables: now.tables.insert(table.0, union_rows(now.tables, table)), ..now }
    } else if s.phase is CreateLedger && creates_ledger(ask) {
        Dest {
            ledger: match now.ledger {
                Some(l) => Some(l),
                None => Some(Map::empty()),
            },
            ..now
        }
    } else if s.phase is UnionLedger && copies_new_versions(ask, schema) {
        Dest { ledger: united_ledger(now.ledger, source.ledger), ..now }
    } else if changes_no_row(ask, s.dest, s.sources[s.source], schema) {
        now
    } else {
        arbitrary()
    }
}

/// The destination after all of `replies`.
pub open spec fn dest_after<K, R, T>(
    from: MergeState,
    dest: Dest<K, R, T>,
    sources: Seq<Source<K, R, T>>,
    replies: Seq<MergeReply>,
) -> Dest<K, R, T>
    decreases replies.len(),
{
    if replies.len() == 0 {
        dest
    } else {
        let front = replies.drop_last();
        acted(run(from, front), dest_after(from, dest, sources, front), sources)
    }
}

/// Every reply answers what was asked for, and is what databases that hold
/// `dest` and `sources` at the outset answer.
pub open spec fn tell<K, R, T>(
    from: MergeState,
    dest: Dest<K, R, T>,
    sources: Seq<Source<K, R, T>>,
    replies: Seq<MergeReply>,
) -> bool
    decreases replies.len(),
{
    replies.len() == 0 || {
        let front = replies.drop_last();
        &&& tell(from, dest, sources, front)
        &&& run(from, front).accepts(replies.last())
        &&& tells(
            run(from, front),
            dest_after(from, dest, sources, front),
            sources,
            replies.last(),
        )
    }
}

/// Databases that hold `dest` and `sources` have answered a whole merge.
pub open spec fn answered_through<K, R, T>(
    start: MergeState,
    dest: Dest<K, R, T>,
    sources: Seq<Source<K, R, T>>,
    replies: Seq<MergeReply>,
) -> bool {
    &&& start.sources.len() == sources.len()
    &&& suits(dest.tables, sources)
    &&& are_sources(sources)
    &&& tell(start, dest, sources, replies)
    &&& run(start, replies).phase is Finished
}

/// The destination's tables while one is merged: as they were, or with the
/// table created.
spec fn opened<K, R>(
    now: DestTables<K, R>,
    before: DestTables<K, R>,
    table: (Seq<char>, Rows<K, R>),
) -> bool {
    now == before || !before.contains_key(table.0) && now == before.insert(
        table.0,
        table.1.emptied(),
    )
}

/// How the destination's tables and the numbers of the table stand in each
/// phase of a table's merge. `before` are the tables when its turn came.
spec fn follows_table<K, R>(
    s: MergeState,
    now: DestTables<K, R>,
    before: DestTables<K, R>,
    table: (Seq<char>, Rows<K, R>),
) -> bool {
    let told = foretold(before, table);
    let counted = s.source_rows == told.source_rows <= u64::MAX;
    let held = s.before == told.dest_rows_before <= u64::MAX;
    let shared = s.overlap == told.overlap <= u64::MAX;
    let ready = {
        &&& counted
        &&& opened(now, before, table)
        &&& s.dest_exists == now.contains_key(table.0)
        &&& s.apply ==> s.dest_exists
        &&& !s.apply ==> now == before
    };
    let columned = key_columns(s.columns).len() > 0 <==> table.1 is Keyed;
    match s.phase {
        MergePhase::CountSource => now == before,
        MergePhase::ProbeTable => counted && now == before,
        MergePhase::CreateTable => counted && now == before && s.apply && !now.contains_key(
            table.0,
        ),
        MergePhase::SourceColumns => ready,
        MergePhase::CountBefore => ready && s.dest_exists && columned,
        MergePhase::CountOverlap => ready && s.dest_exists && columned && held,
        MergePhase::DestColumns | MergePhase::Insert => ready && held && shared && s.apply,
        MergePhase::CountAfter => {
            &&& counted
            &&& held
            &&& shared
            &&& s.apply
            &&& now == before.insert(table.0, union_rows(before, table))
        },
        _ => true,
    }
}

/// How the destination's ledger stands in each phase while a source is attached.
/// `before` is the ledger when the turn of the source came.
spec fn follows_ledger<T>(
    s: MergeState,
    now: Ledger<T>,
    before: Ledger<T>,
    source: Ledger<T>,
) -> bool {
    match s.phase {
        MergePhase::ProbeSourceLedger => s.apply && now == before,
        MergePhase::ProbeLedger => s.apply && source is Some && now == before,
        MergePhase::CreateLedger => s.apply && source is Some && now == before && now is None,
        MergePhase::UnionLedger => s.apply && source is Some && (now == before || before is None
            && now == Some(Map::<i64, T>::empty())),
        MergePhase::Detach => now == (if s.apply {
            united_ledger(before, source)
        } else {
            before
        }),
        _ => now == before,
    }
}

/// The destination's tables when the turn of the table at the current position
/// comes.
spec fn tables_before<K, R, T>(
    s: MergeState,
    dest: Dest<K, R, T>,
    sources: Seq<Source<K, R, T>>,
) -> DestTables<K, R> {
    let base = dest_at(dest, sources, s.apply, s.source).tables;
    if s.apply {
        united(base, sources[s.source].tables, s.table)
    } else {
        base
    }
}

/// How a merge that databases answer truthfully stands.
spec fn follows<K, R, T>(
    s: MergeState,
    now: Dest<K, R, T>,
    dest: Dest<K, R, T>,
    sources: Seq<Source<K, R, T>>,
) -> bool {
    let base = dest_at(dest, sources, s.apply, s.source);
    let told = foretold_up_to(dest, sources, s.apply, s.source);
    let source = sources[s.source];
    &&& s.well_formed()
    &&& s.sources.len() == sources.len()
    &&& s.failure is None
    &&& s.phase is Checkpoint || s.phase is Finished ==> s.source == sources.len()
    &&& if !s.phase.attached() || s.phase is List {
        now == base && counts_of(s.reports) == told
    } else {
        &&& lists_tables(s.queue, source.tables)
        &&& counts_of(s.reports) == told + foretold_of(base.tables, source.tables).take(s.table)
        &&& follows_ledger(s, now.ledger, base.ledger, source.ledger)
        &&& if s.phase.in_table() {
            follows_table(
                s,
                now.tables,
                tables_before(s, dest, sources),
                source.tables[s.table],
            )
        } else {
            s.table == source.tables.len() && now.tables == tables_before(s, dest, sources)
        }
    }
}

proof fn lemma_joined_more(parts: Seq<Seq<char>>, part: Seq<char>, sep: Seq<char>)
    ensures
        joined(parts.push(part), sep) == (if parts.len() == 0 {
            part
        } else {
            joined(parts, sep) + sep + part
        }),
{
    assert(parts.push(part).drop_last() =~= parts);
}

proof fn lemma_keys_declared(columns: Seq<ColumnInfo>)
    ensures
        key_columns(columns).len() > 0 <==> declares_key(columns),
        same_key(key_columns(columns)) == agree_on_key(columns),
    decreases columns.len(),
{
    let is_key = |c: ColumnInfo| c.pk > 0;
    let part = |c: ColumnInfo| "s."@ + quoted(c.name@) + " = m."@ + quoted(c.name@);
    reveal(Seq::filter);
    if columns.len() == 0 {
        assert(key_columns(columns).map_values(part) =~= Seq::<Seq<char>>::empty());
    } else {
        let front = columns.drop_last();
        let c = columns.last();
        lemma_keys_declared(front);
        assert(columns =~= front.push(c));
        front.lemma_filter_push(c, is_key);
        let kept = front.filter(is_key);
        if c.pk > 0 {
            assert(kept.push(c).map_values(part) =~= kept.map_values(part).push(part(c)));
            lemma_joined_more(kept.map_values(part), part(c), " AND "@);
            assert(columns[columns.len() - 1].pk > 0);
        }
        if declares_key(front) {
            let i = choose|i: int| 0 <= i < front.len() && (#[trigger] front[i]).pk > 0;
            assert(columns[i] == front[i]);
        }
        if declares_key(columns) && c.pk <= 0 {
            let i = choose|i: int| 0 <= i < columns.len() && (#[trigger] columns[i]).pk > 0;
            assert(front[i] == columns[i]);
        }
    }
}

proof fn lemma_names_listed(columns: Seq<ColumnInfo>)
    ensures
        column_list(columns) == listed_names(columns),
    decreases columns.len(),
{
    let part = |c: ColumnInfo| quoted(c.name@);
    if columns.len() > 0 {
        let front = columns.drop_last();
        lemma_names_listed(front);
        assert(columns.map_values(part) =~= front.map_values(part).push(part(columns.last())));
        lemma_joined_more(front.map_values(part), part(columns.last()), ", "@);
    }
}

/// The statements that a merge asks for are the ones that the rows are followed
/// through.
proof fn lemma_statements<K, R, T>(s: MergeState, sources: Seq<Source<K, R, T>>)
    requires
        s.well_formed(),
        s.sources.len() == sources.len(),
        s.phase.attached() && s.phase !is List ==> lists_tables(
            s.queue,
            sources[s.source].tables,
        ),
    ensures
        ({
            let name = sources[s.source].tables[s.table].0;
            let ask = s.asks();
            let schema = "src"@ + decimal_text(s.source);
            match s.phase {
                MergePhase::List => lists_schema(ask, schema),
                MergePhase::CountSource => counts_rows(ask, in_source(s.source, name)),
                MergePhase::ProbeTable => probes(ask, "main"@, name),
                MergePhase::SourceColumns => reads_columns(ask, schema, name),
                MergePhase::CountBefore | MergePhase::CountAfter => counts_rows(ask, quoted(name)),
                MergePhase::CountOverlap => counts_pairs(
                    ask,
                    in_source(s.source, name),
                    quoted(name),
                    s.columns,
                ),
                MergePhase::DestColumns => reads_columns(ask, "main"@, name),
                MergePhase::ProbeSourceLedger => probes(ask, schema, "metadata"@),
                MergePhase::ProbeLedger => probes(ask, "main"@, "metadata"@),
                _ => true,
            }
        }),
        ({
            let name = sources[s.source].tables[s.table].0;
            let ask = s.asks();
            let schema = "src"@ + decimal_text(s.source);
            match s.phase {
                MergePhase::CreateTable => ask == (Ask::Run {
                    sql: s.queue[s.table].1@,
                    params: Seq::empty(),
                }),
                MergePhase::Insert => copies_new_rows(
                    ask,
                    quoted(name),
                    s.shared,
                    in_source(s.source, name),
                ),
                MergePhase::CreateLedger => creates_ledger(ask),
                MergePhase::UnionLedger => copies_new_versions(ask, schema),
                _ => changes_no_row(ask, s.dest, s.sources[s.source], schema),
            }
        }),
{
    lemma_keys_declared(s.columns);
    lemma_names_listed(s.shared);
    if s.phase.in_table() {
        assert(s.queue[s.table].0@ == sources[s.source].tables[s.table].0);
    }
    if let Ask::Count { sql, .. } = s.asks() {
        assert("SELECT COUNT(*) FROM "@.is_prefix_of(sql)) by {
            assert("SELECT COUNT(*) FROM "@ =~= sql.subrange(
                0,
                "SELECT COUNT(*) FROM "@.len() as int,
            ));
        }
    }
    if let Ask::Tables { sql } = s.asks() {
        assert("SELECT name, COALESCE(sql,'') FROM "@ =~= sql.subrange(
            0,
            "SELECT name, COALESCE(sql,'') FROM "@.len() as int,
        ));
    }
}

proof fn lemma_union_size<K, R>(dest: DestTables<K, R>, table: (Seq<char>, Rows<K, R>))
    requires
        dest.contains_key(table.0) ==> dest[table.0].is_finite() && dest[table.0].is_like(table.1),
        table.1.is_finite(),
    ensures
        union_rows(dest, table).is_finite(),
        union_rows(dest, table).is_like(table.1),
        union_rows(dest, table).count() == foretold(dest, table).dest_rows_after,
        foretold(dest, table).overlap <= foretold(dest, table).source_rows,
{
    match (rows_of(dest, table), table.1) {
        (Rows::Keyed(m), Rows::Keyed(s)) => {
            vstd::set_lib::lemma_set_intersect_union_lens(m.dom(), s.dom());
            vstd::set_lib::lemma_len_intersect(s.dom(), m.dom());
            assert(m.dom().intersect(s.dom()) =~= s.dom().intersect(m.dom()));
            assert(s.union_prefer_right(m).dom() =~= m.dom().union(s.dom()));
        },
        _ => {},
    }
}

proof fn lemma_united_untouched<K, R>(
    dest: DestTables<K, R>,
    source: SourceTables<K, R>,
    n: int,
    k: int,
)
    requires
        forall|i: int, j: int|
            0 <= i < j < source.len() ==> (#[trigger] source[i]).0 != (#[trigger] source[j]).0,
        0 <= n <= k < source.len(),
    ensures
        united(dest, source, n).contains_key(source[k].0) == dest.contains_key(source[k].0),
        rows_of(united(dest, source, n), source[k]) == rows_of(dest, source[k]),
    decreases n,
{
    if n > 0 {
        lemma_united_untouched(dest, source, n - 1, k);
        assert(source[n - 1].0 != source[k].0);
    }
}

proof fn lemma_united_suits<K, R, T>(
    dest: DestTables<K, R>,
    sources: Seq<Source<K, R, T>>,
    i: int,
    n: int,
)
    requires
        suits(dest, sources),
        are_sources(sources),
        0 <= i < sources.len(),
        n <= sources[i].tables.len(),
    ensures
        suits(united(dest, sources[i].tables, n), sources),
    decreases n,
{
    if n > 0 {
        lemma_united_suits(dest, sources, i, n - 1);
        let before = united(dest, sources[i].tables, n - 1);
        let after = united(dest, sources[i].tables, n);
        let table = sources[i].tables[n - 1];
        lemma_union_size(before, table);
        assert forall|k: int, j: int|
            0 <= k < sources.len() && 0 <= j < sources[k].tables.len() && after.contains_key(
                (#[trigger] sources[k].tables[j]).0,
            ) implies after[sources[k].tables[j].0].is_like(sources[k].tables[j].1) by {
            if sources[k].tables[j].0 == table.0 {
                assert(sources[i].tables[n - 1].1.is_like(sources[k].tables[j].1));
            }
        }
    }
}

proof fn lemma_dest_at_suits<K, R, T>(
    dest: Dest<K, R, T>,
    sources: Seq<Source<K, R, T>>,
    apply: bool,
    i: int,
)
    requires
        suits(dest.tables, sources),
        are_sources(sources),
        i <= sources.len(),
    ensures
        suits(dest_at(dest, sources, apply, i).tables, sources),
    decreases i,
{
    if i > 0 && apply {
        lemma_dest_at_suits(dest, sources, apply, i - 1);
        lemma_united_suits(
            dest_at(dest, sources, apply, i - 1).tables,
            sources,
            i - 1,
            sources[i - 1].tables.len() as int,
        );
    }
}

proof fn lemma_report_is_told<K, R>(
    s: MergeState,
    after: int,
    base: DestTables<K, R>,
    source: SourceTables<K, R>,
    told: Seq<TableCounts>,
)
    requires
        s.phase.in_table(),
        s.well_formed(),
        lists_tables(s.queue, source),
        counts_of(s.reports) == told + foretold_of(base, source).take(s.table),
        ({
            let t = foretold(base, source[s.table]);
            &&& s.source_rows == t.source_rows <= u64::MAX
            &&& s.before == t.dest_rows_before <= u64::MAX
            &&& s.overlap == t.overlap <= u64::MAX
            &&& 0 <= after == t.dest_rows_after <= u64::MAX
        }),
    ensures
        counts_of(s.reported(after).reports) == told + foretold_of(base, source).take(
            s.table + 1,
        ),
{
    let all = foretold_of(base, source);
    assert(all.take(s.table + 1) =~= all.take(s.table).push(all[s.table]));
    assert(s.queue[s.table].0@ == source[s.table].0);
    let reports = s.reported(after).reports;
    assert(reports =~= s.reports.push(reports.last()));
    assert(counts_of(reports).last() == all[s.table]);
    assert(counts_of(reports) =~= counts_of(s.reports).push(all[s.table]));
    assert(told + all.take(s.table + 1) =~= (told + all.take(s.table)).push(all[s.table]));
}

proof fn lemma_table_step<K, R, T>(
    s: MergeState,
    now: Dest<K, R, T>,
    dest: Dest<K, R, T>,
    sources: Seq<Source<K, R, T>>,
    reply: MergeReply,
)
    requires
        follows(s, now, dest, sources),
        s.phase.in_table(),
        s.accepts(reply),
        tells(s, now, sources, reply),
        suits(dest.tables, sources),
        are_sources(sources),
    ensures
        follows(s.after(reply), acted(s, now, sources), dest, sources),
{
    let base = dest_at(dest, sources, s.apply, s.source).tables;
    let told = foretold_up_to(dest, sources, s.apply, s.source);
    let source = sources[s.source].tables;
    let table = source[s.table];
    let before = tables_before(s, dest, sources);
    let t = foretold(before, table);
    let next = s.after(reply);
    let then = acted(s, now, sources).tables;
    lemma_statements(s, sources);
    if let MergeReply::Columns(columns) = reply {
        lemma_keys_declared(columns@);
    }
    lemma_keys_declared(s.columns);
    lemma_dest_at_suits(dest, sources, s.apply, s.source);
    if s.apply {
        lemma_united_untouched(base, source, s.table, s.table);
        lemma_united_suits(base, sources, s.source, s.table);
    }
    assert(rows_of(before, table) == rows_of(base, table));
    assert(t == foretold(base, table));
    assert(sources[s.source].tables[s.table] == table);
    lemma_union_size(before, table);
    assert(s.queue[s.table].0@ == table.0);
    match s.phase {
        MergePhase::Insert => {
            assert(rows_of(now.tables, table) == rows_of(before, table));
            assert(then =~= before.insert(table.0, union_rows(before, table)));
        },
        MergePhase::SourceColumns | MergePhase::CountBefore | MergePhase::CountOverlap => {
            assert(rows_of(now.tables, table) == rows_of(before, table));
            assert(Map::<K, R>::empty().dom().intersect(
                match table.1 {
                    Rows::Keyed(m) => m.dom(),
                    Rows::Bag(_) => Set::empty(),
                },
            ) =~= Set::empty());
            if next.table == s.table + 1 {
                let c = MergeState {
                    before: next.before,
                    overlap: next.overlap,
                    columns: next.columns,
                    ..s
                };
                lemma_report_is_told(c, t.dest_rows_after, base, source, told);
                assert(next.reports == c.reported(t.dest_rows_after).reports);
            }
        },
        MergePhase::CountAfter => {
            assert(rows_of(now.tables, table) == union_rows(before, table));
            lemma_report_is_told(s, t.dest_rows_after, base, source, told);
        },
        _ => {},
    }
}

proof fn lemma_step<K, R, T>(
    s: MergeState,
    now: Dest<K, R, T>,
    dest: Dest<K, R, T>,
    sources: Seq<Source<K, R, T>>,
    reply: MergeReply,
)
    requires
        follows(s, now, dest, sources),
        s.accepts(reply),
        tells(s, now, sources, reply),
        suits(dest.tables, sources),
        are_sources(sources),
    ensures
        follows(s.after(reply), acted(s, now, sources), dest, sources),
{
    if s.phase.in_table() {
        lemma_table_step(s, now, dest, sources, reply);
    } else {
        let base = dest_at(dest, sources, s.apply, s.source);
        let told = foretold_up_to(dest, sources, s.apply, s.source);
        let source = sources[s.source];
        let all = foretold_of(base.tables, source.tables);
        lemma_statements(s, sources);
        assert(told + all.take(0) =~= told);
        assert(all.take(all.len() as int) =~= all);
        if let (MergePhase::UnionLedger, Some(l)) = (s.phase, source.ledger) {
            assert(l.union_prefer_right(Map::empty()) =~= l);
        }
    }
}

proof fn lemma_run<K, R, T>(
    from: MergeState,
    dest: Dest<K, R, T>,
    sources: Seq<Source<K, R, T>>,
    replies: Seq<MergeReply>,
)
    requires
        follows(from, dest, dest, sources),
        tell(from, dest, sources, replies),
        suits(dest.tables, sources),
        are_sources(sources),
    ensures
        follows(run(from, replies), dest_after(from, dest, sources, replies), dest, sources),
    decreases replies.len(),
{
    if replies.len() > 0 {
        let front = replies.drop_last();
        lemma_run(from, dest, sources, front);
        lemma_step(
            run(from, front),
            dest_after(from, dest, sources, front),
            dest,
            sources,
            replies.last(),
        );
    }
}

proof fn lemma_terms(from: MergeState, replies: Seq<MergeReply>)
    ensures
        run(from, replies).apply == from.apply,
    decreases replies.len(),
{
    if replies.len() > 0 {
        lemma_terms(from, replies.drop_last());
    }
}

/// A merge that nothing fails ends with a report, and the report says what the
/// rows say: one entry for each table of each source, source by source and in
/// the order in which the source lists them. With `apply` the destination ends
/// up with the union of all of them, ledgers included; a dry run leaves it as it
/// was.
pub proof fn law_merge_reports_what_the_rows_say<K, R, T>(
    path: Seq<char>,
    paths: Seq<Seq<char>>,
    apply: bool,
    dest: Dest<K, R, T>,
    sources: Seq<Source<K, R, T>>,
    replies: Seq<MergeReply>,
)
    requires
        answered_through(MergeState::start(path, paths, apply), dest, sources, replies),
    ensures
        ({
            let start = MergeState::start(path, paths, apply);
            let n = sources.len() as int;
            &&& run(start, replies).failure is None
            &&& counts_of(run(start, replies).reports) == foretold_up_to(dest, sources, apply, n)
            &&& dest_after(start, dest, sources, replies) == dest_at(dest, sources, apply, n)
        }),
{
    let start = MergeState::start(path, paths, apply);
    assert(counts_of(start.reports) =~= Seq::empty());
    lemma_run(start, dest, sources, replies);
    lemma_terms(start, replies);
}

/// What the rows say of a table adds up: the rows after are those of the union,
/// never fewer than before, and a table that the destination lacks counts no row
/// before and no shared one.
pub proof fn law_counts_are_those_of_the_union<K, R>(
    dest: DestTables<K, R>,
    table: (Seq<char>, Rows<K, R>),
)
    requires
        dest.contains_key(table.0) ==> dest[table.0].is_finite() && dest[table.0].is_like(table.1),
        table.1.is_finite(),
    ensures
        ({
            let t = foretold(dest, table);
            &&& t.dest_rows_after == union_rows(dest, table).count()
            &&& t.dest_rows_after == t.dest_rows_before + t.source_rows - t.overlap
            &&& t.dest_rows_after >= t.dest_rows_before
            &&& !dest.contains_key(table.0) ==> t.dest_rows_before == 0 && t.overlap == 0
        }),
{
    lemma_union_size(dest, table);
    if let Rows::Keyed(m) = table.1 {
        assert(Map::<K, R>::empty().dom().intersect(m.dom()) =~= Set::empty());
    }
}

/// Merging one source reports what the dry run of it reported on the same
/// databases, table by table and number by number, and leaves the destination
/// with the union that the dry run counted.
pub proof fn law_merge_keeps_what_the_dry_run_foretold<K, R, T>(
    path: Seq<char>,
    source_path: Seq<char>,
    dest: Dest<K, R, T>,
    source: Source<K, R, T>,
    dry: Seq<MergeReply>,
    applied: Seq<MergeReply>,
)
    requires
        answered_through(
            MergeState::start(path, seq![source_path], false),
            dest,
            seq![source],
            dry,
        ),
        answered_through(
            MergeState::start(path, seq![source_path], true),
            dest,
            seq![source],
            applied,
        ),
    ensures
        ({
            let would = MergeState::start(path, seq![source_path], false);
            let does = MergeState::start(path, seq![source_path], true);
            let sources = seq![source];
            let told = foretold_of(dest.tables, source.tables);
            &&& run(would, dry).failure is None
            &&& run(does, applied).failure is None
            &&& counts_of(run(would, dry).reports) == told
            &&& counts_of(run(does, applied).reports) == told
            &&& dest_after(would, dest, sources, dry) == dest
            &&& dest_after(does, dest, sources, applied) == (Dest {
                tables: united(dest.tables, source.tables, source.tables.len() as int),
                ledger: united_ledger(dest.ledger, source.ledger),
            })
        }),
{
    let sources = seq![source];
    let paths = seq![source_path];
    law_merge_reports_what_the_rows_say(path, paths, false, dest, sources, dry);
    law_merge_reports_what_the_rows_say(path, paths, true, dest, sources, applied);
    reveal_with_fuel(foretold_up_to, 2);
    reveal_with_fuel(dest_at, 2);
    let told = foretold_of(dest.tables, source.tables);
    assert(Seq::<TableCounts>::empty() + told =~= told);
}

/// `after` has every table of `before` and every row of it.
spec fn keeps<K, R>(before: DestTables<K, R>, after: DestTables<K, R>) -> bool {
    forall|name: Seq<char>| #[trigger]
        before.contains_key(name) ==> after.contains_key(name) && before[name].stays_in(after[name])
}

/// The destination has the table, and every row of it or another one with its
/// key.
pub open spec fn has_taken<K, R>(
    dest: DestTables<K, R>,
    table: (Seq<char>, Rows<K, R>),
) -> bool {
    dest.contains_key(table.0) && table.1.arrives_in(dest[table.0])
}

proof fn lemma_union_keeps<K, R>(dest: DestTables<K, R>, table: (Seq<char>, Rows<K, R>))
    ensures
        keeps(dest, dest.insert(table.0, union_rows(dest, table))),
        (dest.contains_key(table.0) ==> dest[table.0].is_like(table.1)) ==> has_taken(
            dest.insert(table.0, union_rows(dest, table)),
            table,
        ),
{
}

proof fn lemma_keeps_through<K, R>(
    a: DestTables<K, R>,
    b: DestTables<K, R>,
    c: DestTables<K, R>,
)
    requires
        keeps(a, b),
        keeps(b, c),
    ensures
        keeps(a, c),
        forall|table: (Seq<char>, Rows<K, R>)|
            has_taken(b, table) ==> #[trigger] has_taken(c, table),
{
    assert forall|name: Seq<char>| #[trigger] a.contains_key(name) implies c.contains_key(name)
        && a[name].stays_in(c[name]) by {
        assert(b.contains_key(name));
        if let (Rows::Keyed(x), Rows::Keyed(y), Rows::Keyed(z)) = (a[name], b[name], c[name]) {
            vstd::map_lib::lemma_submap_of_trans(x, y, z);
        }
    }
    assert forall|table: (Seq<char>, Rows<K, R>)| has_taken(b, table) implies #[trigger] has_taken(
        c,
        table,
    ) by {
        assert(b.contains_key(table.0));
    }
}

proof fn lemma_united_takes<K, R, T>(
    dest: DestTables<K, R>,
    sources: Seq<Source<K, R, T>>,
    i: int,
    n: int,
)
    requires
        suits(dest, sources),
        are_sources(sources),
        0 <= i < sources.len(),
        0 <= n <= sources[i].tables.len(),
    ensures
        keeps(dest, united(dest, sources[i].tables, n)),
        forall|j: int|
            0 <= j < n ==> has_taken(
                united(dest, sources[i].tables, n),
                #[trigger] sources[i].tables[j],
            ),
    decreases n,
{
    if n == 0 {
        assert forall|name: Seq<char>| #[trigger] dest.contains_key(name) implies dest[name].stays_in(
            dest[name],
        ) by {}
    } else {
        lemma_united_takes(dest, sources, i, n - 1);
        lemma_united_suits(dest, sources, i, n - 1);
        let before = united(dest, sources[i].tables, n - 1);
        let table = sources[i].tables[n - 1];
        lemma_union_keeps(before, table);
        lemma_keeps_through(dest, before, united(dest, sources[i].tables, n));
    }
}

proof fn lemma_dest_at_takes<K, R, T>(
    dest: Dest<K, R, T>,
    sources: Seq<Source<K, R, T>>,
    i: int,
)
    requires
        suits(dest.tables, sources),
        are_sources(sources),
        0 <= i <= sources.len(),
    ensures
        keeps(dest.tables, dest_at(dest, sources, true, i).tables),
        forall|k: int, j: int|
            0 <= k < i && 0 <= j < sources[k].tables.len() ==> has_taken(
                dest_at(dest, sources, true, i).tables,
                #[trigger] sources[k].tables[j],
            ),
    decreases i,
{
    if i == 0 {
        assert forall|name: Seq<char>| #[trigger] dest.tables.contains_key(
            name,
        ) implies dest.tables[name].stays_in(dest.tables[name]) by {}
    } else {
        let before = dest_at(dest, sources, true, i - 1).tables;
        let after = dest_at(dest, sources, true, i).tables;
        lemma_dest_at_takes(dest, sources, i - 1);
        lemma_dest_at_suits(dest, sources, true, i - 1);
        lemma_united_takes(before, sources, i - 1, sources[i - 1].tables.len() as int);
        lemma_keeps_through(dest.tables, before, after);
        assert forall|k: int, j: int| 0 <= k < i && 0 <= j < sources[k].tables.len() implies has_taken(
            after,
            #[trigger] sources[k].tables[j],
        ) by {
            if k < i - 1 {
                assert(has_taken(before, sources[k].tables[j]));
            }
        }
    }
}

proof fn lemma_counts_never_fall<K, R, T>(
    dest: Dest<K, R, T>,
    sources: Seq<Source<K, R, T>>,
    apply: bool,
    i: int,
)
    requires
        suits(dest.tables, sources),
        are_sources(sources),
        0 <= i <= sources.len(),
    ensures
        forall|j: int|
            0 <= j < foretold_up_to(dest, sources, apply, i).len() ==> ({
                let t = #[trigger] foretold_up_to(dest, sources, apply, i)[j];
                t.dest_rows_after >= t.dest_rows_before
            }),
    decreases i,
{
    if i > 0 {
        lemma_counts_never_fall(dest, sources, apply, i - 1);
        lemma_dest_at_suits(dest, sources, apply, i - 1);
        let base = dest_at(dest, sources, apply, i - 1).tables;
        let earlier = foretold_up_to(dest, sources, apply, i - 1);
        let all = foretold_up_to(dest, sources, apply, i);
        assert forall|j: int| 0 <= j < all.len() implies ({
            let t = #[trigger] all[j];
            t.dest_rows_after >= t.dest_rows_before
        }) by {
            if j < earlier.len() {
                assert(all[j] == earlier[j]);
            } else {
                let table = sources[i - 1].tables[j - earlier.len()];
                assert(all[j] == foretold(base, table));
                lemma_union_size(base, table);
            }
        }
    }
}

/// No row is lost, with a primary key or without one: whatever a table of the
/// destination held it holds after a merge, as it was, and no report counts
/// fewer rows after than before. Every row of every source has arrived after a
/// merge with `apply`, unless the destination has a row of its key.
pub proof fn law_no_row_is_lost<K, R, T>(
    path: Seq<char>,
    paths: Seq<Seq<char>>,
    apply: bool,
    dest: Dest<K, R, T>,
    sources: Seq<Source<K, R, T>>,
    replies: Seq<MergeReply>,
)
    requires
        answered_through(MergeState::start(path, paths, apply), dest, sources, replies),
    ensures
        ({
            let start = MergeState::start(path, paths, apply);
            let after = dest_after(start, dest, sources, replies).tables;
            let told = counts_of(run(start, replies).reports);
            &&& forall|name: Seq<char>| #[trigger]
                dest.tables.contains_key(name) ==> after.contains_key(name)
                    && dest.tables[name].stays_in(after[name])
            &&& forall|j: int|
                0 <= j < told.len() ==> (#[trigger] told[j]).dest_rows_after
                    >= told[j].dest_rows_before
            &&& apply ==> forall|k: int, j: int|
                0 <= k < sources.len() && 0 <= j < sources[k].tables.len() ==> has_taken(
                    after,
                    #[trigger] sources[k].tables[j],
                )
        }),
{
    let n = sources.len() as int;
    law_merge_reports_what_the_rows_say(path, paths, apply, dest, sources, replies);
    lemma_counts_never_fall(dest, sources, apply, n);
    lemma_dest_at_takes(dest, sources, n);
    assert forall|name: Seq<char>| #[trigger] dest.tables.contains_key(
        name,
    ) implies dest.tables[name].stays_in(dest.tables[name]) by {}
}

/// The source at position `k` is the first to record `version`.
pub open spec fn first_to_record<K, R, T>(
    sources: Seq<Source<K, R, T>>,
    version: i64,
    k: int,
) -> bool {
    &&& 0 <= k < sources.len()
    &&& records(sources[k].ledger, version)
    &&& forall|h: int| 0 <= h < k ==> !records((#[trigger] sources[h]).ledger, version)
}

proof fn lemma_ledger_at<K, R, T>(
    dest: Dest<K, R, T>,
    sources: Seq<Source<K, R, T>>,
    i: int,
)
    requires
        0 <= i <= sources.len(),
    ensures
        ({
            let after = dest_at(dest, sources, true, i).ledger;
            &&& forall|v: i64| #[trigger]
                records(after, v) <==> records(dest.ledger, v) || exists|k: int|
                    0 <= k < i && records((#[trigger] sources[k]).ledger, v)
            &&& forall|v: i64| #[trigger]
                records(dest.ledger, v) ==> after->0[v] == dest.ledger->0[v]
            &&& forall|v: i64, k: int|
                !records(dest.ledger, v) && k < i && #[trigger] first_to_record(sources, v, k)
                    ==> after->0[v] == sources[k].ledger->0[v]
        }),
    decreases i,
{
    if i > 0 {
        lemma_ledger_at(dest, sources, i - 1);
        let before = dest_at(dest, sources, true, i - 1).ledger;
        let source = sources[i - 1];
        let after = dest_at(dest, sources, true, i).ledger;
        assert forall|v: i64| #[trigger] records(after, v) <==> records(dest.ledger, v)
            || exists|k: int| 0 <= k < i && records((#[trigger] sources[k]).ledger, v) by {
            assert(records(after, v) <==> records(before, v) || records(source.ledger, v));
            if records(before, v) && !records(dest.ledger, v) {
                let k = choose|k: int|
                    0 <= k < i - 1 && records((#[trigger] sources[k]).ledger, v);
                assert(records(sources[k].ledger, v));
            }
        }
        assert forall|v: i64| #[trigger] records(dest.ledger, v) implies after->0[v]
            == dest.ledger->0[v] by {
            assert(records(before, v));
        }
        assert forall|v: i64, k: int|
            !records(dest.ledger, v) && k < i && #[trigger] first_to_record(
                sources,
                v,
                k,
            ) implies after->0[v] == sources[k].ledger->0[v] by {
            if k < i - 1 {
                assert(records(sources[k].ledger, v));
                assert(records(before, v));
            } else {
                assert(!records(before, v)) by {
                    if records(before, v) {
                        let h = choose|h: int|
                            0 <= h < i - 1 && records((#[trigger] sources[h]).ledger, v);
                        assert(!records(sources[h].ledger, v));
                    }
                }
            }
        }
    }
}

/// The migration ledger is united too: after a merge with `apply` it records
/// every version that the destination or a source recorded, and no other. The
/// times of the destination stay; a version that it lacked has the time of the
/// first source with it.
pub proof fn law_ledger_is_united<K, R, T>(
    path: Seq<char>,
    paths: Seq<Seq<char>>,
    dest: Dest<K, R, T>,
    sources: Seq<Source<K, R, T>>,
    replies: Seq<MergeReply>,
)
    requires
        answered_through(MergeState::start(path, paths, true), dest, sources, replies),
    ensures
        ({
            let start = MergeState::start(path, paths, true);
            let after = dest_after(start, dest, sources, replies).ledger;
            &&& forall|v: i64| #[trigger]
                records(after, v) <==> records(dest.ledger, v) || exists|k: int|
                    0 <= k < sources.len() && records((#[trigger] sources[k]).ledger, v)
            &&& forall|v: i64| #[trigger]
                records(dest.ledger, v) ==> after->0[v] == dest.ledger->0[v]
            &&& forall|v: i64, k: int|
                !records(dest.ledger, v) && #[trigger] first_to_record(sources, v, k) ==> after->0[v]
                    == sources[k].ledger->0[v]
        }),
{
    law_merge_reports_what_the_rows_say(path, paths, true, dest, sources, replies);
    lemma_ledger_at(dest, sources, sources.len() as int);
}

/// The source brings nothing that the destination lacks: every table of it has a
/// primary key, and the destination has all of its keys and versions.
pub open spec fn covers<K, R, T>(dest: Dest<K, R, T>, source: Source<K, R, T>) -> bool {
    &&& forall|j: int|
        0 <= j < source.tables.len() ==> (#[trigger] source.tables[j]).1 is Keyed && has_taken(
            dest.tables,
            source.tables[j],
        )
    &&& source.ledger matches Some(s) ==> dest.ledger matches Some(d) && s.dom().subset_of(d.dom())
}

proof fn lemma_covered_stays<K, R, T>(dest: Dest<K, R, T>, source: Source<K, R, T>, n: int)
    requires
        covers(dest, source),
        0 <= n <= source.tables.len(),
    ensures
        united(dest.tables, source.tables, n) == dest.tables,
        united_ledger(dest.ledger, source.ledger) == dest.ledger,
    decreases n,
{
    if let (Some(d), Some(s)) = (dest.ledger, source.ledger) {
        assert(s.union_prefer_right(d) =~= d);
    }
    if n > 0 {
        lemma_covered_stays(dest, source, n - 1);
        let table = source.tables[n - 1];
        assert(has_taken(dest.tables, table));
        if let (Rows::Keyed(m), Rows::Keyed(s)) = (dest.tables[table.0], table.1) {
            assert(s.union_prefer_right(m) =~= m);
        }
        assert(dest.tables.insert(table.0, dest.tables[table.0]) =~= dest.tables);
    }
}

proof fn lemma_merged_is_covered<K, R, T>(
    dest: Dest<K, R, T>,
    sources: Seq<Source<K, R, T>>,
    k: int,
)
    requires
        suits(dest.tables, sources),
        are_sources(sources),
        0 <= k < sources.len(),
        forall|j: int|
            0 <= j < sources[k].tables.len() ==> (#[trigger] sources[k].tables[j]).1 is Keyed,
    ensures
        covers(dest_at(dest, sources, true, sources.len() as int), sources[k]),
{
    lemma_dest_at_takes(dest, sources, sources.len() as int);
    lemma_ledger_stays(dest, sources, k, sources.len() as int);
}

proof fn lemma_ledger_stays<K, R, T>(
    dest: Dest<K, R, T>,
    sources: Seq<Source<K, R, T>>,
    k: int,
    i: int,
)
    requires
        0 <= k < i <= sources.len(),
    ensures
        sources[k].ledger matches Some(s) ==> dest_at(dest, sources, true, i).ledger matches Some(d)
            && s.dom().subset_of(d.dom()),
    decreases i,
{
    if k < i - 1 {
        lemma_ledger_stays(dest, sources, k, i - 1);
    }
}

/// The table brings nothing new, and its report says so.
pub open spec fn brings_nothing(t: TableCounts) -> bool {
    t.overlap == t.source_rows && t.dest_rows_after == t.dest_rows_before
}

proof fn lemma_covered_sources<K, R, T>(
    dest: Dest<K, R, T>,
    sources: Seq<Source<K, R, T>>,
    apply: bool,
    i: int,
)
    requires
        forall|k: int| 0 <= k < sources.len() ==> covers(dest, #[trigger] sources[k]),
        0 <= i <= sources.len(),
    ensures
        dest_at(dest, sources, apply, i) == dest,
        forall|j: int|
            0 <= j < foretold_up_to(dest, sources, apply, i).len() ==> brings_nothing(
                #[trigger] foretold_up_to(dest, sources, apply, i)[j],
            ),
    decreases i,
{
    if i > 0 {
        lemma_covered_sources(dest, sources, apply, i - 1);
        let source = sources[i - 1];
        assert(covers(dest, source));
        lemma_covered_stays(dest, source, source.tables.len() as int);
        let earlier = foretold_up_to(dest, sources, apply, i - 1);
        let all = foretold_up_to(dest, sources, apply, i);
        assert(all == earlier + foretold_of(dest.tables, source.tables));
        assert forall|j: int| 0 <= j < all.len() implies brings_nothing(#[trigger] all[j]) by {
            if j < earlier.len() {
                assert(all[j] == earlier[j]);
            } else {
                let table = source.tables[j - earlier.len()];
                assert(all[j] == foretold(dest.tables, table));
                assert(has_taken(dest.tables, table));
                if let (Rows::Keyed(m), Rows::Keyed(s)) = (dest.tables[table.0], table.1) {
                    assert(m.dom().intersect(s.dom()) =~= s.dom());
                }
            }
        }
    }
}

/// Sources whose keys and versions the destination has already change nothing:
/// of every table all rows of the source are shared, and the destination keeps
/// its rows.
pub proof fn law_covered_sources_change_nothing<K, R, T>(
    path: Seq<char>,
    paths: Seq<Seq<char>>,
    apply: bool,
    dest: Dest<K, R, T>,
    sources: Seq<Source<K, R, T>>,
    replies: Seq<MergeReply>,
)
    requires
        answered_through(MergeState::start(path, paths, apply), dest, sources, replies),
        forall|k: int| 0 <= k < sources.len() ==> covers(dest, #[trigger] sources[k]),
    ensures
        ({
            let start = MergeState::start(path, paths, apply);
            let told = counts_of(run(start, replies).reports);
            &&& run(start, replies).failure is None
            &&& forall|j: int| 0 <= j < told.len() ==> brings_nothing(#[trigger] told[j])
            &&& dest_after(start, dest, sources, replies) == dest
        }),
{
    law_merge_reports_what_the_rows_say(path, paths, apply, dest, sources, replies);
    lemma_covered_sources(dest, sources, apply, sources.len() as int);
}

/// Merging the same sources again changes nothing, where their tables have
/// primary keys: after a first merge, every report of the second one has all
/// rows of the source shared and as many rows after as before, and the
/// destination is as the first merge left it, its ledger included.
pub proof fn law_merging_again_changes_nothing<K, R, T>(
    path: Seq<char>,
    paths: Seq<Seq<char>>,
    dest: Dest<K, R, T>,
    sources: Seq<Source<K, R, T>>,
    first: Seq<MergeReply>,
    again: Seq<MergeReply>,
)
    requires
        forall|k: int, j: int|
            0 <= k < sources.len() && 0 <= j < sources[k].tables.len() ==> (
            #[trigger] sources[k].tables[j]).1 is Keyed,
        answered_through(MergeState::start(path, paths, true), dest, sources, first),
        tell(
            MergeState::start(path, paths, true),
            dest_after(MergeState::start(path, paths, true), dest, sources, first),
            sources,
            again,
        ),
        run(MergeState::start(path, paths, true), again).phase is Finished,
    ensures
        ({
            let start = MergeState::start(path, paths, true);
            let merged = dest_after(start, dest, sources, first);
            let told = counts_of(run(start, again).reports);
            &&& run(start, again).failure is None
            &&& forall|j: int| 0 <= j < told.len() ==> brings_nothing(#[trigger] told[j])
            &&& dest_after(start, merged, sources, again) == merged
        }),
{
    let n = sources.len() as int;
    law_merge_reports_what_the_rows_say(path, paths, true, dest, sources, first);
    lemma_dest_at_suits(dest, sources, true, n);
    let merged = dest_at(dest, sources, true, n);
    assert forall|k: int| 0 <= k < sources.len() implies covers(merged, #[trigger] sources[k]) by {
        lemma_merged_is_covered(dest, sources, k);
    }
    law_covered_sources_change_nothing(path, paths, true, merged, sources, again);
}

} // verus!
