//! Merging drawing databases: which statement comes next, and what the answers
//! add up to.
//!
//! The rule is a union on each table's declared primary key: `INSERT OR
//! IGNORE`, so the destination wins on an identical key. Drawings are
//! hand-authored, so note the consequence: a drawing erased on the newer side
//! is resurrected from the older side. There is no timestamp column to
//! arbitrate with, and the alternative (keeping only one side) loses data.
//!
//! Sources are attached read-only and never modified. Tables missing on the
//! destination are created from the source's own DDL: XaeroPlus creates them
//! lazily per dimension, so whole families and whole custom dimensions can be
//! absent, not just the v1 `-ellipses` tables.
//!
//! [`DrawingMerge`] makes no connection of its own: [`DrawingMerge::action`]
//! says what to do next, and [`DrawingMerge::step`] takes what came of it.

use vstd::prelude::*;
use crate::sql::{quote_ident, quoted};
use crate::text::{chars_of, decimal, decimal_text};

verus! {

/// What merging one table of one source did, or would do.
#[derive(Debug, Clone)]
pub struct TableMergeReport {
    pub table: String,
    pub source_rows: u64,
    pub dest_rows_before: u64,
    /// Rows of the source whose key the destination has too.
    pub overlap: u64,
    pub dest_rows_after: u64,
}

/// What a whole merge did, or would do.
#[derive(Debug, Clone)]
pub struct DrawingMergeReport {
    pub dest: String,
    pub sources: Vec<String>,
    pub tables: Vec<TableMergeReport>,
    pub applied: bool,
}

impl Default for DrawingMergeReport {
    fn default() -> (r: Self)
        ensures
            r.dest@.len() == 0,
            r.sources@.len() == 0,
            r.tables@.len() == 0,
            !r.applied,
    {
        DrawingMergeReport {
            dest: String::new(),
            sources: Vec::new(),
            tables: Vec::new(),
            applied: false,
        }
    }
}

/// A column of a table: its name and its place in the primary key, 0 when it
/// is not part of it.
#[derive(Debug)]
pub struct ColumnInfo {
    pub name: String,
    pub pk: i64,
}

/// What to do next.
#[derive(Debug)]
pub enum MergeAction {
    /// Open the destination.
    Open { path: String, writable: bool },
    /// Set how long the connection waits for a lock.
    BusyTimeout { millis: u64 },
    /// Set a pragma.
    Pragma { name: String, value: String },
    /// Run statements that return nothing.
    Run { sql: String, params: Vec<String> },
    /// Read one number.
    Count { sql: String, params: Vec<String> },
    /// Read (name, DDL) rows.
    Tables { sql: String },
    /// Read (name, pk) rows.
    Columns { sql: String, params: Vec<String> },
    /// Nothing is left to do.
    Finish,
}

/// What came of an action.
#[derive(Debug)]
pub enum MergeReply {
    Done,
    Count(u64),
    Tables(Vec<(String, String)>),
    Columns(Vec<ColumnInfo>),
    Failed(String),
}

/// How far a merge has come.
#[derive(Debug, Clone, Copy, PartialEq, Eq, Structural)]
pub enum MergePhase {
    Open,
    Timeout,
    Journal,
    Synchronous,
    Attach,
    List,
    CountSource,
    ProbeTable,
    CreateTable,
    SourceColumns,
    CountBefore,
    CountOverlap,
    DestColumns,
    Insert,
    CountAfter,
    ProbeSourceLedger,
    ProbeLedger,
    CreateLedger,
    UnionLedger,
    Detach,
    Checkpoint,
    Finished,
}

/// An action, as text.
pub enum Ask {
    Open { path: Seq<char>, writable: bool },
    BusyTimeout { millis: int },
    Pragma { name: Seq<char>, value: Seq<char> },
    Run { sql: Seq<char>, params: Seq<Seq<char>> },
    Count { sql: Seq<char>, params: Seq<Seq<char>> },
    Tables { sql: Seq<char> },
    Columns { sql: Seq<char>, params: Seq<Seq<char>> },
    Finish,
}

/// The texts of `v`.
pub open spec fn texts(v: Seq<String>) -> Seq<Seq<char>> {
    v.map_values(|s: String| s@)
}

impl View for MergeAction {
    type V = Ask;

    open spec fn view(&self) -> Ask {
        match self {
            MergeAction::Open { path, writable } => Ask::Open { path: path@, writable: *writable },
            MergeAction::BusyTimeout { millis } => Ask::BusyTimeout { millis: *millis as int },
            MergeAction::Pragma { name, value } => Ask::Pragma { name: name@, value: value@ },
            MergeAction::Run { sql, params } => Ask::Run { sql: sql@, params: texts(params@) },
            MergeAction::Count { sql, params } => Ask::Count { sql: sql@, params: texts(params@) },
            MergeAction::Tables { sql } => Ask::Tables { sql: sql@ },
            MergeAction::Columns { sql, params } => Ask::Columns {
                sql: sql@,
                params: texts(params@),
            },
            MergeAction::Finish => Ask::Finish,
        }
    }
}

/// The name under which the source at position `i` is attached.
pub open spec fn alias_text(i: int) -> Seq<char> {
    "src"@ + decimal_text(i)
}

/// `path` with every question mark escaped, so that it cannot end the path part
/// of a URI.
pub open spec fn escaped(path: Seq<char>) -> Seq<char>
    decreases path.len(),
{
    if path.len() == 0 {
        path
    } else if path.last() == '?' {
        escaped(path.drop_last()) + "%3F"@
    } else {
        escaped(path.drop_last()).push(path.last())
    }
}

/// The URI that attaches the database at `path` read-only.
pub open spec fn source_uri(path: Seq<char>) -> Seq<char> {
    "file:"@ + escaped(path) + "?mode=ro"@
}

fn alias(i: usize) -> (r: String)
    ensures
        r@ == alias_text(i as int),
{
    let mut out = "src".to_owned();
    out.append(decimal(i as i128).as_str());
    out
}

/// The URI that attaches the database at `path` read-only.
pub fn attach_uri(path: &str) -> (r: String)
    ensures
        r@ == source_uri(path@),
{
    let cs = chars_of(path);
    let mut out = "file:".to_owned();
    let mut i: usize = 0;
    assert(out@ =~= "file:"@ + escaped(path@.take(0)));
    while i < cs.len()
        invariant
            cs@ == path@,
            i <= cs@.len(),
            out@ == "file:"@ + escaped(path@.take(i as int)),
        decreases cs@.len() - i,
    {
        assert(path@.take(i + 1).drop_last() =~= path@.take(i as int));
        if cs[i] == '?' {
            out.append("%3F");
        } else {
            out.push(cs[i]);
        }
        assert(out@ =~= "file:"@ + escaped(path@.take(i + 1)));
        i = i + 1;
    }
    assert(path@.take(path@.len() as int) =~= path@);
    out.append("?mode=ro");
    out
}

/// `parts` with `sep` between neighbours.
pub open spec fn joined(parts: Seq<Seq<char>>, sep: Seq<char>) -> Seq<char>
    decreases parts.len(),
{
    if parts.len() == 0 {
        Seq::empty()
    } else if parts.len() == 1 {
        parts[0]
    } else {
        joined(parts.drop_last(), sep) + sep + parts.last()
    }
}

/// The columns of the primary key.
pub open spec fn key_columns(columns: Seq<ColumnInfo>) -> Seq<ColumnInfo> {
    columns.filter(|c: ColumnInfo| c.pk > 0)
}

/// One of `columns` is called `name`.
pub open spec fn has_column(columns: Seq<ColumnInfo>, name: Seq<char>) -> bool {
    exists|i: int| 0 <= i < columns.len() && (#[trigger] columns[i]).name@ == name
}

/// The columns of `source` that `dest` has too, so that a version-skewed table
/// cannot make the copy fail.
pub open spec fn shared_columns(source: Seq<ColumnInfo>, dest: Seq<ColumnInfo>) -> Seq<ColumnInfo> {
    source.filter(|c: ColumnInfo| has_column(dest, c.name@))
}

/// The condition under which a source row `s` and a destination row `m` have
/// the same key.
pub open spec fn same_key(keys: Seq<ColumnInfo>) -> Seq<char> {
    joined(
        keys.map_values(|c: ColumnInfo| "s."@ + quoted(c.name@) + " = m."@ + quoted(c.name@)),
        " AND "@,
    )
}

/// The names of `columns`, as the list of an insertion.
pub open spec fn column_list(columns: Seq<ColumnInfo>) -> Seq<char> {
    joined(columns.map_values(|c: ColumnInfo| quoted(c.name@)), ", "@)
}

/// The table `table` of the source at position `i`.
pub open spec fn source_table(i: int, table: Seq<char>) -> Seq<char> {
    alias_text(i) + "."@ + quoted(table)
}

fn push_joined(out: &mut String, first: bool, sep: &str, part: &str)
    ensures
        final(out)@ == old(out)@ + (if first {
            part@
        } else {
            sep@ + part@
        }),
{
    if !first {
        out.append(sep);
    }
    out.append(part);
    assert(out@ =~= old(out)@ + (if first {
        part@
    } else {
        sep@ + part@
    }));
}

proof fn lemma_joined_push(parts: Seq<Seq<char>>, part: Seq<char>, sep: Seq<char>)
    ensures
        joined(parts.push(part), sep) == joined(parts, sep) + (if parts.len() == 0 {
            part
        } else {
            sep + part
        }),
{
    assert(parts.push(part).drop_last() =~= parts);
    assert(joined(parts.push(part), sep) =~= joined(parts, sep) + (if parts.len() == 0 {
        part
    } else {
        sep + part
    }));
}

fn key_condition(columns: &Vec<ColumnInfo>) -> (r: String)
    ensures
        r@ == same_key(key_columns(columns@)),
{
    let mut out = String::new();
    let mut i: usize = 0;
    let mut first = true;
    let ghost is_key = |c: ColumnInfo| c.pk > 0;
    let ghost part = |c: ColumnInfo| "s."@ + quoted(c.name@) + " = m."@ + quoted(c.name@);
    proof {
        reveal(Seq::filter);
    }
    assert(columns@.take(0) =~= Seq::<ColumnInfo>::empty());
    while i < columns.len()
        invariant
            i <= columns@.len(),
            is_key == (|c: ColumnInfo| c.pk > 0),
            part == (|c: ColumnInfo|
                "s."@ + quoted(c.name@) + " = m."@ + quoted(c.name@)),
            first == (columns@.take(i as int).filter(is_key).len() == 0),
            out@ == joined(columns@.take(i as int).filter(is_key).map_values(part), " AND "@),
        decreases columns@.len() - i,
    {
        let c = &columns[i];
        let ghost done = columns@.take(i as int);
        proof {
            assert(columns@.take(i + 1) =~= done.push(*c));
            done.lemma_filter_push(*c, is_key);
        }
        if c.pk > 0 {
            let q = quote_ident(c.name.as_str());
            let mut piece = "s.".to_owned();
            piece.append(q.as_str());
            piece.append(" = m.");
            piece.append(q.as_str());
            proof {
                let kept = done.filter(is_key);
                assert(kept.push(*c).map_values(part) =~= kept.map_values(part).push(piece@));
                lemma_joined_push(kept.map_values(part), piece@, " AND "@);
            }
            push_joined(&mut out, first, " AND ", piece.as_str());
            first = false;
        }
        i = i + 1;
    }
    assert(columns@.take(columns@.len() as int) =~= columns@);
    out
}

fn list_columns(columns: &Vec<ColumnInfo>) -> (r: String)
    ensures
        r@ == column_list(columns@),
{
    let mut out = String::new();
    let mut i: usize = 0;
    let ghost part = |c: ColumnInfo| quoted(c.name@);
    assert(columns@.take(0).map_values(part) =~= Seq::<Seq<char>>::empty());
    while i < columns.len()
        invariant
            i <= columns@.len(),
            part == (|c: ColumnInfo| quoted(c.name@)),
            out@ == joined(columns@.take(i as int).map_values(part), ", "@),
        decreases columns@.len() - i,
    {
        let q = quote_ident(columns[i].name.as_str());
        proof {
            let done = columns@.take(i as int).map_values(part);
            assert(columns@.take(i + 1).map_values(part) =~= done.push(q@));
            lemma_joined_push(done, q@, ", "@);
        }
        push_joined(&mut out, i == 0, ", ", q.as_str());
        i = i + 1;
    }
    assert(columns@.take(columns@.len() as int) =~= columns@);
    out
}

fn has_keys(columns: &Vec<ColumnInfo>) -> (r: bool)
    ensures
        r == (key_columns(columns@).len() > 0),
{
    let ghost is_key = |c: ColumnInfo| c.pk > 0;
    let mut i: usize = 0;
    proof {
        reveal(Seq::filter);
    }
    assert(columns@.take(0) =~= Seq::<ColumnInfo>::empty());
    while i < columns.len()
        invariant
            i <= columns@.len(),
            is_key == (|c: ColumnInfo| c.pk > 0),
            columns@.take(i as int).filter(is_key).len() == 0,
        decreases columns@.len() - i,
    {
        let ghost done = columns@.take(i as int);
        proof {
            assert(columns@.take(i + 1) =~= done.push(columns@[i as int]));
            done.lemma_filter_push(columns@[i as int], is_key);
        }
        if columns[i].pk > 0 {
            proof {
                Seq::filter_distributes_over_add(
                    columns@.take(i + 1),
                    columns@.skip(i + 1),
                    is_key,
                );
                assert(columns@ =~= columns@.take(i + 1) + columns@.skip(i + 1));
            }
            return true;
        }
        i = i + 1;
    }
    assert(columns@.take(columns@.len() as int) =~= columns@);
    false
}

fn finds_column(columns: &Vec<ColumnInfo>, name: &String) -> (r: bool)
    ensures
        r == has_column(columns@, name@),
{
    let mut i: usize = 0;
    while i < columns.len()
        invariant
            i <= columns@.len(),
            forall|k: int| 0 <= k < i ==> (#[trigger] columns@[k]).name@ != name@,
        decreases columns@.len() - i,
    {
        if columns[i].name == *name {
            return true;
        }
        i = i + 1;
    }
    false
}

fn share_columns(source: &Vec<ColumnInfo>, dest: &Vec<ColumnInfo>) -> (r: Vec<ColumnInfo>)
    ensures
        r@ == shared_columns(source@, dest@),
{
    let mut out: Vec<ColumnInfo> = Vec::new();
    let ghost keep = |c: ColumnInfo| has_column(dest@, c.name@);
    let mut i: usize = 0;
    proof {
        reveal(Seq::filter);
    }
    assert(source@.take(0) =~= Seq::<ColumnInfo>::empty());
    while i < source.len()
        invariant
            i <= source@.len(),
            keep == (|c: ColumnInfo| has_column(dest@, c.name@)),
            out@ == source@.take(i as int).filter(keep),
        decreases source@.len() - i,
    {
        let ghost done = source@.take(i as int);
        let c = &source[i];
        proof {
            assert(source@.take(i + 1) =~= done.push(*c));
            done.lemma_filter_push(*c, keep);
        }
        if finds_column(dest, &c.name) {
            out.push(ColumnInfo { name: c.name.clone(), pk: c.pk });
        }
        i = i + 1;
    }
    assert(source@.take(source@.len() as int) =~= source@);
    out
}

impl MergePhase {
    /// A source is attached while the merge is in this phase.
    pub open spec fn attached(self) -> bool {
        match self {
            MergePhase::Open
            | MergePhase::Timeout
            | MergePhase::Journal
            | MergePhase::Synchronous
            | MergePhase::Attach
            | MergePhase::Checkpoint
            | MergePhase::Finished => false,
            _ => true,
        }
    }

    /// One table of the source is being merged in this phase.
    pub open spec fn in_table(self) -> bool {
        match self {
            MergePhase::CountSource
            | MergePhase::ProbeTable
            | MergePhase::CreateTable
            | MergePhase::SourceColumns
            | MergePhase::CountBefore
            | MergePhase::CountOverlap
            | MergePhase::DestColumns
            | MergePhase::Insert
            | MergePhase::CountAfter => true,
            _ => false,
        }
    }

    /// The action of this phase changes the destination.
    pub open spec fn writes(self) -> bool {
        match self {
            MergePhase::Journal
            | MergePhase::Synchronous
            | MergePhase::CreateTable
            | MergePhase::Insert
            | MergePhase::CreateLedger
            | MergePhase::UnionLedger
            | MergePhase::Checkpoint => true,
            _ => false,
        }
    }

    /// A failure in this phase is passed over.
    pub open spec fn best_effort(self) -> bool {
        match self {
            MergePhase::Journal | MergePhase::Synchronous | MergePhase::Checkpoint => true,
            _ => false,
        }
    }
}

/// The counts of a table add up to a number of rows.
pub open spec fn adds_up(before: int, source_rows: int, overlap: int) -> bool {
    before + source_rows <= u64::MAX && overlap <= before + source_rows
}

/// Where a merge stands.
pub struct MergeState {
    pub dest: Seq<char>,
    pub sources: Seq<Seq<char>>,
    pub apply: bool,
    pub phase: MergePhase,
    /// Position of the source being merged.
    pub source: int,
    /// The (name, DDL) pairs of its tables.
    pub queue: Seq<(String, String)>,
    /// Position of the table being merged.
    pub table: int,
    pub source_rows: int,
    pub dest_exists: bool,
    pub before: int,
    pub overlap: int,
    pub columns: Seq<ColumnInfo>,
    pub shared: Seq<ColumnInfo>,
    pub reports: Seq<TableMergeReport>,
    pub failure: Option<Seq<char>>,
}

/// The statement that counts the tables of `schema` with a given name.
pub open spec fn probe_text(schema: Seq<char>) -> Seq<char> {
    "SELECT COUNT(*) FROM "@ + schema
        + ".sqlite_master WHERE type='table' AND name = ?1"@
}

impl MergeState {
    /// A merge that has not begun.
    pub open spec fn start(dest: Seq<char>, sources: Seq<Seq<char>>, apply: bool) -> MergeState {
        MergeState {
            dest,
            sources,
            apply,
            phase: MergePhase::Open,
            source: 0,
            queue: Seq::empty(),
            table: 0,
            source_rows: 0,
            dest_exists: false,
            before: 0,
            overlap: 0,
            columns: Seq::empty(),
            shared: Seq::empty(),
            reports: Seq::empty(),
            failure: None,
        }
    }

    /// The positions point at what the phase is about.
    pub open spec fn well_formed(self) -> bool {
        &&& 0 <= self.source <= self.sources.len()
        &&& 0 <= self.table <= self.queue.len()
        &&& self.phase.attached() || self.phase is Attach ==> self.source < self.sources.len()
        &&& self.phase.in_table() ==> self.table < self.queue.len()
    }

    /// The name under which the source is attached.
    pub open spec fn alias(self) -> Seq<char> {
        alias_text(self.source)
    }

    /// The name of the table being merged.
    pub open spec fn table_name(self) -> Seq<char> {
        self.queue[self.table].0@
    }

    /// The table being merged, in the source.
    pub open spec fn from(self) -> Seq<char> {
        source_table(self.source, self.table_name())
    }

    /// The table being merged, in the destination.
    pub open spec fn into(self) -> Seq<char> {
        quoted(self.table_name())
    }

    /// What to do next.
    pub open spec fn asks(self) -> Ask {
        let none = Seq::<Seq<char>>::empty();
        match self.phase {
            MergePhase::Open => Ask::Open { path: self.dest, writable: self.apply },
            MergePhase::Timeout => Ask::BusyTimeout { millis: 5000 },
            MergePhase::Journal => Ask::Pragma { name: "journal_mode"@, value: "WAL"@ },
            MergePhase::Synchronous => Ask::Pragma { name: "synchronous"@, value: "NORMAL"@ },
            MergePhase::Attach => Ask::Run {
                sql: "ATTACH DATABASE ?1 AS "@ + self.alias(),
                params: seq![source_uri(self.sources[self.source])],
            },
            MergePhase::List => Ask::Tables {
                sql: "SELECT name, COALESCE(sql,'') FROM "@ + self.alias()
                    + ".sqlite_master WHERE type='table' AND name NOT LIKE 'sqlite_%' AND name != 'metadata' ORDER BY name"@,
            },
            MergePhase::CountSource => Ask::Count {
                sql: "SELECT COUNT(*) FROM "@ + self.from(),
                params: none,
            },
            MergePhase::ProbeTable => Ask::Count {
                sql: probe_text("main"@),
                params: seq![self.table_name()],
            },
            MergePhase::CreateTable => Ask::Run { sql: self.queue[self.table].1@, params: none },
            MergePhase::SourceColumns => Ask::Columns {
                sql: "SELECT name, pk FROM pragma_table_info(?1, ?2)"@,
                params: seq![self.table_name(), self.alias()],
            },
            MergePhase::CountBefore | MergePhase::CountAfter => Ask::Count {
                sql: "SELECT COUNT(*) FROM "@ + self.into(),
                params: none,
            },
            MergePhase::CountOverlap => Ask::Count {
                sql: "SELECT COUNT(*) FROM "@ + self.from() + " s JOIN "@ + self.into()
                    + " m ON "@ + same_key(key_columns(self.columns)),
                params: none,
            },
            MergePhase::DestColumns => Ask::Columns {
                sql: "SELECT name, pk FROM pragma_table_info(?1, ?2)"@,
                params: seq![self.table_name(), "main"@],
            },
            MergePhase::Insert => Ask::Run {
                sql: "INSERT OR IGNORE INTO "@ + self.into() + " ("@ + column_list(self.shared)
                    + ") SELECT "@ + column_list(self.shared) + " FROM "@ + self.from(),
                params: none,
            },
            MergePhase::ProbeSourceLedger => Ask::Count {
                sql: probe_text(self.alias()),
                params: seq!["metadata"@],
            },
            MergePhase::ProbeLedger => Ask::Count {
                sql: probe_text("main"@),
                params: seq!["metadata"@],
            },
            MergePhase::CreateLedger => Ask::Run {
                sql: "CREATE TABLE IF NOT EXISTS metadata (version INTEGER PRIMARY KEY, time DATETIME NOT NULL default CURRENT_TIMESTAMP)"@,
                params: none,
            },
            MergePhase::UnionLedger => Ask::Run {
                sql: "INSERT OR IGNORE INTO main.metadata (version, time) SELECT version, time FROM "@
                    + self.alias() + ".metadata"@,
                params: none,
            },
            MergePhase::Detach => Ask::Run {
                sql: "DETACH DATABASE "@ + self.alias(),
                params: none,
            },
            MergePhase::Checkpoint => Ask::Run {
                sql: "PRAGMA wal_checkpoint(TRUNCATE); PRAGMA optimize;"@,
                params: none,
            },
            MergePhase::Finished => Ask::Finish,
        }
    }

    /// `reply` answers what the phase asks for, and the counts of the table add
    /// up.
    pub open spec fn accepts(self, reply: MergeReply) -> bool {
        match (self.phase, reply) {
            (MergePhase::Finished, _) => false,
            (_, MergeReply::Failed(_)) => true,
            (MergePhase::List, MergeReply::Tables(_)) => true,
            (MergePhase::SourceColumns | MergePhase::DestColumns, MergeReply::Columns(_)) => true,
            (MergePhase::CountBefore, MergeReply::Count(n)) => key_columns(self.columns).len() == 0
                ==> adds_up(n as int, self.source_rows, 0),
            (MergePhase::CountOverlap, MergeReply::Count(n)) => adds_up(
                self.before,
                self.source_rows,
                n as int,
            ),
            (
                MergePhase::CountSource
                | MergePhase::ProbeTable
                | MergePhase::CountAfter
                | MergePhase::ProbeSourceLedger
                | MergePhase::ProbeLedger,
                MergeReply::Count(_),
            ) => true,
            (
                MergePhase::Open
                | MergePhase::Timeout
                | MergePhase::Journal
                | MergePhase::Synchronous
                | MergePhase::Attach
                | MergePhase::CreateTable
                | MergePhase::Insert
                | MergePhase::CreateLedger
                | MergePhase::UnionLedger
                | MergePhase::Detach
                | MergePhase::Checkpoint,
                MergeReply::Done,
            ) => true,
            _ => false,
        }
    }

    /// The same, in another phase.
    pub open spec fn at(self, phase: MergePhase) -> MergeState {
        MergeState { phase, ..self }
    }

    /// On to the source at the current position, or to the end.
    pub open spec fn next_source(self) -> MergeState {
        if self.source < self.sources.len() {
            self.at(MergePhase::Attach)
        } else if self.apply {
            self.at(MergePhase::Checkpoint)
        } else {
            self.at(MergePhase::Finished)
        }
    }

    /// On to the table at the current position, or to the migration ledger: it
    /// records which migrations have run, and the destination now carries every
    /// table either side had.
    pub open spec fn next_table(self) -> MergeState {
        if self.table < self.queue.len() {
            self.at(MergePhase::CountSource)
        } else if self.apply {
            self.at(MergePhase::ProbeSourceLedger)
        } else {
            self.at(MergePhase::Detach)
        }
    }

    /// The table is done: the destination holds `after` rows of it.
    pub open spec fn reported(self, after: int) -> MergeState {
        MergeState {
            reports: self.reports.push(
                TableMergeReport {
                    table: self.queue[self.table].0,
                    source_rows: self.source_rows as u64,
                    dest_rows_before: self.before as u64,
                    overlap: self.overlap as u64,
                    dest_rows_after: after as u64,
                },
            ),
            table: self.table + 1,
            ..self
        }.next_table()
    }

    /// The rows of the table are counted: a dry run reports what a union would
    /// hold.
    pub open spec fn tallied(self, before: int, overlap: int) -> MergeState {
        let s = MergeState { before, overlap, ..self };
        if s.apply {
            s.at(MergePhase::DestColumns)
        } else {
            s.reported(before + s.source_rows - overlap)
        }
    }

    /// Where a failure leads: the source is still detached.
    pub open spec fn failed(self, e: Seq<char>) -> MergeState {
        match self.phase {
            MergePhase::Open => MergeState {
                failure: Some("open "@ + self.dest + ": "@ + e),
                phase: MergePhase::Finished,
                ..self
            },
            MergePhase::Attach => MergeState {
                failure: Some("attach "@ + self.sources[self.source] + ": "@ + e),
                phase: MergePhase::Finished,
                ..self
            },
            MergePhase::Timeout | MergePhase::Detach => MergeState {
                failure: Some(e),
                phase: MergePhase::Finished,
                ..self
            },
            _ => MergeState { failure: Some(e), phase: MergePhase::Detach, ..self },
        }
    }

    /// Where an answer leads.
    pub open spec fn answered(self, reply: MergeReply) -> MergeState {
        match self.phase {
            MergePhase::Open => self.at(MergePhase::Timeout),
            MergePhase::Timeout => if self.apply {
                self.at(MergePhase::Journal)
            } else {
                self.next_source()
            },
            MergePhase::Journal => self.at(MergePhase::Synchronous),
            MergePhase::Synchronous => self.next_source(),
            MergePhase::Attach => self.at(MergePhase::List),
            MergePhase::List => MergeState {
                queue: reply->Tables_0@,
                table: 0,
                ..self
            }.next_table(),
            MergePhase::CountSource => MergeState {
                source_rows: reply->Count_0 as int,
                phase: MergePhase::ProbeTable,
                ..self
            },
            MergePhase::ProbeTable => {
                let s = MergeState { dest_exists: reply->Count_0 > 0, ..self };
                if s.apply && !s.dest_exists && s.queue[s.table].1@.len() > 0 {
                    s.at(MergePhase::CreateTable)
                } else {
                    s.at(MergePhase::SourceColumns)
                }
            },
            MergePhase::CreateTable => MergeState {
                dest_exists: true,
                phase: MergePhase::SourceColumns,
                ..self
            },
            MergePhase::SourceColumns => {
                let s = MergeState { columns: reply->Columns_0@, ..self };
                if s.dest_exists {
                    s.at(MergePhase::CountBefore)
                } else {
                    s.tallied(0, 0)
                }
            },
            MergePhase::CountBefore => if key_columns(self.columns).len() == 0 {
                self.tallied(reply->Count_0 as int, 0)
            } else {
                MergeState {
                    before: reply->Count_0 as int,
                    phase: MergePhase::CountOverlap,
                    ..self
                }
            },
            MergePhase::CountOverlap => self.tallied(self.before, reply->Count_0 as int),
            MergePhase::DestColumns => {
                let s = MergeState {
                    shared: shared_columns(self.columns, reply->Columns_0@),
                    ..self
                };
                if s.shared.len() > 0 {
                    s.at(MergePhase::Insert)
                } else {
                    s.at(MergePhase::CountAfter)
                }
            },
            MergePhase::Insert => self.at(MergePhase::CountAfter),
            MergePhase::CountAfter => self.reported(reply->Count_0 as int),
            MergePhase::ProbeSourceLedger => if reply->Count_0 > 0 {
                self.at(MergePhase::ProbeLedger)
            } else {
                self.at(MergePhase::Detach)
            },
            MergePhase::ProbeLedger => if reply->Count_0 > 0 {
                self.at(MergePhase::UnionLedger)
            } else {
                self.at(MergePhase::CreateLedger)
            },
            MergePhase::CreateLedger => self.at(MergePhase::UnionLedger),
            MergePhase::UnionLedger => self.at(MergePhase::Detach),
            MergePhase::Detach => if self.failure is Some {
                self.at(MergePhase::Finished)
            } else {
                MergeState { source: self.source + 1, ..self }.next_source()
            },
            MergePhase::Checkpoint | MergePhase::Finished => self.at(MergePhase::Finished),
        }
    }

    /// Where `reply` leads.
    pub open spec fn after(self, reply: MergeReply) -> MergeState {
        match reply {
            MergeReply::Failed(e) if !self.phase.best_effort() => self.failed(e@),
            _ => self.answered(reply),
        }
    }
}

/// A merge of drawing databases into one, under way.
#[derive(Debug)]
pub struct DrawingMerge {
    dest: String,
    sources: Vec<String>,
    apply: bool,
    phase: MergePhase,
    source: usize,
    queue: Vec<(String, String)>,
    table: usize,
    source_rows: u64,
    dest_exists: bool,
    before: u64,
    overlap: u64,
    columns: Vec<ColumnInfo>,
    shared: Vec<ColumnInfo>,
    reports: Vec<TableMergeReport>,
    failure: Option<String>,
}

impl View for DrawingMerge {
    type V = MergeState;

    closed spec fn view(&self) -> MergeState {
        MergeState {
            dest: self.dest@,
            sources: texts(self.sources@),
            apply: self.apply,
            phase: self.phase,
            source: self.source as int,
            queue: self.queue@,
            table: self.table as int,
            source_rows: self.source_rows as int,
            dest_exists: self.dest_exists,
            before: self.before as int,
            overlap: self.overlap as int,
            columns: self.columns@,
            shared: self.shared@,
            reports: self.reports@,
            failure: match self.failure {
                Some(e) => Some(e@),
                None => None,
            },
        }
    }
}

fn one(text: String) -> (r: Vec<String>)
    ensures
        texts(r@) == seq![text@],
{
    let mut v: Vec<String> = Vec::new();
    v.push(text);
    assert(texts(v@) =~= seq![text@]);
    v
}

fn two(a: String, b: String) -> (r: Vec<String>)
    ensures
        texts(r@) == seq![a@, b@],
{
    let mut v: Vec<String> = Vec::new();
    v.push(a);
    v.push(b);
    assert(texts(v@) =~= seq![a@, b@]);
    v
}

fn nothing() -> (r: Vec<String>)
    ensures
        texts(r@) == Seq::<Seq<char>>::empty(),
{
    let v: Vec<String> = Vec::new();
    assert(texts(v@) =~= Seq::<Seq<char>>::empty());
    v
}

fn probe_sql(schema: &str) -> (r: String)
    ensures
        r@ == probe_text(schema@),
{
    let mut sql = "SELECT COUNT(*) FROM ".to_owned();
    sql.append(schema);
    sql.append(".sqlite_master WHERE type='table' AND name = ?1");
    sql
}

/// The merge of the databases at `sources` into the one at `dest`, which is
/// modified in place when `apply` is set and only read otherwise.
pub fn merge_into(dest: String, sources: Vec<String>, apply: bool) -> (r: DrawingMerge)
    ensures
        r@ == MergeState::start(dest@, texts(sources@), apply),
        r@.well_formed(),
{
    DrawingMerge {
        dest,
        sources,
        apply,
        phase: MergePhase::Open,
        source: 0,
        queue: Vec::new(),
        table: 0,
        source_rows: 0,
        dest_exists: false,
        before: 0,
        overlap: 0,
        columns: Vec::new(),
        shared: Vec::new(),
        reports: Vec::new(),
        failure: None,
    }
}

impl DrawingMerge {
    fn table_text(&self) -> (r: String)
        requires
            self@.well_formed(),
            self@.phase.in_table(),
        ensures
            r@ == self@.table_name(),
    {
        self.queue[self.table].0.clone()
    }

    fn from_text(&self) -> (r: String)
        requires
            self@.well_formed(),
            self@.phase.in_table(),
        ensures
            r@ == self@.from(),
    {
        let mut q = alias(self.source);
        q.append(".");
        q.append(quote_ident(self.queue[self.table].0.as_str()).as_str());
        q
    }

    fn into_text(&self) -> (r: String)
        requires
            self@.well_formed(),
            self@.phase.in_table(),
        ensures
            r@ == self@.into(),
    {
        quote_ident(self.queue[self.table].0.as_str())
    }

    /// What to do next.
    #[verifier::rlimit(40)]
    pub fn action(&self) -> (r: MergeAction)
        requires
            self@.well_formed(),
        ensures
            r@ == self@.asks(),
    {
        match self.phase {
            MergePhase::Open => MergeAction::Open {
                path: self.dest.clone(),
                writable: self.apply,
            },
            MergePhase::Timeout => MergeAction::BusyTimeout { millis: 5000 },
            MergePhase::Journal => MergeAction::Pragma {
                name: "journal_mode".to_owned(),
                value: "WAL".to_owned(),
            },
            MergePhase::Synchronous => MergeAction::Pragma {
                name: "synchronous".to_owned(),
                value: "NORMAL".to_owned(),
            },
            MergePhase::Attach => {
                let mut sql = "ATTACH DATABASE ?1 AS ".to_owned();
                sql.append(alias(self.source).as_str());
                let uri = attach_uri(self.sources[self.source].as_str());
                MergeAction::Run { sql, params: one(uri) }
            },
            MergePhase::List => {
                let mut sql = "SELECT name, COALESCE(sql,'') FROM ".to_owned();
                sql.append(alias(self.source).as_str());
                sql.append(
                    ".sqlite_master WHERE type='table' AND name NOT LIKE 'sqlite_%' AND name != 'metadata' ORDER BY name",
                );
                MergeAction::Tables { sql }
            },
            MergePhase::CountSource => {
                let mut sql = "SELECT COUNT(*) FROM ".to_owned();
                sql.append(self.from_text().as_str());
                MergeAction::Count { sql, params: nothing() }
            },
            MergePhase::ProbeTable => MergeAction::Count {
                sql: probe_sql("main"),
                params: one(self.table_text()),
            },
            MergePhase::CreateTable => MergeAction::Run {
                sql: self.queue[self.table].1.clone(),
                params: nothing(),
            },
            MergePhase::SourceColumns => MergeAction::Columns {
                sql: "SELECT name, pk FROM pragma_table_info(?1, ?2)".to_owned(),
                params: two(self.table_text(), alias(self.source)),
            },
            MergePhase::CountBefore | MergePhase::CountAfter => {
                let mut sql = "SELECT COUNT(*) FROM ".to_owned();
                sql.append(self.into_text().as_str());
                MergeAction::Count { sql, params: nothing() }
            },
            MergePhase::CountOverlap => {
                let mut sql = "SELECT COUNT(*) FROM ".to_owned();
                sql.append(self.from_text().as_str());
                sql.append(" s JOIN ");
                sql.append(self.into_text().as_str());
                sql.append(" m ON ");
                sql.append(key_condition(&self.columns).as_str());
                MergeAction::Count { sql, params: nothing() }
            },
            MergePhase::DestColumns => MergeAction::Columns {
                sql: "SELECT name, pk FROM pragma_table_info(?1, ?2)".to_owned(),
                params: two(self.table_text(), "main".to_owned()),
            },
            MergePhase::Insert => {
                let list = list_columns(&self.shared);
                let mut sql = "INSERT OR IGNORE INTO ".to_owned();
                sql.append(self.into_text().as_str());
                sql.append(" (");
                sql.append(list.as_str());
                sql.append(") SELECT ");
                sql.append(list.as_str());
                sql.append(" FROM ");
                sql.append(self.from_text().as_str());
                MergeAction::Run { sql, params: nothing() }
            },
            MergePhase::ProbeSourceLedger => MergeAction::Count {
                sql: probe_sql(alias(self.source).as_str()),
                params: one("metadata".to_owned()),
            },
            MergePhase::ProbeLedger => MergeAction::Count {
                sql: probe_sql("main"),
                params: one("metadata".to_owned()),
            },
            MergePhase::CreateLedger => MergeAction::Run {
                sql: "CREATE TABLE IF NOT EXISTS metadata (version INTEGER PRIMARY KEY, time DATETIME NOT NULL default CURRENT_TIMESTAMP)".to_owned(),
                params: nothing(),
            },
            MergePhase::UnionLedger => {
                let mut sql =
                    "INSERT OR IGNORE INTO main.metadata (version, time) SELECT version, time FROM ".to_owned();
                sql.append(alias(self.source).as_str());
                sql.append(".metadata");
                MergeAction::Run { sql, params: nothing() }
            },
            MergePhase::Detach => {
                let mut sql = "DETACH DATABASE ".to_owned();
                sql.append(alias(self.source).as_str());
                MergeAction::Run { sql, params: nothing() }
            },
            MergePhase::Checkpoint => MergeAction::Run {
                sql: "PRAGMA wal_checkpoint(TRUNCATE); PRAGMA optimize;".to_owned(),
                params: nothing(),
            },
            MergePhase::Finished => MergeAction::Finish,
        }
    }

    /// Whether `reply` answers what [`DrawingMerge::action`] asks for, with
    /// counts that add up.
    pub fn accepts(&self, reply: &MergeReply) -> (r: bool)
        ensures
            r == self@.accepts(*reply),
    {
        match (self.phase, reply) {
            (MergePhase::Finished, _) => false,
            (_, MergeReply::Failed(_)) => true,
            (MergePhase::List, MergeReply::Tables(_)) => true,
            (MergePhase::SourceColumns | MergePhase::DestColumns, MergeReply::Columns(_)) => true,
            (MergePhase::CountBefore, MergeReply::Count(n)) => has_keys(&self.columns)
                || sum_fits(*n, self.source_rows, 0),
            (MergePhase::CountOverlap, MergeReply::Count(n)) => sum_fits(
                self.before,
                self.source_rows,
                *n,
            ),
            (
                MergePhase::CountSource
                | MergePhase::ProbeTable
                | MergePhase::CountAfter
                | MergePhase::ProbeSourceLedger
                | MergePhase::ProbeLedger,
                MergeReply::Count(_),
            ) => true,
            (
                MergePhase::Open
                | MergePhase::Timeout
                | MergePhase::Journal
                | MergePhase::Synchronous
                | MergePhase::Attach
                | MergePhase::CreateTable
                | MergePhase::Insert
                | MergePhase::CreateLedger
                | MergePhase::UnionLedger
                | MergePhase::Detach
                | MergePhase::Checkpoint,
                MergeReply::Done,
            ) => true,
            _ => false,
        }
    }

    fn next_source(&mut self)
        ensures
            final(self)@ == old(self)@.next_source(),
    {
        self.phase = if self.source < self.sources.len() {
            MergePhase::Attach
        } else if self.apply {
            MergePhase::Checkpoint
        } else {
            MergePhase::Finished
        };
    }

    fn next_table(&mut self)
        ensures
            final(self)@ == old(self)@.next_table(),
    {
        self.phase = if self.table < self.queue.len() {
            MergePhase::CountSource
        } else if self.apply {
            MergePhase::ProbeSourceLedger
        } else {
            MergePhase::Detach
        };
    }

    fn report(&mut self, after: u64)
        requires
            old(self)@.well_formed(),
            old(self)@.phase.in_table(),
        ensures
            final(self)@ == old(self)@.reported(after as int),
    {
        let row = TableMergeReport {
            table: self.queue[self.table].0.clone(),
            source_rows: self.source_rows,
            dest_rows_before: self.before,
            overlap: self.overlap,
            dest_rows_after: after,
        };
        self.reports.push(row);
        assert(self.table < self.queue.len());
        self.table = self.table + 1;
        self.next_table();
    }

    fn tally(&mut self, before: u64, overlap: u64)
        requires
            old(self)@.well_formed(),
            old(self)@.phase.in_table(),
            adds_up(before as int, old(self)@.source_rows, overlap as int),
        ensures
            final(self)@ == old(self)@.tallied(before as int, overlap as int),
    {
        self.before = before;
        self.overlap = overlap;
        if self.apply {
            self.phase = MergePhase::DestColumns;
        } else {
            let after: u64 = before + self.source_rows - overlap;
            self.report(after);
        }
    }

    fn fail(&mut self, e: String)
        requires
            old(self)@.well_formed(),
        ensures
            final(self)@ == old(self)@.failed(e@),
    {
        match self.phase {
            MergePhase::Open => {
                let mut message = "open ".to_owned();
                message.append(self.dest.as_str());
                message.append(": ");
                message.append(e.as_str());
                self.failure = Some(message);
                self.phase = MergePhase::Finished;
            },
            MergePhase::Attach => {
                let mut message = "attach ".to_owned();
                message.append(self.sources[self.source].as_str());
                message.append(": ");
                message.append(e.as_str());
                self.failure = Some(message);
                self.phase = MergePhase::Finished;
            },
            MergePhase::Timeout | MergePhase::Detach => {
                self.failure = Some(e);
                self.phase = MergePhase::Finished;
            },
            _ => {
                self.failure = Some(e);
                self.phase = MergePhase::Detach;
            },
        }
    }

    fn take_count(&mut self, n: u64)
        requires
            old(self)@.well_formed(),
            old(self)@.accepts(MergeReply::Count(n)),
        ensures
            final(self)@ == old(self)@.answered(MergeReply::Count(n)),
    {
        match self.phase {
            MergePhase::CountSource => {
                self.source_rows = n;
                self.phase = MergePhase::ProbeTable;
            },
            MergePhase::ProbeTable => {
                self.dest_exists = n > 0;
                let has_ddl = !is_blank(&self.queue[self.table].1);
                self.phase = if self.apply && !self.dest_exists && has_ddl {
                    MergePhase::CreateTable
                } else {
                    MergePhase::SourceColumns
                };
            },
            MergePhase::CountBefore => if has_keys(&self.columns) {
                self.before = n;
                self.phase = MergePhase::CountOverlap;
            } else {
                self.tally(n, 0);
            },
            MergePhase::CountOverlap => {
                let before: u64 = self.before;
                self.tally(before, n);
            },
            MergePhase::CountAfter => {
                self.report(n);
            },
            MergePhase::ProbeSourceLedger => {
                self.phase = if n > 0 {
                    MergePhase::ProbeLedger
                } else {
                    MergePhase::Detach
                };
            },
            MergePhase::ProbeLedger => {
                self.phase = if n > 0 {
                    MergePhase::UnionLedger
                } else {
                    MergePhase::CreateLedger
                };
            },
            _ => {},
        }
    }

    fn take_columns(&mut self, columns: Vec<ColumnInfo>)
        requires
            old(self)@.well_formed(),
            old(self)@.accepts(MergeReply::Columns(columns)),
        ensures
            final(self)@ == old(self)@.answered(MergeReply::Columns(columns)),
    {
        match self.phase {
            MergePhase::SourceColumns => {
                self.columns = columns;
                if self.dest_exists {
                    self.phase = MergePhase::CountBefore;
                } else {
                    self.tally(0, 0);
                }
            },
            MergePhase::DestColumns => {
                self.shared = share_columns(&self.columns, &columns);
                self.phase = if self.shared.len() > 0 {
                    MergePhase::Insert
                } else {
                    MergePhase::CountAfter
                };
            },
            _ => {},
        }
    }

    fn proceed(&mut self, reply: MergeReply)
        requires
            old(self)@.well_formed(),
            old(self)@.accepts(reply),
            reply is Done || old(self)@.phase.best_effort(),
        ensures
            final(self)@ == old(self)@.answered(reply),
    {
        match self.phase {
            MergePhase::Open => {
                self.phase = MergePhase::Timeout;
            },
            MergePhase::Timeout => if self.apply {
                self.phase = MergePhase::Journal;
            } else {
                self.next_source();
            },
            MergePhase::Journal => {
                self.phase = MergePhase::Synchronous;
            },
            MergePhase::Synchronous => {
                self.next_source();
            },
            MergePhase::Attach => {
                self.phase = MergePhase::List;
            },
            MergePhase::CreateTable => {
                self.dest_exists = true;
                self.phase = MergePhase::SourceColumns;
            },
            MergePhase::Insert => {
                self.phase = MergePhase::CountAfter;
            },
            MergePhase::CreateLedger => {
                self.phase = MergePhase::UnionLedger;
            },
            MergePhase::UnionLedger => {
                self.phase = MergePhase::Detach;
            },
            MergePhase::Detach => if self.failure.is_some() {
                self.phase = MergePhase::Finished;
            } else {
                assert(self.source < self.sources.len());
                self.source = self.source + 1;
                self.next_source();
            },
            MergePhase::Checkpoint => {
                self.phase = MergePhase::Finished;
            },
            _ => {},
        }
    }

    /// Takes what came of the action.
    pub fn step(&mut self, reply: MergeReply)
        requires
            old(self)@.well_formed(),
            old(self)@.accepts(reply),
        ensures
            final(self)@ == old(self)@.after(reply),
            final(self)@.well_formed(),
    {
        let shrug = match self.phase {
            MergePhase::Journal | MergePhase::Synchronous | MergePhase::Checkpoint => true,
            _ => false,
        };
        match reply {
            MergeReply::Done => self.proceed(MergeReply::Done),
            MergeReply::Failed(e) => if shrug {
                self.proceed(MergeReply::Failed(e));
            } else {
                self.fail(e);
            },
            MergeReply::Count(n) => self.take_count(n),
            MergeReply::Tables(tables) => {
                self.queue = tables;
                self.table = 0;
                self.next_table();
            },
            MergeReply::Columns(columns) => self.take_columns(columns),
        }
    }

    /// Whether nothing is left to do.
    pub fn is_finished(&self) -> (r: bool)
        ensures
            r == (self@.phase is Finished),
    {
        matches!(self.phase, MergePhase::Finished)
    }

    /// What the merge came to.
    pub fn finish(self) -> (r: Result<DrawingMergeReport, String>)
        requires
            self@.phase is Finished,
        ensures
            match r {
                Ok(report) => {
                    &&& self@.failure is None
                    &&& report.dest@ == self@.dest
                    &&& texts(report.sources@) == self@.sources
                    &&& report.tables@ == self@.reports
                    &&& report.applied == self@.apply
                },
                Err(e) => self@.failure == Some(e@),
            },
    {
        match self.failure {
            Some(e) => Err(e),
            None => Ok(
                DrawingMergeReport {
                    dest: self.dest,
                    sources: self.sources,
                    tables: self.reports,
                    applied: self.apply,
                },
            ),
        }
    }
}

fn sum_fits(before: u64, source_rows: u64, overlap: u64) -> (r: bool)
    ensures
        r == adds_up(before as int, source_rows as int, overlap as int),
{
    match before.checked_add(source_rows) {
        Some(sum) => overlap <= sum,
        None => false,
    }
}

fn is_blank(s: &String) -> (r: bool)
    ensures
        r == (s@.len() == 0),
{
    let cs = chars_of(s.as_str());
    cs.len() == 0
}

/// A merge after all of `replies`.
pub open spec fn run(from: MergeState, replies: Seq<MergeReply>) -> MergeState
    decreases replies.len(),
{
    if replies.len() == 0 {
        from
    } else {
        run(from, replies.drop_last()).after(replies.last())
    }
}

/// Every reply answers what was asked for.
pub open spec fn answers(from: MergeState, replies: Seq<MergeReply>) -> bool
    decreases replies.len(),
{
    replies.len() == 0 || {
        &&& answers(from, replies.drop_last())
        &&& run(from, replies.drop_last()).accepts(replies.last())
    }
}

/// Whatever comes back, a merge stays well formed and keeps what it was asked
/// to do.
pub proof fn law_merge_keeps_its_terms(
    dest: Seq<char>,
    sources: Seq<Seq<char>>,
    apply: bool,
    replies: Seq<MergeReply>,
)
    requires
        answers(MergeState::start(dest, sources, apply), replies),
    ensures
        ({
            let s = run(MergeState::start(dest, sources, apply), replies);
            s.well_formed() && s.dest == dest && s.sources == sources && s.apply == apply
        }),
    decreases replies.len(),
{
    if replies.len() > 0 {
        law_merge_keeps_its_terms(dest, sources, apply, replies.drop_last());
    }
}

/// The phases that only a merge with `apply` set goes through.
spec fn applies(phase: MergePhase) -> bool {
    phase.writes() || phase is DestColumns || phase is CountAfter || phase is ProbeSourceLedger
        || phase is ProbeLedger
}

proof fn lemma_dry_phases(dest: Seq<char>, sources: Seq<Seq<char>>, replies: Seq<MergeReply>)
    requires
        answers(MergeState::start(dest, sources, false), replies),
    ensures
        !applies(run(MergeState::start(dest, sources, false), replies).phase),
    decreases replies.len(),
{
    if replies.len() > 0 {
        law_merge_keeps_its_terms(dest, sources, false, replies.drop_last());
        lemma_dry_phases(dest, sources, replies.drop_last());
    }
}

/// A dry run writes nothing: whatever comes back, no action of it changes the
/// destination, which it opened read-only.
pub proof fn law_dry_run_writes_nothing(
    dest: Seq<char>,
    sources: Seq<Seq<char>>,
    replies: Seq<MergeReply>,
)
    requires
        answers(MergeState::start(dest, sources, false), replies),
    ensures
        !run(MergeState::start(dest, sources, false), replies).phase.writes(),
        MergeState::start(dest, sources, false).asks() == (Ask::Open {
            path: dest,
            writable: false,
        }),
{
    lemma_dry_phases(dest, sources, replies);
}

/// A dry run reports of every table the size of the union: what both sides
/// hold, the shared keys once.
pub proof fn law_dry_run_reports_the_union(
    dest: Seq<char>,
    sources: Seq<Seq<char>>,
    replies: Seq<MergeReply>,
)
    requires
        answers(MergeState::start(dest, sources, false), replies),
    ensures
        forall|i: int|
            0 <= i < run(MergeState::start(dest, sources, false), replies).reports.len() ==> ({
                let t = #[trigger] run(MergeState::start(dest, sources, false), replies).reports[i];
                t.dest_rows_after == t.dest_rows_before + t.source_rows - t.overlap
            }),
    decreases replies.len(),
{
    let start = MergeState::start(dest, sources, false);
    if replies.len() > 0 {
        let front = replies.drop_last();
        law_merge_keeps_its_terms(dest, sources, false, front);
        lemma_dry_phases(dest, sources, front);
        law_dry_run_reports_the_union(dest, sources, front);
        lemma_counts_fit(dest, sources, false, front);
        let s = run(start, front);
        assert forall|i: int| 0 <= i < s.after(replies.last()).reports.len() implies ({
            let t = #[trigger] s.after(replies.last()).reports[i];
            t.dest_rows_after == t.dest_rows_before + t.source_rows - t.overlap
        }) by {
            if i < s.reports.len() {
                assert(s.after(replies.last()).reports[i] == s.reports[i]);
            }
        }
    }
}

proof fn lemma_counts_fit(
    dest: Seq<char>,
    sources: Seq<Seq<char>>,
    apply: bool,
    replies: Seq<MergeReply>,
)
    requires
        answers(MergeState::start(dest, sources, apply), replies),
    ensures
        0 <= run(MergeState::start(dest, sources, apply), replies).source_rows <= u64::MAX,
        0 <= run(MergeState::start(dest, sources, apply), replies).before <= u64::MAX,
        0 <= run(MergeState::start(dest, sources, apply), replies).overlap <= u64::MAX,
    decreases replies.len(),
{
    if replies.len() > 0 {
        law_merge_keeps_its_terms(dest, sources, apply, replies.drop_last());
        lemma_counts_fit(dest, sources, apply, replies.drop_last());
    }
}

/// A source that was attached is detached again before the merge goes on to
/// the next one or ends, whatever fails in between.
pub proof fn law_sources_are_detached(s: MergeState, reply: MergeReply)
    requires
        s.phase.attached(),
        s.accepts(reply),
    ensures
        s.after(reply).phase.attached() || s.phase is Detach,
        s.phase !is Detach ==> s.after(reply).source == s.source,
{
}

/// A failure stops the merge: nothing is asked for after it but to detach the
/// source, and the merge ends with that failure or the one of detaching.
pub proof fn law_failure_ends_the_merge(s: MergeState, e: String)
    requires
        s.accepts(MergeReply::Failed(e)),
        !s.phase.best_effort(),
    ensures
        ({
            let next = s.after(MergeReply::Failed(e));
            &&& next.failure is Some
            &&& next.phase is Finished || {
                &&& next.phase is Detach
                &&& next.failure == Some(e@)
                &&& next.after(MergeReply::Done).phase is Finished
                &&& next.after(MergeReply::Done).failure == Some(e@)
            }
        }),
{
}

/// Tables are merged one by one, in the order in which they were listed: a step
/// adds at most one report, of the table that was being merged, and then the
/// next table's turn has come.
pub proof fn law_tables_are_reported_in_order(s: MergeState, reply: MergeReply)
    requires
        s.well_formed(),
        s.accepts(reply),
    ensures
        ({
            let next = s.after(reply);
            ||| next.reports == s.reports && (next.table == s.table || s.phase is List)
            ||| {
                &&& s.phase.in_table()
                &&& next.table == s.table + 1
                &&& next.reports.len() == s.reports.len() + 1
                &&& next.reports.drop_last() == s.reports
                &&& next.reports.last().table == s.queue[s.table].0
                &&& next.queue == s.queue
            }
        }),
{
    assert(s.after(reply).reports == s.reports || s.after(reply).reports.drop_last()
        =~= s.reports);
}

/// A merge fails only when something failed: where no action did, it ends with
/// a report.
pub proof fn law_merge_succeeds_when_nothing_fails(
    dest: Seq<char>,
    sources: Seq<Seq<char>>,
    apply: bool,
    replies: Seq<MergeReply>,
)
    requires
        answers(MergeState::start(dest, sources, apply), replies),
        forall|i: int| 0 <= i < replies.len() ==> (#[trigger] replies[i]) !is Failed,
    ensures
        run(MergeState::start(dest, sources, apply), replies).failure is None,
    decreases replies.len(),
{
    if replies.len() > 0 {
        let front = replies.drop_last();
        assert forall|i: int| 0 <= i < front.len() implies (#[trigger] front[i]) !is Failed by {
            assert(front[i] == replies[i]);
        }
        assert(replies[replies.len() - 1] !is Failed);
        law_merge_succeeds_when_nothing_fails(dest, sources, apply, front);
    }
}

/// A merge that ends without a failure has been through every source.
pub proof fn law_success_covers_every_source(
    dest: Seq<char>,
    sources: Seq<Seq<char>>,
    apply: bool,
    replies: Seq<MergeReply>,
)
    requires
        answers(MergeState::start(dest, sources, apply), replies),
    ensures
        ({
            let s = run(MergeState::start(dest, sources, apply), replies);
            &&& s.phase is Finished && s.failure is None ==> s.source == sources.len()
            &&& s.phase is Checkpoint ==> s.source == sources.len()
        }),
    decreases replies.len(),
{
    if replies.len() > 0 {
        law_merge_keeps_its_terms(dest, sources, apply, replies.drop_last());
        law_success_covers_every_source(dest, sources, apply, replies.drop_last());
    }
}

/// A source is left only when every table that was listed for it has had its
/// turn, unless something failed.
pub proof fn law_every_listed_table_is_merged(
    dest: Seq<char>,
    sources: Seq<Seq<char>>,
    apply: bool,
    replies: Seq<MergeReply>,
)
    requires
        answers(MergeState::start(dest, sources, apply), replies),
    ensures
        ({
            let s = run(MergeState::start(dest, sources, apply), replies);
            &&& s.failure is Some ==> s.phase is Detach || s.phase is Finished
            &&& s.phase is ProbeSourceLedger || s.phase is ProbeLedger || s.phase is CreateLedger
                || s.phase is UnionLedger ==> s.table == s.queue.len()
            &&& s.phase is Detach && s.failure is None ==> s.table == s.queue.len()
        }),
    decreases replies.len(),
{
    if replies.len() > 0 {
        law_merge_keeps_its_terms(dest, sources, apply, replies.drop_last());
        law_every_listed_table_is_merged(dest, sources, apply, replies.drop_last());
    }
}

proof fn lemma_escaped_has_no_question_mark(path: Seq<char>)
    ensures
        !escaped(path).contains('?'),
    decreases path.len(),
{
    reveal_strlit("%3F");
    if path.len() > 0 {
        lemma_escaped_has_no_question_mark(path.drop_last());
        let before = escaped(path.drop_last());
        let all = escaped(path);
        assert forall|i: int| 0 <= i < all.len() implies all[i] != '?' by {
            if i < before.len() {
                assert(before.contains(before[i]));
            }
        }
    }
}

/// A source is attached read-only, whatever its path holds: the first question
/// mark of the URI is the one in front of `mode=ro`, and there is no other.
pub proof fn law_sources_are_attached_read_only(s: MergeState)
    requires
        s.phase is Attach,
    ensures
        s.asks() matches Ask::Run { params, .. } && params.len() == 1 && ({
            let head = "file:"@ + escaped(s.sources[s.source]);
            params[0] == head + "?mode=ro"@ && !head.contains('?')
        }),
{
    reveal_strlit("file:");
    let path = s.sources[s.source];
    let head = "file:"@ + escaped(path);
    lemma_escaped_has_no_question_mark(path);
    assert forall|i: int| 0 <= i < head.len() implies head[i] != '?' by {
        if i >= "file:"@.len() {
            assert(escaped(path).contains(escaped(path)[i - "file:"@.len()]));
        }
    }
}

/// A dry run foretells the union: with the rows of both sides as maps from key
/// to row, what it reports is the size of their union, in which the destination
/// keeps its row wherever both have one.
pub proof fn law_dry_run_foretells_the_union<K, R>(
    s: MergeState,
    overlap: u64,
    dest: Map<K, R>,
    source: Map<K, R>,
)
    requires
        s.well_formed(),
        s.phase is CountOverlap,
        !s.apply,
        dest.dom().finite(),
        source.dom().finite(),
        s.before == dest.dom().len(),
        s.source_rows == source.dom().len(),
        overlap == dest.dom().intersect(source.dom()).len(),
        s.accepts(MergeReply::Count(overlap)),
    ensures
        ({
            let union = source.union_prefer_right(dest);
            let report = s.after(MergeReply::Count(overlap)).reports.last();
            &&& report.dest_rows_after == union.dom().len()
            &&& forall|k: K| dest.contains_key(k) ==> #[trigger] union[k] == dest[k]
            &&& forall|k: K|
                source.contains_key(k) && !dest.contains_key(k) ==> #[trigger] union[k] == source[k]
        }),
{
    let union = source.union_prefer_right(dest);
    vstd::set_lib::lemma_set_intersect_union_lens(dest.dom(), source.dom());
    assert(union.dom() =~= dest.dom().union(source.dom()));
}

proof fn lemma_escaped_adds(a: Seq<char>, b: Seq<char>)
    ensures
        escaped(a + b) == escaped(a) + escaped(b),
    decreases b.len(),
{
    if b.len() == 0 {
        assert(a + b =~= a);
        assert(escaped(a) + escaped(b) =~= escaped(a));
    } else {
        let front = b.drop_last();
        lemma_escaped_adds(a, front);
        assert((a + b).drop_last() =~= a + front);
        assert((a + b).last() == b.last());
        if b.last() == '?' {
            assert(escaped(a) + escaped(front) + "%3F"@ =~= escaped(a) + (escaped(front)
                + "%3F"@));
        } else {
            assert((escaped(a) + escaped(front)).push(b.last()) =~= escaped(a) + escaped(
                front,
            ).push(b.last()));
        }
    }
}

/// The URI of a source is its path, part by part, behind `file:` and before
/// `?mode=ro`: what holds no question mark stands as it is, and each question
/// mark is written `%3F`.
pub proof fn law_source_uri_escapes_question_marks(a: Seq<char>, b: Seq<char>)
    ensures
        source_uri(a) == "file:"@ + escaped(a) + "?mode=ro"@,
        escaped(a + b) == escaped(a) + escaped(b),
        !a.contains('?') ==> escaped(a) == a,
        escaped(seq!['?']) == "%3F"@,
    decreases a.len(),
{
    lemma_escaped_adds(a, b);
    reveal_with_fuel(escaped, 2);
    assert(seq!['?'].drop_last() =~= Seq::<char>::empty());
    assert(escaped(seq!['?']) =~= "%3F"@);
    if !a.contains('?') && a.len() > 0 {
        let front = a.drop_last();
        assert(!front.contains('?')) by {
            if front.contains('?') {
                let i = choose|i: int| 0 <= i < front.len() && front[i] == '?';
                assert(a[i] == '?');
            }
        }
        law_source_uri_escapes_question_marks(front, b);
        assert(a[a.len() - 1] != '?');
        assert(front.push(a.last()) =~= a);
    }
}

/// The columns that are copied are those of the source that the destination has
/// by name, and the key is made of those with a place in it; they keep their
/// order, and none is added.
pub proof fn law_shared_columns_are_on_both_sides(
    source: Seq<ColumnInfo>,
    dest: Seq<ColumnInfo>,
    c: ColumnInfo,
)
    ensures
        shared_columns(Seq::empty(), dest).len() == 0,
        key_columns(Seq::empty()).len() == 0,
        shared_columns(source.push(c), dest) == (if exists|i: int|
            0 <= i < dest.len() && (#[trigger] dest[i]).name@ == c.name@ {
            shared_columns(source, dest).push(c)
        } else {
            shared_columns(source, dest)
        }),
        key_columns(source.push(c)) == (if c.pk > 0 {
            key_columns(source).push(c)
        } else {
            key_columns(source)
        }),
{
    reveal(Seq::filter);
    assert(source.push(c).drop_last() =~= source);
}

/// A failure to open the destination or to attach a source names the file, and
/// any other is told as it is.
pub proof fn law_failure_names_its_file(s: MergeState, e: Seq<char>)
    ensures
        s.phase is Open ==> s.failed(e).failure == Some("open "@ + s.dest + ": "@ + e),
        s.phase is Attach ==> s.failed(e).failure == Some(
            "attach "@ + s.sources[s.source] + ": "@ + e,
        ),
        s.phase !is Open && s.phase !is Attach ==> s.failed(e).failure == Some(e),
{
}

/// A merge opens the destination, for writing only where it is to be applied,
/// and waits up to five seconds for a lock. Where it is to be applied it then
/// turns on the write-ahead log, whether or not that works, and only then
/// attaches the first source; a dry run attaches it at once.
pub proof fn law_destination_is_set_up_first(
    dest: Seq<char>,
    sources: Seq<Seq<char>>,
    apply: bool,
    journal: MergeReply,
    sync: MergeReply,
)
    requires
        sources.len() > 0,
        journal is Done || journal is Failed,
        sync is Done || sync is Failed,
    ensures
        ({
            let opening = MergeState::start(dest, sources, apply);
            let opened = opening.after(MergeReply::Done);
            let ready = opened.after(MergeReply::Done);
            let logged = ready.after(journal);
            let first = if apply {
                logged.after(sync)
            } else {
                ready
            };
            &&& opening.asks() == (Ask::Open { path: dest, writable: apply })
            &&& opened.asks() == (Ask::BusyTimeout { millis: 5000 })
            &&& apply ==> ready.asks() == (Ask::Pragma { name: "journal_mode"@, value: "WAL"@ })
            &&& apply ==> logged.asks() == (Ask::Pragma { name: "synchronous"@, value: "NORMAL"@ })
            &&& first.asks() matches Ask::Run { sql, params } && sql == "ATTACH DATABASE ?1 AS "@
                + "src"@ + decimal_text(0) && params.len() == 1 && params[0] == source_uri(
                sources[0],
            )
        }),
{
}

/// When the last source is detached, a merge that is applied writes the log
/// back into the database, whether or not that works, and is finished; a dry
/// run is finished at once.
pub proof fn law_log_is_written_back_last(s: MergeState, reply: MergeReply)
    requires
        s.phase is Detach,
        s.failure is None,
        s.source + 1 == s.sources.len(),
        reply is Done || reply is Failed,
    ensures
        ({
            let next = s.after(MergeReply::Done);
            &&& !s.apply ==> next.asks() is Finish
            &&& s.apply ==> {
                &&& next.asks() == (Ask::Run {
                    sql: "PRAGMA wal_checkpoint(TRUNCATE); PRAGMA optimize;"@,
                    params: Seq::empty(),
                })
                &&& next.after(reply).asks() is Finish
                &&& next.after(reply).failure is None
            }
        }),
{
}

} // verus!
