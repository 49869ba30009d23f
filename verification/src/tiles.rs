//! Highlight tiles: a window of chunks, and the rows in it folded into the
//! cells of a grid.
//!
//! Rows are folded one by one as they are stepped, so memory is bounded by the
//! grid whatever the window covers. The scan gives up at a row cap or at a
//! deadline; a grid cut short says so.

use vstd::prelude::*;
use crate::database::HighlightDb;
use crate::highlights::{highlight_semantics, semantics_of, HighlightSemantics, LavaColumnStyle};
use crate::sql::{quote_ident, quoted};

verus! {

/// Default cap on rows one tile query may consume before it gives up.
///
/// A runaway guard, not a UX budget: it only needs to sit clear of
/// legitimately large work. A caller that wants a responsive deadline sets its
/// own with [`TileQuery::with_time_limit`] and must then treat
/// [`HighlightGrid::truncated`] as "do not cache this".
pub const TILE_ROW_CAP: u64 = 200_000_000;

/// Seconds of the default wall-clock budget for one tile query.
pub const TILE_TIME_LIMIT_SECS: u64 = 45;

/// A wall-clock budget: whole seconds and the nanoseconds beyond them.
#[derive(Debug, Clone, Copy, PartialEq, Eq, Structural)]
pub struct TimeLimit {
    pub secs: u64,
    pub nanos: u32,
}

/// Parameters of a single highlight tile: the half-open chunk window
/// `[cx0, cx0+span) x [cz0, cz0+span)` rendered into a `tile_size` px square.
#[derive(Debug, Clone, Copy)]
pub struct TileQuery {
    pub cx0: i64,
    pub cz0: i64,
    /// Chunks per tile axis.
    pub span: i64,
    /// Output tile edge in pixels.
    pub tile_size: usize,
    pub semantics: HighlightSemantics,
    /// Pushed into SQL as `foundTime >= min_value`; used for the LavaColumns
    /// minimum height. Forces the value column to be read.
    pub min_value: Option<i64>,
    pub row_cap: u64,
    pub time_limit: TimeLimit,
}

impl TileQuery {
    /// Chunks per axis, at least one.
    pub open spec fn chunks(&self) -> int {
        if self.span < 1 {
            1
        } else {
            self.span as int
        }
    }

    /// Output pixels per axis, at least one.
    pub open spec fn pixels(&self) -> int {
        if self.tile_size < 1 {
            1
        } else {
            self.tile_size as int
        }
    }

    /// Grid cells per axis: one per pixel, unless there are fewer chunks.
    pub open spec fn cells(&self) -> int {
        if self.pixels() < self.chunks() {
            self.pixels()
        } else {
            self.chunks()
        }
    }

    /// The grid can be indexed: its cells are countable in a `usize`.
    pub open spec fn fits(&self) -> bool {
        self.cells() * self.cells() <= usize::MAX
    }

    /// Whether the value column has to be read.
    pub open spec fn wants_value(&self) -> bool {
        self.semantics is ColumnHeight || self.min_value is Some
    }

    /// The end of a window axis that starts at `origin`.
    pub open spec fn end_of(&self, origin: int) -> int {
        if origin + self.chunks() > i64::MAX {
            i64::MAX as int
        } else {
            origin + self.chunks()
        }
    }

    /// The chunk lies in the window.
    pub open spec fn covers(&self, x: int, z: int) -> bool {
        &&& self.cx0 <= x < self.end_of(self.cx0 as int)
        &&& self.cz0 <= z < self.end_of(self.cz0 as int)
    }

    /// The cell coordinate of a chunk coordinate on an axis that starts at
    /// `origin`.
    pub open spec fn cell_on_axis(&self, v: int, origin: int) -> int {
        ((v - origin) * self.cells()) / self.chunks()
    }

    /// The row-major cell of a chunk.
    pub open spec fn cell_of(&self, x: int, z: int) -> int {
        self.cell_on_axis(z, self.cz0 as int) * self.cells() + self.cell_on_axis(
            x,
            self.cx0 as int,
        )
    }

    /// A tile query with the default caps and the semantics of `db_name`;
    /// LavaColumns additionally gets the mod's default minimum height.
    pub fn new(db_name: &str, cx0: i64, cz0: i64, span: i64, tile_size: usize) -> (r: TileQuery)
        ensures
            r == (TileQuery {
                cx0,
                cz0,
                span,
                tile_size,
                semantics: semantics_of(db_name@),
                min_value: if semantics_of(db_name@) is ColumnHeight {
                    Some(5i64)
                } else {
                    None
                },
                row_cap: TILE_ROW_CAP,
                time_limit: TimeLimit { secs: TILE_TIME_LIMIT_SECS, nanos: 0 },
            }),
            r.row_cap == 200_000_000,
            r.time_limit.secs == 45,
    {
        let semantics = highlight_semantics(db_name);
        TileQuery {
            cx0,
            cz0,
            span,
            tile_size,
            semantics,
            min_value: match semantics {
                HighlightSemantics::ColumnHeight => Some(LavaColumnStyle::default().min_height),
                HighlightSemantics::Timestamp => None,
            },
            row_cap: TILE_ROW_CAP,
            time_limit: TimeLimit { secs: TILE_TIME_LIMIT_SECS, nanos: 0 },
        }
    }

    pub fn with_min_value(self, min_value: Option<i64>) -> (r: TileQuery)
        ensures
            r == (TileQuery { min_value, ..self }),
    {
        TileQuery { min_value, ..self }
    }

    pub fn with_row_cap(self, row_cap: u64) -> (r: TileQuery)
        ensures
            r == (TileQuery { row_cap, ..self }),
    {
        TileQuery { row_cap, ..self }
    }

    pub fn with_time_limit(self, time_limit: TimeLimit) -> (r: TileQuery)
        ensures
            r == (TileQuery { time_limit, ..self }),
    {
        TileQuery { time_limit, ..self }
    }

    /// Whether a row has to be read with its value column.
    pub fn needs_value(&self) -> (r: bool)
        ensures
            r == self.wants_value(),
    {
        self.semantics.prefers_max() || self.min_value.is_some()
    }

    fn chunks_per_axis(&self) -> (r: i64)
        ensures
            r == self.chunks(),
    {
        if self.span < 1 {
            1
        } else {
            self.span
        }
    }

    fn cells_per_axis(&self) -> (r: usize)
        ensures
            r == self.cells(),
            1 <= r,
    {
        let span = self.chunks_per_axis();
        let px: usize = if self.tile_size < 1 {
            1
        } else {
            self.tile_size
        };
        if (px as u128) < span as u128 {
            px
        } else {
            span as usize
        }
    }

    /// Whether the grid can be indexed: its cells are countable in a `usize`.
    pub fn grid_fits(&self) -> (r: bool)
        ensures
            r == self.fits(),
    {
        let cells = self.cells_per_axis();
        match cells.checked_mul(cells) {
            Some(_) => true,
            None => false,
        }
    }

    fn cell_from(&self, v: i64, origin: i64) -> (r: usize)
        requires
            origin <= v < self.end_of(origin as int),
        ensures
            r == self.cell_on_axis(v as int, origin as int),
    {
        let span = self.chunks_per_axis();
        let cells = self.cells_per_axis();
        proof {
            lemma_axis_in_grid(*self, v as int, origin as int);
        }
        let d: u128 = (v as i128 - origin as i128) as u128;
        assert(d * cells <= u128::MAX) by (nonlinear_arith)
            requires
                d <= i64::MAX,
                cells <= i64::MAX,
        ;
        ((d * cells as u128) / span as u128) as usize
    }

    fn end_from(&self, origin: i64) -> (r: i64)
        ensures
            r == self.end_of(origin as int),
    {
        let span = self.chunks_per_axis();
        match origin.checked_add(span) {
            Some(end) => end,
            None => i64::MAX,
        }
    }

    /// The values bound to `?1`, `?2`, .. of the tile's statement, in order.
    pub open spec fn bound(&self) -> Seq<i64> {
        seq![
            self.cx0,
            self.end_of(self.cx0 as int) as i64,
            self.cz0,
            self.end_of(self.cz0 as int) as i64,
        ] + (match self.min_value {
            Some(v) => seq![v],
            None => Seq::<i64>::empty(),
        })
    }

    fn sql_params(&self) -> (r: Vec<i64>)
        ensures
            r@ == self.bound(),
    {
        let mut out: Vec<i64> = Vec::new();
        out.push(self.cx0);
        out.push(self.end_from(self.cx0));
        out.push(self.cz0);
        out.push(self.end_from(self.cz0));
        if let Some(v) = self.min_value {
            out.push(v);
        }
        assert(out@ =~= self.bound());
        out
    }
}

/// The columns that a tile statement selects.
pub open spec fn tile_columns(q: TileQuery) -> Seq<char> {
    if q.wants_value() {
        "x, z, foundTime"@
    } else {
        "x, z"@
    }
}

/// The statement that reads one tile's window of `table`. The value column is
/// read only when it is needed, which keeps the common case on the covering
/// `unique_xz_*` index.
pub open spec fn tile_text(table: Seq<char>, q: TileQuery) -> Seq<char> {
    "SELECT "@ + tile_columns(q) + " FROM "@ + quoted(table)
        + " WHERE x >= ?1 AND x < ?2 AND z >= ?3 AND z < ?4"@ + (if q.min_value is Some {
        " AND foundTime >= ?5"@
    } else {
        Seq::<char>::empty()
    })
}

fn tile_sql(table: &str, q: &TileQuery) -> (r: String)
    ensures
        r@ == tile_text(table@, *q),
{
    let mut sql = String::new();
    sql.append("SELECT ");
    if q.needs_value() {
        sql.append("x, z, foundTime");
    } else {
        sql.append("x, z");
    }
    sql.append(" FROM ");
    sql.append(quote_ident(table).as_str());
    sql.append(" WHERE x >= ?1 AND x < ?2 AND z >= ?3 AND z < ?4");
    if q.min_value.is_some() {
        sql.append(" AND foundTime >= ?5");
    }
    assert(sql@ =~= tile_text(table@, *q));
    sql
}

/// One highlight row that was folded into a grid. The value is there exactly
/// when the query reads it.
#[derive(Debug, Clone, Copy)]
pub struct GridRow {
    pub x: i64,
    pub z: i64,
    pub value: Option<i64>,
}

/// The rows of `rows` that land in cell `i`.
pub open spec fn rows_in_cell(q: TileQuery, rows: Seq<GridRow>, i: int) -> Seq<GridRow> {
    rows.filter(|r: GridRow| q.cell_of(r.x as int, r.z as int) == i)
}

/// `v` stands for the values of `rows`: it is one of them, and none is better
/// (taller, or older). An empty cell holds zero.
pub open spec fn represents(v: i64, rows: Seq<GridRow>, prefers_max: bool) -> bool {
    if rows.len() == 0 {
        v == 0
    } else {
        &&& exists|k: int| 0 <= k < rows.len() && (#[trigger] rows[k]).value == Some(v)
        &&& forall|k: int|
            0 <= k < rows.len() ==> ((#[trigger] rows[k]).value matches Some(w) && if prefers_max {
                w <= v
            } else {
                v <= w
            })
    }
}

/// `n`, or the greatest `u32` when it is beyond that.
pub open spec fn saturated(n: nat) -> int {
    if n > u32::MAX {
        u32::MAX as int
    } else {
        n as int
    }
}

/// One tile's highlights aggregated per output cell.
#[derive(Debug, Clone)]
pub struct HighlightGrid {
    /// Grid edge in cells: `min(tile_size, span)`.
    pub cells: usize,
    /// Output pixels per cell edge, >= 1 (`tile_size / cells`).
    pub cell_px: usize,
    /// Rows landing in each cell, row-major, `cells * cells` long.
    pub counts: Vec<u32>,
    /// Representative `foundTime` per cell: oldest under
    /// [`HighlightSemantics::Timestamp`], tallest under `ColumnHeight`.
    /// `None` when the value column was not read.
    pub values: Option<Vec<i64>>,
    /// Rows actually folded in.
    pub rows: u64,
    /// The row cap or the time limit stopped the scan early, so the grid is a
    /// partial picture of the window and must never be cached as if it were
    /// the finished tile.
    pub truncated: bool,
}

impl HighlightGrid {
    /// The grid's vectors have one place per cell.
    pub open spec fn well_formed(&self) -> bool {
        &&& self.counts@.len() == self.cells * self.cells
        &&& self.values matches Some(v) ==> v@.len() == self.cells * self.cells
    }

    /// The grid shows exactly `rows` under the query `q`.
    pub open spec fn shows(&self, q: TileQuery, rows: Seq<GridRow>) -> bool {
        &&& self.well_formed()
        &&& self.cells == q.cells()
        &&& self.cell_px == q.pixels() / q.cells()
        &&& self.rows == rows.len()
        &&& self.values is Some <==> q.wants_value()
        &&& forall|k: int|
            0 <= k < rows.len() ==> {
                &&& q.covers((#[trigger] rows[k]).x as int, rows[k].z as int)
                &&& rows[k].value is Some <==> q.wants_value()
            }
        &&& forall|i: int|
            0 <= i < self.counts@.len() ==> #[trigger] self.counts@[i] == saturated(
                rows_in_cell(q, rows, i).len(),
            )
        &&& self.values matches Some(v) ==> forall|i: int|
            0 <= i < v@.len() ==> represents(
                #[trigger] v@[i],
                rows_in_cell(q, rows, i),
                q.semantics is ColumnHeight,
            )
    }

    /// True when no row was folded in.
    pub fn is_empty(&self) -> (r: bool)
        ensures
            r == (self.rows == 0),
    {
        self.rows == 0
    }

    /// Rows in cell (`cx`, `cz`).
    pub fn count_at(&self, cx: usize, cz: usize) -> (r: u32)
        requires
            cx < self.cells && cz < self.cells ==> cz * self.cells + cx < self.counts@.len(),
        ensures
            r == (if cx < self.cells && cz < self.cells {
                self.counts@[cz * self.cells + cx]
            } else {
                0
            }),
    {
        if cx >= self.cells || cz >= self.cells {
            return 0;
        }
        assert(0 <= cz * self.cells) by (nonlinear_arith);
        assert(cz * self.cells + cx < self.counts.len());
        self.counts[cz * self.cells + cx]
    }

    /// Representative value of cell (`cx`, `cz`), if the cell is non-empty and
    /// values were read.
    pub fn value_at(&self, cx: usize, cz: usize) -> (r: Option<i64>)
        requires
            cx < self.cells && cz < self.cells ==> {
                let i = cz * self.cells + cx;
                &&& i < self.counts@.len()
                &&& self.counts@[i] > 0 && self.values is Some ==> i < self.values->0@.len()
            },
        ensures
            r == (if cx < self.cells && cz < self.cells && self.counts@[cz * self.cells + cx] > 0
                && self.values is Some {
                Some(self.values->0@[cz * self.cells + cx])
            } else {
                None
            }),
    {
        if self.count_at(cx, cz) == 0 {
            return None;
        }
        assert(0 <= cz * self.cells) by (nonlinear_arith);
        assert(cz * self.cells + cx < self.counts.len());
        match &self.values {
            Some(v) => Some(v[cz * self.cells + cx]),
            None => None,
        }
    }
}

proof fn lemma_cell_in_grid(cx: int, cz: int, cells: int)
    requires
        0 <= cx < cells,
        0 <= cz < cells,
    ensures
        0 <= cz * cells <= cz * cells + cx < cells * cells,
{
    assert(0 <= cz * cells && cz * cells + cells <= cells * cells) by (nonlinear_arith)
        requires
            0 <= cz < cells,
    ;
}

proof fn lemma_axis_in_grid(q: TileQuery, v: int, origin: int)
    requires
        origin <= v < q.end_of(origin),
    ensures
        0 <= q.cell_on_axis(v, origin) < q.cells(),
        0 <= (v - origin) * q.cells() <= q.chunks() * q.cells(),
{
    let d = v - origin;
    let c = q.cells();
    let s = q.chunks();
    assert(0 <= d * c < s * c) by (nonlinear_arith)
        requires
            0 <= d < s,
            c >= 1,
    ;
    assert(0 <= (d * c) / s < c) by (nonlinear_arith)
        requires
            0 <= d * c < s * c,
            s >= 1,
    ;
}

/// Every cell of a grid that is well formed has a count, and a value where
/// values were read.
pub proof fn law_every_cell_is_held(grid: HighlightGrid, cx: int, cz: int)
    requires
        grid.well_formed(),
        0 <= cx < grid.cells,
        0 <= cz < grid.cells,
    ensures
        0 <= cz * grid.cells + cx < grid.counts@.len(),
        grid.values matches Some(v) ==> cz * grid.cells + cx < v@.len(),
{
    lemma_cell_in_grid(cx, cz, grid.cells as int);
}

/// Every chunk of the window has a cell: no row that the window covers is
/// dropped from the grid.
pub proof fn law_window_lands_in_grid(q: TileQuery, x: int, z: int)
    requires
        q.covers(x, z),
    ensures
        0 <= q.cell_on_axis(x, q.cx0 as int) < q.cells(),
        0 <= q.cell_on_axis(z, q.cz0 as int) < q.cells(),
        0 <= q.cell_of(x, z) < q.cells() * q.cells(),
{
    lemma_axis_in_grid(q, x, q.cx0 as int);
    lemma_axis_in_grid(q, z, q.cz0 as int);
    lemma_cell_in_grid(
        q.cell_on_axis(x, q.cx0 as int),
        q.cell_on_axis(z, q.cz0 as int),
        q.cells(),
    );
}

/// Every cell is painted, and the cells fit in the tile.
pub proof fn law_cells_fit_in_the_tile(q: TileQuery)
    ensures
        1 <= q.cells() <= q.chunks(),
        q.pixels() / q.cells() >= 1,
        q.cells() * (q.pixels() / q.cells()) <= q.pixels(),
{
    let px = q.pixels();
    let c = q.cells();
    assert(px / c >= 1 && c * (px / c) <= px) by (nonlinear_arith)
        requires
            1 <= c <= px,
    ;
}

/// One row as the database hands it over: each column is read, or why it could
/// not be. The value is looked at only when the query needs it.
#[derive(Debug)]
pub struct RowRead {
    pub x: Result<i64, String>,
    pub z: Result<i64, String>,
    pub value: Result<i64, String>,
}

/// What stepping the statement brought.
#[derive(Debug)]
pub enum ScanEvent {
    /// A row.
    Row(RowRead),
    /// No further row.
    End,
    /// The statement failed. `interrupted` tells the failure that a fired
    /// deadline raises from any other.
    Failed { deadline_fired: bool, interrupted: bool, message: String },
}

/// Whether to step the statement again.
#[derive(Debug, Clone, Copy, PartialEq, Eq, Structural)]
pub enum ScanStep {
    Continue,
    Finished,
}

/// The state of a scan: what was folded, and whether it was cut short.
#[verifier::ext_equal]
pub struct ScanView {
    pub query: TileQuery,
    pub folded: Seq<GridRow>,
    pub truncated: bool,
}

/// What one event makes of a scan.
#[verifier::ext_equal]
pub enum ScanOutcome {
    /// The scan goes on from this state.
    Go(ScanView),
    /// The scan is over.
    Stop(ScanView),
    /// The scan fails with this message.
    Fail(Seq<char>),
}

impl ScanView {
    /// A row stands ready: the cap is checked with the row in hand, so a
    /// result that exactly fills the cap is complete.
    pub open spec fn after_row(self, row: GridRow) -> ScanOutcome {
        if self.folded.len() >= self.query.row_cap {
            ScanOutcome::Stop(ScanView { truncated: true, ..self })
        } else if !self.query.covers(row.x as int, row.z as int) {
            ScanOutcome::Go(self)
        } else {
            ScanOutcome::Go(ScanView { folded: self.folded.push(row), ..self })
        }
    }

    /// The state after `event`. A row whose coordinates cannot be read fails
    /// the scan; so does a value that is needed and cannot be read.
    pub open spec fn after(self, event: ScanEvent) -> ScanOutcome {
        match event {
            ScanEvent::End => ScanOutcome::Stop(self),
            ScanEvent::Failed { deadline_fired, interrupted, message } => if deadline_fired
                && interrupted {
                ScanOutcome::Stop(ScanView { truncated: true, ..self })
            } else {
                ScanOutcome::Fail(message@)
            },
            ScanEvent::Row(read) => if self.folded.len() >= self.query.row_cap {
                ScanOutcome::Stop(ScanView { truncated: true, ..self })
            } else {
                match (read.x, read.z, read.value) {
                    (Err(e), _, _) => ScanOutcome::Fail(e@),
                    (Ok(_), Err(e), _) => ScanOutcome::Fail(e@),
                    (Ok(x), Ok(z), value) => if !self.query.covers(x as int, z as int) {
                        ScanOutcome::Go(self)
                    } else if !self.query.wants_value() {
                        self.after_row(GridRow { x, z, value: None })
                    } else {
                        match value {
                            Ok(v) => self.after_row(GridRow { x, z, value: Some(v) }),
                            Err(e) => ScanOutcome::Fail(e@),
                        }
                    },
                }
            },
        }
    }
}

proof fn lemma_represents_push(
    was: i64,
    rows: Seq<GridRow>,
    row: GridRow,
    v: i64,
    now: i64,
    prefers_max: bool,
)
    requires
        represents(was, rows, prefers_max),
        row.value == Some(v),
        rows.len() == 0 ==> now == v,
        rows.len() > 0 ==> now == (if prefers_max {
            if v > was {
                v
            } else {
                was
            }
        } else {
            if v < was {
                v
            } else {
                was
            }
        }),
    ensures
        represents(now, rows.push(row), prefers_max),
{
    let grown = rows.push(row);
    assert(grown[rows.len() as int] == row);
    if rows.len() > 0 {
        let k = choose|k: int| 0 <= k < rows.len() && (#[trigger] rows[k]).value == Some(was);
        assert(grown[k] == rows[k]);
        assert forall|k: int| 0 <= k < grown.len() implies ((#[trigger] grown[k]).value matches Some(
            w,
        ) && if prefers_max {
            w <= now
        } else {
            now <= w
        }) by {
            if k < rows.len() {
                assert(grown[k] == rows[k]);
            }
        }
    }
}

/// A tile scan under way.
pub struct TileScan {
    query: TileQuery,
    grid: HighlightGrid,
    folded: Ghost<Seq<GridRow>>,
}

impl View for TileScan {
    type V = ScanView;

    closed spec fn view(&self) -> ScanView {
        ScanView { query: self.query, folded: self.folded@, truncated: self.grid.truncated }
    }
}

impl TileScan {
    /// The grid shows what was folded.
    pub closed spec fn well_formed(&self) -> bool {
        self.grid.shows(self.query, self.folded@)
    }

    /// A scan of the tile `query` that has seen no row.
    pub fn new(query: TileQuery) -> (r: TileScan)
        requires
            query.fits(),
        ensures
            r.well_formed(),
            r@ == (ScanView { query, folded: Seq::empty(), truncated: false }),
    {
        let cells = query.cells_per_axis();
        let px: usize = if query.tile_size < 1 {
            1
        } else {
            query.tile_size
        };
        assert(px / cells >= 1) by (nonlinear_arith)
            requires
                1 <= cells <= px,
        ;
        let area: usize = cells * cells;
        let counts: Vec<u32> = vec![0u32; area];
        let values: Option<Vec<i64>> = if query.needs_value() {
            Some(vec![0i64; area])
        } else {
            None
        };
        let grid = HighlightGrid {
            cells,
            cell_px: px / cells,
            counts,
            values,
            rows: 0,
            truncated: false,
        };
        let ghost none = Seq::<GridRow>::empty();
        proof {
            reveal(Seq::filter);
            assert forall|i: int| rows_in_cell(query, none, i).len() == 0 by {}
        }
        TileScan { query, grid, folded: Ghost(none) }
    }

    /// Takes one event of the statement into the grid.
    pub fn step(&mut self, event: ScanEvent) -> (r: Result<ScanStep, String>)
        requires
            old(self).well_formed(),
        ensures
            final(self).well_formed(),
            old(self)@.after(event) == (match r {
                Ok(ScanStep::Continue) => ScanOutcome::Go(final(self)@),
                Ok(ScanStep::Finished) => ScanOutcome::Stop(final(self)@),
                Err(e) => ScanOutcome::Fail(e@),
            }),
    {
        let read = match event {
            ScanEvent::End => return Ok(ScanStep::Finished),
            ScanEvent::Failed { deadline_fired, interrupted, message } => {
                // Only the interruption that a fired deadline raises cuts the
                // scan short; any other failure is reported as one.
                if deadline_fired && interrupted {
                    self.grid.truncated = true;
                    return Ok(ScanStep::Finished);
                }
                return Err(message);
            },
            ScanEvent::Row(read) => read,
        };
        if self.grid.rows >= self.query.row_cap {
            self.grid.truncated = true;
            return Ok(ScanStep::Finished);
        }
        let x: i64 = match read.x {
            Ok(x) => x,
            Err(e) => return Err(e),
        };
        let z: i64 = match read.z {
            Ok(z) => z,
            Err(e) => return Err(e),
        };
        // The statement's WHERE clause already keeps to the window.
        let q = self.query;
        if x < q.cx0 || x >= q.end_from(q.cx0) || z < q.cz0 || z >= q.end_from(q.cz0) {
            return Ok(ScanStep::Continue);
        }
        let value: Option<i64> = if q.needs_value() {
            match read.value {
                Ok(v) => Some(v),
                Err(e) => return Err(e),
            }
        } else {
            None
        };
        self.fold(GridRow { x, z, value });
        Ok(ScanStep::Continue)
    }

    fn fold(&mut self, row: GridRow)
        requires
            old(self).well_formed(),
            old(self).query.covers(row.x as int, row.z as int),
            row.value is Some <==> old(self).query.wants_value(),
            old(self).grid.rows < old(self).query.row_cap,
        ensures
            final(self).well_formed(),
            final(self).query == old(self).query,
            final(self).grid.truncated == old(self).grid.truncated,
            final(self).folded@ == old(self).folded@.push(row),
    {
        let q = self.query;
        let ghost rows = self.folded@;
        let ghost grown = rows.push(row);
        let cells = self.grid.cells;
        proof {
            law_window_lands_in_grid(q, row.x as int, row.z as int);
            lemma_axis_in_grid(q, row.x as int, q.cx0 as int);
            lemma_axis_in_grid(q, row.z as int, q.cz0 as int);
        }
        let cx = q.cell_from(row.x, q.cx0);
        let cz = q.cell_from(row.z, q.cz0);
        proof {
            lemma_cell_in_grid(cx as int, cz as int, cells as int);
        }
        assert(self.grid.counts.len() == cells * cells);
        let i: usize = cz * cells + cx;
        proof {
            assert forall|j: int| #[trigger] rows_in_cell(q, grown, j) == (if j == i {
                rows_in_cell(q, rows, j).push(row)
            } else {
                rows_in_cell(q, rows, j)
            }) by {
                rows.lemma_filter_push(
                    row,
                    |r: GridRow| q.cell_of(r.x as int, r.z as int) == j,
                );
            }
        }
        let first = self.grid.counts[i] == 0;
        let n: u32 = self.grid.counts[i].saturating_add(1);
        self.grid.counts.set(i, n);
        self.grid.rows = self.grid.rows + 1;
        if let Some(v) = row.value {
            if let Some(mut values) = self.grid.values.take() {
                let was = values[i];
                let now: i64 = if first {
                    v
                } else if q.semantics.prefers_max() {
                    if v > was {
                        v
                    } else {
                        was
                    }
                } else {
                    if v < was {
                        v
                    } else {
                        was
                    }
                };
                proof {
                    lemma_represents_push(
                        was,
                        rows_in_cell(q, rows, i as int),
                        row,
                        v,
                        now,
                        q.semantics is ColumnHeight,
                    );
                }
                values.set(i, now);
                self.grid.values = Some(values);
            }
        }
        self.folded = Ghost(grown);
    }

    /// The grid as it stands.
    pub fn finish(self) -> (r: HighlightGrid)
        requires
            self.well_formed(),
        ensures
            r.shows(self@.query, self@.folded),
            r.truncated == self@.truncated,
    {
        self.grid
    }
}

/// What it takes to scan one tile: a statement, the values bound to it, how
/// long it may run, and the scan that takes its rows.
pub struct TileRequest {
    pub sql: String,
    pub params: Vec<i64>,
    pub time_limit: TimeLimit,
    pub scan: TileScan,
}

impl HighlightDb {
    /// Begins to aggregate one tile's window into a [`HighlightGrid`].
    ///
    /// The rows are streamed and folded per output cell rather than collected,
    /// and the scan gives up at `q.row_cap` rows or `q.time_limit`, so a tile
    /// covering the whole world costs bounded memory and bounded time.
    pub fn tile_grid(&self, table: &str, q: &TileQuery) -> (r: TileRequest)
        requires
            q.fits(),
        ensures
            r.sql@ == tile_text(table@, *q),
            r.params@ == q.bound(),
            r.time_limit == q.time_limit,
            r.scan.well_formed(),
            r.scan@ == (ScanView { query: *q, folded: Seq::empty(), truncated: false }),
    {
        TileRequest {
            sql: tile_sql(table, q),
            params: q.sql_params(),
            time_limit: q.time_limit,
            scan: TileScan::new(*q),
        }
    }
}

/// The state that a scan has reached after `rows`, up to where it stopped.
pub open spec fn after_rows(scan: ScanView, rows: Seq<GridRow>) -> ScanView
    decreases rows.len(),
{
    if rows.len() == 0 {
        scan
    } else {
        match scan.after_row(rows[0]) {
            ScanOutcome::Go(next) => after_rows(next, rows.skip(1)),
            ScanOutcome::Stop(last) => last,
            ScanOutcome::Fail(_) => scan,
        }
    }
}

proof fn lemma_rows_up_to_cap(scan: ScanView, rows: Seq<GridRow>)
    requires
        !scan.truncated,
        scan.folded.len() <= scan.query.row_cap,
        forall|k: int|
            0 <= k < rows.len() ==> scan.query.covers(
                (#[trigger] rows[k]).x as int,
                rows[k].z as int,
            ),
    ensures
        ({
            let room = scan.query.row_cap - scan.folded.len();
            let end = after_rows(scan, rows);
            &&& end.query == scan.query
            &&& end.truncated <==> rows.len() > room
            &&& end.folded == scan.folded + (if rows.len() > room {
                rows.take(room)
            } else {
                rows
            })
        }),
    decreases rows.len(),
{
    let room = scan.query.row_cap - scan.folded.len();
    if rows.len() == 0 {
        assert(scan.folded + rows =~= scan.folded);
    } else if room == 0 {
        assert(scan.folded + rows.take(0) =~= scan.folded);
    } else {
        assert(scan.query.covers(rows[0].x as int, rows[0].z as int));
        let next = ScanView { folded: scan.folded.push(rows[0]), ..scan };
        let rest = rows.skip(1);
        assert forall|k: int| 0 <= k < rest.len() implies next.query.covers(
            (#[trigger] rest[k]).x as int,
            rest[k].z as int,
        ) by {
            assert(rest[k] == rows[k + 1]);
        }
        lemma_rows_up_to_cap(next, rest);
        if rows.len() > room {
            assert(scan.folded.push(rows[0]) + rest.take(room - 1) =~= scan.folded + rows.take(
                room,
            ));
        } else {
            assert(scan.folded.push(rows[0]) + rest =~= scan.folded + rows);
        }
    }
}

/// The row cap keeps the first `row_cap` rows of the window and says so: a
/// scan is cut short exactly when there are more rows than the cap, so a
/// result that exactly fills the cap is complete.
pub proof fn law_row_cap_is_exact(query: TileQuery, rows: Seq<GridRow>)
    requires
        forall|k: int|
            0 <= k < rows.len() ==> query.covers((#[trigger] rows[k]).x as int, rows[k].z as int),
    ensures
        ({
            let start = ScanView { query, folded: Seq::empty(), truncated: false };
            let end = after_rows(start, rows);
            &&& end.truncated <==> rows.len() > query.row_cap
            &&& end.folded == (if rows.len() > query.row_cap {
                rows.take(query.row_cap as int)
            } else {
                rows
            })
        }),
{
    let start = ScanView { query, folded: Seq::empty(), truncated: false };
    lemma_rows_up_to_cap(start, rows);
    assert(start.folded + rows =~= rows);
    if rows.len() > query.row_cap {
        assert(start.folded + rows.take(query.row_cap as int) =~= rows.take(query.row_cap as int));
    }
}

/// A scan is cut short by a row beyond the cap or by the interruption that a
/// fired deadline raises, and by nothing else. Neither fails the scan, and both
/// keep the rows that were folded before.
pub proof fn law_only_cap_or_deadline_cuts_short(scan: ScanView, event: ScanEvent)
    requires
        !scan.truncated,
    ensures
        ({
            let cut = match event {
                ScanEvent::Row(_) => scan.folded.len() >= scan.query.row_cap,
                ScanEvent::End => false,
                ScanEvent::Failed { deadline_fired, interrupted, .. } => deadline_fired
                    && interrupted,
            };
            match scan.after(event) {
                ScanOutcome::Go(next) => !cut && !next.truncated,
                ScanOutcome::Stop(last) => last.truncated == cut && last.folded == scan.folded,
                ScanOutcome::Fail(_) => !cut,
            }
        }),
{
}

/// What a scan has come to after `events`, up to where it stopped or failed.
pub open spec fn after_events(scan: ScanView, events: Seq<ScanEvent>) -> ScanOutcome
    decreases events.len(),
{
    if events.len() == 0 {
        ScanOutcome::Go(scan)
    } else {
        match scan.after(events[0]) {
            ScanOutcome::Go(next) => after_events(next, events.skip(1)),
            over => over,
        }
    }
}

/// The statement hands over `row`, which lies in the window.
pub open spec fn brings(query: TileQuery, event: ScanEvent, row: GridRow) -> bool {
    &&& query.covers(row.x as int, row.z as int)
    &&& event matches ScanEvent::Row(read) && {
        &&& read.x == Ok::<i64, String>(row.x)
        &&& read.z == Ok::<i64, String>(row.z)
        &&& if query.wants_value() {
            row.value matches Some(v) && read.value == Ok::<i64, String>(v)
        } else {
            row.value is None
        }
    }
}

proof fn lemma_rows_are_folded(scan: ScanView, events: Seq<ScanEvent>, rows: Seq<GridRow>)
    requires
        events.len() == rows.len() + 1,
        scan.folded.len() + rows.len() <= scan.query.row_cap,
        forall|k: int|
            0 <= k < rows.len() ==> brings(scan.query, events[k], #[trigger] rows[k]),
        !(events.last() is Row),
    ensures
        after_events(scan, events) == (ScanView {
            folded: scan.folded + rows,
            ..scan
        }).after(events.last()),
    decreases rows.len(),
{
    if rows.len() == 0 {
        assert(scan.folded + rows =~= scan.folded);
        assert(events.last() == events[0]);
    } else {
        assert(brings(scan.query, events[0], rows[0]));
        let next = ScanView { folded: scan.folded.push(rows[0]), ..scan };
        let later = events.skip(1);
        let rest = rows.skip(1);
        assert forall|k: int| 0 <= k < rest.len() implies brings(
            next.query,
            later[k],
            #[trigger] rest[k],
        ) by {
            assert(rest[k] == rows[k + 1]);
            assert(later[k] == events[k + 1]);
        }
        assert(later.last() == events.last());
        lemma_rows_are_folded(next, later, rest);
        assert(next.folded + rest =~= scan.folded + rows);
    }
}

/// A deadline that fires after `rows` leaves a grid of those rows that says it
/// was cut short. It leaves nothing behind: a scan begun afterwards that reads
/// the same rows to their end is complete. Any other failure is reported as one.
pub proof fn law_deadline_keeps_what_was_read(
    query: TileQuery,
    events: Seq<ScanEvent>,
    rows: Seq<GridRow>,
)
    requires
        events.len() == rows.len() + 1,
        rows.len() <= query.row_cap,
        forall|k: int| 0 <= k < rows.len() ==> brings(query, events[k], #[trigger] rows[k]),
    ensures
        ({
            let start = ScanView { query, folded: Seq::empty(), truncated: false };
            match events.last() {
                ScanEvent::Row(_) => true,
                ScanEvent::End => after_events(start, events) == ScanOutcome::Stop(
                    ScanView { query, folded: rows, truncated: false },
                ),
                ScanEvent::Failed { deadline_fired, interrupted, message } => after_events(
                    start,
                    events,
                ) == (if deadline_fired && interrupted {
                    ScanOutcome::Stop(ScanView { query, folded: rows, truncated: true })
                } else {
                    ScanOutcome::Fail(message@)
                }),
            }
        }),
{
    let start = ScanView { query, folded: Seq::empty(), truncated: false };
    if !(events.last() is Row) {
        lemma_rows_are_folded(start, events, rows);
        assert(start.folded + rows =~= rows);
    }
}

/// The sum of all counts.
pub open spec fn total(counts: Seq<u32>) -> int
    decreases counts.len(),
{
    if counts.len() == 0 {
        0
    } else {
        total(counts.drop_last()) + counts.last()
    }
}

/// The rows that land in one of the first `n` cells.
pub open spec fn landed(q: TileQuery, rows: Seq<GridRow>, n: int) -> int
    decreases n,
{
    if n <= 0 {
        0
    } else {
        landed(q, rows, n - 1) + rows_in_cell(q, rows, n - 1).len()
    }
}

proof fn lemma_landed_push(q: TileQuery, rows: Seq<GridRow>, row: GridRow, n: int)
    requires
        0 <= n,
        0 <= q.cell_of(row.x as int, row.z as int),
    ensures
        landed(q, rows.push(row), n) == landed(q, rows, n) + (if q.cell_of(
            row.x as int,
            row.z as int,
        ) < n {
            1int
        } else {
            0
        }),
    decreases n,
{
    if n > 0 {
        lemma_landed_push(q, rows, row, n - 1);
        rows.lemma_filter_push(row, |r: GridRow| q.cell_of(r.x as int, r.z as int) == n - 1);
    }
}

proof fn lemma_all_land(q: TileQuery, rows: Seq<GridRow>)
    requires
        forall|k: int|
            0 <= k < rows.len() ==> q.covers((#[trigger] rows[k]).x as int, rows[k].z as int),
    ensures
        landed(q, rows, q.cells() * q.cells()) == rows.len(),
    decreases rows.len(),
{
    let area = q.cells() * q.cells();
    assert(area >= 0) by (nonlinear_arith)
        requires
            area == q.cells() * q.cells(),
    ;
    if rows.len() == 0 {
        lemma_none_land(q, rows, area);
    } else {
        let front = rows.drop_last();
        let row = rows.last();
        assert forall|k: int| 0 <= k < front.len() implies q.covers(
            (#[trigger] front[k]).x as int,
            front[k].z as int,
        ) by {
            assert(front[k] == rows[k]);
        }
        lemma_all_land(q, front);
        assert(rows =~= front.push(row));
        assert(q.covers(rows[rows.len() - 1].x as int, row.z as int));
        law_window_lands_in_grid(q, row.x as int, row.z as int);
        lemma_landed_push(q, front, row, area);
    }
}

proof fn lemma_none_land(q: TileQuery, rows: Seq<GridRow>, n: int)
    requires
        rows.len() == 0,
    ensures
        landed(q, rows, n) == 0,
    decreases n,
{
    if n > 0 {
        lemma_none_land(q, rows, n - 1);
        reveal(Seq::filter);
    }
}

proof fn lemma_cell_within(q: TileQuery, rows: Seq<GridRow>, i: int)
    ensures
        rows_in_cell(q, rows, i).len() <= rows.len(),
{
    rows.lemma_filter_len(|r: GridRow| q.cell_of(r.x as int, r.z as int) == i);
}

/// The counts of a grid add up to the rows that were folded in, as long as no
/// cell can have saturated.
pub proof fn law_counts_add_up(grid: HighlightGrid, q: TileQuery, rows: Seq<GridRow>)
    requires
        grid.shows(q, rows),
        rows.len() <= u32::MAX,
    ensures
        total(grid.counts@) == grid.rows,
{
    lemma_all_land(q, rows);
    lemma_total_is_landed(grid, q, rows, grid.counts@.len() as int);
    assert(grid.counts@.take(grid.counts@.len() as int) =~= grid.counts@);
}

proof fn lemma_total_is_landed(grid: HighlightGrid, q: TileQuery, rows: Seq<GridRow>, n: int)
    requires
        grid.shows(q, rows),
        rows.len() <= u32::MAX,
        0 <= n <= grid.counts@.len(),
    ensures
        total(grid.counts@.take(n)) == landed(q, rows, n),
    decreases n,
{
    if n > 0 {
        lemma_total_is_landed(grid, q, rows, n - 1);
        let front = grid.counts@.take(n);
        assert(front.drop_last() =~= grid.counts@.take(n - 1));
        assert(front.last() == grid.counts@[n - 1]);
        lemma_cell_within(q, rows, n - 1);
    }
}

// ------------------------------------------------------------- the window --

/// The window is the square of `span` chunks, one at least, whose corner is
/// (cx0, cz0): it begins there and ends before the chunk `span` further on, or
/// at the end of what can be counted.
pub proof fn law_window_is_the_square(q: TileQuery, x: i64, z: i64)
    ensures
        ({
            let span = if q.span < 1 {
                1
            } else {
                q.span as int
            };
            q.covers(x as int, z as int) <==> {
                &&& q.cx0 <= x
                &&& x < q.cx0 + span
                &&& x < 0x7fff_ffff_ffff_ffff
                &&& q.cz0 <= z
                &&& z < q.cz0 + span
                &&& z < 0x7fff_ffff_ffff_ffff
            }
        }),
{
}

/// The statement asks for the window and for nothing else: the four bounds are
/// those of the window, and where a least value is set it is the fifth. The
/// value column is read where values are heights or a least one is set.
pub proof fn law_statement_asks_for_the_window(table: Seq<char>, q: TileQuery)
    ensures
        ({
            let columns = if q.semantics is ColumnHeight || q.min_value is Some {
                "x, z, foundTime"@
            } else {
                "x, z"@
            };
            let window = "SELECT "@ + columns + " FROM "@ + quoted(table)
                + " WHERE x >= ?1 AND x < ?2 AND z >= ?3 AND z < ?4"@;
            match q.min_value {
                None => tile_text(table, q) == window && q.bound().len() == 4,
                Some(v) => tile_text(table, q) == window + " AND foundTime >= ?5"@
                    && q.bound().len() == 5 && q.bound()[4] == v,
            }
        }),
        forall|x: i64, z: i64|
            q.bound()[0] <= x < q.bound()[1] && q.bound()[2] <= z < q.bound()[3]
                <==> #[trigger] q.covers(x as int, z as int),
{
    let columns = if q.semantics is ColumnHeight || q.min_value is Some {
        "x, z, foundTime"@
    } else {
        "x, z"@
    };
    let window = "SELECT "@ + columns + " FROM "@ + quoted(table)
        + " WHERE x >= ?1 AND x < ?2 AND z >= ?3 AND z < ?4"@;
    assert(window + Seq::<char>::empty() =~= window);
}

/// The chunk at distance `d` from the window's edge falls into cell `c` of an
/// axis: each of the `cells` cells has its share of the `span` chunks.
pub open spec fn falls_into(d: int, c: int, cells: int, span: int) -> bool {
    c * span <= d * cells < (c + 1) * span
}

/// The cells of an axis share out its chunks evenly and in order, x by column
/// and z by row, row after row.
pub proof fn law_cells_share_out_the_window(q: TileQuery, x: i64, z: i64, cx: int, cz: int)
    requires
        q.covers(x as int, z as int),
        0 <= cx < q.cells(),
        0 <= cz < q.cells(),
    ensures
        q.cell_of(x as int, z as int) == cz * q.cells() + cx <==> falls_into(
            x - q.cx0,
            cx,
            q.cells(),
            q.chunks(),
        ) && falls_into(z - q.cz0, cz, q.cells(), q.chunks()),
        q.cells() == (if q.pixels() < q.chunks() {
            q.pixels()
        } else {
            q.chunks()
        }),
{
    let c = q.cells();
    let s = q.chunks();
    let ax = q.cell_on_axis(x as int, q.cx0 as int);
    let az = q.cell_on_axis(z as int, q.cz0 as int);
    law_window_lands_in_grid(q, x as int, z as int);
    lemma_axis_share(x - q.cx0, cx, c, s);
    lemma_axis_share(z - q.cz0, cz, c, s);
    assert(az * c + ax == cz * c + cx ==> az == cz && ax == cx) by (nonlinear_arith)
        requires
            0 <= ax < c,
            0 <= cx < c,
            0 <= az,
            0 <= cz,
    ;
}

proof fn lemma_axis_share(d: int, c: int, cells: int, span: int)
    requires
        span >= 1,
    ensures
        (d * cells) / span == c <==> falls_into(d, c, cells, span),
{
    let n = d * cells;
    assert(n / span == c <==> c * span <= n < (c + 1) * span) by (nonlinear_arith)
        requires
            span >= 1,
    ;
}

/// A row counts in the cell that its chunk falls into, once, and in no other.
pub proof fn law_row_counts_in_its_cell(
    before: HighlightGrid,
    after: HighlightGrid,
    q: TileQuery,
    rows: Seq<GridRow>,
    row: GridRow,
    cx: int,
    cz: int,
)
    requires
        before.shows(q, rows),
        after.shows(q, rows.push(row)),
        0 <= cx < q.cells(),
        0 <= cz < q.cells(),
    ensures
        ({
            let i = cz * q.cells() + cx;
            let hit = falls_into(row.x - q.cx0, cx, q.cells(), q.chunks()) && falls_into(
                row.z - q.cz0,
                cz,
                q.cells(),
                q.chunks(),
            );
            &&& after.rows == before.rows + 1
            &&& after.counts@[i] == (if hit && before.counts@[i] < 0xffff_ffff {
                before.counts@[i] + 1
            } else {
                before.counts@[i] as int
            })
        }),
{
    let i = cz * q.cells() + cx;
    law_every_cell_is_held(before, cx, cz);
    assert(rows.push(row)[rows.len() as int] == row);
    law_cells_share_out_the_window(q, row.x, row.z, cx, cz);
    rows.lemma_filter_push(row, |r: GridRow| q.cell_of(r.x as int, r.z as int) == i);
    assert(before.counts@[i] == saturated(rows_in_cell(q, rows, i).len()));
    assert(after.counts@[i] == saturated(rows_in_cell(q, rows.push(row), i).len()));
}

proof fn lemma_kept_at(rows: Seq<GridRow>, p: spec_fn(GridRow) -> bool, j: int) -> (k: int)
    requires
        0 <= j < rows.filter(p).len(),
    ensures
        0 <= k < rows.len(),
        rows[k] == rows.filter(p)[j],
        p(rows[k]),
{
    let kept = rows.filter(p);
    rows.lemma_filter_pred(p, j);
    assert(kept.contains(kept[j]));
    rows.lemma_filter_contains_rev(p, kept[j]);
    choose|k: int| 0 <= k < rows.len() && rows[k] == kept[j]
}

/// The value of a cell is that of one of its rows: the greatest where values
/// are heights, the smallest where they are times. An empty cell counts no row.
pub proof fn law_cell_shows_its_best_row(
    grid: HighlightGrid,
    q: TileQuery,
    rows: Seq<GridRow>,
    cx: int,
    cz: int,
)
    requires
        grid.shows(q, rows),
        0 <= cx < q.cells(),
        0 <= cz < q.cells(),
    ensures
        ({
            let i = cz * q.cells() + cx;
            let lands = |r: GridRow|
                falls_into(r.x - q.cx0, cx, q.cells(), q.chunks()) && falls_into(
                    r.z - q.cz0,
                    cz,
                    q.cells(),
                    q.chunks(),
                );
            &&& grid.counts@[i] > 0 <==> exists|k: int|
                0 <= k < rows.len() && lands(#[trigger] rows[k])
            &&& grid.values matches Some(v) ==> {
                &&& forall|k: int|
                    0 <= k < rows.len() && lands(#[trigger] rows[k]) ==> (
                    rows[k].value matches Some(w) && if q.semantics is ColumnHeight {
                        w <= v@[i]
                    } else {
                        v@[i] <= w
                    })
                &&& grid.counts@[i] > 0 ==> exists|k: int|
                    0 <= k < rows.len() && lands(#[trigger] rows[k]) && rows[k].value == Some(v@[i])
            }
        }),
{
    let i = cz * q.cells() + cx;
    let lands = |r: GridRow|
        falls_into(r.x - q.cx0, cx, q.cells(), q.chunks()) && falls_into(
            r.z - q.cz0,
            cz,
            q.cells(),
            q.chunks(),
        );
    let here = |r: GridRow| q.cell_of(r.x as int, r.z as int) == i;
    let kept = rows.filter(here);
    law_every_cell_is_held(grid, cx, cz);
    assert forall|k: int| 0 <= k < rows.len() implies (lands(#[trigger] rows[k]) <==> here(
        rows[k],
    )) by {
        law_cells_share_out_the_window(q, rows[k].x, rows[k].z, cx, cz);
    }
    assert(grid.counts@[i] == saturated(rows_in_cell(q, rows, i).len()));
    assert forall|k: int| 0 <= k < rows.len() && lands(#[trigger] rows[k]) implies kept.contains(
        rows[k],
    ) by {
        rows.lemma_filter_contains(here, k);
    }
    if kept.len() > 0 {
        let k = lemma_kept_at(rows, here, 0);
        assert(lands(rows[k]));
    }
    if let Some(v) = grid.values {
        assert(represents(v@[i], rows_in_cell(q, rows, i), q.semantics is ColumnHeight));
        assert forall|k: int| 0 <= k < rows.len() && lands(#[trigger] rows[k]) implies (
        rows[k].value matches Some(w) && if q.semantics is ColumnHeight {
            w <= v@[i]
        } else {
            v@[i] <= w
        }) by {
            let j = choose|j: int| 0 <= j < kept.len() && kept[j] == rows[k];
            assert(kept[j].value == rows[k].value);
        }
        if kept.len() > 0 {
            let j = choose|j: int| 0 <= j < kept.len() && (#[trigger] kept[j]).value == Some(v@[i]);
            let k = lemma_kept_at(rows, here, j);
            assert(lands(rows[k]));
            assert(rows[k].value == Some(v@[i]));
        }
    }
}

/// The values are read for a column of heights and for a least value, and only
/// then.
pub proof fn law_values_are_read_where_they_count(q: TileQuery)
    ensures
        q.semantics is ColumnHeight ==> q.wants_value(),
        q.min_value is Some ==> q.wants_value(),
        q.wants_value() ==> q.semantics is ColumnHeight || q.min_value is Some,
{
}

} // verus!
