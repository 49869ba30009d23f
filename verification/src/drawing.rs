//! `XaeroPlusDrawing.db`: the mod's hand-drawn annotation layer.
//!
//! Four table families per dimension, named `"<dimension resource key>-<family>"`:
//!
//! ```text
//! "<dim>-highlights" (x, z, color)                     CHUNK coords
//! "<dim>-lines"      (x1, z1, x2, z2, color)           BLOCK coords
//! "<dim>-texts"      (value, x, z, color, scale)       BLOCK coords
//! "<dim>-ellipses"   (centerX, centerZ, radiusX, radiusZ, color)  BLOCK
//! metadata (version INTEGER PRIMARY KEY, time DATETIME ..)
//! ```
//!
//! `color` is a signed 32-bit ARGB int. `metadata` holds one row per applied
//! migration, so the schema version is `MAX(version)`: v0 has highlights,
//! lines and texts, v1 adds ellipses. Tables are created lazily per dimension
//! actually visited, so a drawing DB routinely lacks whole families.

use vstd::prelude::*;
use crate::database::{coordinate, counted, has_name, lists, pair_counts, to_coordinate};
use crate::database::{Column, MetadataShape, WindowSql};
use crate::order::{dedup, has_rank, law_sorting_keeps_ranks, sort, strictly_in_order, Ranked};
use crate::picking::{climbs, lemma_filter_map_places, lemma_filter_map_push};
use crate::sql::{quote_ident, quoted};
use crate::text::{contains, finishes_with, has_text, strip_suffix};

verus! {

/// True for a file name that is a XaeroPlus drawing database.
pub fn is_drawing_db(db_name: &str) -> (r: bool)
    ensures
        r == has_text(db_name@, "Drawing"@),
{
    contains(db_name, "Drawing")
}

/// One of the four drawing table families.
#[derive(Debug, Clone, Copy, PartialEq, Eq, Structural)]
pub enum DrawingFamily {
    Highlights,
    Lines,
    Texts,
    Ellipses,
}

impl DrawingFamily {
    /// Every family.
    pub fn all() -> (r: [DrawingFamily; 4])
        ensures
            r@ == seq![
                DrawingFamily::Highlights,
                DrawingFamily::Lines,
                DrawingFamily::Texts,
                DrawingFamily::Ellipses,
            ],
    {
        [
            DrawingFamily::Highlights,
            DrawingFamily::Lines,
            DrawingFamily::Texts,
            DrawingFamily::Ellipses,
        ]
    }

    /// What the name of a table of this family ends with.
    pub open spec fn ending(self) -> Seq<char> {
        match self {
            DrawingFamily::Highlights => "-highlights"@,
            DrawingFamily::Lines => "-lines"@,
            DrawingFamily::Texts => "-texts"@,
            DrawingFamily::Ellipses => "-ellipses"@,
        }
    }

    /// The table-name suffix, including the separating '-'.
    pub fn suffix(self) -> (r: &'static str)
        ensures
            r@ == self.ending(),
    {
        match self {
            DrawingFamily::Highlights => "-highlights",
            DrawingFamily::Lines => "-lines",
            DrawingFamily::Texts => "-texts",
            DrawingFamily::Ellipses => "-ellipses",
        }
    }

    /// The dimension key and the family of a drawing table, if `table` is
    /// named as one.
    pub fn from_table(table: &str) -> (r: Option<(String, DrawingFamily)>)
        ensures
            match r {
                Some((dim, family)) => table@ == dim@ + family.ending(),
                None => forall|family: DrawingFamily| !names_family(table@, family),
            },
    {
        if let Some(dim) = strip_suffix(table, DrawingFamily::Highlights.suffix()) {
            return Some((dim, DrawingFamily::Highlights));
        }
        if let Some(dim) = strip_suffix(table, DrawingFamily::Lines.suffix()) {
            return Some((dim, DrawingFamily::Lines));
        }
        if let Some(dim) = strip_suffix(table, DrawingFamily::Texts.suffix()) {
            return Some((dim, DrawingFamily::Texts));
        }
        if let Some(dim) = strip_suffix(table, DrawingFamily::Ellipses.suffix()) {
            return Some((dim, DrawingFamily::Ellipses));
        }
        None
    }
}

/// `table` is named as a table of `family`.
pub open spec fn names_family(table: Seq<char>, family: DrawingFamily) -> bool {
    finishes_with(table, family.ending())
}

/// `table` is the name of a drawing table of `dimension`.
pub open spec fn names_dimension(table: Seq<char>, dimension: Seq<char>) -> bool {
    exists|family: DrawingFamily| table == dimension + #[trigger] family.ending()
}

proof fn lemma_endings()
    ensures
        forall|a: DrawingFamily, b: DrawingFamily|
            (#[trigger] a.ending()).last() == 's' && a.ending().len() >= 6 && (a != b ==> (
            #[trigger] b.ending())[b.ending().len() - 4] != a.ending()[a.ending().len() - 4]
                || b.ending()[b.ending().len() - 3] != a.ending()[a.ending().len() - 3]
                || b.ending()[b.ending().len() - 2] != a.ending()[a.ending().len() - 2]),
{
    reveal_strlit("-highlights");
    reveal_strlit("-lines");
    reveal_strlit("-texts");
    reveal_strlit("-ellipses");
}

/// A table name tells its dimension and its family: no two pairs share one, so
/// what [`DrawingFamily::from_table`] reads back is what the name was made
/// from.
pub proof fn law_table_names_are_unambiguous(
    dim_a: Seq<char>,
    a: DrawingFamily,
    dim_b: Seq<char>,
    b: DrawingFamily,
)
    requires
        dim_a + a.ending() == dim_b + b.ending(),
    ensures
        a == b,
        dim_a == dim_b,
{
    lemma_endings();
    let table = dim_a + a.ending();
    let n = table.len() as int;
    assert(table[n - 4] == a.ending()[a.ending().len() - 4]);
    assert(table[n - 3] == a.ending()[a.ending().len() - 3]);
    assert(table[n - 2] == a.ending()[a.ending().len() - 2]);
    assert((dim_b + b.ending())[n - 4] == b.ending()[b.ending().len() - 4]);
    assert((dim_b + b.ending())[n - 3] == b.ending()[b.ending().len() - 3]);
    assert((dim_b + b.ending())[n - 2] == b.ending()[b.ending().len() - 2]);
    assert(dim_a =~= table.take(n - a.ending().len()));
    assert(dim_b =~= (dim_b + b.ending()).take(n - a.ending().len()));
}

/// A chunk-sized filled square. x/z are CHUNK coordinates.
#[derive(Debug, Clone, Copy, PartialEq, Eq, Structural)]
pub struct DrawingHighlight {
    pub x: i32,
    pub z: i32,
    /// ARGB, as stored (signed in SQLite, reinterpreted unsigned here).
    pub color: u32,
}

/// A segment between two BLOCK positions.
#[derive(Debug, Clone, Copy, PartialEq, Eq, Structural)]
pub struct DrawingLine {
    pub x1: i32,
    pub z1: i32,
    pub x2: i32,
    pub z2: i32,
    pub color: u32,
}

/// A label anchored at a BLOCK position.
#[derive(Debug, Clone, PartialEq, Eq)]
pub struct DrawingText {
    pub value: String,
    pub x: i32,
    pub z: i32,
    pub color: u32,
    /// The mod's render scale: the bits of a single-precision float.
    pub scale_bits: u32,
}

/// An axis-aligned ellipse in BLOCK coordinates (v1 drawing DBs only).
#[derive(Debug, Clone, Copy, PartialEq, Eq, Structural)]
pub struct DrawingEllipse {
    pub center_x: i32,
    pub center_z: i32,
    pub radius_x: i32,
    pub radius_z: i32,
    pub color: u32,
}

/// The ARGB colour that a stored integer stands for: its low 32 bits.
pub open spec fn argb(stored: i64) -> u32 {
    (stored as int % 0x1_0000_0000) as u32
}

fn to_argb(stored: i64) -> (r: u32)
    ensures
        r == argb(stored),
{
    let shifted: u128 = (stored as i128 + 0x1_0000_0000_0000_0000i128) as u128;
    assert(shifted as int % 0x1_0000_0000 == stored as int % 0x1_0000_0000);
    (shifted % 0x1_0000_0000) as u32
}

/// A row as it was read, before its columns are held to what they should be.
pub trait DrawingRow: Sized {
    /// What a row of this shape holds.
    type Drawn;

    /// What this row holds: nothing when a column cannot be read as what it
    /// should be.
    spec fn drawn(&self) -> Option<Self::Drawn>;

    /// Reads the row.
    fn draw(&self) -> (r: Option<Self::Drawn>)
        ensures
            r == self.drawn(),
    ;
}

/// What the readable rows among `rows` hold, in order.
pub open spec fn all_drawn<R: DrawingRow>(rows: Seq<R>) -> Seq<R::Drawn> {
    rows.filter_map(|row: R| row.drawn())
}

/// Reads `rows` in order; one that cannot be read is passed over.
pub fn draw_all<R: DrawingRow>(rows: &Vec<R>) -> (r: Vec<R::Drawn>)
    ensures
        r@ == all_drawn(rows@),
{
    let mut out: Vec<R::Drawn> = Vec::new();
    let mut i: usize = 0;
    let ghost f = |row: R| row.drawn();
    assert(rows@.take(0).filter_map(f) =~= Seq::<R::Drawn>::empty());
    while i < rows.len()
        invariant
            i <= rows@.len(),
            f == (|row: R| row.drawn()),
            out@ == rows@.take(i as int).filter_map(f),
        decreases rows@.len() - i,
    {
        proof {
            rows@.lemma_filter_map_take_succ(f, i as int);
        }
        if let Some(drawn) = rows[i].draw() {
            out.push(drawn);
        }
        i = i + 1;
    }
    assert(rows@.take(rows@.len() as int) =~= rows@);
    out
}

/// A row (x, z, color).
#[derive(Debug, Clone, Copy)]
pub struct HighlightRow {
    pub x: Column,
    pub z: Column,
    pub color: Column,
}

impl DrawingRow for HighlightRow {
    type Drawn = DrawingHighlight;

    open spec fn drawn(&self) -> Option<DrawingHighlight> {
        match (coordinate(self.x), coordinate(self.z), self.color) {
            (Some(x), Some(z), Some(c)) => Some(DrawingHighlight { x, z, color: argb(c) }),
            _ => None,
        }
    }

    fn draw(&self) -> (r: Option<DrawingHighlight>) {
        match (to_coordinate(self.x), to_coordinate(self.z), self.color) {
            (Some(x), Some(z), Some(c)) => Some(DrawingHighlight { x, z, color: to_argb(c) }),
            _ => None,
        }
    }
}

/// A row (x1, z1, x2, z2, color).
#[derive(Debug, Clone, Copy)]
pub struct LineRow {
    pub x1: Column,
    pub z1: Column,
    pub x2: Column,
    pub z2: Column,
    pub color: Column,
}

impl DrawingRow for LineRow {
    type Drawn = DrawingLine;

    open spec fn drawn(&self) -> Option<DrawingLine> {
        match (
            coordinate(self.x1),
            coordinate(self.z1),
            coordinate(self.x2),
            coordinate(self.z2),
            self.color,
        ) {
            (Some(x1), Some(z1), Some(x2), Some(z2), Some(c)) => Some(
                DrawingLine { x1, z1, x2, z2, color: argb(c) },
            ),
            _ => None,
        }
    }

    fn draw(&self) -> (r: Option<DrawingLine>) {
        match (
            to_coordinate(self.x1),
            to_coordinate(self.z1),
            to_coordinate(self.x2),
            to_coordinate(self.z2),
            self.color,
        ) {
            (Some(x1), Some(z1), Some(x2), Some(z2), Some(c)) => Some(
                DrawingLine { x1, z1, x2, z2, color: to_argb(c) },
            ),
            _ => None,
        }
    }
}

/// A row (value, x, z, color, scale); the scale as the bits of a
/// single-precision float.
#[derive(Debug)]
pub struct TextRow {
    pub value: Option<String>,
    pub x: Column,
    pub z: Column,
    pub color: Column,
    pub scale_bits: Option<u32>,
}

impl DrawingRow for TextRow {
    type Drawn = DrawingText;

    open spec fn drawn(&self) -> Option<DrawingText> {
        match (self.value, coordinate(self.x), coordinate(self.z), self.color, self.scale_bits) {
            (Some(value), Some(x), Some(z), Some(c), Some(scale_bits)) => Some(
                DrawingText { value, x, z, color: argb(c), scale_bits },
            ),
            _ => None,
        }
    }

    fn draw(&self) -> (r: Option<DrawingText>) {
        match (&self.value, to_coordinate(self.x), to_coordinate(self.z), self.color, self.scale_bits) {
            (Some(value), Some(x), Some(z), Some(c), Some(scale_bits)) => Some(
                DrawingText { value: value.clone(), x, z, color: to_argb(c), scale_bits },
            ),
            _ => None,
        }
    }
}

/// A row (centerX, centerZ, radiusX, radiusZ, color).
#[derive(Debug, Clone, Copy)]
pub struct EllipseRow {
    pub center_x: Column,
    pub center_z: Column,
    pub radius_x: Column,
    pub radius_z: Column,
    pub color: Column,
}

impl DrawingRow for EllipseRow {
    type Drawn = DrawingEllipse;

    open spec fn drawn(&self) -> Option<DrawingEllipse> {
        match (
            coordinate(self.center_x),
            coordinate(self.center_z),
            coordinate(self.radius_x),
            coordinate(self.radius_z),
            self.color,
        ) {
            (Some(center_x), Some(center_z), Some(radius_x), Some(radius_z), Some(c)) => Some(
                DrawingEllipse { center_x, center_z, radius_x, radius_z, color: argb(c) },
            ),
            _ => None,
        }
    }

    fn draw(&self) -> (r: Option<DrawingEllipse>) {
        match (
            to_coordinate(self.center_x),
            to_coordinate(self.center_z),
            to_coordinate(self.radius_x),
            to_coordinate(self.radius_z),
            self.color,
        ) {
            (Some(center_x), Some(center_z), Some(radius_x), Some(radius_z), Some(c)) => Some(
                DrawingEllipse { center_x, center_z, radius_x, radius_z, color: to_argb(c) },
            ),
            _ => None,
        }
    }
}

/// The rows of the drawing tables of one dimension, as they were read.
#[derive(Debug)]
pub struct DimensionRows {
    pub highlights: Vec<HighlightRow>,
    pub lines: Vec<LineRow>,
    pub texts: Vec<TextRow>,
    pub ellipses: Vec<EllipseRow>,
}

/// Everything drawn in one dimension.
#[derive(Debug, Clone)]
pub struct DimensionDrawings {
    pub dimension: String,
    pub highlights: Vec<DrawingHighlight>,
    pub lines: Vec<DrawingLine>,
    pub texts: Vec<DrawingText>,
    pub ellipses: Vec<DrawingEllipse>,
}

impl Default for DimensionDrawings {
    fn default() -> (r: Self)
        ensures
            r.dimension@.len() == 0,
            r.highlights@.len() == 0,
            r.lines@.len() == 0,
            r.texts@.len() == 0,
            r.ellipses@.len() == 0,
    {
        DimensionDrawings {
            dimension: String::new(),
            highlights: Vec::new(),
            lines: Vec::new(),
            texts: Vec::new(),
            ellipses: Vec::new(),
        }
    }
}

impl DimensionDrawings {
    /// True when nothing is drawn.
    pub fn is_empty(&self) -> (r: bool)
        ensures
            r == (self.highlights@.len() + self.lines@.len() + self.texts@.len()
                + self.ellipses@.len() == 0),
    {
        self.highlights.len() == 0 && self.lines.len() == 0 && self.texts.len() == 0
            && self.ellipses.len() == 0
    }
}

/// The statements that read the drawing tables of one dimension; none for a
/// table that the mod never created.
#[derive(Debug)]
pub struct DimensionSql {
    pub highlights: Option<String>,
    pub lines: Option<String>,
    pub texts: Option<String>,
    pub ellipses: Option<String>,
}

/// An inspected drawing database.
#[derive(Debug)]
pub struct DrawingDb {
    /// `MAX(version)` of the migration ledger: 0 = no ellipses, 1 = ellipses.
    pub version: u32,
    pub metadata: MetadataShape,
    /// Raw table names, e.g. "minecraft:overworld-highlights".
    pub tables: Vec<String>,
}

impl DrawingDb {
    /// There is a table of `family` for the dimension.
    pub open spec fn has_family(&self, dimension_key: Seq<char>, family: DrawingFamily) -> bool {
        has_name(self.tables@, dimension_key + family.ending())
    }

    /// There is at least one drawing table for the dimension.
    pub open spec fn has_dimension(&self, dimension_key: Seq<char>) -> bool {
        exists|family: DrawingFamily| #[trigger] self.has_family(dimension_key, family)
    }

    /// Dimension resource keys that have at least one drawing table, sorted.
    pub fn dimensions(&self) -> (r: Vec<String>)
        ensures
            strictly_in_order(r@),
            forall|d: Seq<char>| #[trigger] has_name(r@, d) <==> self.has_dimension(d),
    {
        let mut dims: Vec<String> = Vec::new();
        let mut i: usize = 0;
        while i < self.tables.len()
            invariant
                i <= self.tables@.len(),
                forall|d: Seq<char>| #[trigger]
                    has_name(dims@, d) <==> exists|k: int|
                        0 <= k < i && #[trigger] names_dimension(self.tables@[k]@, d),
            decreases self.tables@.len() - i,
        {
            let ghost before = dims@;
            let table = self.tables[i].as_str();
            let found = DrawingFamily::from_table(table);
            if let Some((dim, family)) = found {
                proof {
                    assert(names_dimension(table@, dim@)) by {
                        assert(table@ == dim@ + family.ending());
                    }
                }
                dims.push(dim);
                proof {
                    assert forall|d: Seq<char>| #[trigger] has_name(dims@, d) <==> exists|k: int|
                        0 <= k < i + 1 && #[trigger] names_dimension(self.tables@[k]@, d) by {
                        lemma_has_name_push(before, dim, d);
                        if names_dimension(table@, d) {
                            let f = choose|f: DrawingFamily| table@ == d + #[trigger] f.ending();
                            law_table_names_are_unambiguous(dim@, family, d, f);
                        }
                        if dim@ == d {
                            assert(names_dimension(self.tables@[i as int]@, d));
                        }
                    }
                }
            } else {
                proof {
                    assert forall|d: Seq<char>| !#[trigger] names_dimension(table@, d) by {
                        if names_dimension(table@, d) {
                            let f = choose|f: DrawingFamily| table@ == d + #[trigger] f.ending();
                            assert(table@.subrange(d.len() as int, table@.len() as int)
                                =~= f.ending());
                            assert(names_family(table@, f));
                        }
                    }
                }
            }
            i = i + 1;
        }
        let sorted = sort(dims);
        let out = dedup(sorted);
        proof {
            assert forall|d: Seq<char>| #[trigger] has_name(out@, d) <==> self.has_dimension(d) by {
                lemma_has_name_is_has_rank(out@, d);
                lemma_has_name_is_has_rank(dims@, d);
                law_sorting_keeps_ranks(dims@, sorted@, d);
                assert(has_rank(out@, d) <==> has_rank(sorted@, d));
                if has_name(dims@, d) {
                    let k = choose|k: int|
                        0 <= k < self.tables@.len() && #[trigger] names_dimension(
                            self.tables@[k]@,
                            d,
                        );
                    let f = choose|f: DrawingFamily|
                        self.tables@[k]@ == d + #[trigger] f.ending();
                    assert(self.has_family(d, f));
                }
                if self.has_dimension(d) {
                    let f = choose|f: DrawingFamily| #[trigger] self.has_family(d, f);
                    let k = choose|k: int|
                        0 <= k < self.tables@.len() && (#[trigger] self.tables@[k])@ == d
                            + f.ending();
                    assert(names_dimension(self.tables@[k]@, d));
                }
            }
        }
        out
    }

    /// The table for a dimension/family pair, if the mod ever created it.
    pub fn table_for(&self, dimension_key: &str, family: DrawingFamily) -> (r: Option<String>)
        ensures
            r is Some <==> self.has_family(dimension_key@, family),
            r matches Some(table) ==> table@ == dimension_key@ + family.ending(),
    {
        let mut want = dimension_key.to_owned();
        want.append(family.suffix());
        if lists(&self.tables, want.as_str()) {
            Some(want)
        } else {
            None
        }
    }

    /// Row count per drawing table, so an empty overlay is distinguishable
    /// from a missing one. `counts` holds what counting each table brought, in
    /// the order of `tables`; the first failure is the answer.
    pub fn counts(&self, counts: Vec<Result<u64, String>>) -> (r: Result<
        Vec<(String, u64)>,
        String,
    >)
        requires
            counts@.len() == self.tables@.len(),
        ensures
            counted(self.tables@, counts@, r),
    {
        pair_counts(&self.tables, counts)
    }

    /// The statement that reads `columns` of one family of the dimension.
    pub open spec fn family_sql(
        &self,
        dimension_key: Seq<char>,
        family: DrawingFamily,
        columns: Seq<char>,
    ) -> Option<Seq<char>> {
        if self.has_family(dimension_key, family) {
            Some("SELECT "@ + columns + " FROM "@ + quoted(dimension_key + family.ending()))
        } else {
            None
        }
    }

    fn select(&self, dimension_key: &str, family: DrawingFamily, columns: &str) -> (r: Option<
        String,
    >)
        ensures
            text_of(r) == self.family_sql(dimension_key@, family, columns@),
    {
        match self.table_for(dimension_key, family) {
            Some(table) => {
                let mut sql = String::new();
                sql.append("SELECT ");
                sql.append(columns);
                sql.append(" FROM ");
                sql.append(quote_ident(table.as_str()).as_str());
                Some(sql)
            },
            None => None,
        }
    }

    /// The statement that reads the chunk highlights of a dimension inside the
    /// half-open CHUNK window [x0,x1) x [z0,z1).
    pub fn highlights_in_window_sql(
        &self,
        dimension_key: &str,
        x0: i64,
        x1: i64,
        z0: i64,
        z1: i64,
    ) -> (r: Option<WindowSql>)
        ensures
            reads_window_of(*self, dimension_key@, x0, x1, z0, z1, r),
    {
        match self.select(dimension_key, DrawingFamily::Highlights, "x, z, color") {
            Some(head) => {
                let mut sql = head;
                sql.append(" WHERE x >= ?1 AND x < ?2 AND z >= ?3 AND z < ?4");
                Some(WindowSql { sql, params: [x0, x1, z0, z1] })
            },
            None => None,
        }
    }

    /// The statements that read everything drawn in one dimension. The mod
    /// itself reads lines, texts and ellipses with a bare `SELECT *`, so there
    /// is nothing to window.
    pub fn read_dimension_sql(&self, dimension_key: &str) -> (r: DimensionSql)
        ensures
            reads_all_of(*self, dimension_key@, r),
    {
        DimensionSql {
            highlights: self.select(dimension_key, DrawingFamily::Highlights, "x, z, color"),
            lines: self.select(dimension_key, DrawingFamily::Lines, "x1, z1, x2, z2, color"),
            texts: self.select(dimension_key, DrawingFamily::Texts, "value, x, z, color, scale"),
            ellipses: self.select(
                dimension_key,
                DrawingFamily::Ellipses,
                "centerX, centerZ, radiusX, radiusZ, color",
            ),
        }
    }

    /// The chunk highlights in the rows that a window brought; a row that
    /// cannot be read is passed over.
    pub fn highlights_in_window(&self, dimension_key: &str, rows: &Vec<HighlightRow>) -> (r: Vec<
        DrawingHighlight,
    >)
        ensures
            r@ == self.drawn_of(dimension_key@, DrawingFamily::Highlights, rows@),
    {
        self.draw_family(dimension_key, DrawingFamily::Highlights, rows)
    }

    /// What `rows` of one family hold: nothing where there is no such table.
    pub open spec fn drawn_of<R: DrawingRow>(
        &self,
        dimension_key: Seq<char>,
        family: DrawingFamily,
        rows: Seq<R>,
    ) -> Seq<R::Drawn> {
        if self.has_family(dimension_key, family) {
            all_drawn(rows)
        } else {
            Seq::empty()
        }
    }

    fn draw_family<R: DrawingRow>(
        &self,
        dimension_key: &str,
        family: DrawingFamily,
        rows: &Vec<R>,
    ) -> (r: Vec<R::Drawn>)
        ensures
            r@ == self.drawn_of(dimension_key@, family, rows@),
    {
        match self.table_for(dimension_key, family) {
            Some(_) => draw_all(rows),
            None => Vec::new(),
        }
    }

    /// Everything drawn in one dimension, out of the rows that its tables hold;
    /// a row that cannot be read is passed over.
    pub fn read_dimension(&self, dimension_key: &str, rows: &DimensionRows) -> (r:
        DimensionDrawings)
        ensures
            r.dimension@ == dimension_key@,
            r.highlights@ == self.drawn_of(
                dimension_key@,
                DrawingFamily::Highlights,
                rows.highlights@,
            ),
            r.lines@ == self.drawn_of(dimension_key@, DrawingFamily::Lines, rows.lines@),
            r.texts@ == self.drawn_of(dimension_key@, DrawingFamily::Texts, rows.texts@),
            r.ellipses@ == self.drawn_of(dimension_key@, DrawingFamily::Ellipses, rows.ellipses@),
    {
        DimensionDrawings {
            dimension: dimension_key.to_owned(),
            highlights: self.draw_family(
                dimension_key,
                DrawingFamily::Highlights,
                &rows.highlights,
            ),
            lines: self.draw_family(dimension_key, DrawingFamily::Lines, &rows.lines),
            texts: self.draw_family(dimension_key, DrawingFamily::Texts, &rows.texts),
            ellipses: self.draw_family(dimension_key, DrawingFamily::Ellipses, &rows.ellipses),
        }
    }
}

/// The characters of a string that may be absent.
pub open spec fn text_of(s: Option<String>) -> Option<Seq<char>> {
    match s {
        Some(s) => Some(s@),
        None => None,
    }
}

proof fn lemma_has_name_push(names: Seq<String>, name: String, d: Seq<char>)
    ensures
        has_name(names.push(name), d) <==> has_name(names, d) || name@ == d,
{
    let all = names.push(name);
    if has_name(names, d) {
        let i = choose|i: int| 0 <= i < names.len() && (#[trigger] names[i])@ == d;
        assert(all[i]@ == d);
    }
    assert(all[names.len() as int] == name);
    if has_name(all, d) && name@ != d {
        let i = choose|i: int| 0 <= i < all.len() && (#[trigger] all[i])@ == d;
        assert(names[i]@ == d);
    }
}

proof fn lemma_has_name_is_has_rank(names: Seq<String>, d: Seq<char>)
    ensures
        has_name(names, d) <==> has_rank(names, d),
{
    if has_name(names, d) {
        let i = choose|i: int| 0 <= i < names.len() && (#[trigger] names[i])@ == d;
        assert(names[i].rank() == d);
    }
    if has_rank(names, d) {
        let i = choose|i: int| 0 <= i < names.len() && (#[trigger] names[i]).rank() == d;
        assert(names[i]@ == d);
    }
}

/// A dimension with no drawing table reads as empty.
pub proof fn law_unknown_dimension_is_empty<R: DrawingRow>(
    db: DrawingDb,
    dimension_key: Seq<char>,
    family: DrawingFamily,
    rows: Seq<R>,
)
    requires
        !db.has_dimension(dimension_key),
    ensures
        db.drawn_of(dimension_key, family, rows).len() == 0,
{
    assert(!db.has_family(dimension_key, family));
}

proof fn lemma_filter_map_remove<A, B>(s: Seq<A>, i: int, f: spec_fn(A) -> Option<B>)
    requires
        0 <= i < s.len(),
    ensures
        s.filter_map(f).to_multiset() == (match f(s[i]) {
            Some(y) => s.remove(i).filter_map(f).to_multiset().insert(y),
            None => s.remove(i).filter_map(f).to_multiset(),
        }),
    decreases s.len(),
{
    broadcast use vstd::seq_lib::group_to_multiset_ensures;

    let front = s.drop_last();
    let last = s.last();
    assert(s =~= front.push(last));
    lemma_filter_map_push(front, last, f);
    if i == front.len() {
        assert(s.remove(i) =~= front);
    } else {
        lemma_filter_map_remove(front, i, f);
        assert(s.remove(i) =~= front.remove(i).push(last));
        lemma_filter_map_push(front.remove(i), last, f);
        if let (Some(y), Some(z)) = (f(s[i]), f(last)) {
            let m = front.remove(i).filter_map(f).to_multiset();
            assert(m.insert(y).insert(z) =~= m.insert(z).insert(y));
        }
    }
}

proof fn lemma_filter_map_in_any_order<A, B>(s: Seq<A>, t: Seq<A>, f: spec_fn(A) -> Option<B>)
    requires
        s.to_multiset() == t.to_multiset(),
    ensures
        s.filter_map(f).to_multiset() == t.filter_map(f).to_multiset(),
    decreases s.len(),
{
    broadcast use vstd::seq_lib::group_to_multiset_ensures;

    assert(s.len() == s.to_multiset().len() && t.len() == t.to_multiset().len());
    if s.len() == 0 {
        assert(s =~= t);
    } else {
        let i = s.len() - 1;
        assert(s.contains(s[i]));
        assert(t.to_multiset().count(s[i]) > 0);
        assert(t.contains(s[i]));
        let j = choose|j: int| 0 <= j < t.len() && t[j] == s[i];
        lemma_filter_map_remove(s, i, f);
        lemma_filter_map_remove(t, j, f);
        lemma_filter_map_in_any_order(s.remove(i), t.remove(j), f);
    }
}

/// The row can be read as a chunk, and the chunk lies in the half-open window
/// [x0,x1) x [z0,z1).
pub open spec fn row_in_window(row: HighlightRow, x0: int, x1: int, z0: int, z1: int) -> bool {
    &&& row.x matches Some(x) && x0 <= x < x1
    &&& row.z matches Some(z) && z0 <= z < z1
}

/// The highlighted chunk lies in the half-open window [x0,x1) x [z0,z1).
pub open spec fn in_window(h: DrawingHighlight, x0: int, x1: int, z0: int, z1: int) -> bool {
    x0 <= h.x < x1 && z0 <= h.z < z1
}

proof fn lemma_window_of_rows(
    table: Seq<HighlightRow>,
    x0: int,
    x1: int,
    z0: int,
    z1: int,
    brought: spec_fn(HighlightRow) -> bool,
)
    requires
        forall|row: HighlightRow|
            row.x is Some && row.z is Some ==> #[trigger] brought(row) == row_in_window(
                row,
                x0,
                x1,
                z0,
                z1,
            ),
    ensures
        all_drawn(table.filter(brought)) == all_drawn(table).filter(
            |h: DrawingHighlight| in_window(h, x0, x1, z0, z1),
        ),
    decreases table.len(),
{
    let inside = |h: DrawingHighlight| in_window(h, x0, x1, z0, z1);
    let f = |row: HighlightRow| row.drawn();
    reveal(Seq::filter);
    if table.len() == 0 {
        assert(all_drawn(table) =~= Seq::<DrawingHighlight>::empty());
    } else {
        let front = table.drop_last();
        let row = table.last();
        assert(table =~= front.push(row));
        lemma_window_of_rows(front, x0, x1, z0, z1, brought);
        front.lemma_filter_push(row, brought);
        lemma_filter_map_push(front, row, f);
        lemma_filter_map_push(front.filter(brought), row, f);
        if let Some(h) = row.drawn() {
            assert(brought(row) == inside(h));
            all_drawn(front).lemma_filter_push(h, inside);
        }
    }
}

/// A window of highlights is the part of its dimension that lies in it. Given
/// that the window's rows are those rows of the table whose chunk lies in the
/// window, in whatever order, and perhaps some that cannot be read as a chunk,
/// what is read from the window is what is read from the whole table and lies
/// in the window. It is empty where the table is missing or the window is.
pub proof fn law_window_is_part_of_its_dimension(
    db: DrawingDb,
    dimension_key: Seq<char>,
    table: Seq<HighlightRow>,
    window: Seq<HighlightRow>,
    x0: i64,
    x1: i64,
    z0: i64,
    z1: i64,
    brought: spec_fn(HighlightRow) -> bool,
)
    requires
        forall|row: HighlightRow|
            row.x is Some && row.z is Some ==> #[trigger] brought(row) == row_in_window(
                row,
                x0 as int,
                x1 as int,
                z0 as int,
                z1 as int,
            ),
        window.to_multiset() == table.filter(brought).to_multiset(),
    ensures
        ({
            let inside = |h: DrawingHighlight|
                in_window(h, x0 as int, x1 as int, z0 as int, z1 as int);
            let whole = db.drawn_of(dimension_key, DrawingFamily::Highlights, table);
            let part = db.drawn_of(dimension_key, DrawingFamily::Highlights, window);
            &&& part.to_multiset() == whole.filter(inside).to_multiset()
            &&& window == table.filter(brought) ==> part == whole.filter(inside)
            &&& !db.has_family(dimension_key, DrawingFamily::Highlights) || x0 >= x1 || z0 >= z1
                ==> part.len() == 0
        }),
{
    broadcast use vstd::seq_lib::group_to_multiset_ensures;

    let inside = |h: DrawingHighlight| in_window(h, x0 as int, x1 as int, z0 as int, z1 as int);
    let whole = db.drawn_of(dimension_key, DrawingFamily::Highlights, table);
    let part = db.drawn_of(dimension_key, DrawingFamily::Highlights, window);
    lemma_window_of_rows(table, x0 as int, x1 as int, z0 as int, z1 as int, brought);
    lemma_filter_map_in_any_order(
        window,
        table.filter(brought),
        |row: HighlightRow| row.drawn(),
    );
    if !db.has_family(dimension_key, DrawingFamily::Highlights) {
        whole.lemma_filter_len(inside);
        assert(whole.filter(inside) =~= part);
    }
    if (x0 >= x1 || z0 >= z1) && whole.filter(inside).len() > 0 {
        whole.lemma_filter_pred(inside, 0);
    }
    assert(part.len() == part.to_multiset().len());
    assert(whole.filter(inside).len() == whole.filter(inside).to_multiset().len());
}

/// The column holds an integer of 32 bits.
pub open spec fn is_coordinate(c: Column) -> bool {
    c matches Some(v) && -0x8000_0000 <= v <= 0x7fff_ffff
}

/// The colour is that of the column, read without a sign.
pub open spec fn is_colour(c: Column, argb: u32) -> bool {
    c matches Some(v) && exists|wraps: int| v == argb + #[trigger] (wraps * 0x1_0000_0000)
}

proof fn lemma_colour(stored: i64)
    ensures
        is_colour(Some(stored), argb(stored)),
{
    let wraps = stored as int / 0x1_0000_0000;
    assert(stored == argb(stored) + wraps * 0x1_0000_0000);
}

/// The highlights of a dimension are the rows of its table `<dimension>-highlights`, field
/// by field: each highlight holds what the columns of the same name hold. They
/// come in the order of the rows, one for every row that can be read.
pub proof fn law_highlights_hold_their_columns(
    db: DrawingDb,
    dimension_key: Seq<char>,
    rows: Seq<HighlightRow>,
) -> (at: Seq<int>)
    ensures
        ({
            let found = db.drawn_of(dimension_key, DrawingFamily::Highlights, rows);
            &&& at.len() == found.len()
            &&& climbs(at, rows.len() as int)
            &&& !has_name(db.tables@, dimension_key + "-highlights"@) ==> found.len() == 0
            &&& has_name(db.tables@, dimension_key + "-highlights"@) ==> forall|k: int|
                0 <= k < rows.len() ==> (at.contains(k) <==> ({
                    let row = #[trigger] rows[k];
                    &&& is_coordinate(row.x)
                    &&& is_coordinate(row.z)
                    &&& row.color is Some
                }))
            &&& forall|i: int|
                0 <= i < found.len() ==> ({
                    let row = rows[at[i]];
                    let d = #[trigger] found[i];
                    &&& row.x == Some(d.x as i64)
                    &&& row.z == Some(d.z as i64)
                    &&& is_colour(row.color, d.color)
                })
        }),
{
    let f = |row: HighlightRow| row.drawn();
    if db.has_family(dimension_key, DrawingFamily::Highlights) {
        let at = lemma_filter_map_places(rows, f);
        assert forall|i: int| 0 <= i < at.len() implies f(rows[at[i]]) is Some by {
            assert(f(rows[at[i]]) == Some(rows.filter_map(f)[i]));
        }
        assert forall|k: int| 0 <= k < rows.len() implies (at.contains(k) <==> f(
            #[trigger] rows[k],
        ) is Some) by {}
        assert forall|c: i64| is_colour(Some(c), #[trigger] argb(c)) by {
            lemma_colour(c);
        }
        at
    } else {
        Seq::empty()
    }
}

/// The lines of a dimension are the rows of its table `<dimension>-lines`, field
/// by field: each line holds what the columns of the same name hold. They
/// come in the order of the rows, one for every row that can be read.
pub proof fn law_lines_hold_their_columns(
    db: DrawingDb,
    dimension_key: Seq<char>,
    rows: Seq<LineRow>,
) -> (at: Seq<int>)
    ensures
        ({
            let found = db.drawn_of(dimension_key, DrawingFamily::Lines, rows);
            &&& at.len() == found.len()
            &&& climbs(at, rows.len() as int)
            &&& !has_name(db.tables@, dimension_key + "-lines"@) ==> found.len() == 0
            &&& has_name(db.tables@, dimension_key + "-lines"@) ==> forall|k: int|
                0 <= k < rows.len() ==> (at.contains(k) <==> ({
                    let row = #[trigger] rows[k];
                    &&& is_coordinate(row.x1)
                    &&& is_coordinate(row.z1)
                    &&& is_coordinate(row.x2)
                    &&& is_coordinate(row.z2)
                    &&& row.color is Some
                }))
            &&& forall|i: int|
                0 <= i < found.len() ==> ({
                    let row = rows[at[i]];
                    let d = #[trigger] found[i];
                    &&& row.x1 == Some(d.x1 as i64)
                    &&& row.z1 == Some(d.z1 as i64)
                    &&& row.x2 == Some(d.x2 as i64)
                    &&& row.z2 == Some(d.z2 as i64)
                    &&& is_colour(row.color, d.color)
                })
        }),
{
    let f = |row: LineRow| row.drawn();
    if db.has_family(dimension_key, DrawingFamily::Lines) {
        let at = lemma_filter_map_places(rows, f);
        assert forall|i: int| 0 <= i < at.len() implies f(rows[at[i]]) is Some by {
            assert(f(rows[at[i]]) == Some(rows.filter_map(f)[i]));
        }
        assert forall|k: int| 0 <= k < rows.len() implies (at.contains(k) <==> f(
            #[trigger] rows[k],
        ) is Some) by {}
        assert forall|c: i64| is_colour(Some(c), #[trigger] argb(c)) by {
            lemma_colour(c);
        }
        at
    } else {
        Seq::empty()
    }
}

/// The texts of a dimension are the rows of its table `<dimension>-texts`, field
/// by field: each text holds what the columns of the same name hold. They
/// come in the order of the rows, one for every row that can be read.
pub proof fn law_texts_hold_their_columns(
    db: DrawingDb,
    dimension_key: Seq<char>,
    rows: Seq<TextRow>,
) -> (at: Seq<int>)
    ensures
        ({
            let found = db.drawn_of(dimension_key, DrawingFamily::Texts, rows);
            &&& at.len() == found.len()
            &&& climbs(at, rows.len() as int)
            &&& !has_name(db.tables@, dimension_key + "-texts"@) ==> found.len() == 0
            &&& has_name(db.tables@, dimension_key + "-texts"@) ==> forall|k: int|
                0 <= k < rows.len() ==> (at.contains(k) <==> ({
                    let row = #[trigger] rows[k];
                    &&& is_coordinate(row.x)
                    &&& is_coordinate(row.z)
                    &&& row.color is Some
                    &&& row.value is Some && row.scale_bits is Some
                }))
            &&& forall|i: int|
                0 <= i < found.len() ==> ({
                    let row = rows[at[i]];
                    let d = #[trigger] found[i];
                    &&& row.x == Some(d.x as i64)
                    &&& row.z == Some(d.z as i64)
                    &&& is_colour(row.color, d.color)
                    &&& row.value == Some(d.value) && row.scale_bits == Some(d.scale_bits)
                })
        }),
{
    let f = |row: TextRow| row.drawn();
    if db.has_family(dimension_key, DrawingFamily::Texts) {
        let at = lemma_filter_map_places(rows, f);
        assert forall|i: int| 0 <= i < at.len() implies f(rows[at[i]]) is Some by {
            assert(f(rows[at[i]]) == Some(rows.filter_map(f)[i]));
        }
        assert forall|k: int| 0 <= k < rows.len() implies (at.contains(k) <==> f(
            #[trigger] rows[k],
        ) is Some) by {}
        assert forall|c: i64| is_colour(Some(c), #[trigger] argb(c)) by {
            lemma_colour(c);
        }
        at
    } else {
        Seq::empty()
    }
}

/// The ellipses of a dimension are the rows of its table `<dimension>-ellipses`, field
/// by field: each ellipse holds what the columns of the same name hold. They
/// come in the order of the rows, one for every row that can be read.
pub proof fn law_ellipses_hold_their_columns(
    db: DrawingDb,
    dimension_key: Seq<char>,
    rows: Seq<EllipseRow>,
) -> (at: Seq<int>)
    ensures
        ({
            let found = db.drawn_of(dimension_key, DrawingFamily::Ellipses, rows);
            &&& at.len() == found.len()
            &&& climbs(at, rows.len() as int)
            &&& !has_name(db.tables@, dimension_key + "-ellipses"@) ==> found.len() == 0
            &&& has_name(db.tables@, dimension_key + "-ellipses"@) ==> forall|k: int|
                0 <= k < rows.len() ==> (at.contains(k) <==> ({
                    let row = #[trigger] rows[k];
                    &&& is_coordinate(row.center_x)
                    &&& is_coordinate(row.center_z)
                    &&& is_coordinate(row.radius_x)
                    &&& is_coordinate(row.radius_z)
                    &&& row.color is Some
                }))
            &&& forall|i: int|
                0 <= i < found.len() ==> ({
                    let row = rows[at[i]];
                    let d = #[trigger] found[i];
                    &&& row.center_x == Some(d.center_x as i64)
                    &&& row.center_z == Some(d.center_z as i64)
                    &&& row.radius_x == Some(d.radius_x as i64)
                    &&& row.radius_z == Some(d.radius_z as i64)
                    &&& is_colour(row.color, d.color)
                })
        }),
{
    let f = |row: EllipseRow| row.drawn();
    if db.has_family(dimension_key, DrawingFamily::Ellipses) {
        let at = lemma_filter_map_places(rows, f);
        assert forall|i: int| 0 <= i < at.len() implies f(rows[at[i]]) is Some by {
            assert(f(rows[at[i]]) == Some(rows.filter_map(f)[i]));
        }
        assert forall|k: int| 0 <= k < rows.len() implies (at.contains(k) <==> f(
            #[trigger] rows[k],
        ) is Some) by {}
        assert forall|c: i64| is_colour(Some(c), #[trigger] argb(c)) by {
            lemma_colour(c);
        }
        at
    } else {
        Seq::empty()
    }
}

/// `r` are the statements that read everything drawn in a dimension.
pub open spec fn reads_all_of(db: DrawingDb, dimension_key: Seq<char>, r: DimensionSql) -> bool {
    &&& text_of(r.highlights) == db.family_sql(
        dimension_key,
        DrawingFamily::Highlights,
        "x, z, color"@,
    )
    &&& text_of(r.lines) == db.family_sql(
        dimension_key,
        DrawingFamily::Lines,
        "x1, z1, x2, z2, color"@,
    )
    &&& text_of(r.texts) == db.family_sql(
        dimension_key,
        DrawingFamily::Texts,
        "value, x, z, color, scale"@,
    )
    &&& text_of(r.ellipses) == db.family_sql(
        dimension_key,
        DrawingFamily::Ellipses,
        "centerX, centerZ, radiusX, radiusZ, color"@,
    )
}

/// Each table of the dimension is read by a statement that names its columns in
/// the order of the rows that are drawn from it; a table that is not there is
/// not read.
pub proof fn law_statements_read_the_tables_of_the_dimension(
    db: DrawingDb,
    key: Seq<char>,
    r: DimensionSql,
)
    requires
        reads_all_of(db, key, r),
    ensures
        text_of(r.highlights) == (if has_name(db.tables@, key + "-highlights"@) {
            Some("SELECT "@ + "x, z, color"@ + " FROM "@ + quoted(key + "-highlights"@))
        } else {
            None
        }),
        text_of(r.lines) == (if has_name(db.tables@, key + "-lines"@) {
            Some("SELECT "@ + "x1, z1, x2, z2, color"@ + " FROM "@ + quoted(key + "-lines"@))
        } else {
            None
        }),
        text_of(r.texts) == (if has_name(db.tables@, key + "-texts"@) {
            Some("SELECT "@ + "value, x, z, color, scale"@ + " FROM "@ + quoted(key + "-texts"@))
        } else {
            None
        }),
        text_of(r.ellipses) == (if has_name(db.tables@, key + "-ellipses"@) {
            Some(
                "SELECT "@ + "centerX, centerZ, radiusX, radiusZ, color"@ + " FROM "@ + quoted(
                    key + "-ellipses"@,
                ),
            )
        } else {
            None
        }),
{
}

/// A dimension is known by its tables: highlights, lines, texts or ellipses.
pub proof fn law_dimension_has_one_of_four_tables(db: DrawingDb, key: Seq<char>)
    ensures
        db.has_dimension(key) <==> has_name(db.tables@, key + "-highlights"@) || has_name(
            db.tables@,
            key + "-lines"@,
        ) || has_name(db.tables@, key + "-texts"@) || has_name(db.tables@, key + "-ellipses"@),
{
    assert(db.has_family(key, DrawingFamily::Highlights) == has_name(
        db.tables@,
        key + "-highlights"@,
    ));
    assert(db.has_family(key, DrawingFamily::Lines) == has_name(db.tables@, key + "-lines"@));
    assert(db.has_family(key, DrawingFamily::Texts) == has_name(db.tables@, key + "-texts"@));
    assert(db.has_family(key, DrawingFamily::Ellipses) == has_name(
        db.tables@,
        key + "-ellipses"@,
    ));
}

/// `r` is the statement that reads the highlights of a window.
pub open spec fn reads_window_of(
    db: DrawingDb,
    dimension_key: Seq<char>,
    x0: i64,
    x1: i64,
    z0: i64,
    z1: i64,
    r: Option<WindowSql>,
) -> bool {
    &&& r is Some <==> db.has_family(dimension_key, DrawingFamily::Highlights)
    &&& r matches Some(w) ==> w.params@ == seq![x0, x1, z0, z1] && w.sql@ == db.family_sql(
        dimension_key,
        DrawingFamily::Highlights,
        "x, z, color"@,
    )->0 + " WHERE x >= ?1 AND x < ?2 AND z >= ?3 AND z < ?4"@
}

/// A window is read by the statement that reads the whole table, with the half
/// open window as its condition and the bounds in the order of their numbers;
/// without a table there is no statement.
pub proof fn law_window_statement_has_its_bounds(
    db: DrawingDb,
    key: Seq<char>,
    x0: i64,
    x1: i64,
    z0: i64,
    z1: i64,
    r: Option<WindowSql>,
    all: DimensionSql,
)
    requires
        reads_window_of(db, key, x0, x1, z0, z1, r),
        reads_all_of(db, key, all),
    ensures
        r is Some <==> has_name(db.tables@, key + "-highlights"@),
        r is Some <==> all.highlights is Some,
        r matches Some(w) ==> {
            &&& w.sql@ == all.highlights->0@
                + " WHERE x >= ?1 AND x < ?2 AND z >= ?3 AND z < ?4"@
            &&& w.params@.len() == 4
            &&& w.params@[0] == x0
            &&& w.params@[1] == x1
            &&& w.params@[2] == z0
            &&& w.params@[3] == z1
        },
{
    assert(text_of(all.highlights) == db.family_sql(
        key,
        DrawingFamily::Highlights,
        "x, z, color"@,
    ));
}

} // verus!
