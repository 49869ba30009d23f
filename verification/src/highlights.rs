//! What a highlight database shows: the overlay palette, the meaning of its
//! value column and the render rule of lava columns.

use vstd::prelude::*;
use crate::text::{contains, has_text, occurs_at};

verus! {

/// What the `foundTime` column of a highlight DB actually means.
///
/// Every module but `LavaColumns` stores `System.currentTimeMillis()`;
/// `LavaColumns` stores the height of the tallest flowing-lava column in the
/// chunk, in blocks.
#[derive(Debug, Clone, Copy, PartialEq, Eq, Structural)]
pub enum HighlightSemantics {
    /// Epoch-ms of first sighting; oldest wins on merge.
    Timestamp,
    /// Lava-column height in blocks; tallest wins on merge.
    ColumnHeight,
}

impl HighlightSemantics {
    /// True when a bigger value is the more informative one (heights), false
    /// when a smaller one is (first-seen timestamps).
    pub fn prefers_max(self) -> (r: bool)
        ensures
            r == (self is ColumnHeight),
    {
        matches!(self, HighlightSemantics::ColumnHeight)
    }
}

/// The per-DB overlay description: colour, label and value semantics.
///
/// The colours are distinct per detection method, so that two different
/// detections never look alike on the map.
#[derive(Debug, Clone, Copy)]
pub struct HighlightDbInfo {
    /// Substring matched against the DB file name (first match wins).
    pub pattern: &'static str,
    /// Short human label for the overlay control.
    pub label: &'static str,
    /// One-line description of what the module detects.
    pub detection: &'static str,
    /// Overlay colour, RGB.
    pub color: [u8; 3],
    pub semantics: HighlightSemantics,
}

/// The overlay palette. A DB file name is looked up in this order: the first
/// pattern that it contains decides.
pub open spec fn palette() -> Seq<HighlightDbInfo> {
    seq![
        HighlightDbInfo {
            pattern: "NewChunksLiquidInverse",
            label: "New chunks (liquid, inverse)",
            detection: "chunks proven NOT new: liquid already flowing at load",
            color: [0x2a, 0xb5, 0xa0],
            semantics: HighlightSemantics::Timestamp,
        },
        HighlightDbInfo {
            pattern: "PaletteNewChunksInverse",
            label: "New chunks (palette, inverse)",
            detection: "chunks proven NOT new: blockstate palette already compacted",
            color: [0x1e, 0x88, 0xe5],
            semantics: HighlightSemantics::Timestamp,
        },
        HighlightDbInfo {
            pattern: "PaletteNewChunks",
            label: "New chunks (palette)",
            detection: "uncompacted blockstate/biome palette",
            color: [0xff, 0x7a, 0x00],
            semantics: HighlightSemantics::Timestamp,
        },
        HighlightDbInfo {
            pattern: "NewChunks",
            label: "New chunks (liquid)",
            detection: "liquid flow starting after chunk load",
            color: [0xff, 0x3b, 0x30],
            semantics: HighlightSemantics::Timestamp,
        },
        HighlightDbInfo {
            pattern: "OldChunks",
            label: "Old chunks",
            detection: "pre-1.13 terrain signature",
            color: [0xe6, 0xc2, 0x29],
            semantics: HighlightSemantics::Timestamp,
        },
        HighlightDbInfo {
            pattern: "ModernChunks",
            label: "Modern chunks",
            detection: "post-1.13 terrain signature",
            color: [0x58, 0xd0, 0x5b],
            semantics: HighlightSemantics::Timestamp,
        },
        HighlightDbInfo {
            pattern: "Portals",
            label: "Portals",
            detection: "nether portal blocks",
            color: [0xc6, 0x78, 0xdd],
            semantics: HighlightSemantics::Timestamp,
        },
        HighlightDbInfo {
            pattern: "LavaColumns",
            label: "Lava columns",
            detection: "tallest flowing-lava column in the chunk (height, not time)",
            color: [0xff, 0x8c, 0x1a],
            semantics: HighlightSemantics::ColumnHeight,
        },
        HighlightDbInfo {
            pattern: "OldBiomes",
            label: "Old biomes",
            detection: "pre-1.18 biome layout",
            color: [0x3d, 0x9d, 0xf2],
            semantics: HighlightSemantics::Timestamp,
        },
        HighlightDbInfo {
            pattern: "Breadcrumbs",
            label: "Breadcrumbs",
            detection: "chunks the player walked through",
            color: [0xee, 0xee, 0xee],
            semantics: HighlightSemantics::Timestamp,
        },
    ]
}

/// The overlay palette, in the order in which a DB file name is checked
/// against it.
pub fn hl_palette() -> (r: Vec<HighlightDbInfo>)
    ensures
        r@ == palette(),
{
    vec![
        HighlightDbInfo {
            pattern: "NewChunksLiquidInverse",
            label: "New chunks (liquid, inverse)",
            detection: "chunks proven NOT new: liquid already flowing at load",
            color: [0x2a, 0xb5, 0xa0],
            semantics: HighlightSemantics::Timestamp,
        },
        HighlightDbInfo {
            pattern: "PaletteNewChunksInverse",
            label: "New chunks (palette, inverse)",
            detection: "chunks proven NOT new: blockstate palette already compacted",
            color: [0x1e, 0x88, 0xe5],
            semantics: HighlightSemantics::Timestamp,
        },
        HighlightDbInfo {
            pattern: "PaletteNewChunks",
            label: "New chunks (palette)",
            detection: "uncompacted blockstate/biome palette",
            color: [0xff, 0x7a, 0x00],
            semantics: HighlightSemantics::Timestamp,
        },
        HighlightDbInfo {
            pattern: "NewChunks",
            label: "New chunks (liquid)",
            detection: "liquid flow starting after chunk load",
            color: [0xff, 0x3b, 0x30],
            semantics: HighlightSemantics::Timestamp,
        },
        HighlightDbInfo {
            pattern: "OldChunks",
            label: "Old chunks",
            detection: "pre-1.13 terrain signature",
            color: [0xe6, 0xc2, 0x29],
            semantics: HighlightSemantics::Timestamp,
        },
        HighlightDbInfo {
            pattern: "ModernChunks",
            label: "Modern chunks",
            detection: "post-1.13 terrain signature",
            color: [0x58, 0xd0, 0x5b],
            semantics: HighlightSemantics::Timestamp,
        },
        HighlightDbInfo {
            pattern: "Portals",
            label: "Portals",
            detection: "nether portal blocks",
            color: [0xc6, 0x78, 0xdd],
            semantics: HighlightSemantics::Timestamp,
        },
        HighlightDbInfo {
            pattern: "LavaColumns",
            label: "Lava columns",
            detection: "tallest flowing-lava column in the chunk (height, not time)",
            color: [0xff, 0x8c, 0x1a],
            semantics: HighlightSemantics::ColumnHeight,
        },
        HighlightDbInfo {
            pattern: "OldBiomes",
            label: "Old biomes",
            detection: "pre-1.18 biome layout",
            color: [0x3d, 0x9d, 0xf2],
            semantics: HighlightSemantics::Timestamp,
        },
        HighlightDbInfo {
            pattern: "Breadcrumbs",
            label: "Breadcrumbs",
            detection: "chunks the player walked through",
            color: [0xee, 0xee, 0xee],
            semantics: HighlightSemantics::Timestamp,
        },
    ]
}

/// Entry `i` is the first of the palette whose pattern `db_name` contains.
pub open spec fn decides(i: int, db_name: Seq<char>) -> bool {
    &&& 0 <= i < palette().len()
    &&& has_text(db_name, palette()[i].pattern@)
    &&& forall|j: int| 0 <= j < i ==> !has_text(db_name, #[trigger] palette()[j].pattern@)
}

/// No pattern of the palette stands in `db_name`.
pub open spec fn is_unknown(db_name: Seq<char>) -> bool {
    forall|j: int|
        0 <= j < palette().len() ==> !has_text(db_name, #[trigger] palette()[j].pattern@)
}

/// The palette entry for a DB file name, if it is a known highlight DB.
pub fn highlight_db_info(db_name: &str) -> (r: Option<HighlightDbInfo>)
    ensures
        r is None <==> is_unknown(db_name@),
        r matches Some(info) ==> exists|i: int| decides(i, db_name@) && info == #[trigger] palette()[i],
{
    let entries = hl_palette();
    let mut i: usize = 0;
    while i < entries.len()
        invariant
            entries@ == palette(),
            i <= entries@.len(),
            forall|j: int| 0 <= j < i ==> !has_text(db_name@, #[trigger] palette()[j].pattern@),
        decreases entries@.len() - i,
    {
        if contains(db_name, entries[i].pattern) {
            assert(decides(i as int, db_name@));
            assert(has_text(db_name@, palette()[i as int].pattern@));
            return Some(entries[i]);
        }
        i = i + 1;
    }
    None
}

/// The semantics that the palette gives to `db_name`.
pub open spec fn semantics_of(db_name: Seq<char>) -> HighlightSemantics {
    if is_unknown(db_name) {
        HighlightSemantics::Timestamp
    } else {
        palette()[choose|i: int| decides(i, db_name)].semantics
    }
}

proof fn lemma_one_decides(i: int, j: int, db_name: Seq<char>)
    requires
        decides(i, db_name),
        decides(j, db_name),
    ensures
        i == j,
{
    if i < j {
        assert(!has_text(db_name, palette()[i].pattern@));
    } else if j < i {
        assert(!has_text(db_name, palette()[j].pattern@));
    }
}

/// What `foundTime` means in `db_name`. Unknown DBs are assumed to be
/// timestamps, which is the shape 9 of the 10 known modules use.
pub fn highlight_semantics(db_name: &str) -> (r: HighlightSemantics)
    ensures
        r == semantics_of(db_name@),
{
    match highlight_db_info(db_name) {
        Some(info) => {
            proof {
                let i = choose|i: int| decides(i, db_name@) && info == #[trigger] palette()[i];
                let j = choose|j: int| decides(j, db_name@);
                lemma_one_decides(i, j, db_name@);
                assert(has_text(db_name@, palette()[i].pattern@));
            }
            info.semantics
        },
        None => HighlightSemantics::Timestamp,
    }
}

/// Only a lava-column database holds heights: every other one, known or not,
/// holds times.
pub proof fn law_only_lava_columns_hold_heights(db_name: Seq<char>)
    requires
        semantics_of(db_name) is ColumnHeight,
    ensures
        has_text(db_name, "LavaColumns"@),
{
    if !is_unknown(db_name) {
        lemma_some_decides(db_name, palette().len() as int);
        let i = choose|i: int| decides(i, db_name);
        assert(palette()[i].semantics is ColumnHeight);
        assert(i == 7);
    }
}

/// Where one of the first `n` patterns occurs, one of them decides.
proof fn lemma_some_decides(db_name: Seq<char>, n: int)
    requires
        0 <= n <= palette().len(),
    ensures
        (exists|j: int| 0 <= j < n && has_text(db_name, #[trigger] palette()[j].pattern@)) ==> exists|
            i: int,
        |
            decides(i, db_name),
    decreases n,
{
    if n > 0 {
        lemma_some_decides(db_name, n - 1);
        if has_text(db_name, palette()[n - 1].pattern@) && !(exists|j: int|
            0 <= j < n - 1 && has_text(db_name, #[trigger] palette()[j].pattern@)) {
            assert(decides(n - 1, db_name));
        }
    }
}

/// The mod's LavaColumns render rule (`LavaColumns.colorFunction`).
#[derive(Debug, Clone, Copy)]
pub struct LavaColumnStyle {
    /// Columns shorter than this are not drawn at all (mod default 5): most
    /// nether chunks carry a height-0 row simply because they were loaded.
    pub min_height: i64,
    /// Alpha = clamp(shift + height * step, 0, 255).
    pub alpha_shift: i32,
    pub alpha_step: i32,
}

impl Default for LavaColumnStyle {
    fn default() -> (r: Self)
        ensures
            r == (LavaColumnStyle { min_height: 5, alpha_shift: 0, alpha_step: 8 }),
    {
        LavaColumnStyle { min_height: 5, alpha_shift: 0, alpha_step: 8 }
    }
}

proof fn lemma_product_fits(height: i64, step: i32)
    ensures
        -0x100_0000_0000_0000_0000_0000_0000 <= height * step
            <= 0x100_0000_0000_0000_0000_0000_0000,
{
    assert(-0x100_0000_0000_0000_0000_0000_0000 <= height * step
        <= 0x100_0000_0000_0000_0000_0000_0000) by (nonlinear_arith)
        requires
            -0x8000_0000_0000_0000 <= height <= 0x7fff_ffff_ffff_ffff,
            -0x8000_0000 <= step <= 0x7fff_ffff,
    ;
}

impl LavaColumnStyle {
    /// The alpha of a column before it is clamped.
    pub open spec fn raw_alpha(&self, height: int) -> int {
        self.alpha_shift + height * self.alpha_step
    }

    /// The alpha of a column that is drawn.
    pub open spec fn clamped_alpha(&self, height: int) -> int {
        if self.raw_alpha(height) < 0 {
            0
        } else if self.raw_alpha(height) > 255 {
            255
        } else {
            self.raw_alpha(height)
        }
    }

    /// Alpha for a column height, or `None` when the mod would hide it.
    pub fn alpha(&self, height: i64) -> (r: Option<u8>)
        ensures
            r is None <==> height < self.min_height,
            r matches Some(a) ==> a == self.clamped_alpha(height as int),
    {
        if height < self.min_height {
            return None;
        }
        proof {
            lemma_product_fits(height, self.alpha_step);
        }
        let a: i128 = self.alpha_shift as i128 + height as i128 * self.alpha_step as i128;
        Some(if a < 0 {
            0
        } else if a > 255 {
            255
        } else {
            a as u8
        })
    }
}

/// A taller column is never drawn fainter, when the style grows with height.
pub proof fn law_alpha_grows_with_height(style: LavaColumnStyle, low: int, high: int)
    requires
        style.alpha_step >= 0,
        low <= high,
    ensures
        style.clamped_alpha(low) <= style.clamped_alpha(high),
{
    let step = style.alpha_step as int;
    assert(low * step <= high * step) by (nonlinear_arith)
        requires
            low <= high,
            step >= 0,
    ;
}

/// No two overlays of the palette share a colour.
pub proof fn law_palette_colors_are_distinct(i: int, j: int)
    requires
        0 <= i < j < palette().len(),
    ensures
        palette()[i].color@ != palette()[j].color@,
{
    if palette()[i].color@ == palette()[j].color@ {
        assert(palette()[i].color@[0] == palette()[j].color@[0]);
        assert(palette()[i].color@[1] == palette()[j].color@[1]);
        assert(palette()[i].color@[2] == palette()[j].color@[2]);
        assert(false);
    }
}

proof fn lemma_absent(hay: Seq<char>, needle: Seq<char>, d: int)
    requires
        0 <= d < needle.len(),
        forall|at: int| 0 <= at <= hay.len() - needle.len() ==> #[trigger] hay[at + d] != needle[d],
    ensures
        !has_text(hay, needle),
{
    if has_text(hay, needle) {
        let at = choose|at: int| occurs_at(hay, needle, at);
        assert(hay.subrange(at, at + needle.len())[d] == hay[at + d]);
    }
}

/// A pattern never hides one that stands behind it: no pattern of the palette
/// occurs in a later one, so a name that is looked up by its own pattern finds
/// its own entry.
pub proof fn law_patterns_find_their_own_entry(i: int)
    requires
        0 <= i < palette().len(),
    ensures
        decides(i, palette()[i].pattern@),
{
    reveal_strlit("NewChunksLiquidInverse");
    reveal_strlit("PaletteNewChunksInverse");
    reveal_strlit("PaletteNewChunks");
    reveal_strlit("NewChunks");
    reveal_strlit("OldChunks");
    reveal_strlit("ModernChunks");
    reveal_strlit("Portals");
    reveal_strlit("LavaColumns");
    reveal_strlit("OldBiomes");
    reveal_strlit("Breadcrumbs");
    lemma_absent(palette()[1].pattern@, palette()[0].pattern@, 0);
    lemma_absent(palette()[4].pattern@, palette()[3].pattern@, 0);
    lemma_absent(palette()[5].pattern@, palette()[3].pattern@, 0);
    lemma_absent(palette()[7].pattern@, palette()[3].pattern@, 0);
    lemma_absent(palette()[8].pattern@, palette()[3].pattern@, 0);
    lemma_absent(palette()[9].pattern@, palette()[3].pattern@, 0);
    lemma_absent(palette()[5].pattern@, palette()[4].pattern@, 0);
    lemma_absent(palette()[7].pattern@, palette()[4].pattern@, 0);
    lemma_absent(palette()[8].pattern@, palette()[4].pattern@, 3);
    lemma_absent(palette()[9].pattern@, palette()[4].pattern@, 0);
    lemma_absent(palette()[7].pattern@, palette()[6].pattern@, 0);
    lemma_absent(palette()[8].pattern@, palette()[6].pattern@, 0);
    lemma_absent(palette()[9].pattern@, palette()[6].pattern@, 0);
    lemma_absent(palette()[9].pattern@, palette()[7].pattern@, 0);
    lemma_absent(palette()[9].pattern@, palette()[8].pattern@, 0);
    let p = palette()[i].pattern@;
    assert(p.subrange(0, p.len() as int) =~= p);
    assert(occurs_at(p, p, 0));
    assert forall|j: int| 0 <= j < i implies !has_text(p, #[trigger] palette()[j].pattern@) by {
        if palette()[j].pattern@.len() > p.len() {
            assert(forall|at: int| !occurs_at(p, palette()[j].pattern@, at));
        }
    }
}

/// Entry `i` of the palette has this pattern, label, description and colour.
pub open spec fn shows(
    i: int,
    pattern: Seq<char>,
    label: Seq<char>,
    detection: Seq<char>,
    red: u8,
    green: u8,
    blue: u8,
) -> bool {
    &&& 0 <= i < palette().len()
    &&& palette()[i].pattern@ == pattern
    &&& palette()[i].label@ == label
    &&& palette()[i].detection@ == detection
    &&& palette()[i].color@ == seq![red, green, blue]
}

/// Every detection has its own colour and name, and the longer patterns come
/// before those that they contain.
pub proof fn law_palette_is_fixed()
    ensures
        palette().len() == 10,
        shows(0, "NewChunksLiquidInverse"@, "New chunks (liquid, inverse)"@, "chunks proven NOT new: liquid already flowing at load"@, 0x2a, 0xb5, 0xa0),
        shows(1, "PaletteNewChunksInverse"@, "New chunks (palette, inverse)"@, "chunks proven NOT new: blockstate palette already compacted"@, 0x1e, 0x88, 0xe5),
        shows(2, "PaletteNewChunks"@, "New chunks (palette)"@, "uncompacted blockstate/biome palette"@, 0xff, 0x7a, 0x00),
        shows(3, "NewChunks"@, "New chunks (liquid)"@, "liquid flow starting after chunk load"@, 0xff, 0x3b, 0x30),
        shows(4, "OldChunks"@, "Old chunks"@, "pre-1.13 terrain signature"@, 0xe6, 0xc2, 0x29),
        shows(5, "ModernChunks"@, "Modern chunks"@, "post-1.13 terrain signature"@, 0x58, 0xd0, 0x5b),
        shows(6, "Portals"@, "Portals"@, "nether portal blocks"@, 0xc6, 0x78, 0xdd),
        shows(7, "LavaColumns"@, "Lava columns"@, "tallest flowing-lava column in the chunk (height, not time)"@, 0xff, 0x8c, 0x1a),
        shows(8, "OldBiomes"@, "Old biomes"@, "pre-1.18 biome layout"@, 0x3d, 0x9d, 0xf2),
        shows(9, "Breadcrumbs"@, "Breadcrumbs"@, "chunks the player walked through"@, 0xee, 0xee, 0xee),
        forall|i: int|
            0 <= i < 10 ==> ((#[trigger] palette()[i]).semantics is ColumnHeight <==> i == 7),
{
    assert forall|i: int| 0 <= i < 10 implies ((#[trigger] palette()[i]).semantics is ColumnHeight
        <==> i == 7) by {}
    assert(palette()[0].color@ =~= seq![0x2au8, 0xb5, 0xa0]);
    assert(palette()[1].color@ =~= seq![0x1eu8, 0x88, 0xe5]);
    assert(palette()[2].color@ =~= seq![0xffu8, 0x7a, 0x00]);
    assert(palette()[3].color@ =~= seq![0xffu8, 0x3b, 0x30]);
    assert(palette()[4].color@ =~= seq![0xe6u8, 0xc2, 0x29]);
    assert(palette()[5].color@ =~= seq![0x58u8, 0xd0, 0x5b]);
    assert(palette()[6].color@ =~= seq![0xc6u8, 0x78, 0xdd]);
    assert(palette()[7].color@ =~= seq![0xffu8, 0x8c, 0x1a]);
    assert(palette()[8].color@ =~= seq![0x3du8, 0x9d, 0xf2]);
    assert(palette()[9].color@ =~= seq![0xeeu8, 0xee, 0xee]);
}

/// The first pattern that a name contains decides, and a name that contains
/// none is not in the palette.
pub proof fn law_first_pattern_decides(db_name: Seq<char>, i: int)
    requires
        0 <= i < palette().len(),
        has_text(db_name, palette()[i].pattern@),
        forall|j: int| 0 <= j < i ==> !has_text(db_name, (#[trigger] palette()[j]).pattern@),
    ensures
        decides(i, db_name),
        forall|j: int| #[trigger] decides(j, db_name) ==> j == i,
        !is_unknown(db_name),
        semantics_of(db_name) == palette()[i].semantics,
{
    assert forall|j: int| 0 <= j < i implies !has_text(
        db_name,
        #[trigger] palette()[j].pattern@,
    ) by {
        assert(!has_text(db_name, palette()[j].pattern@));
    }
    assert(decides(i, db_name));
    assert forall|j: int| #[trigger] decides(j, db_name) implies j == i by {
        lemma_one_decides(i, j, db_name);
    }
    let j = choose|j: int| decides(j, db_name);
    assert(decides(j, db_name));
    assert(has_text(db_name, palette()[i].pattern@));
}

/// A database called after lava columns, and after nothing else that is known,
/// holds heights; one that is called after nothing known holds times.
pub proof fn law_names_tell_heights_from_times(db_name: Seq<char>)
    ensures
        has_text(db_name, "LavaColumns"@) && !has_text(db_name, "Chunks"@) && !has_text(
            db_name,
            "Portals"@,
        ) ==> semantics_of(db_name) is ColumnHeight,
        is_unknown(db_name) ==> semantics_of(db_name) is Timestamp,
{
    if has_text(db_name, "LavaColumns"@) && !has_text(db_name, "Chunks"@) && !has_text(
        db_name,
        "Portals"@,
    ) {
        reveal_strlit("Chunks");
        reveal_strlit("NewChunksLiquidInverse");
        reveal_strlit("PaletteNewChunksInverse");
        reveal_strlit("PaletteNewChunks");
        reveal_strlit("NewChunks");
        reveal_strlit("OldChunks");
        reveal_strlit("ModernChunks");
        assert("NewChunksLiquidInverse"@.subrange(3, 9) =~= "Chunks"@);
        assert("PaletteNewChunksInverse"@.subrange(10, 16) =~= "Chunks"@);
        assert("PaletteNewChunks"@.subrange(10, 16) =~= "Chunks"@);
        assert("NewChunks"@.subrange(3, 9) =~= "Chunks"@);
        assert("OldChunks"@.subrange(3, 9) =~= "Chunks"@);
        assert("ModernChunks"@.subrange(6, 12) =~= "Chunks"@);
        lemma_part_of(db_name, "NewChunksLiquidInverse"@, "Chunks"@, 3);
        lemma_part_of(db_name, "PaletteNewChunksInverse"@, "Chunks"@, 10);
        lemma_part_of(db_name, "PaletteNewChunks"@, "Chunks"@, 10);
        lemma_part_of(db_name, "NewChunks"@, "Chunks"@, 3);
        lemma_part_of(db_name, "OldChunks"@, "Chunks"@, 3);
        lemma_part_of(db_name, "ModernChunks"@, "Chunks"@, 6);
        assert(palette()[7].pattern@ == "LavaColumns"@);
        assert forall|j: int| 0 <= j < 7 implies !has_text(
            db_name,
            (#[trigger] palette()[j]).pattern@,
        ) by {}
        law_first_pattern_decides(db_name, 7);
    }
}

proof fn lemma_part_of(hay: Seq<char>, whole: Seq<char>, part: Seq<char>, at: int)
    requires
        0 <= at <= whole.len() - part.len(),
        whole.subrange(at, at + part.len()) == part,
    ensures
        has_text(hay, whole) ==> has_text(hay, part),
{
    if has_text(hay, whole) {
        let k = choose|k: int| occurs_at(hay, whole, k);
        assert(hay.subrange(k + at, k + at + part.len()) =~= whole.subrange(at, at + part.len()))
            by {
            assert(hay.subrange(k, k + whole.len()) == whole);
            assert forall|x: int| 0 <= x < part.len() implies #[trigger] hay[k + at + x] == whole[at
                + x] by {
                assert(hay.subrange(k, k + whole.len())[at + x] == hay[k + at + x]);
            }
        }
        assert(occurs_at(hay, part, k + at));
    }
}

/// The alpha of a column grows by the step with every block of height, from the
/// shift on, as far as it lies between 0 and 255.
pub proof fn law_alpha_is_shift_and_steps(style: LavaColumnStyle, height: int)
    ensures
        ({
            let a = style.alpha_shift + height * style.alpha_step;
            &&& 0 <= style.clamped_alpha(height) <= 255
            &&& 0 <= a <= 255 ==> style.clamped_alpha(height) == a
            &&& a < 0 ==> style.clamped_alpha(height) == 0
            &&& a > 255 ==> style.clamped_alpha(height) == 255
        }),
{
}

} // verus!
