//! Map layers: which regions a directory holds, and which copies of a region
//! stand beside the live one.

use vstd::prelude::*;
use std::collections::{HashMap, HashSet};
use crate::listing::EntryKind;
use crate::order::{lex_antisymmetric, lex_le, lex_total, lex_transitive};
use crate::order::{sort, sorted_from, Ranked};
use crate::paths::{joined, FilePath};
use crate::text::{decimal, decimal_text, law_decimal_characters, law_decimal_is_injective};

verus! {

/// What the file system tells of a region file.
#[derive(Debug, Clone, Copy, PartialEq, Eq, Structural)]
pub struct RegionMeta {
    /// Modification time, unix milliseconds (0 when unavailable).
    pub mtime_ms: u64,
    pub size: u64,
    pub is_zip: bool,
}

/// The metadata of a file: its size, and when it was modified, as whole
/// seconds and nanoseconds since 1970 (`None` when that is unavailable, or
/// before).
#[derive(Debug, Clone, Copy)]
pub struct FileStat {
    pub modified: Option<(u64, u32)>,
    pub size: u64,
}

/// A modification time in milliseconds, as far as 64 bits hold it.
pub open spec fn millis_of(modified: Option<(u64, u32)>) -> int {
    match modified {
        Some((secs, nanos)) => (secs * 1000 + nanos as int / 1_000_000)
            % 0x1_0000_0000_0000_0000,
        None => 0,
    }
}

/// What a region file's metadata amounts to.
pub open spec fn meta_of(stat: FileStat, is_zip: bool) -> RegionMeta {
    RegionMeta { mtime_ms: millis_of(stat.modified) as u64, size: stat.size, is_zip }
}

/// What a region file's metadata amounts to.
pub fn region_meta(stat: FileStat, is_zip: bool) -> (r: RegionMeta)
    ensures
        r == meta_of(stat, is_zip),
{
    let mtime_ms: u64 = match stat.modified {
        Some((secs, nanos)) => {
            let millis: u128 = secs as u128 * 1000 + (nanos / 1_000_000) as u128;
            (millis % 0x1_0000_0000_0000_0000) as u64
        },
        None => 0,
    };
    RegionMeta { mtime_ms, size: stat.size, is_zip }
}

/// A region file of a backup directory.
#[derive(Debug)]
pub struct BackupFile {
    /// The file name, encoded.
    pub name: Vec<u8>,
    /// The name read as that of a region file: coordinates, and whether it is a
    /// zip.
    pub region: Option<(i32, i32, bool)>,
    /// The metadata, if it could be read.
    pub stat: Option<FileStat>,
}

/// One entry of a map directory.
#[derive(Debug)]
pub struct LayerEntry {
    /// The entry's name, encoded.
    pub name: Vec<u8>,
    pub kind: EntryKind,
    /// The name read as that of a region file.
    pub region: Option<(i32, i32, bool)>,
    /// The name read as that of a Syncthing conflict copy of a region file,
    /// with its tag.
    pub conflict: Option<(i32, i32, bool, String)>,
    /// The name read as that of a backup directory: format version and index.
    pub backup: Option<(i32, u32)>,
    /// The metadata, if it could be read.
    pub stat: Option<FileStat>,
    /// What stands in a backup directory, if it could be listed.
    pub files: Option<Vec<BackupFile>>,
}

impl LayerEntry {
    /// The entry may be a region file of the live layer: it is there and no
    /// directory. `cache*`, `caves`, and `<version>_backup_<n>` are
    /// directories; the last holds pre-conversion copies that shadow live
    /// coordinates and so must stay out of the live index.
    pub open spec fn may_be_file(&self) -> bool {
        self.kind !is Directory && self.kind !is Unknown
    }

    /// The region that the entry holds.
    pub open spec fn region_here(&self) -> Option<((i32, i32), RegionMeta)> {
        match (self.region, self.stat) {
            (Some((rx, rz, is_zip)), Some(stat)) if self.may_be_file() => Some(
                ((rx, rz), meta_of(stat, is_zip)),
            ),
            _ => None,
        }
    }
}

/// The regions that `entries` hold. Of two files for the same coordinates the
/// first one counts, unless the later one is a zip.
pub open spec fn indexed(entries: Seq<LayerEntry>) -> Map<(i32, i32), RegionMeta>
    decreases entries.len(),
{
    if entries.len() == 0 {
        Map::empty()
    } else {
        let before = indexed(entries.drop_last());
        match entries.last().region_here() {
            Some((at, meta)) if meta.is_zip || !before.contains_key(at) => before.insert(at, meta),
            _ => before,
        }
    }
}

/// The coordinates as one number.
pub open spec fn packed(rx: i32, rz: i32) -> u64 {
    ((rx + 0x8000_0000) * 0x1_0000_0000 + (rz + 0x8000_0000)) as u64
}

fn pack(rx: i32, rz: i32) -> (r: u64)
    ensures
        r == packed(rx, rz),
{
    let hi: u64 = (rx as i64 + 0x8000_0000i64) as u64;
    let lo: u64 = (rz as i64 + 0x8000_0000i64) as u64;
    hi * 0x1_0000_0000 + lo
}

fn unpack(k: u64) -> (r: (i32, i32))
    ensures
        packed(r.0, r.1) == k,
{
    let rx: i32 = ((k / 0x1_0000_0000) as i64 - 0x8000_0000i64) as i32;
    let rz: i32 = ((k % 0x1_0000_0000) as i64 - 0x8000_0000i64) as i32;
    (rx, rz)
}

proof fn lemma_packed_injective(a: (i32, i32), b: (i32, i32))
    requires
        packed(a.0, a.1) == packed(b.0, b.1),
    ensures
        a == b,
{
}

/// The extension of a region container.
pub open spec fn extension(is_zip: bool) -> Seq<char> {
    if is_zip {
        "zip"@
    } else {
        "xaero"@
    }
}

/// The file name of a region.
pub open spec fn region_name(rx: int, rz: int, ext: Seq<char>) -> Seq<char> {
    decimal_text(rx) + "_"@ + decimal_text(rz) + "."@ + ext
}

/// The file name of a region: `<rx>_<rz>.<ext>`.
pub fn region_file_name(rx: i32, rz: i32, ext: &str) -> (r: String)
    ensures
        r@ == region_name(rx as int, rz as int, ext@),
{
    let mut name = decimal(rx as i128);
    name.append("_");
    name.append(decimal(rz as i128).as_str());
    name.append(".");
    name.append(ext);
    name
}

/// The regions of one map directory.
#[derive(Debug, Clone)]
pub struct RegionIndex {
    pub dir: FilePath,
    /// By the coordinates as one number: see [`packed`].
    pub entries: HashMap<u64, RegionMeta>,
}

impl View for RegionIndex {
    type V = Map<(i32, i32), RegionMeta>;

    open spec fn view(&self) -> Map<(i32, i32), RegionMeta> {
        Map::new(
            |at: (i32, i32)| self.entries@.contains_key(packed(at.0, at.1)),
            |at: (i32, i32)| self.entries@[packed(at.0, at.1)],
        )
    }
}

impl Default for RegionIndex {
    fn default() -> (r: Self)
        ensures
            r.dir@.len() == 0,
            r@ == Map::<(i32, i32), RegionMeta>::empty(),
    {
        let r = RegionIndex { dir: FilePath::empty(), entries: HashMap::new() };
        assert(r@ =~= Map::<(i32, i32), RegionMeta>::empty());
        r
    }
}

/// `b` is the smallest box that holds every key of `m`: inclusive
/// (min_x, min_z, max_x, max_z).
pub open spec fn bounding_box(m: Map<(i32, i32), RegionMeta>, b: (i32, i32, i32, i32)) -> bool {
    &&& forall|at: (i32, i32)| #[trigger]
        m.contains_key(at) ==> b.0 <= at.0 <= b.2 && b.1 <= at.1 <= b.3
    &&& exists|at: (i32, i32)| #[trigger] m.contains_key(at) && at.0 == b.0
    &&& exists|at: (i32, i32)| #[trigger] m.contains_key(at) && at.1 == b.1
    &&& exists|at: (i32, i32)| #[trigger] m.contains_key(at) && at.0 == b.2
    &&& exists|at: (i32, i32)| #[trigger] m.contains_key(at) && at.1 == b.3
}

impl RegionIndex {
    /// What is known of the region at the coordinates.
    pub fn get(&self, rx: i32, rz: i32) -> (r: Option<RegionMeta>)
        ensures
            r == (if self@.contains_key((rx, rz)) {
                Some(self@[(rx, rz)])
            } else {
                None
            }),
    {
        match self.entries.get(&pack(rx, rz)) {
            Some(meta) => Some(*meta),
            None => None,
        }
    }

    /// The file of the region at the coordinates.
    pub fn region_path(&self, rx: i32, rz: i32) -> (r: Option<FilePath>)
        ensures
            r is Some <==> self@.contains_key((rx, rz)),
            r matches Some(p) ==> p@ == joined(
                self.dir@,
                region_name(rx as int, rz as int, extension(self@[(rx, rz)].is_zip)),
            ),
    {
        let meta = match self.get(rx, rz) {
            Some(meta) => meta,
            None => return None,
        };
        let ext = if meta.is_zip {
            "zip"
        } else {
            "xaero"
        };
        Some(self.dir.join(region_file_name(rx, rz, ext).as_str()))
    }

    /// Inclusive (min_x, min_z, max_x, max_z) over present regions.
    pub fn bounds(&self) -> (r: Option<(i32, i32, i32, i32)>)
        ensures
            r is None <==> forall|at: (i32, i32)| !#[trigger] self@.contains_key(at),
            r matches Some(b) ==> bounding_box(self@, b),
    {
        let mut found: Option<(i32, i32, i32, i32)> = None;
        let keys = self.entries.keys();
        for k in it: keys
            invariant
                it.seq().unref().to_set() == self.entries@.dom(),
                found is None <==> it.index() == 0,
                found matches Some(b) ==> {
                    &&& forall|i: int|
                        0 <= i < it.index() ==> within(#[trigger] *it.seq()[i], b)
                    &&& exists|at: (i32, i32)| #[trigger] self@.contains_key(at) && at.0 == b.0
                    &&& exists|at: (i32, i32)| #[trigger] self@.contains_key(at) && at.1 == b.1
                    &&& exists|at: (i32, i32)| #[trigger] self@.contains_key(at) && at.0 == b.2
                    &&& exists|at: (i32, i32)| #[trigger] self@.contains_key(at) && at.1 == b.3
                },
        {
            let (x, z) = unpack(*k);
            proof {
                assert(it.seq().unref().contains(*k)) by {
                    assert(it.seq().unref()[it.index() as int] == *k);
                }
                assert(self@.contains_key((x, z)));
            }
            found = match found {
                None => Some((x, z, x, z)),
                Some((ax, az, bx, bz)) => Some(
                    (
                        if x < ax {
                            x
                        } else {
                            ax
                        },
                        if z < az {
                            z
                        } else {
                            az
                        },
                        if x > bx {
                            x
                        } else {
                            bx
                        },
                        if z > bz {
                            z
                        } else {
                            bz
                        },
                    ),
                ),
            };
            proof {
                assert forall|i: int| 0 <= i < it.index() + 1 implies within(
                    #[trigger] *it.seq()[i],
                    found->0,
                ) by {
                    assert forall|at: (i32, i32)| packed(at.0, at.1) == *k implies at == (
                        x,
                        z,
                    ) by {
                        lemma_packed_injective(at, (x, z));
                    }
                }
            }
        }
        found
    }
}

/// The coordinates that `k` stands for lie in `b`.
spec fn within(k: u64, b: (i32, i32, i32, i32)) -> bool {
    forall|at: (i32, i32)| #[trigger]
        packed(at.0, at.1) == k ==> b.0 <= at.0 <= b.2 && b.1 <= at.1 <= b.3
}

/// Indexes the entries of a map directory (a `mw$*` folder or a
/// `mw$*/caves/<n>` folder). Skips cache dirs and temp/outdated files; prefers
/// .zip when both containers exist for the same coordinates.
pub fn index_regions(map_dir: FilePath, entries: &Vec<LayerEntry>) -> (r: RegionIndex)
    ensures
        r.dir == map_dir,
        r@ == indexed(entries@),
{
    let mut index = RegionIndex { dir: map_dir, entries: HashMap::new() };
    assert(index@ =~= indexed(entries@.take(0)));
    let mut i: usize = 0;
    while i < entries.len()
        invariant
            i <= entries@.len(),
            index.dir == map_dir,
            index@ == indexed(entries@.take(i as int)),
        decreases entries@.len() - i,
    {
        let e = &entries[i];
        let ghost before = index@;
        assert(entries@.take(i + 1).drop_last() =~= entries@.take(i as int));
        assert(entries@.take(i + 1).last() == *e);
        if !matches!(e.kind, EntryKind::Directory) && !matches!(e.kind, EntryKind::Unknown) {
            if let (Some((rx, rz, is_zip)), Some(stat)) = (e.region, e.stat) {
                let meta = region_meta(stat, is_zip);
                let k = pack(rx, rz);
                if is_zip || !index.entries.contains_key(&k) {
                    index.entries.insert(k, meta);
                    proof {
                        assert forall|at: (i32, i32)| packed(at.0, at.1) == k implies at == (
                            rx,
                            rz,
                        ) by {
                            lemma_packed_injective(at, (rx, rz));
                        }
                        assert(index@ =~= before.insert((rx, rz), meta));
                    }
                }
            }
        }
        i = i + 1;
    }
    assert(entries@.take(entries@.len() as int) =~= entries@);
    index
}

/// The entry holds the region at `at`.
pub open spec fn holds_region(e: LayerEntry, at: (i32, i32)) -> bool {
    e.region_here() matches Some((here, _)) && here == at
}

/// The index lists a region exactly when some file of the directory holds it.
pub proof fn law_index_lists_what_is_there(entries: Seq<LayerEntry>, at: (i32, i32))
    ensures
        indexed(entries).contains_key(at) <==> exists|i: int|
            0 <= i < entries.len() && holds_region(#[trigger] entries[i], at),
    decreases entries.len(),
{
    if entries.len() > 0 {
        let front = entries.drop_last();
        law_index_lists_what_is_there(front, at);
        if exists|i: int| 0 <= i < front.len() && holds_region(#[trigger] front[i], at) {
            let i = choose|i: int| 0 <= i < front.len() && holds_region(#[trigger] front[i], at);
            assert(holds_region(entries[i], at));
        }
        if holds_region(entries.last(), at) {
            assert(holds_region(entries[entries.len() - 1], at));
        }
        if exists|i: int| 0 <= i < entries.len() && holds_region(#[trigger] entries[i], at) {
            let i = choose|i: int|
                0 <= i < entries.len() && holds_region(#[trigger] entries[i], at);
            if i < front.len() {
                assert(holds_region(front[i], at));
            }
        }
    }
}

/// The zip is preferred, in whatever order the files are listed: where one
/// holds the region, the index shows a zip.
pub proof fn law_zip_is_preferred(entries: Seq<LayerEntry>, at: (i32, i32), i: int)
    requires
        0 <= i < entries.len(),
        holds_region(entries[i], at),
        (entries[i].region_here()->0).1.is_zip,
    ensures
        indexed(entries).contains_key(at),
        indexed(entries)[at].is_zip,
    decreases entries.len(),
{
    let front = entries.drop_last();
    if i < front.len() {
        assert(front[i] == entries[i]);
        law_zip_is_preferred(front, at, i);
    }
}

/// What the index says of a region is what one of its files says.
pub proof fn law_index_says_what_a_file_says(entries: Seq<LayerEntry>, at: (i32, i32))
    requires
        indexed(entries).contains_key(at),
    ensures
        exists|i: int|
            0 <= i < entries.len() && (#[trigger] entries[i]).region_here() == Some(
                (at, indexed(entries)[at]),
            ),
    decreases entries.len(),
{
    let front = entries.drop_last();
    let last = entries[entries.len() - 1];
    if last.region_here() != Some((at, indexed(entries)[at])) {
        law_index_says_what_a_file_says(front, at);
        let i = choose|i: int|
            0 <= i < front.len() && (#[trigger] front[i]).region_here() == Some(
                (at, indexed(front)[at]),
            );
        assert(entries[i] == front[i]);
    }
}

proof fn lemma_first_underscore(a: Seq<char>, b: Seq<char>, rest_a: Seq<char>, rest_b: Seq<char>)
    requires
        a + "_"@ + rest_a == b + "_"@ + rest_b,
        forall|i: int| 0 <= i < a.len() ==> #[trigger] a[i] != '_',
        forall|i: int| 0 <= i < b.len() ==> #[trigger] b[i] != '_',
    ensures
        a == b,
        rest_a == rest_b,
{
    reveal_strlit("_");
    let s = a + "_"@ + rest_a;
    let t = b + "_"@ + rest_b;
    assert(s[a.len() as int] == '_');
    assert(t[b.len() as int] == '_');
    if a.len() < b.len() {
        assert(t[a.len() as int] == b[a.len() as int]);
        assert(false);
    }
    if b.len() < a.len() {
        assert(s[b.len() as int] == a[b.len() as int]);
        assert(false);
    }
    assert(a =~= s.take(a.len() as int));
    assert(b =~= t.take(b.len() as int));
    assert(rest_a =~= s.skip(a.len() as int + 1));
    assert(rest_b =~= t.skip(b.len() as int + 1));
}

/// Two regions never share a file name.
pub proof fn law_region_names_are_distinct(
    rx: int,
    rz: int,
    other_rx: int,
    other_rz: int,
    ext: Seq<char>,
)
    requires
        region_name(rx, rz, ext) == region_name(other_rx, other_rz, ext),
    ensures
        rx == other_rx,
        rz == other_rz,
{
    let tail = "."@ + ext;
    law_decimal_characters(rx);
    law_decimal_characters(other_rx);
    assert(region_name(rx, rz, ext) =~= decimal_text(rx) + "_"@ + (decimal_text(rz) + tail));
    assert(region_name(other_rx, other_rz, ext) =~= decimal_text(other_rx) + "_"@ + (decimal_text(
        other_rz,
    ) + tail));
    lemma_first_underscore(
        decimal_text(rx),
        decimal_text(other_rx),
        decimal_text(rz) + tail,
        decimal_text(other_rz) + tail,
    );
    let s = decimal_text(rz) + tail;
    let t = decimal_text(other_rz) + tail;
    assert(decimal_text(rz) =~= s.take(s.len() - tail.len()));
    assert(decimal_text(other_rz) =~= t.take(t.len() - tail.len()));
    law_decimal_is_injective(rx, other_rx);
    law_decimal_is_injective(rz, other_rz);
}

/// The directory of a map layer below a world's directory.
pub open spec fn layer_of(
    base: Seq<Seq<u8>>,
    dim_folder: Seq<char>,
    mw: Seq<char>,
    cave_layer: Option<i32>,
) -> Seq<Seq<u8>> {
    let surface = joined(joined(base, dim_folder), mw);
    match cave_layer {
        None => surface,
        Some(n) => joined(joined(surface, "caves"@), decimal_text(n as int)),
    }
}

/// Resolves the on-disk directory for a map layer.
pub fn layer_dir(
    world_map_path: &FilePath,
    dim_folder: &str,
    mw: &str,
    cave_layer: Option<i32>,
) -> (r: FilePath)
    ensures
        r@ == layer_of(world_map_path@, dim_folder@, mw@, cave_layer),
{
    let base = world_map_path.join(dim_folder).join(mw);
    match cave_layer {
        None => base,
        Some(n) => base.join("caves").join(decimal(n as i128).as_str()),
    }
}

/// Why a region file is not part of the live layer.
#[derive(Debug, Clone, PartialEq, Eq)]
pub enum AlternateSource {
    /// `<layer>/<version>_backup_<index>/`: the copy Xaero moved aside before
    /// rewriting the region at a newer format version. `version` is the raw
    /// i32 header value (major = `>> 16`, minor = `& 0xFFFF`).
    VersionBackup { version: i32, index: u32 },
    /// `<rx>_<rz>.sync-conflict-<tag>.<ext>`: a Syncthing conflict copy left
    /// beside the live file.
    SyncConflict { tag: String },
}

/// A reason, as text.
pub enum SourceText {
    VersionBackup { version: i32, index: u32 },
    SyncConflict { tag: Seq<char> },
}

impl View for AlternateSource {
    type V = SourceText;

    open spec fn view(&self) -> SourceText {
        match self {
            AlternateSource::VersionBackup { version, index } => SourceText::VersionBackup {
                version: *version,
                index: *index,
            },
            AlternateSource::SyncConflict { tag } => SourceText::SyncConflict { tag: tag@ },
        }
    }
}

/// Backups stand before conflict copies; backups go by version and index,
/// conflict copies by tag.
impl Ranked for AlternateSource {
    type K = SourceText;

    open spec fn rank(&self) -> SourceText {
        self@
    }

    open spec fn le(a: SourceText, b: SourceText) -> bool {
        match (a, b) {
            (
                SourceText::VersionBackup { version: v, index: i },
                SourceText::VersionBackup { version: w, index: j },
            ) => v < w || (v == w && i <= j),
            (SourceText::VersionBackup { .. }, SourceText::SyncConflict { .. }) => true,
            (SourceText::SyncConflict { .. }, SourceText::VersionBackup { .. }) => false,
            (SourceText::SyncConflict { tag: s }, SourceText::SyncConflict { tag: t }) => lex_le::<
                char,
            >(s, t),
        }
    }

    proof fn le_total(a: SourceText, b: SourceText) {
        if let (SourceText::SyncConflict { tag: s }, SourceText::SyncConflict { tag: t }) = (a, b) {
            lex_total::<char>(s, t);
        }
    }

    proof fn le_transitive(a: SourceText, b: SourceText, c: SourceText) {
        if let (
            SourceText::SyncConflict { tag: s },
            SourceText::SyncConflict { tag: t },
            SourceText::SyncConflict { tag: u },
        ) = (a, b, c) {
            lex_transitive::<char>(s, t, u);
        }
    }

    proof fn le_antisymmetric(a: SourceText, b: SourceText) {
        if let (SourceText::SyncConflict { tag: s }, SourceText::SyncConflict { tag: t }) = (a, b) {
            lex_antisymmetric::<char>(s, t);
        }
    }

    fn precedes(&self, other: &Self) -> (r: bool) {
        match (self, other) {
            (
                AlternateSource::VersionBackup { version: v, index: i },
                AlternateSource::VersionBackup { version: w, index: j },
            ) => *v < *w || (*v == *w && *i <= *j),
            (AlternateSource::VersionBackup { .. }, AlternateSource::SyncConflict { .. }) => true,
            (AlternateSource::SyncConflict { .. }, AlternateSource::VersionBackup { .. }) => false,
            (AlternateSource::SyncConflict { tag: s }, AlternateSource::SyncConflict { tag: t }) =>
                s.precedes(t),
        }
    }
}

/// One region file that exists in a layer but is invisible to the live index.
#[derive(Debug, Clone)]
pub struct RegionAlternate {
    pub rx: i32,
    pub rz: i32,
    pub source: AlternateSource,
    pub path: FilePath,
    pub meta: RegionMeta,
    /// False when the live layer has no file at these coordinates, i.e. this
    /// is the only surviving copy of the region.
    pub live: bool,
}

/// An alternate copy, as text.
#[verifier::ext_equal]
pub struct AlternateText {
    pub rx: i32,
    pub rz: i32,
    pub source: SourceText,
    pub path: Seq<Seq<u8>>,
    pub meta: RegionMeta,
    pub live: bool,
}

impl View for RegionAlternate {
    type V = AlternateText;

    open spec fn view(&self) -> AlternateText {
        AlternateText {
            rx: self.rx,
            rz: self.rz,
            source: self.source@,
            path: self.path@,
            meta: self.meta,
            live: self.live,
        }
    }
}

/// Alternates are put in order by (rz, rx, source, path).
impl Ranked for RegionAlternate {
    type K = (i32, (i32, (SourceText, Seq<Seq<u8>>)));

    open spec fn rank(&self) -> (i32, (i32, (SourceText, Seq<Seq<u8>>))) {
        (self.rz, (self.rx, (self.source@, self.path@)))
    }

    open spec fn le(
        a: (i32, (i32, (SourceText, Seq<Seq<u8>>))),
        b: (i32, (i32, (SourceText, Seq<Seq<u8>>))),
    ) -> bool {
        <(i32, (i32, (&AlternateSource, &FilePath))) as Ranked>::le(a, b)
    }

    proof fn le_total(
        a: (i32, (i32, (SourceText, Seq<Seq<u8>>))),
        b: (i32, (i32, (SourceText, Seq<Seq<u8>>))),
    ) {
        <(i32, (i32, (&AlternateSource, &FilePath))) as Ranked>::le_total(a, b);
    }

    proof fn le_transitive(
        a: (i32, (i32, (SourceText, Seq<Seq<u8>>))),
        b: (i32, (i32, (SourceText, Seq<Seq<u8>>))),
        c: (i32, (i32, (SourceText, Seq<Seq<u8>>))),
    ) {
        <(i32, (i32, (&AlternateSource, &FilePath))) as Ranked>::le_transitive(a, b, c);
    }

    proof fn le_antisymmetric(
        a: (i32, (i32, (SourceText, Seq<Seq<u8>>))),
        b: (i32, (i32, (SourceText, Seq<Seq<u8>>))),
    ) {
        <(i32, (i32, (&AlternateSource, &FilePath))) as Ranked>::le_antisymmetric(a, b);
    }

    fn precedes(&self, other: &Self) -> (r: bool) {
        let a = (self.rz, (self.rx, (&self.source, &self.path)));
        let b = (other.rz, (other.rx, (&other.source, &other.path)));
        a.precedes(&b)
    }
}

/// The entry is a region file of the live layer, whether or not its metadata
/// can be read.
pub open spec fn shows_region(e: LayerEntry, rx: i32, rz: i32) -> bool {
    e.may_be_file() && (e.region matches Some((x, z, _)) && x == rx && z == rz)
}

/// The live layer has a file at these coordinates.
pub open spec fn is_live(entries: Seq<LayerEntry>, rx: i32, rz: i32) -> bool {
    exists|i: int| 0 <= i < entries.len() && shows_region(#[trigger] entries[i], rx, rz)
}

/// The conflict copy that `e` is, in the layer `entries` at `dir`.
pub open spec fn conflict_copy(
    dir: Seq<Seq<u8>>,
    entries: Seq<LayerEntry>,
    e: LayerEntry,
) -> Option<AlternateText> {
    match (e.conflict, e.stat) {
        (Some((rx, rz, is_zip, tag)), Some(stat)) if e.may_be_file() && e.region is None => Some(
            AlternateText {
                rx,
                rz,
                source: SourceText::SyncConflict { tag: tag@ },
                path: dir.push(e.name@),
                meta: meta_of(stat, is_zip),
                live: is_live(entries, rx, rz),
            },
        ),
        _ => None,
    }
}

/// The copy that the file `f` of the backup directory `name` is.
pub open spec fn backup_copy(
    dir: Seq<Seq<u8>>,
    entries: Seq<LayerEntry>,
    name: Seq<u8>,
    version: i32,
    index: u32,
    f: BackupFile,
) -> Option<AlternateText> {
    match (f.region, f.stat) {
        (Some((rx, rz, is_zip)), Some(stat)) => Some(
            AlternateText {
                rx,
                rz,
                source: SourceText::VersionBackup { version, index },
                path: dir.push(name).push(f.name@),
                meta: meta_of(stat, is_zip),
                live: is_live(entries, rx, rz),
            },
        ),
        _ => None,
    }
}

/// The copies in the backup directory that `e` is.
pub open spec fn backup_copies(
    dir: Seq<Seq<u8>>,
    entries: Seq<LayerEntry>,
    e: LayerEntry,
) -> Seq<AlternateText> {
    match (e.backup, e.files) {
        (Some((version, index)), Some(files)) if e.kind is Directory => files@.filter_map(
            |f: BackupFile| backup_copy(dir, entries, e.name@, version, index, f),
        ),
        _ => Seq::empty(),
    }
}

/// The conflict copies among `seen`.
pub open spec fn all_conflict_copies(
    dir: Seq<Seq<u8>>,
    entries: Seq<LayerEntry>,
    seen: Seq<LayerEntry>,
) -> Seq<AlternateText> {
    seen.filter_map(|e: LayerEntry| conflict_copy(dir, entries, e))
}

/// The copies in all backup directories among `seen`.
pub open spec fn all_backup_copies(
    dir: Seq<Seq<u8>>,
    entries: Seq<LayerEntry>,
    seen: Seq<LayerEntry>,
) -> Seq<AlternateText>
    decreases seen.len(),
{
    if seen.len() == 0 {
        Seq::empty()
    } else {
        all_backup_copies(dir, entries, seen.drop_last()) + backup_copies(
            dir,
            entries,
            seen.last(),
        )
    }
}

/// Every alternate copy that a layer holds: the conflict copies, then what
/// stands in its backup directories.
pub open spec fn alternates(dir: Seq<Seq<u8>>, entries: Seq<LayerEntry>) -> Seq<AlternateText> {
    all_conflict_copies(dir, entries, entries) + all_backup_copies(dir, entries, entries)
}

/// The texts of `found`.
pub open spec fn alternate_texts(found: Seq<RegionAlternate>) -> Seq<AlternateText> {
    found.map_values(|a: RegionAlternate| a@)
}

fn live_coordinates(entries: &Vec<LayerEntry>) -> (r: HashSet<u64>)
    ensures
        forall|rx: i32, rz: i32| #[trigger]
            r@.contains(packed(rx, rz)) <==> is_live(entries@, rx, rz),
{
    let mut out: HashSet<u64> = HashSet::new();
    let mut i: usize = 0;
    while i < entries.len()
        invariant
            i <= entries@.len(),
            forall|rx: i32, rz: i32| #[trigger]
                out@.contains(packed(rx, rz)) <==> is_live(entries@.take(i as int), rx, rz),
        decreases entries@.len() - i,
    {
        let e = &entries[i];
        let ghost before = out@;
        let ghost done = entries@.take(i as int);
        let ghost more = entries@.take(i + 1);
        let here = if matches!(e.kind, EntryKind::Directory) || matches!(e.kind, EntryKind::Unknown) {
            None
        } else {
            e.region
        };
        if let Some((rx, rz, _)) = here {
            out.insert(pack(rx, rz));
        }
        proof {
            assert forall|rx: i32, rz: i32| #[trigger]
                out@.contains(packed(rx, rz)) <==> is_live(more, rx, rz) by {
                assert(before.contains(packed(rx, rz)) <==> is_live(done, rx, rz));
                if is_live(done, rx, rz) {
                    let k = choose|k: int|
                        0 <= k < done.len() && shows_region(#[trigger] done[k], rx, rz);
                    assert(shows_region(more[k], rx, rz));
                }
                if shows_region(*e, rx, rz) {
                    assert(shows_region(more[i as int], rx, rz));
                }
                if is_live(more, rx, rz) {
                    let k = choose|k: int|
                        0 <= k < more.len() && shows_region(#[trigger] more[k], rx, rz);
                    if k < i {
                        assert(shows_region(done[k], rx, rz));
                    }
                }
                if let Some((x, z, _)) = here {
                    if packed(x, z) == packed(rx, rz) {
                        lemma_packed_injective((x, z), (rx, rz));
                    }
                }
            }
        }
        i = i + 1;
    }
    assert(entries@.take(entries@.len() as int) =~= entries@);
    out
}

fn gather_conflicts(
    map_dir: &FilePath,
    entries: &Vec<LayerEntry>,
    live: &HashSet<u64>,
) -> (r: Vec<RegionAlternate>)
    requires
        forall|rx: i32, rz: i32| #[trigger]
            live@.contains(packed(rx, rz)) <==> is_live(entries@, rx, rz),
    ensures
        alternate_texts(r@) == all_conflict_copies(map_dir@, entries@, entries@),
{
    let mut out: Vec<RegionAlternate> = Vec::new();
    let ghost f = |e: LayerEntry| conflict_copy(map_dir@, entries@, e);
    let mut i: usize = 0;
    assert(entries@.take(0).filter_map(f) =~= Seq::<AlternateText>::empty());
    assert(alternate_texts(out@) =~= Seq::<AlternateText>::empty());
    while i < entries.len()
        invariant
            i <= entries@.len(),
            forall|rx: i32, rz: i32| #[trigger]
                live@.contains(packed(rx, rz)) <==> is_live(entries@, rx, rz),
            f == (|e: LayerEntry| conflict_copy(map_dir@, entries@, e)),
            alternate_texts(out@) == entries@.take(i as int).filter_map(f),
        decreases entries@.len() - i,
    {
        let e = &entries[i];
        let ghost before = out@;
        proof {
            entries@.lemma_filter_map_take_succ(f, i as int);
        }
        let file = !matches!(e.kind, EntryKind::Directory) && !matches!(e.kind, EntryKind::Unknown);
        if file && e.region.is_none() {
            if let (Some((rx, rz, is_zip, tag)), Some(stat)) = (&e.conflict, e.stat) {
                let found = RegionAlternate {
                    rx: *rx,
                    rz: *rz,
                    source: AlternateSource::SyncConflict { tag: tag.clone() },
                    path: map_dir.child(e.name.as_slice()),
                    meta: region_meta(stat, *is_zip),
                    live: live.contains(&pack(*rx, *rz)),
                };
                assert(found@ =~= conflict_copy(map_dir@, entries@, *e)->0);
                out.push(found);
                assert(alternate_texts(out@) =~= alternate_texts(before).push(found@));
            }
        }
        i = i + 1;
    }
    assert(entries@.take(entries@.len() as int) =~= entries@);
    out
}

fn gather_backup(
    map_dir: &FilePath,
    entries: &Vec<LayerEntry>,
    live: &HashSet<u64>,
    e: &LayerEntry,
    out: &mut Vec<RegionAlternate>,
)
    requires
        forall|rx: i32, rz: i32| #[trigger]
            live@.contains(packed(rx, rz)) <==> is_live(entries@, rx, rz),
    ensures
        alternate_texts(final(out)@) == alternate_texts(old(out)@) + backup_copies(
            map_dir@,
            entries@,
            *e,
        ),
{
    let ghost start = alternate_texts(out@);
    assert(start + Seq::<AlternateText>::empty() =~= start);
    if !matches!(e.kind, EntryKind::Directory) {
        return;
    }
    if let (Some((version, index)), Some(files)) = (e.backup, &e.files) {
        let ghost f = |f: BackupFile|
            backup_copy(map_dir@, entries@, e.name@, version, index, f);
        let dir = map_dir.child(e.name.as_slice());
        let mut i: usize = 0;
        assert(files@.take(0).filter_map(f) =~= Seq::<AlternateText>::empty());
        assert(start + files@.take(0).filter_map(f) =~= start);
        while i < files.len()
            invariant
                i <= files@.len(),
                forall|rx: i32, rz: i32| #[trigger]
                    live@.contains(packed(rx, rz)) <==> is_live(entries@, rx, rz),
                f == (|f: BackupFile|
                    backup_copy(map_dir@, entries@, e.name@, version, index, f)),
                dir@ == map_dir@.push(e.name@),
                alternate_texts(out@) == start + files@.take(i as int).filter_map(f),
            decreases files@.len() - i,
        {
            let file = &files[i];
            let ghost before = out@;
            proof {
                files@.lemma_filter_map_take_succ(f, i as int);
            }
            if let (Some((rx, rz, is_zip)), Some(stat)) = (file.region, file.stat) {
                let found = RegionAlternate {
                    rx,
                    rz,
                    source: AlternateSource::VersionBackup { version, index },
                    path: dir.child(file.name.as_slice()),
                    meta: region_meta(stat, is_zip),
                    live: live.contains(&pack(rx, rz)),
                };
                proof {
                    let want = backup_copy(map_dir@, entries@, e.name@, version, index, *file)->0;
                    assert(found@ =~= want);
                    assert(start + files@.take(i as int).filter_map(f).push(want) =~= (start
                        + files@.take(i as int).filter_map(f)).push(want));
                }
                out.push(found);
                assert(alternate_texts(out@) =~= alternate_texts(before).push(found@));
            }
            i = i + 1;
        }
        assert(files@.take(files@.len() as int) =~= files@);
    }
}

/// Every alternate copy of a region held by one map layer: the mod's own
/// `<version>_backup_<n>` snapshots (it *moves* the live file aside, so these
/// can be the last copy of a region) and Syncthing conflict copies.
///
/// This is an opt-in historical view. Nothing here belongs in the live map
/// (backups shadow live coordinates at an older format version), so callers
/// should surface it as a separate layer or a recovery report, and prefer the
/// live copy on any tie. Ordered by (rz, rx, source).
pub fn scan_region_alternates(map_dir: &FilePath, entries: &Vec<LayerEntry>) -> (r: Vec<
    RegionAlternate,
>)
    ensures
        exists|found: Seq<RegionAlternate>|
            alternate_texts(found) == alternates(map_dir@, entries@) && #[trigger] sorted_from(
                found,
                r@,
            ),
{
    let live = live_coordinates(entries);
    let mut out = gather_conflicts(map_dir, entries, &live);
    let ghost conflicts = alternate_texts(out@);
    let mut i: usize = 0;
    assert(conflicts + all_backup_copies(map_dir@, entries@, entries@.take(0)) =~= conflicts);
    while i < entries.len()
        invariant
            i <= entries@.len(),
            forall|rx: i32, rz: i32| #[trigger]
                live@.contains(packed(rx, rz)) <==> is_live(entries@, rx, rz),
            alternate_texts(out@) == conflicts + all_backup_copies(
                map_dir@,
                entries@,
                entries@.take(i as int),
            ),
        decreases entries@.len() - i,
    {
        let e = &entries[i];
        gather_backup(map_dir, entries, &live, e, &mut out);
        assert(entries@.take(i + 1).drop_last() =~= entries@.take(i as int));
        assert(conflicts + all_backup_copies(map_dir@, entries@, entries@.take(i as int))
            + backup_copies(map_dir@, entries@, *e) =~= conflicts + all_backup_copies(
            map_dir@,
            entries@,
            entries@.take(i + 1),
        ));
        i = i + 1;
    }
    assert(entries@.take(entries@.len() as int) =~= entries@);
    let ghost found = out@;
    let sorted = sort(out);
    assert(sorted_from(found, sorted@));
    sorted
}

proof fn lemma_backups_are_marked(
    dir: Seq<Seq<u8>>,
    entries: Seq<LayerEntry>,
    seen: Seq<LayerEntry>,
    j: int,
)
    requires
        0 <= j < all_backup_copies(dir, entries, seen).len(),
    ensures
        ({
            let a = all_backup_copies(dir, entries, seen)[j];
            a.live == is_live(entries, a.rx, a.rz)
        }),
    decreases seen.len(),
{
    if seen.len() > 0 {
        let front = all_backup_copies(dir, entries, seen.drop_last());
        let e = seen.last();
        if j < front.len() {
            lemma_backups_are_marked(dir, entries, seen.drop_last(), j);
        } else if let (Some((version, index)), Some(files)) = (e.backup, e.files) {
            if e.kind is Directory {
                files@.lemma_filter_map_contains(
                    |f: BackupFile| backup_copy(dir, entries, e.name@, version, index, f),
                    all_backup_copies(dir, entries, seen)[j],
                );
            }
        }
    }
}

/// A copy is marked as having a live counterpart exactly when the live layer
/// has a file at its coordinates: one that is not marked is the only surviving
/// copy.
pub proof fn law_alternates_know_the_live_layer(
    dir: Seq<Seq<u8>>,
    entries: Seq<LayerEntry>,
    j: int,
)
    requires
        0 <= j < alternates(dir, entries).len(),
    ensures
        alternates(dir, entries)[j].live == is_live(
            entries,
            alternates(dir, entries)[j].rx,
            alternates(dir, entries)[j].rz,
        ),
{
    let conflicts = all_conflict_copies(dir, entries, entries);
    if j < conflicts.len() {
        entries.lemma_filter_map_contains(
            |e: LayerEntry| conflict_copy(dir, entries, e),
            conflicts[j],
        );
    } else {
        lemma_backups_are_marked(dir, entries, entries, j - conflicts.len());
    }
}

/// An entry of a layer is counted once: nothing that the live index lists is
/// also reported as a conflict copy.
pub proof fn law_live_files_are_no_alternates(
    dir: Seq<Seq<u8>>,
    entries: Seq<LayerEntry>,
    e: LayerEntry,
)
    requires
        e.region_here() is Some,
    ensures
        conflict_copy(dir, entries, e) is None,
        backup_copies(dir, entries, e).len() == 0,
{
}

} // verus!
