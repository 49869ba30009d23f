//! Region ingest: which uploads are let in, and where they go.
//!
//! An upload is a raw region container for a (world, dim, mw[, cave], rx, rz).
//! It is stored twice under the server-owned ingest dir:
//!
//! - `players/<player>/world-map/<world>/...`: the uploader's bytes verbatim, a
//!   per-client backup of exactly what their game saved.
//! - `merged/world-map/<world>/...`: tile-merged across every uploader
//!   (incoming tiles win, tiles it lacks survive), the shared group map.
//!
//! Nothing is ever written outside the ingest dir.

use vstd::prelude::*;
use vstd::utf8::encode_utf8;
use crate::order::{sort, sorted_from};
use crate::paths::{joined, path_texts, FilePath};
use crate::regions::{extension, layer_of, region_file_name, region_name};
use crate::text::{chars_of, decimal, decimal_text, law_decimal_characters};
use crate::worlds::{DimEntry, MwEntry, World};

verus! {

/// Body cap for one region upload. Real regions run a few hundred KB to a few
/// MB; anything near this is not a region file.
pub const REGION_BODY_MAX: usize = 0x200_0000;

/// |rx|/|rz| cap: the world border (|x| <= 40M blocks) is region 78,125.
pub const COORD_CAP: i32 = 100_000;

/// What an upload says it is.
#[derive(Debug, Clone)]
pub struct RegionQuery {
    pub world: String,
    pub dim: String,
    pub mw: String,
    pub rx: i32,
    pub rz: i32,
    pub cave: Option<i32>,
}

/// A character that a client may put in a path segment: a letter or a digit of
/// ASCII, or one that world folders carry.
pub open spec fn safe_char(c: char) -> bool {
    ||| 'a' <= c <= 'z'
    ||| 'A' <= c <= 'Z'
    ||| '0' <= c <= '9'
    ||| " _-.$%()',+&@~"@.contains(c)
}

/// A path segment that a client may name: at most 128 bytes, which are as many
/// characters, since every one of them is ASCII.
pub open spec fn is_safe(s: Seq<char>) -> bool {
    &&& 0 < s.len() <= 128
    &&& s[0] != '.'
    &&& forall|i: int| 0 <= i < s.len() ==> safe_char(#[trigger] s[i])
}

/// The characters that world folders carry, one by one.
pub proof fn lemma_listed_characters(c: char)
    ensures
        " _-.$%()',+&@~"@.contains(c) == (c == ' ' || c == '_' || c == '-' || c == '.' || c == '$'
            || c == '%' || c == '(' || c == ')' || c == '\'' || c == ',' || c == '+' || c == '&'
            || c == '@' || c == '~'),
{
    reveal_strlit(" _-.$%()',+&@~");
    let all = " _-.$%()',+&@~"@;
    assert(all[0] == ' ' && all[1] == '_' && all[2] == '-' && all[3] == '.' && all[4] == '$'
        && all[5] == '%' && all[6] == '(' && all[7] == ')' && all[8] == '\'' && all[9] == ','
        && all[10] == '+' && all[11] == '&' && all[12] == '@' && all[13] == '~' && all.len() == 14);
}

fn is_safe_char(c: char) -> (r: bool)
    ensures
        r == safe_char(c),
{
    let listed = c == ' ' || c == '_' || c == '-' || c == '.' || c == '$' || c == '%' || c == '('
        || c == ')' || c == '\'' || c == ',' || c == '+' || c == '&' || c == '@' || c == '~';
    proof {
        lemma_listed_characters(c);
    }
    ('a' <= c && c <= 'z') || ('A' <= c && c <= 'Z') || ('0' <= c && c <= '9') || listed
}

/// One path segment as a client may name it (world folders can carry spaces,
/// `$`/`%` escapes, dots). No separators, no traversal, no hidden files.
/// Also the rule for player names when a token is made for one.
pub fn safe_segment(s: &str) -> (r: bool)
    ensures
        r == is_safe(s@),
{
    let cs = chars_of(s);
    if cs.len() == 0 || cs.len() > 128 || cs[0] == '.' {
        return false;
    }
    let mut i: usize = 0;
    while i < cs.len()
        invariant
            cs@ == s@,
            i <= cs@.len(),
            forall|k: int| 0 <= k < i ==> safe_char(#[trigger] cs@[k]),
        decreases cs@.len() - i,
    {
        if !is_safe_char(cs[i]) {
            assert(!safe_char(s@[i as int]));
            return false;
        }
        i = i + 1;
    }
    true
}

/// A safe segment cannot leave its directory: it holds no separator and no
/// drive letter's colon, and it is no hidden file, nor `.` or `..`.
pub proof fn law_safe_segment_stays_in_place(s: Seq<char>)
    requires
        is_safe(s),
    ensures
        !s.contains('/'),
        !s.contains('\\'),
        !s.contains(':'),
        !s.contains('\0'),
        s != "."@,
        s != ".."@,
        s[0] != '.',
{
    reveal_strlit(".");
    reveal_strlit("..");
    lemma_listed_characters('/');
    lemma_listed_characters('\\');
    lemma_listed_characters(':');
    lemma_listed_characters('\0');
}

/// The coordinates are within the cap.
pub open spec fn within_cap(q: RegionQuery) -> bool {
    -COORD_CAP <= q.rx <= COORD_CAP && -COORD_CAP <= q.rz <= COORD_CAP
}

/// What is wrong with a query, if anything. `known_dim` is whether the dim is a
/// dimension folder, `known_mw` whether the mw is a multiworld folder.
pub open spec fn fault(q: RegionQuery, known_dim: bool, known_mw: bool) -> Option<Seq<char>> {
    if !is_safe(q.world@) {
        Some("bad world folder name"@)
    } else if !is_safe(q.dim@) || !known_dim {
        Some("bad dim folder name"@)
    } else if !is_safe(q.mw@) || !known_mw {
        Some("bad multiworld folder name"@)
    } else if !within_cap(q) {
        Some("region coordinates out of range"@)
    } else {
        None
    }
}

/// Holds a query to the rules. `known_dim` is whether the dim is a dimension
/// folder, `known_mw` whether the mw is a multiworld folder.
pub fn validate(q: &RegionQuery, known_dim: bool, known_mw: bool) -> (r: Result<(), &'static str>)
    ensures
        match r {
            Ok(_) => fault(*q, known_dim, known_mw) is None,
            Err(message) => fault(*q, known_dim, known_mw) == Some(message@),
        },
{
    if !safe_segment(q.world.as_str()) {
        return Err("bad world folder name");
    }
    if !safe_segment(q.dim.as_str()) || !known_dim {
        return Err("bad dim folder name");
    }
    if !safe_segment(q.mw.as_str()) || !known_mw {
        return Err("bad multiworld folder name");
    }
    if q.rx < -COORD_CAP || q.rx > COORD_CAP || q.rz < -COORD_CAP || q.rz > COORD_CAP {
        return Err("region coordinates out of range");
    }
    Ok(())
}

/// The names of a layer dir below a root.
pub open spec fn layer_names(q: RegionQuery) -> Seq<Seq<char>> {
    let surface = seq!["world-map"@, q.world@, q.dim@, q.mw@];
    match q.cave {
        None => surface,
        Some(n) => surface.push("caves"@).push(decimal_text(n as int)),
    }
}

/// `names`, encoded.
pub open spec fn encoded(names: Seq<Seq<char>>) -> Seq<Seq<u8>> {
    names.map_values(|n: Seq<char>| encode_utf8(n))
}

/// `world-map/<world>/<dim>/<mw>[/caves/<n>]`: the layer dir below a root.
pub fn layer_rel(q: &RegionQuery) -> (r: FilePath)
    ensures
        r@ == encoded(layer_names(*q)),
{
    let base = FilePath::empty().join("world-map").join(q.world.as_str()).join(q.dim.as_str()).join(
        q.mw.as_str(),
    );
    let r = match q.cave {
        None => base,
        Some(n) => base.join("caves").join(decimal(n as i128).as_str()),
    };
    assert(r@ =~= encoded(layer_names(*q)));
    r
}

proof fn lemma_decimal_is_short(n: int)
    requires
        -0x8000_0000 <= n <= 0x7fff_ffff,
    ensures
        decimal_text(n).len() <= 11,
{
    reveal_with_fuel(crate::text::digits, 11);
}

proof fn lemma_decimal_is_safe(n: int)
    requires
        -0x8000_0000 <= n <= 0x7fff_ffff,
    ensures
        is_safe(decimal_text(n)),
        decimal_text(n).len() <= 11,
{
    law_decimal_characters(n);
    lemma_decimal_is_short(n);
    lemma_listed_characters('-');
    let t = decimal_text(n);
    assert forall|i: int| 0 <= i < t.len() implies safe_char(#[trigger] t[i]) by {}
}

/// A query that passes the rules names a layer dir of safe segments alone, so
/// that what is stored under it stays below the root.
pub proof fn law_valid_layer_stays_below_its_root(q: RegionQuery, known_dim: bool, known_mw: bool)
    requires
        fault(q, known_dim, known_mw) is None,
    ensures
        forall|i: int| 0 <= i < layer_names(q).len() ==> is_safe(#[trigger] layer_names(q)[i]),
{
    reveal_strlit("world-map");
    reveal_strlit("caves");
    lemma_listed_characters('-');
    assert(is_safe("world-map"@));
    if let Some(n) = q.cave {
        assert(is_safe("caves"@));
        lemma_decimal_is_safe(n as int);
    }
}

/// The layer dir that an upload names below a root is the one that the scanner
/// looks in for that layer.
pub proof fn law_uploads_land_where_layers_are_read(q: RegionQuery, root: Seq<Seq<u8>>)
    ensures
        root + encoded(layer_names(q)) == layer_of(
            joined(joined(root, "world-map"@), q.world@),
            q.dim@,
            q.mw@,
            q.cave,
        ),
{
    assert(root + encoded(layer_names(q)) =~= layer_of(
        joined(joined(root, "world-map"@), q.world@),
        q.dim@,
        q.mw@,
        q.cave,
    ));
}

/// A name and whether it is a directory.
#[derive(Debug)]
pub struct NamedEntry {
    /// The entry's name, encoded.
    pub raw: Vec<u8>,
    pub is_dir: bool,
}

/// `players/<player>` below the ingest dir.
pub open spec fn player_root(ingest_dir: Seq<Seq<u8>>, player: Seq<char>) -> Seq<Seq<u8>> {
    joined(joined(ingest_dir, "players"@), player)
}

/// `merged` below the ingest dir.
pub open spec fn merged_root(ingest_dir: Seq<Seq<u8>>) -> Seq<Seq<u8>> {
    joined(ingest_dir, "merged"@)
}

/// The directory that holds the players' trees.
pub fn players_dir(ingest_dir: &FilePath) -> (r: FilePath)
    ensures
        r@ == joined(ingest_dir@, "players"@),
{
    ingest_dir.join("players")
}

/// The root of one player's tree.
pub fn player_dir(ingest_dir: &FilePath, player: &str) -> (r: FilePath)
    ensures
        r@ == player_root(ingest_dir@, player@),
{
    players_dir(ingest_dir).join(player)
}

/// The root of the shared merged tree.
pub fn merged_dir(ingest_dir: &FilePath) -> (r: FilePath)
    ensures
        r@ == merged_root(ingest_dir@),
{
    ingest_dir.join("merged")
}

/// The ingest-managed directories: one per player that has uploaded, plus the
/// shared merged tree.
pub open spec fn managed_roots(
    ingest_dir: Seq<Seq<u8>>,
    players: Seq<NamedEntry>,
    has_merged: bool,
) -> Seq<Seq<Seq<u8>>> {
    players.filter_map(
        |e: NamedEntry|
            if e.is_dir {
                Some(joined(ingest_dir, "players"@).push(e.raw@))
            } else {
                None
            },
    ) + (if has_merged {
        seq![merged_root(ingest_dir)]
    } else {
        Seq::empty()
    })
}

/// The ingest-managed directories that should be served as map roots: one per
/// player that has uploaded, plus the shared merged tree, sorted. `players` are
/// what stands in `players`, as far as it can be listed; `has_merged` is
/// whether `merged` is a directory.
pub fn ingest_roots(
    ingest_dir: &FilePath,
    players: &Vec<NamedEntry>,
    has_merged: bool,
) -> (r: Vec<FilePath>)
    ensures
        exists|found: Seq<FilePath>|
            path_texts(found) == managed_roots(ingest_dir@, players@, has_merged)
                && #[trigger] sorted_from(found, r@),
{
    let mut out: Vec<FilePath> = Vec::new();
    let dir = players_dir(ingest_dir);
    let ghost f = |e: NamedEntry|
        if e.is_dir {
            Some(joined(ingest_dir@, "players"@).push(e.raw@))
        } else {
            None
        };
    let mut i: usize = 0;
    assert(players@.take(0).filter_map(f) =~= Seq::<Seq<Seq<u8>>>::empty());
    assert(path_texts(out@) =~= Seq::<Seq<Seq<u8>>>::empty());
    while i < players.len()
        invariant
            i <= players@.len(),
            dir@ == joined(ingest_dir@, "players"@),
            f == (|e: NamedEntry|
                if e.is_dir {
                    Some(joined(ingest_dir@, "players"@).push(e.raw@))
                } else {
                    None
                }),
            path_texts(out@) == players@.take(i as int).filter_map(f),
        decreases players@.len() - i,
    {
        let ghost before = out@;
        proof {
            players@.lemma_filter_map_take_succ(f, i as int);
        }
        if players[i].is_dir {
            let p = dir.child(players[i].raw.as_slice());
            out.push(p);
            assert(path_texts(out@) =~= path_texts(before).push(p@));
        }
        i = i + 1;
    }
    assert(players@.take(players@.len() as int) =~= players@);
    let ghost before = out@;
    if has_merged {
        let merged = merged_dir(ingest_dir);
        out.push(merged);
        assert(path_texts(out@) =~= path_texts(before) + seq![merged@]);
    } else {
        assert(path_texts(out@) =~= path_texts(before) + Seq::<Seq<Seq<u8>>>::empty());
    }
    let ghost found = out@;
    let sorted = sort(out);
    assert(sorted_from(found, sorted@));
    sorted
}

/// A world and the root it was found under.
#[derive(Debug, Clone)]
pub struct WorldEntry {
    pub root: FilePath,
    pub world: World,
}

/// The multiworld carries the layer.
pub open spec fn mw_carries(m: MwEntry, q: RegionQuery) -> bool {
    &&& m.id@ == q.mw@
    &&& q.cave matches Some(n) ==> m.cave_layers@.contains(n)
}

/// The dimension carries the layer.
pub open spec fn dim_carries(d: DimEntry, q: RegionQuery) -> bool {
    &&& d.folder@ == q.dim@
    &&& exists|i: int| 0 <= i < d.multiworlds@.len() && mw_carries(#[trigger] d.multiworlds@[i], q)
}

/// The world carries the layer, under `root`.
pub open spec fn world_carries(w: WorldEntry, root: Seq<Seq<u8>>, q: RegionQuery) -> bool {
    &&& w.root@ == root
    &&& w.world.id@ == q.world@
    &&& exists|i: int| 0 <= i < w.world.dims@.len() && dim_carries(#[trigger] w.world.dims@[i], q)
}

/// Some world carries the layer, under `root`.
pub open spec fn root_carries(worlds: Seq<WorldEntry>, root: Seq<Seq<u8>>, q: RegionQuery) -> bool {
    exists|i: int| 0 <= i < worlds.len() && world_carries(#[trigger] worlds[i], root, q)
}

fn mw_has(m: &MwEntry, q: &RegionQuery) -> (r: bool)
    ensures
        r == mw_carries(*m, *q),
{
    if m.id != q.mw {
        return false;
    }
    let n = match q.cave {
        None => return true,
        Some(n) => n,
    };
    let mut i: usize = 0;
    while i < m.cave_layers.len()
        invariant
            m.id@ == q.mw@,
            q.cave == Some(n),
            i <= m.cave_layers@.len(),
            forall|k: int| 0 <= k < i ==> (#[trigger] m.cave_layers@[k]) != n,
        decreases m.cave_layers@.len() - i,
    {
        if m.cave_layers[i] == n {
            return true;
        }
        i = i + 1;
    }
    false
}

fn dim_has(d: &DimEntry, q: &RegionQuery) -> (r: bool)
    ensures
        r == dim_carries(*d, *q),
{
    if d.folder != q.dim {
        return false;
    }
    let mut i: usize = 0;
    while i < d.multiworlds.len()
        invariant
            d.folder@ == q.dim@,
            i <= d.multiworlds@.len(),
            forall|k: int| 0 <= k < i ==> !mw_carries(#[trigger] d.multiworlds@[k], *q),
        decreases d.multiworlds@.len() - i,
    {
        if mw_has(&d.multiworlds[i], q) {
            return true;
        }
        i = i + 1;
    }
    false
}

fn world_has(w: &WorldEntry, root: &FilePath, q: &RegionQuery) -> (r: bool)
    ensures
        r == world_carries(*w, root@, *q),
{
    if !w.root.is_same(root) || w.world.id != q.world {
        return false;
    }
    let mut i: usize = 0;
    while i < w.world.dims.len()
        invariant
            w.root@ == root@,
            w.world.id@ == q.world@,
            i <= w.world.dims@.len(),
            forall|k: int| 0 <= k < i ==> !dim_carries(#[trigger] w.world.dims@[k], *q),
        decreases w.world.dims@.len() - i,
    {
        if dim_has(&w.world.dims[i], q) {
            return true;
        }
        i = i + 1;
    }
    false
}

fn root_has(worlds: &Vec<WorldEntry>, root: &FilePath, q: &RegionQuery) -> (r: bool)
    ensures
        r == root_carries(worlds@, root@, *q),
{
    let mut i: usize = 0;
    while i < worlds.len()
        invariant
            i <= worlds@.len(),
            forall|k: int| 0 <= k < i ==> !world_carries(#[trigger] worlds@[k], root@, *q),
        decreases worlds@.len() - i,
    {
        if world_has(&worlds[i], root, q) {
            return true;
        }
        i = i + 1;
    }
    false
}

/// True when both ingest roots, the player's and the merged one, already carry
/// this (world, dim, mw, cave): the watcher covers the layer dirs, so no rescan
/// is needed for this upload. The roots are given as the file system spells
/// them.
pub fn layer_known(
    worlds: &Vec<WorldEntry>,
    player_root: &FilePath,
    merged_root: &FilePath,
    q: &RegionQuery,
) -> (r: bool)
    ensures
        r == (root_carries(worlds@, player_root@, *q) && root_carries(
            worlds@,
            merged_root@,
            *q,
        )),
{
    root_has(worlds, player_root, q) && root_has(worlds, merged_root, q)
}

/// Why an upload is turned away: an HTTP status and what is said.
#[derive(Debug, Clone, PartialEq, Eq)]
pub struct Refusal {
    pub status: u16,
    pub message: String,
}

/// A refusal, as text.
pub open spec fn refusal_text(r: Refusal) -> (int, Seq<char>) {
    (r.status as int, r.message@)
}

/// What an upload is turned away for before anything is done about it, if for
/// anything. `no_caves` is whether the server takes no cave layers.
pub open spec fn turned_away(
    player: Seq<char>,
    q: RegionQuery,
    known_dim: bool,
    known_mw: bool,
    no_caves: bool,
    body_len: int,
) -> Option<(int, Seq<char>)> {
    if !is_safe(player) {
        Some(
            (
                403,
                "player name is not filesystem-safe — regenerate the token for a simpler name"@,
            ),
        )
    } else if fault(q, known_dim, known_mw) is Some {
        Some((400, fault(q, known_dim, known_mw)->0))
    } else if q.cave is Some && no_caves {
        Some((403, "cave-layer uploads are disabled on this server (--ingest-no-caves)"@))
    } else if body_len == 0 {
        Some((400, "empty body"@))
    } else if body_len > REGION_BODY_MAX {
        Some((413, "region too large"@))
    } else {
        None
    }
}

fn refuse(status: u16, message: &str) -> (r: Refusal)
    ensures
        refusal_text(r) == (status as int, message@),
{
    Refusal { status, message: message.to_owned() }
}

/// Decides whether an upload is let in, before anything is done about it.
pub fn let_in(
    player: &str,
    q: &RegionQuery,
    known_dim: bool,
    known_mw: bool,
    no_caves: bool,
    body_len: usize,
) -> (r: Result<(), Refusal>)
    ensures
        match r {
            Ok(_) => turned_away(player@, *q, known_dim, known_mw, no_caves, body_len as int)
                is None,
            Err(e) => turned_away(player@, *q, known_dim, known_mw, no_caves, body_len as int)
                == Some(refusal_text(e)),
        },
{
    if !safe_segment(player) {
        // Player names become directory names; a token generated for an unsafe
        // one is a server-side misconfiguration, not a client error.
        return Err(
            refuse(
                403,
                "player name is not filesystem-safe — regenerate the token for a simpler name",
            ),
        );
    }
    if let Err(message) = validate(q, known_dim, known_mw) {
        return Err(refuse(400, message));
    }
    if q.cave.is_some() && no_caves {
        return Err(
            refuse(403, "cave-layer uploads are disabled on this server (--ingest-no-caves)"),
        );
    }
    if body_len == 0 {
        return Err(refuse(400, "empty body"));
    }
    if body_len > REGION_BODY_MAX {
        return Err(refuse(413, "region too large"));
    }
    Ok(())
}

/// An upload that is let in is stored under safe names alone: the player's and
/// those of its layer. None of them can lead out of the ingest dir.
pub proof fn law_admitted_upload_has_safe_names(
    player: Seq<char>,
    q: RegionQuery,
    known_dim: bool,
    known_mw: bool,
    no_caves: bool,
    body_len: usize,
)
    requires
        turned_away(player, q, known_dim, known_mw, no_caves, body_len as int) is None,
    ensures
        is_safe(player),
        forall|i: int| 0 <= i < layer_names(q).len() ==> is_safe(#[trigger] layer_names(q)[i]),
        within_cap(q),
        0 < body_len <= REGION_BODY_MAX,
        no_caves ==> q.cave is None,
{
    law_valid_layer_stays_below_its_root(q, known_dim, known_mw);
}

// ----------------------------------------------------------------- writes --

/// The name under which a file is written before it is moved into place.
pub open spec fn staging_name(name: Seq<char>) -> Seq<char> {
    name + ".tmp-xt"@
}

/// A file to be put in place whole or not at all: made in `dir` at `tmp` and
/// then renamed to `dst`.
#[derive(Debug)]
pub struct AtomicWrite {
    pub dir: FilePath,
    pub tmp: FilePath,
    pub dst: FilePath,
}

/// Where a file called `name` is made in `dir`, and where it goes.
pub fn write_atomic(dir: &FilePath, name: &str) -> (r: AtomicWrite)
    ensures
        r.dir@ == dir@,
        r.tmp@ == joined(dir@, staging_name(name@)),
        r.dst@ == joined(dir@, name@),
{
    let mut staging = name.to_owned();
    staging.append(".tmp-xt");
    AtomicWrite { dir: dir.copied(), tmp: dir.join(staging.as_str()), dst: dir.join(name) }
}

/// The step at which putting a file in place failed.
#[derive(Debug, Clone, Copy, PartialEq, Eq, Structural)]
pub enum WriteStep {
    MakeDirectory,
    Write,
    Rename,
}

/// What a failed step is called.
pub open spec fn step_name(step: WriteStep) -> Seq<char> {
    match step {
        WriteStep::MakeDirectory => "mkdir "@,
        WriteStep::Write => "write "@,
        WriteStep::Rename => "rename "@,
    }
}

/// What is said of a failed step, with the path it was about and why.
pub fn write_failure(step: WriteStep, path: &str, why: &str) -> (r: String)
    ensures
        r@ == step_name(step) + path@ + ": "@ + why@,
{
    let mut message = match step {
        WriteStep::MakeDirectory => "mkdir ".to_owned(),
        WriteStep::Write => "write ".to_owned(),
        WriteStep::Rename => "rename ".to_owned(),
    };
    message.append(path);
    message.append(": ");
    message.append(why);
    message
}

/// The container is a zip: it begins with the letters PK.
pub open spec fn is_zip(bytes: Seq<u8>) -> bool {
    bytes.len() >= 2 && bytes[0] == 0x50 && bytes[1] == 0x4b
}

/// A region file to be written, and the file of the opposite extension to be
/// dropped, so that one coordinate is one file.
#[derive(Debug)]
pub struct RegionWrite {
    pub write: AtomicWrite,
    pub stale: FilePath,
}

/// `w` puts a region container of the given kind in place in `dir`.
pub open spec fn places_region(
    w: RegionWrite,
    dir: Seq<Seq<u8>>,
    rx: int,
    rz: int,
    zip: bool,
) -> bool {
    &&& w.write.dir@ == dir
    &&& w.write.tmp@ == joined(dir, staging_name(region_name(rx, rz, extension(zip))))
    &&& w.write.dst@ == joined(dir, region_name(rx, rz, extension(zip)))
    &&& w.stale@ == joined(dir, region_name(rx, rz, extension(!zip)))
}

/// Whether the container is a zip.
pub fn has_zip_magic(bytes: &[u8]) -> (r: bool)
    ensures
        r == is_zip(bytes@),
{
    bytes.len() >= 2 && bytes[0] == 0x50 && bytes[1] == 0x4b
}

/// Where a region container of the given kind goes.
pub fn place_region(dir: &FilePath, rx: i32, rz: i32, zip: bool) -> (r: RegionWrite)
    ensures
        places_region(r, dir@, rx as int, rz as int, zip),
{
    let (ext, other) = if zip {
        ("zip", "xaero")
    } else {
        ("xaero", "zip")
    };
    RegionWrite {
        write: write_atomic(dir, region_file_name(rx, rz, ext).as_str()),
        stale: dir.join(region_file_name(rx, rz, other).as_str()),
    }
}

/// Where region bytes go: to `<rx>_<rz>.<ext>`, the extension told from the
/// container's magic.
pub fn write_region_file(dir: &FilePath, rx: i32, rz: i32, bytes: &[u8]) -> (r: RegionWrite)
    ensures
        places_region(r, dir@, rx as int, rz as int, is_zip(bytes@)),
{
    place_region(dir, rx, rz, has_zip_magic(bytes))
}

proof fn lemma_safe_tail(s: Seq<char>, tail: Seq<char>)
    requires
        is_safe(s),
        s.len() + tail.len() <= 128,
        forall|i: int| 0 <= i < tail.len() ==> safe_char(#[trigger] tail[i]),
    ensures
        is_safe(s + tail),
{
    let all = s + tail;
    assert forall|i: int| 0 <= i < all.len() implies safe_char(#[trigger] all[i]) by {
        if i < s.len() {
            assert(all[i] == s[i]);
        } else {
            assert(all[i] == tail[i - s.len()]);
        }
    }
}

/// A region file's name is a safe segment, and so is the name under which it
/// is made.
pub proof fn law_region_files_have_safe_names(rx: i32, rz: i32, zip: bool)
    ensures
        is_safe(region_name(rx as int, rz as int, extension(zip))),
        is_safe(staging_name(region_name(rx as int, rz as int, extension(zip)))),
{
    reveal_strlit("_");
    reveal_strlit(".");
    reveal_strlit("zip");
    reveal_strlit("xaero");
    reveal_strlit(".tmp-xt");
    lemma_listed_characters('_');
    lemma_listed_characters('.');
    lemma_listed_characters('-');
    let x = decimal_text(rx as int);
    let z = decimal_text(rz as int);
    lemma_decimal_is_safe(rx as int);
    lemma_decimal_is_safe(rz as int);
    lemma_safe_tail(x, "_"@);
    lemma_safe_tail(x + "_"@, z);
    lemma_safe_tail(x + "_"@ + z, "."@);
    lemma_safe_tail(x + "_"@ + z + "."@, extension(zip));
    lemma_safe_tail(region_name(rx as int, rz as int, extension(zip)), ".tmp-xt"@);
}

/// A name that encodes a safe segment.
pub open spec fn is_safe_name(raw: Seq<u8>) -> bool {
    exists|t: Seq<char>| is_safe(t) && raw == #[trigger] encode_utf8(t)
}

/// A write never drops the file it has just put in place, and what it makes
/// first is neither of the two.
pub proof fn law_write_keeps_what_it_wrote(rx: int, rz: int, zip: bool)
    ensures
        region_name(rx, rz, extension(zip)) != region_name(rx, rz, extension(!zip)),
        staging_name(region_name(rx, rz, extension(zip))) != region_name(rx, rz, extension(zip)),
        staging_name(region_name(rx, rz, extension(zip))) != region_name(rx, rz, extension(!zip)),
{
    reveal_strlit("zip");
    reveal_strlit("xaero");
    reveal_strlit(".tmp-xt");
    let a = region_name(rx, rz, extension(zip));
    let b = region_name(rx, rz, extension(!zip));
    let t = staging_name(a);
    assert(a.last() == extension(zip).last());
    assert(b.last() == extension(!zip).last());
    assert(extension(true).last() == 'p' && extension(false).last() == 'o');
    assert(t.last() == 't');
}

} // verus!
