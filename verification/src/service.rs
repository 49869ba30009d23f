//! What the taking-in of regions promises: who is let in, what a request is
//! answered, and which files an upload becomes.

use vstd::prelude::*;
use vstd::utf8::encode_utf8;
use crate::ingest::{encoded, is_safe, is_zip, layer_names, managed_roots};
use crate::ingest::{lemma_listed_characters, root_carries, safe_char, staging_name};
use crate::ingest::{step_name, turned_away, NamedEntry, Refusal, RegionQuery, WorldEntry, WriteStep};
use crate::ingest::{dim_carries, mw_carries, places_region, world_carries, RegionWrite};
use crate::order::{law_sorting_keeps_elements, sorted_from};
use crate::paths::{path_texts, FilePath};
use crate::picking::lemma_filter_map_has;
use crate::regions::region_name;
use crate::request::{RequestAction, RequestEvent, RequestState};
use crate::text::decimal_text;
use crate::upload::{Content, UploadAction, UploadEvent, UploadState};

verus! {

// ------------------------------------------------------------------ rules --

/// A name that may become a directory: 1 to 128 characters, none but ASCII
/// letters and digits and ` _-.$%()',+&@~`, and no dot in front.
pub open spec fn may_be_a_folder(s: Seq<char>) -> bool {
    &&& 1 <= s.len() <= 128
    &&& s[0] != '.'
    &&& forall|i: int|
        0 <= i < s.len() ==> {
            let c = #[trigger] s[i];
            ||| 'a' <= c <= 'z' || 'A' <= c <= 'Z' || '0' <= c <= '9'
            ||| c == ' ' || c == '_' || c == '-' || c == '.' || c == '$' || c == '%' || c == '('
                || c == ')' || c == '\'' || c == ',' || c == '+' || c == '&' || c == '@' || c == '~'
        }
}

/// The names that are let through are those that may become a directory.
pub proof fn law_safe_names_may_be_folders(s: Seq<char>)
    ensures
        is_safe(s) <==> may_be_a_folder(s),
{
    assert forall|i: int| 0 <= i < s.len() implies (safe_char(#[trigger] s[i]) <==> {
        let c = s[i];
        ||| 'a' <= c <= 'z' || 'A' <= c <= 'Z' || '0' <= c <= '9'
        ||| c == ' ' || c == '_' || c == '-' || c == '.' || c == '$' || c == '%' || c == '(' || c
            == ')' || c == '\'' || c == ',' || c == '+' || c == '&' || c == '@' || c == '~'
    }) by {
        lemma_listed_characters(s[i]);
    }
}

/// An upload is let in exactly when every rule is kept: the four names may be
/// folders, the dimension and the multiworld are named as such, the region lies
/// within 100,000 of the origin, caves are taken if it is of one, and the body
/// holds something, but no more than 32 MiB.
pub proof fn law_upload_is_let_in_when_every_rule_is_kept(
    player: Seq<char>,
    q: RegionQuery,
    known_dim: bool,
    known_mw: bool,
    no_caves: bool,
    body_len: int,
)
    requires
        body_len >= 0,
    ensures
        turned_away(player, q, known_dim, known_mw, no_caves, body_len) is None <==> {
            &&& may_be_a_folder(player)
            &&& may_be_a_folder(q.world@)
            &&& may_be_a_folder(q.dim@)
            &&& may_be_a_folder(q.mw@)
            &&& known_dim
            &&& known_mw
            &&& -100_000 <= q.rx <= 100_000
            &&& -100_000 <= q.rz <= 100_000
            &&& q.cave is Some ==> !no_caves
            &&& 0 < body_len <= 32 * 1024 * 1024
        },
{
    law_safe_names_may_be_folders(player);
    law_safe_names_may_be_folders(q.world@);
    law_safe_names_may_be_folders(q.dim@);
    law_safe_names_may_be_folders(q.mw@);
}

/// The first rule that is broken is what the client is told, in this order: the
/// player's name, the world, the dimension, the multiworld, the coordinates,
/// caves, an empty body, a body that is too large.
pub proof fn law_first_broken_rule_is_told(
    player: Seq<char>,
    q: RegionQuery,
    known_dim: bool,
    known_mw: bool,
    no_caves: bool,
    body_len: int,
)
    ensures
        ({
            let told = turned_away(player, q, known_dim, known_mw, no_caves, body_len);
            let far = !(-100_000 <= q.rx <= 100_000 && -100_000 <= q.rz <= 100_000);
            if !may_be_a_folder(player) {
                told == Some(
                    (
                        403int,
                        "player name is not filesystem-safe — regenerate the token for a simpler name"@,
                    ),
                )
            } else if !may_be_a_folder(q.world@) {
                told == Some((400int, "bad world folder name"@))
            } else if !may_be_a_folder(q.dim@) || !known_dim {
                told == Some((400int, "bad dim folder name"@))
            } else if !may_be_a_folder(q.mw@) || !known_mw {
                told == Some((400int, "bad multiworld folder name"@))
            } else if far {
                told == Some((400int, "region coordinates out of range"@))
            } else if q.cave is Some && no_caves {
                told == Some(
                    (403int, "cave-layer uploads are disabled on this server (--ingest-no-caves)"@),
                )
            } else if body_len == 0 {
                told == Some((400int, "empty body"@))
            } else if body_len > 32 * 1024 * 1024 {
                told == Some((413int, "region too large"@))
            } else {
                told is None
            }
        }),
{
    law_safe_names_may_be_folders(player);
    law_safe_names_may_be_folders(q.world@);
    law_safe_names_may_be_folders(q.dim@);
    law_safe_names_may_be_folders(q.mw@);
}

// ------------------------------------------------------------------ files --

/// `<root>/world-map/<world>/<dim>/<mw>`, and `caves/<n>` below it for a cave
/// layer.
pub open spec fn layer_below(root: Seq<Seq<u8>>, q: RegionQuery) -> Seq<Seq<u8>> {
    let surface = root.push(encode_utf8("world-map"@)).push(encode_utf8(q.world@)).push(
        encode_utf8(q.dim@),
    ).push(encode_utf8(q.mw@));
    match q.cave {
        None => surface,
        Some(n) => surface.push(encode_utf8("caves"@)).push(encode_utf8(decimal_text(n as int))),
    }
}

/// `<ingest>/players/<player>`.
pub open spec fn player_tree(ingest: Seq<Seq<u8>>, player: Seq<char>) -> Seq<Seq<u8>> {
    ingest.push(encode_utf8("players"@)).push(encode_utf8(player))
}

/// `<ingest>/merged`.
pub open spec fn merged_tree(ingest: Seq<Seq<u8>>) -> Seq<Seq<u8>> {
    ingest.push(encode_utf8("merged"@))
}

/// `<dir>/<rx>_<rz>.zip`, or `.xaero`.
pub open spec fn region_file(dir: Seq<Seq<u8>>, q: RegionQuery, zip: bool) -> Seq<Seq<u8>> {
    let name = decimal_text(q.rx as int) + "_"@ + decimal_text(q.rz as int) + "."@;
    dir.push(
        encode_utf8(
            if zip {
                name + "zip"@
            } else {
                name + "xaero"@
            },
        ),
    )
}

proof fn lemma_layer_below(root: Seq<Seq<u8>>, q: RegionQuery)
    ensures
        root + encoded(layer_names(q)) == layer_below(root, q),
{
    assert(root + encoded(layer_names(q)) =~= layer_below(root, q));
}

/// The action writes the region of `q` into `dir`, under a name of its own
/// first; the file of the other kind goes.
pub open spec fn writes_region(
    a: UploadAction,
    dir: Seq<Seq<u8>>,
    q: RegionQuery,
    zip: bool,
    what: Content,
) -> bool {
    &&& a matches UploadAction::Write { place, content }
    &&& content == what
    &&& place.write.dir@ == dir
    &&& place.write.dst@ == region_file(dir, q, zip)
    &&& place.stale@ == region_file(dir, q, !zip)
    &&& place.write.tmp@.len() == dir.len() + 1
    &&& dir.is_prefix_of(place.write.tmp@)
    &&& place.write.tmp@ != place.write.dst@
    &&& place.write.tmp@ != place.stale@
}

proof fn lemma_writes(
    s: UploadState,
    a: UploadAction,
    dir: Seq<Seq<u8>>,
    zip: bool,
)
    requires
        a matches UploadAction::Write { place, .. } && crate::ingest::places_region(
            place,
            dir,
            s.query.rx as int,
            s.query.rz as int,
            zip,
        ),
    ensures
        writes_region(a, dir, s.query, zip, a->content),
{
    broadcast use vstd::utf8::encode_utf8_decode_utf8;

    let q = s.query;
    let rx = q.rx as int;
    let rz = q.rz as int;
    crate::ingest::law_write_keeps_what_it_wrote(rx, rz, zip);
    let name = region_name(rx, rz, crate::regions::extension(zip));
    let other = region_name(rx, rz, crate::regions::extension(!zip));
    assert(vstd::utf8::decode_utf8(encode_utf8(staging_name(name))) == staging_name(name));
    assert(vstd::utf8::decode_utf8(encode_utf8(name)) == name);
    assert(vstd::utf8::decode_utf8(encode_utf8(other)) == other);
    let place = a->place;
    let n = dir.len() as int;
    assert(place.write.tmp@[n] == encode_utf8(staging_name(name)));
    assert(place.write.dst@[n] == encode_utf8(name));
    assert(place.stale@[n] == encode_utf8(other));
    assert(dir =~= place.write.tmp@.subrange(0, n));
}

/// An upload that decodes is written to the player's own tree as it came. Then
/// the merged tree is looked at: with no readable region there, the upload is
/// written there too, as it came; with one, they are merged and what comes of
/// it is written. Then it is done, and nothing was refused.
pub proof fn law_upload_is_kept_and_merged(
    ingest: Seq<Seq<u8>>,
    player: Seq<char>,
    q: RegionQuery,
    bytes: Seq<u8>,
    merged: Vec<u8>,
    a: UploadAction,
)
    ensures
        ({
            let zip = bytes.len() >= 2 && bytes[0] == 0x50 && bytes[1] == 0x4b;
            let mzip = merged@.len() >= 2 && merged@[0] == 0x50 && merged@[1] == 0x4b;
            let own = layer_below(player_tree(ingest, player), q);
            let shared = layer_below(merged_tree(ingest), q);
            let start = UploadState::start(ingest, player, q, is_zip(bytes));
            let kept = start.after(UploadEvent::Decoded { truncated: false });
            let probed = kept.after(UploadEvent::Wrote);
            let fresh = probed.after(UploadEvent::Probed { zip: false, xaero: false });
            let loads_zip = probed.after(UploadEvent::Probed { zip: true, xaero: true });
            let loads = probed.after(UploadEvent::Probed { zip: false, xaero: true });
            let torn = loads_zip.after(UploadEvent::Loaded(false));
            let merges = loads_zip.after(UploadEvent::Loaded(true));
            let packed = merges.after(UploadEvent::Merged(merged));
            &&& start.asks(a) ==> a is Decode
            &&& kept.asks(a) ==> writes_region(a, own, q, zip, Content::Upload)
            &&& probed.asks(a) ==> (a matches UploadAction::Probe { zip: z, xaero: x } && z@
                == region_file(shared, q, true) && x@ == region_file(shared, q, false))
            &&& fresh.asks(a) ==> writes_region(a, shared, q, zip, Content::Upload)
            &&& loads_zip.asks(a) ==> (a matches UploadAction::Load { path } && path@
                == region_file(shared, q, true))
            &&& loads.asks(a) ==> (a matches UploadAction::Load { path } && path@ == region_file(
                shared,
                q,
                false,
            ))
            &&& torn.asks(a) ==> writes_region(a, shared, q, zip, Content::Upload)
            &&& merges.asks(a) ==> a is Merge
            &&& packed.asks(a) ==> writes_region(a, shared, q, mzip, Content::Merged)
            &&& packed.container == merged@
            &&& fresh.after(UploadEvent::Wrote).phase is Finished
            &&& fresh.after(UploadEvent::Wrote).refusal is None
            &&& packed.after(UploadEvent::Wrote).phase is Finished
            &&& packed.after(UploadEvent::Wrote).refusal is None
        }),
{
    lemma_layer_below(player_tree(ingest, player), q);
    lemma_layer_below(merged_tree(ingest), q);
    let zip = is_zip(bytes);
    let own = layer_below(player_tree(ingest, player), q);
    let shared = layer_below(merged_tree(ingest), q);
    let start = UploadState::start(ingest, player, q, zip);
    let kept = start.after(UploadEvent::Decoded { truncated: false });
    let probed = kept.after(UploadEvent::Wrote);
    let fresh = probed.after(UploadEvent::Probed { zip: false, xaero: false });
    let loads_zip = probed.after(UploadEvent::Probed { zip: true, xaero: true });
    let torn = loads_zip.after(UploadEvent::Loaded(false));
    let packed = loads_zip.after(UploadEvent::Loaded(true)).after(UploadEvent::Merged(merged));
    if kept.asks(a) {
        lemma_writes(kept, a, own, zip);
    }
    if fresh.asks(a) {
        lemma_writes(fresh, a, shared, zip);
    }
    if torn.asks(a) {
        lemma_writes(torn, a, shared, zip);
    }
    if packed.asks(a) {
        lemma_writes(packed, a, shared, is_zip(merged@));
    }
}

/// An upload that cannot be read, does not decode or is cut off is the client's
/// fault and is told so with what was wrong; a write, a merge or a packing that
/// fails is the server's. Either way the upload is over.
pub proof fn law_failed_upload_says_why(s: UploadState, e: String)
    ensures
        ({
            let unreadable = s.after(UploadEvent::Unreadable(e));
            let undecodable = s.after(UploadEvent::Undecodable(e));
            let cut_off = s.after(UploadEvent::Decoded { truncated: true });
            let unwritten = s.after(UploadEvent::WriteFailed(e));
            let unchecked = s.after(UploadEvent::SelfCheckFailed(e));
            let unpacked = s.after(UploadEvent::PackFailed(e));
            &&& unreadable.refusal == Some((400int, "unreadable region container: "@ + e@))
            &&& undecodable.refusal == Some((400int, "region does not decode: "@ + e@))
            &&& cut_off.refusal == Some(
                (400int, "region is truncated — retry after the file settles"@),
            )
            &&& unwritten.refusal == Some((500int, e@))
            &&& unchecked.refusal == Some((500int, "merge self-check: "@ + e@))
            &&& unpacked.refusal == Some((500int, "zip: "@ + e@))
            &&& unreadable.phase is Finished && undecodable.phase is Finished && cut_off.phase
                is Finished && unwritten.phase is Finished && unchecked.phase is Finished
                && unpacked.phase is Finished
        }),
{
}

/// A write that fails says at which step, of which path, and why.
pub proof fn law_failed_write_names_its_step()
    ensures
        step_name(WriteStep::MakeDirectory) == "mkdir "@,
        step_name(WriteStep::Write) == "write "@,
        step_name(WriteStep::Rename) == "rename "@,
{
}

// --------------------------------------------------------------- requests --

/// A request that is let in is charged, its layer is looked up, and the upload
/// is stored. Then both files are announced, the preview of the region is
/// cleared after two and a half seconds, and the client is told of success; for
/// a layer that was not known the roots are scanned anew before, unless another
/// request has done so.
pub proof fn law_request_takes_its_course(
    ingest: Seq<Seq<u8>>,
    player: Seq<char>,
    q: RegionQuery,
    known: bool,
    a: RequestAction,
)
    ensures
        ({
            let start = RequestState::start(ingest, player, q, None);
            let charged = start.after(RequestEvent::Charged(true));
            let looked = charged.after(RequestEvent::Known(known));
            let stored = looked.after(RequestEvent::Stored);
            let announced = stored.after(RequestEvent::Done);
            let cleared = announced.after(RequestEvent::Done);
            let late = cleared.after(RequestEvent::Known(true));
            let unknown = cleared.after(RequestEvent::Known(false));
            &&& start.asks(a) ==> a is Charge
            &&& charged.asks(a) ==> a is LookUp
            &&& looked.asks(a) ==> a is Store
            &&& stored.asks(a) ==> (a matches RequestAction::Notify { player_file, merged_file }
                && player_file@ == region_file(
                layer_below(player_tree(ingest, player), q),
                q,
                true,
            ) && merged_file@ == region_file(layer_below(merged_tree(ingest), q), q, true))
            &&& announced.asks(a) ==> a == (RequestAction::ClearPreview {
                delay_ms: 2500,
                rx: q.rx,
                rz: q.rz,
            })
            &&& known ==> is_answer(cleared, 204, None)
            &&& !known ==> {
                &&& cleared.asks(a) ==> a is LookUpAlone
                &&& is_answer(late, 204, None)
                &&& unknown.asks(a) ==> a is Rescan
                &&& is_answer(unknown.after(RequestEvent::Done), 204, None)
            }
        }),
{
    lemma_layer_below(player_tree(ingest, player), q);
    lemma_layer_below(merged_tree(ingest), q);
    let name = decimal_text(q.rx as int) + "_"@ + decimal_text(q.rz as int) + "."@;
    assert(region_name(q.rx as int, q.rz as int, "zip"@) == name + "zip"@);
}

/// The request is over, and this is the answer.
pub open spec fn is_answer(s: RequestState, status: int, message: Option<Seq<char>>) -> bool {
    s.phase is Reply && s.reply == (status, message)
}

/// A request that cannot be served is answered with the reason: 429 when the
/// player's allowance is used up, what storing was refused for, and 500 when
/// the task that stores was lost.
pub proof fn law_failed_request_says_why(
    ingest: Seq<Seq<u8>>,
    player: Seq<char>,
    q: RegionQuery,
    known: bool,
    e: Refusal,
    refusal: (int, Seq<char>),
)
    ensures
        ({
            let start = RequestState::start(ingest, player, q, None);
            let looked = start.after(RequestEvent::Charged(true)).after(
                RequestEvent::Known(known),
            );
            &&& is_answer(
                RequestState::start(ingest, player, q, Some(refusal)),
                refusal.0,
                Some(refusal.1),
            )
            &&& is_answer(start.after(RequestEvent::Charged(false)), 429, Some("rate limited"@))
            &&& is_answer(
                looked.after(RequestEvent::NotStored(e)),
                e.status as int,
                Some(e.message@),
            )
            &&& is_answer(
                looked.after(RequestEvent::StoreLost),
                500,
                Some("store task failed"@),
            )
        }),
{
}

/// World `w`, its dimension `d` and that one's multiworld `m` are the layer that
/// `q` names, below `root`.
pub open spec fn is_layer_at(
    worlds: Seq<WorldEntry>,
    root: Seq<Seq<u8>>,
    q: RegionQuery,
    w: int,
    d: int,
    m: int,
) -> bool {
    &&& 0 <= w < worlds.len()
    &&& worlds[w].root@ == root
    &&& worlds[w].world.id@ == q.world@
    &&& 0 <= d < worlds[w].world.dims@.len()
    &&& worlds[w].world.dims@[d].folder@ == q.dim@
    &&& 0 <= m < worlds[w].world.dims@[d].multiworlds@.len()
    &&& worlds[w].world.dims@[d].multiworlds@[m].id@ == q.mw@
    &&& q.cave matches Some(n)
        ==> worlds[w].world.dims@[d].multiworlds@[m].cave_layers@.contains(n)
}

/// A layer is known below a root when a world there has its dimension, that has
/// its multiworld, and that, for a cave layer, has that one.
pub proof fn law_layer_is_known_by_its_names(
    worlds: Seq<WorldEntry>,
    root: Seq<Seq<u8>>,
    q: RegionQuery,
)
    ensures
        root_carries(worlds, root, q) <==> exists|w: int, d: int, m: int| #[trigger]
            is_layer_at(worlds, root, q, w, d, m),
{
    if root_carries(worlds, root, q) {
        let w = choose|w: int|
            0 <= w < worlds.len() && world_carries(#[trigger] worlds[w], root, q);
        let dims = worlds[w].world.dims@;
        let d = choose|d: int| 0 <= d < dims.len() && dim_carries(#[trigger] dims[d], q);
        let mws = dims[d].multiworlds@;
        let m = choose|m: int| 0 <= m < mws.len() && mw_carries(#[trigger] mws[m], q);
        assert(is_layer_at(worlds, root, q, w, d, m));
    }
    if exists|w: int, d: int, m: int| #[trigger] is_layer_at(worlds, root, q, w, d, m) {
        let (w, d, m) = choose|w: int, d: int, m: int| #[trigger]
            is_layer_at(worlds, root, q, w, d, m);
        assert(mw_carries(worlds[w].world.dims@[d].multiworlds@[m], q));
        assert(dim_carries(worlds[w].world.dims@[d], q));
        assert(world_carries(worlds[w], root, q));
    }
}

/// The roots to be served are the players' directories, and the merged tree if
/// it is there; nothing else is.
pub proof fn law_served_roots_are_players_and_merged(
    ingest: Seq<Seq<u8>>,
    players: Seq<NamedEntry>,
    has_merged: bool,
    found: Seq<FilePath>,
    r: Seq<FilePath>,
    p: Seq<Seq<u8>>,
)
    requires
        path_texts(found) == managed_roots(ingest, players, has_merged),
        sorted_from(found, r),
    ensures
        (exists|i: int| 0 <= i < r.len() && (#[trigger] r[i])@ == p) <==> (has_merged && p
            == merged_tree(ingest)) || exists|k: int|
            0 <= k < players.len() && (#[trigger] players[k]).is_dir && p == ingest.push(
                encode_utf8("players"@),
            ).push(players[k].raw@),
{
    let f = |e: NamedEntry|
        if e.is_dir {
            Some(crate::paths::joined(ingest, "players"@).push(e.raw@))
        } else {
            None
        };
    let own = players.filter_map(f);
    let all = managed_roots(ingest, players, has_merged);
    if exists|i: int| 0 <= i < r.len() && (#[trigger] r[i])@ == p {
        let i = choose|i: int| 0 <= i < r.len() && (#[trigger] r[i])@ == p;
        assert(r.contains(r[i]));
        law_sorting_keeps_elements(found, r, r[i]);
        let h = choose|h: int| 0 <= h < found.len() && found[h] == r[i];
        assert(path_texts(found)[h] == p);
        if h < own.len() {
            assert(own[h] == p);
            assert(own.contains(p));
            players.lemma_filter_map_contains(f, p);
            let e = choose|e: NamedEntry| #[trigger] players.contains(e) && f(e) == Some(p);
            let k = choose|k: int| 0 <= k < players.len() && players[k] == e;
            assert(players[k].is_dir);
        }
    }
    if has_merged && p == merged_tree(ingest) {
        assert(all[own.len() as int] == p);
        lemma_root_listed(all, found, r, own.len() as int);
    }
    if exists|k: int|
        0 <= k < players.len() && (#[trigger] players[k]).is_dir && p == ingest.push(
            encode_utf8("players"@),
        ).push(players[k].raw@) {
        let k = choose|k: int|
            0 <= k < players.len() && (#[trigger] players[k]).is_dir && p == ingest.push(
                encode_utf8("players"@),
            ).push(players[k].raw@);
        lemma_filter_map_has(players, f, k);
        let h = choose|h: int| 0 <= h < own.len() && own[h] == p;
        assert(all[h] == p);
        lemma_root_listed(all, found, r, h);
    }
}

proof fn lemma_root_listed(
    all: Seq<Seq<Seq<u8>>>,
    found: Seq<FilePath>,
    r: Seq<FilePath>,
    h: int,
)
    requires
        path_texts(found) == all,
        sorted_from(found, r),
        0 <= h < all.len(),
    ensures
        exists|i: int| 0 <= i < r.len() && (#[trigger] r[i])@ == all[h],
{
    assert(path_texts(found)[h] == found[h]@);
    assert(found.contains(found[h]));
    law_sorting_keeps_elements(found, r, found[h]);
    let i = choose|i: int| 0 <= i < r.len() && r[i] == found[h];
    assert(r[i]@ == all[h]);
}

/// A region file is made under its name with `.tmp-xt` behind it, in the folder
/// where it belongs, and takes its place there; the file of the same region in
/// the other container goes.
pub proof fn law_region_is_one_file(
    w: RegionWrite,
    dir: Seq<Seq<u8>>,
    rx: int,
    rz: int,
    zip: bool,
)
    requires
        places_region(w, dir, rx, rz, zip),
    ensures
        ({
            let stem = decimal_text(rx) + "_"@ + decimal_text(rz) + "."@;
            let zipped = stem + "zip"@;
            let plain = stem + "xaero"@;
            let name = if zip {
                zipped
            } else {
                plain
            };
            let other = if zip {
                plain
            } else {
                zipped
            };
            &&& w.write.dir@ == dir
            &&& w.write.tmp@ == dir.push(encode_utf8(name + ".tmp-xt"@))
            &&& w.write.dst@ == dir.push(encode_utf8(name))
            &&& w.stale@ == dir.push(encode_utf8(other))
        }),
{
}

/// A container is a zip exactly where its first two bytes are `PK`.
pub proof fn law_zips_begin_with_their_magic(bytes: Seq<u8>)
    ensures
        is_zip(bytes) <==> bytes.len() >= 2 && bytes[0] == 'P' as u8 && bytes[1] == 'K' as u8,
{
}

} // verus!
