//! What the index of a map layer promises, said of the files that are there.

use vstd::prelude::*;
use vstd::utf8::encode_utf8;
use crate::order::{law_sorting_keeps_elements, sorted_from, Ranked};
use crate::order::{law_texts_are_ordered_by_first_difference, text_before};
use crate::regions::{all_backup_copies, all_conflict_copies, alternate_texts, alternates};
use crate::regions::{backup_copies, backup_copy, conflict_copy, extension, indexed, is_live};
use crate::regions::{bounding_box, holds_region, law_index_lists_what_is_there, layer_of, meta_of};
use crate::regions::{region_name, AlternateText, BackupFile, FileStat, LayerEntry};
use crate::regions::{RegionAlternate, RegionMeta, SourceText};
use crate::picking::lemma_filter_map_has;
use crate::text::{decimal_text, i32_text, law_decimal_reads_back};

verus! {

/// `m` is what the metadata `stat` says: the size as it is, and the time in
/// whole milliseconds, as far as 64 bits hold them; no time counts as 0.
pub open spec fn says_of(m: RegionMeta, stat: FileStat, zip: bool) -> bool {
    &&& m.size == stat.size
    &&& m.is_zip == zip
    &&& match stat.modified {
        None => m.mtime_ms == 0,
        Some((secs, nanos)) => secs <= 0x3f_ffff_ffff_ffff && nanos < 1_000_000_000 ==> {
            &&& m.mtime_ms * 1_000_000 <= secs * 1_000_000_000 + nanos
            &&& secs * 1_000_000_000 + nanos < (m.mtime_ms + 1) * 1_000_000
        },
    }
}

/// A region file's metadata is kept as it is.
pub proof fn law_metadata_is_kept(stat: FileStat, zip: bool)
    ensures
        says_of(meta_of(stat, zip), stat, zip),
{
    if let Some((secs, nanos)) = stat.modified {
        if secs <= 0x3f_ffff_ffff_ffff && nanos < 1_000_000_000 {
            assert(nanos as int / 1_000_000 < 1000);
            assert(secs * 1000 + nanos as int / 1_000_000 < 0x1_0000_0000_0000_0000);
        }
    }
}

/// A file, or a link, whose name is that of the region (rx, rz).
pub open spec fn is_region_file(e: LayerEntry, rx: i32, rz: i32, zip: bool) -> bool {
    &&& e.kind is File || e.kind is Other
    &&& e.region == Some((rx, rz, zip))
}

/// A region file is indexed where its metadata can be read: at its coordinates,
/// with what a file of those coordinates says, and from the zip where there is
/// one. Nothing else is indexed.
pub proof fn law_region_files_are_indexed(entries: Seq<LayerEntry>, rx: i32, rz: i32)
    ensures
        indexed(entries).contains_key((rx, rz)) <==> exists|i: int, zip: bool|
            0 <= i < entries.len() && #[trigger] is_region_file(entries[i], rx, rz, zip)
                && entries[i].stat is Some,
        indexed(entries).contains_key((rx, rz)) ==> exists|i: int, zip: bool|
            0 <= i < entries.len() && #[trigger] is_region_file(entries[i], rx, rz, zip) && (
            entries[i].stat matches Some(stat) && says_of(indexed(entries)[(rx, rz)], stat, zip)),
        (exists|i: int|
            0 <= i < entries.len() && #[trigger] is_region_file(entries[i], rx, rz, true)
                && entries[i].stat is Some) ==> indexed(entries)[(rx, rz)].is_zip,
    decreases entries.len(),
{
    let at = (rx, rz);
    if entries.len() > 0 {
        let front = entries.drop_last();
        let last = entries.len() - 1;
        let e = entries[last];
        law_region_files_are_indexed(front, rx, rz);
        assert forall|i: int, zip: bool|
            0 <= i < front.len() && #[trigger] is_region_file(
                front[i],
                rx,
                rz,
                zip,
            ) implies is_region_file(entries[i], rx, rz, zip) by {
            assert(front[i] == entries[i]);
        }
        assert forall|i: int, zip: bool|
            0 <= i < last && #[trigger] is_region_file(
                entries[i],
                rx,
                rz,
                zip,
            ) implies is_region_file(front[i], rx, rz, zip) by {
            assert(front[i] == entries[i]);
        }
        if let (Some((x, z, zip)), Some(stat)) = (e.region, e.stat) {
            law_metadata_is_kept(stat, zip);
            assert(x == rx && z == rz && e.may_be_file() ==> is_region_file(entries[last], rx, rz, zip));
        }
        if indexed(front).contains_key(at) {
            let (i, zip) = choose|i: int, zip: bool|
                0 <= i < front.len() && #[trigger] is_region_file(front[i], rx, rz, zip) && (
                front[i].stat matches Some(stat) && says_of(indexed(front)[at], stat, zip));
            assert(is_region_file(entries[i], rx, rz, zip));
        }
    }
}

/// A layer's directory is `<base>/<dim>/<mw>`, and that of a cave layer
/// `caves/<n>` below it.
pub proof fn law_layers_lie_below_their_multiworld(
    base: Seq<Seq<u8>>,
    dim: Seq<char>,
    mw: Seq<char>,
    n: i32,
)
    ensures
        layer_of(base, dim, mw, None) == base.push(encode_utf8(dim)).push(encode_utf8(mw)),
        layer_of(base, dim, mw, Some(n)) == base.push(encode_utf8(dim)).push(encode_utf8(mw)).push(
            encode_utf8("caves"@),
        ).push(encode_utf8(decimal_text(n as int))),
        i32_text(decimal_text(n as int)) == Some(n),
{
    law_decimal_reads_back(n as int);
}

/// A region's file is called `<rx>_<rz>.zip` or `<rx>_<rz>.xaero`.
pub proof fn law_region_files_are_named_by_coordinates(rx: int, rz: int)
    ensures
        region_name(rx, rz, extension(true)) == decimal_text(rx) + "_"@ + decimal_text(rz) + "."@
            + "zip"@,
        region_name(rx, rz, extension(false)) == decimal_text(rx) + "_"@ + decimal_text(rz) + "."@
            + "xaero"@,
{
}

// ------------------------------------------------------------- alternates --

/// Some entry is a region file at these coordinates.
pub open spec fn has_live_file(entries: Seq<LayerEntry>, rx: i32, rz: i32) -> bool {
    exists|i: int, zip: bool|
        0 <= i < entries.len() && #[trigger] is_region_file(entries[i], rx, rz, zip)
}

proof fn lemma_live(entries: Seq<LayerEntry>, rx: i32, rz: i32)
    ensures
        is_live(entries, rx, rz) <==> has_live_file(entries, rx, rz),
{
    if is_live(entries, rx, rz) {
        let i = choose|i: int|
            0 <= i < entries.len() && crate::regions::shows_region(
                #[trigger] entries[i],
                rx,
                rz,
            );
        let zip = (entries[i].region->0).2;
        assert(is_region_file(entries[i], rx, rz, zip));
    }
    if has_live_file(entries, rx, rz) {
        let (i, zip) = choose|i: int, zip: bool|
            0 <= i < entries.len() && #[trigger] is_region_file(entries[i], rx, rz, zip);
        assert(crate::regions::shows_region(entries[i], rx, rz));
    }
}

/// `a` is the conflict copy that entry `e` of the layer at `dir` is.
pub open spec fn is_conflict_of(
    dir: Seq<Seq<u8>>,
    entries: Seq<LayerEntry>,
    e: LayerEntry,
    a: RegionAlternate,
) -> bool {
    &&& e.kind is File || e.kind is Other
    &&& e.region is None
    &&& e.conflict matches Some((rx, rz, zip, tag)) && e.stat matches Some(stat) && {
        &&& a.rx == rx
        &&& a.rz == rz
        &&& a.source@ == (SourceText::SyncConflict { tag: tag@ })
        &&& a.path@ == dir.push(e.name@)
        &&& says_of(a.meta, stat, zip)
        &&& a.live == has_live_file(entries, rx, rz)
    }
}

/// `a` is the copy that file `k` of the backup directory `e` of the layer at
/// `dir` is.
pub open spec fn is_backup_of(
    dir: Seq<Seq<u8>>,
    entries: Seq<LayerEntry>,
    e: LayerEntry,
    k: int,
    a: RegionAlternate,
) -> bool {
    &&& e.kind is Directory
    &&& e.backup matches Some((version, index))
    &&& e.files matches Some(files)
    &&& 0 <= k < files@.len()
    &&& files@[k].region matches Some((rx, rz, zip))
    &&& files@[k].stat matches Some(stat)
    &&& {
        &&& a.rx == rx
        &&& a.rz == rz
        &&& a.source@ == (SourceText::VersionBackup { version, index })
        &&& a.path@ == dir.push(e.name@).push(files@[k].name@)
        &&& says_of(a.meta, stat, zip)
        &&& a.live == has_live_file(entries, rx, rz)
    }
}

proof fn lemma_backup_member(
    dir: Seq<Seq<u8>>,
    entries: Seq<LayerEntry>,
    seen: Seq<LayerEntry>,
    t: AlternateText,
)
    ensures
        all_backup_copies(dir, entries, seen).contains(t) <==> exists|i: int|
            0 <= i < seen.len() && backup_copies(dir, entries, #[trigger] seen[i]).contains(t),
    decreases seen.len(),
{
    if seen.len() > 0 {
        let front = seen.drop_last();
        let last = seen.len() - 1;
        let before = all_backup_copies(dir, entries, front);
        let here = backup_copies(dir, entries, seen[last]);
        let all = all_backup_copies(dir, entries, seen);
        lemma_backup_member(dir, entries, front, t);
        assert(all == before + here);
        if all.contains(t) {
            let k = choose|k: int| 0 <= k < all.len() && all[k] == t;
            if k < before.len() {
                assert(before[k] == t);
                let i = choose|i: int|
                    0 <= i < front.len() && backup_copies(
                        dir,
                        entries,
                        #[trigger] front[i],
                    ).contains(t);
                assert(seen[i] == front[i]);
            } else {
                assert(here[k - before.len()] == t);
            }
        }
        if exists|i: int|
            0 <= i < seen.len() && backup_copies(dir, entries, #[trigger] seen[i]).contains(t) {
            let i = choose|i: int|
                0 <= i < seen.len() && backup_copies(dir, entries, #[trigger] seen[i]).contains(t);
            if i < last {
                assert(front[i] == seen[i]);
                let k = choose|k: int| 0 <= k < before.len() && before[k] == t;
                assert(all[k] == t);
            } else {
                let k = choose|k: int| 0 <= k < here.len() && here[k] == t;
                assert(all[before.len() + k] == t);
            }
        }
    }
}

proof fn lemma_from_alternate(
    dir: Seq<Seq<u8>>,
    entries: Seq<LayerEntry>,
    a: RegionAlternate,
)
    requires
        alternates(dir, entries).contains(a@),
    ensures
        (exists|i: int|
            0 <= i < entries.len() && is_conflict_of(dir, entries, #[trigger] entries[i], a)) || (
        exists|i: int, k: int|
            0 <= i < entries.len() && #[trigger] is_backup_of(dir, entries, entries[i], k, a)),
{
    let t = a@;
    let conflicts = all_conflict_copies(dir, entries, entries);
    let backups = all_backup_copies(dir, entries, entries);
    let all = alternates(dir, entries);
    lemma_live(entries, t.rx, t.rz);
    let k = choose|k: int| 0 <= k < all.len() && all[k] == t;
    if k < conflicts.len() {
        let f = |e: LayerEntry| conflict_copy(dir, entries, e);
        assert(conflicts[k] == t);
        assert(entries.filter_map(f).contains(t));
        entries.lemma_filter_map_contains(f, t);
        let e = choose|e: LayerEntry| #[trigger] entries.contains(e) && f(e) == Some(t);
        let i = choose|i: int| 0 <= i < entries.len() && entries[i] == e;
        law_metadata_is_kept(e.stat->0, (e.conflict->0).2);
        assert(is_conflict_of(dir, entries, entries[i], a));
    } else {
        assert(backups[k - conflicts.len()] == t);
        lemma_backup_member(dir, entries, entries, t);
        let i = choose|i: int|
            0 <= i < entries.len() && backup_copies(dir, entries, #[trigger] entries[i]).contains(
                t,
            );
        let e = entries[i];
        let (version, index) = e.backup->0;
        let files = e.files->0@;
        let f = |f: BackupFile| backup_copy(dir, entries, e.name@, version, index, f);
        files.lemma_filter_map_contains(f, t);
        let x = choose|x: BackupFile| #[trigger] files.contains(x) && f(x) == Some(t);
        let h = choose|h: int| 0 <= h < files.len() && files[h] == x;
        law_metadata_is_kept(x.stat->0, (x.region->0).2);
        assert(is_backup_of(dir, entries, entries[i], h, a));
    }
}

/// Every region file that the live index does not show is listed: the conflict
/// copies beside the live files, and the files of the backup directories whose
/// metadata can be read, each with its coordinates, its path, where it comes
/// from and whether the live layer has a file there. Nothing else is listed.
pub proof fn law_alternates_are_the_copies_that_are_there(
    dir: Seq<Seq<u8>>,
    entries: Seq<LayerEntry>,
    found: Seq<RegionAlternate>,
    r: Seq<RegionAlternate>,
)
    requires
        alternate_texts(found) == alternates(dir, entries),
        sorted_from(found, r),
    ensures
        forall|h: int|
            0 <= h < r.len() ==> (exists|i: int|
                0 <= i < entries.len() && is_conflict_of(
                    dir,
                    entries,
                    #[trigger] entries[i],
                    #[trigger] r[h],
                )) || (exists|i: int, k: int|
                0 <= i < entries.len() && #[trigger] is_backup_of(dir, entries, entries[i], k, r[h])),
        forall|i: int|
            0 <= i < entries.len() && (#[trigger] entries[i]).conflict is Some && entries[i].region
                is None && entries[i].stat is Some && (entries[i].kind is File || entries[i].kind
                is Other) ==> exists|h: int|
                0 <= h < r.len() && is_conflict_of(dir, entries, entries[i], #[trigger] r[h]),
        forall|i: int, k: int|
            0 <= i < entries.len() && entries[i].kind is Directory && entries[i].backup is Some
                && entries[i].files is Some && 0 <= k < entries[i].files->0@.len() && (
            #[trigger] entries[i].files->0@[k]).region is Some && entries[i].files->0@[k].stat
                is Some ==> exists|h: int|
                0 <= h < r.len() && is_backup_of(dir, entries, entries[i], k, #[trigger] r[h]),
{
    let all = alternates(dir, entries);
    let conflicts = all_conflict_copies(dir, entries, entries);
    assert forall|h: int| 0 <= h < r.len() implies (exists|i: int|
        0 <= i < entries.len() && is_conflict_of(
            dir,
            entries,
            #[trigger] entries[i],
            #[trigger] r[h],
        )) || (exists|i: int, k: int|
        0 <= i < entries.len() && #[trigger] is_backup_of(dir, entries, entries[i], k, r[h])) by {
        assert(r.contains(r[h]));
        law_sorting_keeps_elements(found, r, r[h]);
        let m = choose|m: int| 0 <= m < found.len() && found[m] == r[h];
        assert(alternate_texts(found)[m] == r[h]@);
        assert(all.contains(r[h]@));
        lemma_from_alternate(dir, entries, r[h]);
    }
    assert forall|i: int|
        0 <= i < entries.len() && (#[trigger] entries[i]).conflict is Some && entries[i].region
            is None && entries[i].stat is Some && (entries[i].kind is File || entries[i].kind
            is Other) implies exists|h: int|
        0 <= h < r.len() && is_conflict_of(dir, entries, entries[i], #[trigger] r[h]) by {
        let f = |e: LayerEntry| conflict_copy(dir, entries, e);
        let e = entries[i];
        lemma_filter_map_has(entries, f, i);
        let t = f(e)->0;
        let m = choose|m: int| 0 <= m < conflicts.len() && conflicts[m] == t;
        assert(all[m] == t);
        let h = lemma_listed(all, found, r, m);
        lemma_live(entries, t.rx, t.rz);
        law_metadata_is_kept(e.stat->0, (e.conflict->0).2);
        assert(is_conflict_of(dir, entries, e, r[h]));
    }
    assert forall|i: int, k: int|
        0 <= i < entries.len() && entries[i].kind is Directory && entries[i].backup is Some
            && entries[i].files is Some && 0 <= k < entries[i].files->0@.len() && (
        #[trigger] entries[i].files->0@[k]).region is Some && entries[i].files->0@[k].stat
            is Some implies exists|h: int|
        0 <= h < r.len() && is_backup_of(dir, entries, entries[i], k, #[trigger] r[h]) by {
        let e = entries[i];
        let (version, index) = e.backup->0;
        let files = e.files->0@;
        let f = |f: BackupFile| backup_copy(dir, entries, e.name@, version, index, f);
        lemma_filter_map_has(files, f, k);
        let t = f(files[k])->0;
        assert(backup_copies(dir, entries, entries[i]).contains(t));
        lemma_backup_member(dir, entries, entries, t);
        let backups = all_backup_copies(dir, entries, entries);
        let m = choose|m: int| 0 <= m < backups.len() && backups[m] == t;
        assert(all[conflicts.len() + m] == t);
        let h = lemma_listed(all, found, r, conflicts.len() + m);
        lemma_live(entries, t.rx, t.rz);
        law_metadata_is_kept(files[k].stat->0, (files[k].region->0).2);
        assert(is_backup_of(dir, entries, e, k, r[h]));
    }
}

proof fn lemma_listed(
    all: Seq<AlternateText>,
    found: Seq<RegionAlternate>,
    r: Seq<RegionAlternate>,
    m: int,
) -> (h: int)
    requires
        alternate_texts(found) == all,
        sorted_from(found, r),
        0 <= m < all.len(),
    ensures
        0 <= h < r.len(),
        r[h]@ == all[m],
{
    assert(alternate_texts(found)[m] == found[m]@);
    assert(found.contains(found[m]));
    law_sorting_keeps_elements(found, r, found[m]);
    choose|h: int| 0 <= h < r.len() && r[h] == found[m]
}

/// Alternates come by row and then by column: no copy stands behind one of a
/// greater `rz`, nor in one row behind one of a greater `rx`.
pub proof fn law_alternates_come_row_by_row(
    found: Seq<RegionAlternate>,
    r: Seq<RegionAlternate>,
    i: int,
    j: int,
)
    requires
        sorted_from(found, r),
        0 <= i < j < r.len(),
    ensures
        r[i].rz < r[j].rz || (r[i].rz == r[j].rz && r[i].rx <= r[j].rx),
{
    assert(RegionAlternate::le(r[i].rank(), r[j].rank()));
}

/// Of the copies of one region, those of version backups come first, by version
/// and then by index, and then those of sync conflicts, by tag.
pub proof fn law_backups_come_before_conflicts(
    found: Seq<RegionAlternate>,
    r: Seq<RegionAlternate>,
    i: int,
    j: int,
)
    requires
        sorted_from(found, r),
        0 <= i < j < r.len(),
        r[i].rx == r[j].rx,
        r[i].rz == r[j].rz,
    ensures
        match (r[i].source@, r[j].source@) {
            (
                SourceText::VersionBackup { version: v, index: m },
                SourceText::VersionBackup { version: w, index: n },
            ) => v < w || (v == w && m <= n),
            (SourceText::VersionBackup { .. }, SourceText::SyncConflict { .. }) => true,
            (SourceText::SyncConflict { .. }, SourceText::VersionBackup { .. }) => false,
            (SourceText::SyncConflict { tag: s }, SourceText::SyncConflict { tag: t }) => s == t
                || text_before(s, t),
        },
{
    assert(RegionAlternate::le(r[i].rank(), r[j].rank()));
    if let SourceText::SyncConflict { tag: s } = r[i].source@ {
        if let SourceText::SyncConflict { tag: t } = r[j].source@ {
            law_texts_are_ordered_by_first_difference(s, t);
        }
    }
}

/// Of the files of one region the last zip counts, and where none is a zip the
/// first file that is listed: the index has its time, its size and its kind.
pub proof fn law_last_zip_or_first_file_counts(
    entries: Seq<LayerEntry>,
    at: (i32, i32),
    i: int,
    meta: RegionMeta,
)
    requires
        0 <= i < entries.len(),
        entries[i].region_here() == Some((at, meta)),
        meta.is_zip ==> forall|k: int|
            i < k < entries.len() && holds_region(#[trigger] entries[k], at) ==> !(
            entries[k].region_here()->0).1.is_zip,
        !meta.is_zip ==> forall|k: int|
            0 <= k < entries.len() && holds_region(#[trigger] entries[k], at) ==> k >= i && !(
            entries[k].region_here()->0).1.is_zip,
    ensures
        indexed(entries).contains_key(at),
        indexed(entries)[at] == meta,
    decreases entries.len(),
{
    let front = entries.drop_last();
    let last = entries.len() - 1;
    if i < last {
        assert(front[i] == entries[i]);
        assert forall|k: int| 0 <= k < front.len() implies #[trigger] front[k] == entries[k] by {}
        law_last_zip_or_first_file_counts(front, at, i, meta);
        if holds_region(entries[last], at) {
            assert(!(entries[last].region_here()->0).1.is_zip);
        }
    } else if !meta.is_zip {
        law_index_lists_what_is_there(front, at);
        if indexed(front).contains_key(at) {
            let k = choose|k: int| 0 <= k < front.len() && holds_region(#[trigger] front[k], at);
            assert(holds_region(entries[k], at));
        }
    }
}

/// The bounds of one region are that region, as (least rx, least rz, greatest
/// rx, greatest rz); a further region moves each bound just as far as to itself.
pub proof fn law_bounds_grow_by_their_regions(
    m: Map<(i32, i32), RegionMeta>,
    at: (i32, i32),
    meta: RegionMeta,
    before: (i32, i32, i32, i32),
    after: (i32, i32, i32, i32),
)
    requires
        bounding_box(m.insert(at, meta), after),
    ensures
        m.dom() == Set::<(i32, i32)>::empty() ==> after == (at.0, at.1, at.0, at.1),
        bounding_box(m, before) ==> {
            &&& after.0 == if at.0 < before.0 {
                at.0
            } else {
                before.0
            }
            &&& after.1 == if at.1 < before.1 {
                at.1
            } else {
                before.1
            }
            &&& after.2 == if at.0 > before.2 {
                at.0
            } else {
                before.2
            }
            &&& after.3 == if at.1 > before.3 {
                at.1
            } else {
                before.3
            }
        },
{
    let all = m.insert(at, meta);
    assert(all.contains_key(at));
    assert forall|k: (i32, i32)| #[trigger] m.contains_key(k) implies all.contains_key(k) by {}
    assert forall|k: (i32, i32)| #[trigger] all.contains_key(k) implies k == at || m.contains_key(
        k,
    ) by {}
    if m.dom() == Set::<(i32, i32)>::empty() {
        assert forall|k: (i32, i32)| #[trigger] all.contains_key(k) implies k == at by {
            assert(!m.dom().contains(k));
        }
    }
    if bounding_box(m, before) {
        let a = choose|k: (i32, i32)| #[trigger] m.contains_key(k) && k.0 == before.0;
        let b = choose|k: (i32, i32)| #[trigger] m.contains_key(k) && k.1 == before.1;
        let c = choose|k: (i32, i32)| #[trigger] m.contains_key(k) && k.0 == before.2;
        let d = choose|k: (i32, i32)| #[trigger] m.contains_key(k) && k.1 == before.3;
        assert(all.contains_key(a) && all.contains_key(b) && all.contains_key(c)
            && all.contains_key(d));
    }
}

} // verus!
