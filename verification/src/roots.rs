//! Default platform locations of save roots.

use vstd::prelude::*;
use vstd::utf8::encode_utf8;
use crate::paths::{joined, joined_pieces, path_texts, FilePath};

verus! {

/// Where the game itself keeps its data, below the home directory.
pub open spec fn game_dirs() -> Seq<Seq<char>> {
    seq![
        ".minecraft"@,
        "AppData/Roaming/.minecraft"@,
        "Library/Application Support/minecraft"@,
    ]
}

/// Where launchers keep their instances, below the home directory.
pub open spec fn instance_dirs() -> Seq<Seq<char>> {
    seq![
        ".local/share/PrismLauncher/instances"@,
        ".var/app/org.prismlauncher.PrismLauncher/data/PrismLauncher/instances"@,
        "AppData/Roaming/PrismLauncher/instances"@,
        "Library/Application Support/PrismLauncher/instances"@,
        ".local/share/multimc/instances"@,
        "curseforge/minecraft/Instances"@,
        "Documents/curseforge/minecraft/Instances"@,
        "AppData/Roaming/ModrinthApp/profiles"@,
        "AppData/Roaming/com.modrinth.theseus/profiles"@,
        ".local/share/ModrinthApp/profiles"@,
        ".local/share/com.modrinth.theseus/profiles"@,
        "Library/Application Support/ModrinthApp/profiles"@,
        "Library/Application Support/com.modrinth.theseus/profiles"@,
        "AppData/Roaming/ATLauncher/instances"@,
        "AppData/Roaming/gdlauncher_next/instances"@,
    ]
}

/// The paths of `dirs` below `home`.
pub open spec fn below(home: Seq<Seq<u8>>, dirs: Seq<Seq<char>>) -> Seq<Seq<Seq<u8>>> {
    dirs.map_values(|d: Seq<char>| joined_pieces(home, d))
}

fn game_paths(home: &FilePath) -> (r: Vec<FilePath>)
    ensures
        path_texts(r@) == below(home@, game_dirs()),
{
    let r = vec![
        home.join_pieces(".minecraft"),
        home.join_pieces("AppData/Roaming/.minecraft"),
        home.join_pieces("Library/Application Support/minecraft"),
    ];
    assert(path_texts(r@) =~= below(home@, game_dirs()));
    r
}

/// The instance folders of the launchers people actually use: Prism and
/// MultiMC, CurseForge (its Windows default, and the Documents fallback that it
/// and macOS use), the Modrinth App (both its folder names, per platform),
/// ATLauncher and GDLauncher.
pub fn instance_paths(home: &FilePath) -> (r: Vec<FilePath>)
    ensures
        path_texts(r@) == below(home@, instance_dirs()),
{
    let r = vec![
        home.join_pieces(".local/share/PrismLauncher/instances"),
        home.join_pieces(".var/app/org.prismlauncher.PrismLauncher/data/PrismLauncher/instances"),
        home.join_pieces("AppData/Roaming/PrismLauncher/instances"),
        home.join_pieces("Library/Application Support/PrismLauncher/instances"),
        home.join_pieces(".local/share/multimc/instances"),
        home.join_pieces("curseforge/minecraft/Instances"),
        home.join_pieces("Documents/curseforge/minecraft/Instances"),
        home.join_pieces("AppData/Roaming/ModrinthApp/profiles"),
        home.join_pieces("AppData/Roaming/com.modrinth.theseus/profiles"),
        home.join_pieces(".local/share/ModrinthApp/profiles"),
        home.join_pieces(".local/share/com.modrinth.theseus/profiles"),
        home.join_pieces("Library/Application Support/ModrinthApp/profiles"),
        home.join_pieces("Library/Application Support/com.modrinth.theseus/profiles"),
        home.join_pieces("AppData/Roaming/ATLauncher/instances"),
        home.join_pieces("AppData/Roaming/gdlauncher_next/instances"),
    ];
    assert(path_texts(r@) =~= below(home@, instance_dirs()));
    r
}

/// The shapes of one instance: depending on the launcher, the game dir is the
/// instance dir itself or a `.minecraft`/`minecraft` inside it.
pub open spec fn instance_shapes(base: Seq<Seq<u8>>, name: Seq<u8>) -> Seq<Seq<Seq<u8>>> {
    let inst = base.push(name);
    seq![inst, joined(inst, ".minecraft"@), joined(inst, "minecraft"@)]
}

/// The shapes of the instances called `names` below `base`.
pub open spec fn all_shapes(base: Seq<Seq<u8>>, names: Seq<Vec<u8>>) -> Seq<Seq<Seq<u8>>>
    decreases names.len(),
{
    if names.len() == 0 {
        Seq::empty()
    } else {
        all_shapes(base, names.drop_last()) + instance_shapes(base, names.last()@)
    }
}

/// At most the first 64 of `names`.
pub open spec fn first_instances(names: Seq<Vec<u8>>) -> Seq<Vec<u8>> {
    if names.len() > 64 {
        names.take(64)
    } else {
        names
    }
}

/// The shapes of the instances below every base. `listings` holds the names
/// below each one.
pub open spec fn shapes_below(
    bases: Seq<Seq<Seq<u8>>>,
    listings: Seq<Vec<Vec<u8>>>,
) -> Seq<Seq<Seq<u8>>>
    decreases bases.len(),
{
    if bases.len() == 0 {
        Seq::empty()
    } else {
        shapes_below(bases.drop_last(), listings) + all_shapes(
            bases.last(),
            first_instances(listings[bases.len() - 1]@),
        )
    }
}

/// Every location worth a look, in order.
pub open spec fn locations(home: Seq<Seq<u8>>, listings: Seq<Vec<Vec<u8>>>) -> Seq<Seq<Seq<u8>>> {
    below(home, game_dirs()) + shapes_below(below(home, instance_dirs()), listings)
}

/// `paths` without those that `keep` is false for, and without repetitions.
pub open spec fn kept_once(paths: Seq<Seq<Seq<u8>>>, keep: Seq<bool>) -> Seq<Seq<Seq<u8>>>
    decreases paths.len(),
{
    if paths.len() == 0 {
        Seq::empty()
    } else {
        let before = kept_once(paths.drop_last(), keep);
        if keep[paths.len() - 1] && !before.contains(paths.last()) {
            before.push(paths.last())
        } else {
            before
        }
    }
}

/// `is_dir` says `answer` of the path `p`.
pub open spec fn says<F: Fn(&FilePath) -> bool>(is_dir: F, p: Seq<Seq<u8>>, answer: bool) -> bool {
    exists|a: FilePath| a@ == p && #[trigger] call_ensures(is_dir, (&a,), answer)
}

/// `keep` is whether `p` holds the mod's data: some packs put it under
/// config/xaero/ instead of xaero/.
pub open spec fn holds_data<F: Fn(&FilePath) -> bool>(
    is_dir: F,
    p: Seq<Seq<u8>>,
    keep: bool,
) -> bool {
    if keep {
        says(is_dir, joined(p, "xaero"@), true) || says(
            is_dir,
            joined(joined(p, "config"@), "xaero"@),
            true,
        )
    } else {
        says(is_dir, joined(p, "xaero"@), false) && says(
            is_dir,
            joined(joined(p, "config"@), "xaero"@),
            false,
        )
    }
}

fn push_instances(base: &FilePath, names: &Vec<Vec<u8>>, out: &mut Vec<FilePath>)
    ensures
        path_texts(final(out)@) == path_texts(old(out)@) + all_shapes(
            base@,
            first_instances(names@),
        ),
{
    let ghost start = path_texts(out@);
    let mut i: usize = 0;
    assert(start + all_shapes(base@, names@.take(0)) =~= start);
    while i < names.len() && i < 64
        invariant
            i <= names@.len(),
            i <= 64,
            path_texts(out@) == start + all_shapes(base@, names@.take(i as int)),
        decreases names@.len() - i,
    {
        let ghost before = out@;
        let inst = base.child(names[i].as_slice());
        let dotted = inst.join(".minecraft");
        let plain = inst.join("minecraft");
        proof {
            assert(names@.take(i + 1).drop_last() =~= names@.take(i as int));
            assert(path_texts(before.push(inst).push(dotted).push(plain)) =~= path_texts(before)
                + instance_shapes(base@, names@[i as int]@));
            assert(start + all_shapes(base@, names@.take(i as int)) + instance_shapes(
                base@,
                names@[i as int]@,
            ) =~= start + all_shapes(base@, names@.take(i + 1)));
        }
        out.push(inst);
        out.push(dotted);
        out.push(plain);
        i = i + 1;
    }
    assert(names@.take(i as int) =~= first_instances(names@));
}

/// Every location worth a look: where the game itself keeps its data, and the
/// instances of the launchers. `listings` holds the names of what stands below
/// each of [`instance_paths`], as far as it can be listed.
fn all_locations(home: &FilePath, listings: &Vec<Vec<Vec<u8>>>) -> (r: Vec<FilePath>)
    requires
        listings@.len() == instance_dirs().len(),
    ensures
        path_texts(r@) == locations(home@, listings@),
{
    let mut out = game_paths(home);
    let bases = instance_paths(home);
    let ghost start = path_texts(out@);
    let ghost texts = path_texts(bases@);
    assert(texts.len() == bases@.len());
    assert(below(home@, instance_dirs()).len() == instance_dirs().len());
    let mut i: usize = 0;
    assert(start + shapes_below(texts.take(0), listings@) =~= start);
    while i < bases.len()
        invariant
            i <= bases@.len(),
            bases@.len() == listings@.len(),
            texts == path_texts(bases@),
            path_texts(out@) == start + shapes_below(texts.take(i as int), listings@),
        decreases bases@.len() - i,
    {
        push_instances(&bases[i], &listings[i], &mut out);
        proof {
            assert(texts.take(i + 1).drop_last() =~= texts.take(i as int));
            assert(texts.take(i + 1).last() == bases@[i as int]@);
            assert(path_texts(out@) =~= start + shapes_below(texts.take(i + 1), listings@));
        }
        i = i + 1;
    }
    assert(texts.take(texts.len() as int) =~= texts);
    out
}

fn lists_path(paths: &Vec<FilePath>, p: &FilePath) -> (r: bool)
    ensures
        r == path_texts(paths@).contains(p@),
{
    let mut i: usize = 0;
    while i < paths.len()
        invariant
            i <= paths@.len(),
            forall|k: int| 0 <= k < i ==> (#[trigger] path_texts(paths@)[k]) != p@,
        decreases paths@.len() - i,
    {
        assert(path_texts(paths@)[i as int] == paths@[i as int]@);
        if paths[i].is_same(p) {
            return true;
        }
        i = i + 1;
    }
    false
}

/// The home directory: what `HOME` says, or else `USERPROFILE`.
pub fn home_directory(home: Option<FilePath>, user_profile: Option<FilePath>) -> (r: Option<
    FilePath,
>)
    ensures
        r == (if home is Some {
            home
        } else {
            user_profile
        }),
{
    match home {
        Some(home) => Some(home),
        None => user_profile,
    }
}

/// Default platform locations worth offering at first run: those that hold the
/// mod's data, each once. `home` is the home directory, if there is one;
/// `listings` holds the names of what stands below each of [`instance_paths`],
/// as far as it can be listed, and at most 64 of each are looked at.
pub fn default_root_candidates<F: Fn(&FilePath) -> bool>(
    home: Option<&FilePath>,
    listings: &Vec<Vec<Vec<u8>>>,
    is_dir: F,
) -> (r: Vec<FilePath>)
    requires
        home is Some ==> listings@.len() == instance_dirs().len(),
        forall|p: &FilePath| call_requires(is_dir, (p,)),
    ensures
        home is None ==> r@.len() == 0,
        home matches Some(h) ==> exists|keep: Seq<bool>|
            {
                &&& keep.len() == locations(h@, listings@).len()
                &&& forall|i: int|
                    0 <= i < keep.len() ==> holds_data(
                        is_dir,
                        locations(h@, listings@)[i],
                        #[trigger] keep[i],
                    )
                &&& path_texts(r@) == #[trigger] kept_once(locations(h@, listings@), keep)
            },
{
    let mut out: Vec<FilePath> = Vec::new();
    let home = match home {
        Some(home) => home,
        None => return out,
    };
    let all = all_locations(home, listings);
    let ghost paths = path_texts(all@);
    let ghost mut keep: Seq<bool> = Seq::empty();
    let mut i: usize = 0;
    assert(path_texts(out@) =~= kept_once(paths.take(0), keep));
    while i < all.len()
        invariant
            i <= all@.len(),
            paths == path_texts(all@),
            keep.len() == i,
            forall|p: &FilePath| call_requires(is_dir, (p,)),
            forall|k: int| 0 <= k < i ==> holds_data(is_dir, paths[k], #[trigger] keep[k]),
            path_texts(out@) == kept_once(paths.take(i as int), keep),
        decreases all@.len() - i,
    {
        let p = &all[i];
        let bare = p.join("xaero");
        let config = p.join("config").join("xaero");
        let has_bare = is_dir(&bare);
        let offers = has_bare || is_dir(&config);
        let ghost before = out@;
        let ghost was = keep;
        proof {
            keep = keep.push(offers);
            assert(paths.take(i + 1).drop_last() =~= paths.take(i as int));
            assert(paths.take(i + 1).last() == p@);
            lemma_kept_once_prefix(paths.take(i as int), was, keep);
            assert(holds_data(is_dir, paths[i as int], offers)) by {
                assert(paths[i as int] == p@);
                if offers {
                    if has_bare {
                        assert(says(is_dir, joined(p@, "xaero"@), true));
                    } else {
                        assert(says(is_dir, joined(joined(p@, "config"@), "xaero"@), true));
                    }
                } else {
                    assert(says(is_dir, joined(p@, "xaero"@), false));
                    assert(says(is_dir, joined(joined(p@, "config"@), "xaero"@), false));
                }
            }
        }
        if offers && !lists_path(&out, p) {
            let found = p.copied();
            out.push(found);
            assert(path_texts(out@) =~= path_texts(before).push(p@));
        }
        i = i + 1;
    }
    assert(paths.take(paths.len() as int) =~= paths);
    out
}

proof fn lemma_kept_once_prefix(paths: Seq<Seq<Seq<u8>>>, a: Seq<bool>, b: Seq<bool>)
    requires
        paths.len() <= a.len(),
        paths.len() <= b.len(),
        forall|i: int| 0 <= i < paths.len() ==> a[i] == b[i],
    ensures
        kept_once(paths, a) == kept_once(paths, b),
    decreases paths.len(),
{
    if paths.len() > 0 {
        lemma_kept_once_prefix(paths.drop_last(), a, b);
    }
}

/// No location is offered twice.
pub proof fn law_no_location_twice(paths: Seq<Seq<Seq<u8>>>, keep: Seq<bool>)
    requires
        keep.len() == paths.len(),
    ensures
        kept_once(paths, keep).no_duplicates(),
    decreases paths.len(),
{
    if paths.len() > 0 {
        let front = paths.drop_last();
        let was = keep.drop_last();
        law_no_location_twice(front, was);
        lemma_kept_once_prefix(front, was, keep);
    }
}

/// A location is offered exactly when it holds the mod's data somewhere in the
/// list.
pub proof fn law_every_real_location_is_offered(
    paths: Seq<Seq<Seq<u8>>>,
    keep: Seq<bool>,
    p: Seq<Seq<u8>>,
)
    requires
        keep.len() == paths.len(),
    ensures
        kept_once(paths, keep).contains(p) <==> exists|i: int|
            0 <= i < paths.len() && keep[i] && #[trigger] paths[i] == p,
    decreases paths.len(),
{
    let all = kept_once(paths, keep);
    if paths.len() > 0 {
        let front = paths.drop_last();
        let was = keep.drop_last();
        law_every_real_location_is_offered(front, was, p);
        lemma_kept_once_prefix(front, was, keep);
        let before = kept_once(front, keep);
        let n = front.len() as int;
        if before.contains(p) {
            let j = choose|j: int| 0 <= j < before.len() && before[j] == p;
            assert(all[j] == p);
            let i = choose|i: int| 0 <= i < front.len() && was[i] && #[trigger] front[i] == p;
            assert(keep[i] && paths[i] == p);
        }
        if keep[n] && paths[n] == p && !before.contains(p) {
            assert(all[before.len() as int] == p);
        }
        if exists|i: int| 0 <= i < paths.len() && keep[i] && #[trigger] paths[i] == p {
            let i = choose|i: int| 0 <= i < paths.len() && keep[i] && #[trigger] paths[i] == p;
            if i < n {
                assert(was[i] && front[i] == p);
            }
        }
        if all.contains(p) && !before.contains(p) {
            assert(paths[n] == p);
        }
    }
}

/// The game's own directories and those of the launchers: Prism, also from
/// Flatpak, MultiMC, CurseForge, Modrinth, ATLauncher and GDLauncher, on each
/// platform.
pub proof fn law_known_directories_are_looked_at(home: Seq<Seq<u8>>)
    ensures
        below(home, game_dirs()).len() == 3,
        below(home, instance_dirs()).len() == 15,
        below(home, game_dirs())[0] == joined_pieces(home, ".minecraft"@),
        below(home, game_dirs())[1] == joined_pieces(home, "AppData/Roaming/.minecraft"@),
        below(home, game_dirs())[2] == joined_pieces(home, "Library/Application Support/minecraft"@),
        below(home, instance_dirs())[0] == joined_pieces(
            home,
            ".local/share/PrismLauncher/instances"@,
        ),
        below(home, instance_dirs())[1] == joined_pieces(
            home,
            ".var/app/org.prismlauncher.PrismLauncher/data/PrismLauncher/instances"@,
        ),
        below(home, instance_dirs())[2] == joined_pieces(
            home,
            "AppData/Roaming/PrismLauncher/instances"@,
        ),
        below(home, instance_dirs())[3] == joined_pieces(
            home,
            "Library/Application Support/PrismLauncher/instances"@,
        ),
        below(home, instance_dirs())[4] == joined_pieces(
            home,
            ".local/share/multimc/instances"@,
        ),
        below(home, instance_dirs())[5] == joined_pieces(
            home,
            "curseforge/minecraft/Instances"@,
        ),
        below(home, instance_dirs())[6] == joined_pieces(
            home,
            "Documents/curseforge/minecraft/Instances"@,
        ),
        below(home, instance_dirs())[7] == joined_pieces(
            home,
            "AppData/Roaming/ModrinthApp/profiles"@,
        ),
        below(home, instance_dirs())[8] == joined_pieces(
            home,
            "AppData/Roaming/com.modrinth.theseus/profiles"@,
        ),
        below(home, instance_dirs())[9] == joined_pieces(
            home,
            ".local/share/ModrinthApp/profiles"@,
        ),
        below(home, instance_dirs())[10] == joined_pieces(
            home,
            ".local/share/com.modrinth.theseus/profiles"@,
        ),
        below(home, instance_dirs())[11] == joined_pieces(
            home,
            "Library/Application Support/ModrinthApp/profiles"@,
        ),
        below(home, instance_dirs())[12] == joined_pieces(
            home,
            "Library/Application Support/com.modrinth.theseus/profiles"@,
        ),
        below(home, instance_dirs())[13] == joined_pieces(
            home,
            "AppData/Roaming/ATLauncher/instances"@,
        ),
        below(home, instance_dirs())[14] == joined_pieces(
            home,
            "AppData/Roaming/gdlauncher_next/instances"@,
        ),
{
}

proof fn lemma_shapes(base: Seq<Seq<u8>>, names: Seq<Vec<u8>>, p: Seq<Seq<u8>>)
    ensures
        all_shapes(base, names).contains(p) <==> exists|i: int|
            0 <= i < names.len() && is_shape_of(base, (#[trigger] names[i])@, p),
    decreases names.len(),
{
    if names.len() > 0 {
        let front = names.drop_last();
        let last = names.len() - 1;
        let before = all_shapes(base, front);
        let here = instance_shapes(base, names[last]@);
        let all = all_shapes(base, names);
        lemma_shapes(base, front, p);
        assert(all == before + here);
        assert(here[0] == base.push(names[last]@));
        if all.contains(p) {
            let k = choose|k: int| 0 <= k < all.len() && all[k] == p;
            if k < before.len() {
                assert(before[k] == p);
                let i = choose|i: int|
                    0 <= i < front.len() && is_shape_of(base, (#[trigger] front[i])@, p);
                assert(names[i] == front[i]);
            } else {
                assert(here[k - before.len()] == p);
                assert(is_shape_of(base, names[last]@, p));
            }
        }
        if exists|i: int| 0 <= i < names.len() && is_shape_of(base, (#[trigger] names[i])@, p) {
            let i = choose|i: int|
                0 <= i < names.len() && is_shape_of(base, (#[trigger] names[i])@, p);
            if i < last {
                assert(front[i] == names[i]);
                let k = choose|k: int| 0 <= k < before.len() && before[k] == p;
                assert(all[k] == p);
            } else {
                let k: int = if p == here[0] {
                    0
                } else if p == here[1] {
                    1
                } else {
                    2
                };
                assert(here[k] == p);
                assert(all[before.len() + k] == p);
            }
        }
    }
}

/// `p` is the instance `name` below `base`, or its `.minecraft` or `minecraft`.
pub open spec fn is_shape_of(base: Seq<Seq<u8>>, name: Seq<u8>, p: Seq<Seq<u8>>) -> bool {
    ||| p == base.push(name)
    ||| p == base.push(name).push(encode_utf8(".minecraft"@))
    ||| p == base.push(name).push(encode_utf8("minecraft"@))
}

/// `p` belongs to instance `i` of the launcher directory `b`.
pub open spec fn is_instance_at(
    bases: Seq<Seq<Seq<u8>>>,
    listings: Seq<Vec<Vec<u8>>>,
    b: int,
    i: int,
    p: Seq<Seq<u8>>,
) -> bool {
    &&& 0 <= b < bases.len()
    &&& 0 <= i < listings[b]@.len()
    &&& is_shape_of(bases[b], listings[b]@[i]@, p)
}

proof fn lemma_shapes_below(
    bases: Seq<Seq<Seq<u8>>>,
    listings: Seq<Vec<Vec<u8>>>,
    p: Seq<Seq<u8>>,
)
    ensures
        shapes_below(bases, listings).contains(p) <==> exists|b: int, i: int| #[trigger]
            is_instance_at(bases, listings, b, i, p) && i < 64,
    decreases bases.len(),
{
    if bases.len() > 0 {
        let front = bases.drop_last();
        let last = bases.len() - 1;
        let names = first_instances(listings[last]@);
        let before = shapes_below(front, listings);
        let here = all_shapes(bases[last], names);
        let all = shapes_below(bases, listings);
        lemma_shapes_below(front, listings, p);
        lemma_shapes(bases[last], names, p);
        assert(all == before + here);
        if all.contains(p) {
            let k = choose|k: int| 0 <= k < all.len() && all[k] == p;
            if k < before.len() {
                assert(before[k] == p);
                let (b, i) = choose|b: int, i: int| #[trigger]
                    is_instance_at(front, listings, b, i, p) && i < 64;
                assert(is_instance_at(bases, listings, b, i, p));
            } else {
                assert(here[k - before.len()] == p);
                let i = choose|i: int|
                    0 <= i < names.len() && is_shape_of(bases[last], (#[trigger] names[i])@, p);
                assert(is_instance_at(bases, listings, last, i, p));
            }
        }
        if exists|b: int, i: int| #[trigger]
            is_instance_at(bases, listings, b, i, p) && i < 64 {
            let (b, i) = choose|b: int, i: int| #[trigger]
                is_instance_at(bases, listings, b, i, p) && i < 64;
            if b < last {
                assert(is_instance_at(front, listings, b, i, p));
                let k = choose|k: int| 0 <= k < before.len() && before[k] == p;
                assert(all[k] == p);
            } else {
                assert(is_shape_of(bases[last], names[i]@, p));
                let k = choose|k: int| 0 <= k < here.len() && here[k] == p;
                assert(all[before.len() + k] == p);
            }
        }
    }
}

/// The locations that are looked at are the game's own directories and, of each
/// launcher, the first 64 instances: the instance itself, its `.minecraft` and
/// its `minecraft`. No other is.
pub proof fn law_locations_are_games_and_instances(
    home: Seq<Seq<u8>>,
    listings: Seq<Vec<Vec<u8>>>,
    p: Seq<Seq<u8>>,
)
    ensures
        locations(home, listings).contains(p) <==> below(home, game_dirs()).contains(p)
            || exists|b: int, i: int| #[trigger]
            is_instance_at(below(home, instance_dirs()), listings, b, i, p) && i < 64,
{
    let games = below(home, game_dirs());
    let shapes = shapes_below(below(home, instance_dirs()), listings);
    let all = locations(home, listings);
    lemma_shapes_below(below(home, instance_dirs()), listings, p);
    if all.contains(p) {
        let k = choose|k: int| 0 <= k < all.len() && all[k] == p;
        if k < games.len() {
            assert(games[k] == p);
        } else {
            assert(shapes[k - games.len()] == p);
        }
    }
    if games.contains(p) {
        let k = choose|k: int| 0 <= k < games.len() && games[k] == p;
        assert(all[k] == p);
    }
    if shapes.contains(p) {
        let k = choose|k: int| 0 <= k < shapes.len() && shapes[k] == p;
        assert(all[games.len() + k] == p);
    }
}

/// Whatever is asked of the path `p`, the answer is `answer`.
pub open spec fn always_says<F: Fn(&FilePath) -> bool>(
    is_dir: F,
    p: Seq<Seq<u8>>,
    answer: bool,
) -> bool {
    forall|a: FilePath, o: bool| #[trigger]
        call_ensures(is_dir, (&a,), o) && a@ == p ==> o == answer
}

/// A location is offered for its `xaero` directory or its `config/xaero`, and
/// not without one of them.
pub proof fn law_location_is_offered_for_its_data<F: Fn(&FilePath) -> bool>(
    is_dir: F,
    p: Seq<Seq<u8>>,
    keep: bool,
)
    requires
        holds_data(is_dir, p, keep),
    ensures
        always_says(is_dir, p.push(encode_utf8("xaero"@)), true) ==> keep,
        always_says(
            is_dir,
            p.push(encode_utf8("config"@)).push(encode_utf8("xaero"@)),
            true,
        ) ==> keep,
        always_says(is_dir, p.push(encode_utf8("xaero"@)), false) && always_says(
            is_dir,
            p.push(encode_utf8("config"@)).push(encode_utf8("xaero"@)),
            false,
        ) ==> !keep,
{
}

} // verus!
