//! What the listing of waypoint files promises, said of the directories and the
//! files that are there: every file is listed, from where it stands, and a
//! snapshot is never taken for a live tree.

use vstd::prelude::*;
use vstd::utf8::encode_utf8;
use crate::order::{first_of_rank, has_rank, leads_rank, of_rank};
use crate::order::{sorted_from, strictly_in_order, Ranked};
use crate::picking::lemma_filter_map_has;
use crate::waypoints::{bare_tree, config_tree, copied_files, file_at, file_texts, folder_files};
use crate::waypoints::{live_files, one_per_path, reachable_files, tree_files, world_files};
use crate::waypoints::{xaero_tree, LiveTrees, MinimapNode, RootEntry, TreeListing};
use crate::waypoints::{law_every_file_is_listed, WaypointFileRef, WaypointSourceKind, WaypointText};

verus! {

/// The node is a directory that is looked into: no backup, and not
/// `temp_to_add`.
pub open spec fn is_plain_dir(n: MinimapNode) -> bool {
    n.is_dir && !n.is_backup && n.name@ != "temp_to_add"@
}

/// No two of `nodes` have one name, as in any directory.
pub open spec fn have_own_names(nodes: Seq<MinimapNode>) -> bool {
    forall|i: int, j: int|
        0 <= i < j < nodes.len() ==> (#[trigger] nodes[i]).raw@ != (#[trigger] nodes[j]).raw@
}

/// What `node` adds to the files of the world in `dir`.
spec fn world_share(
    dir: Seq<Seq<u8>>,
    node: MinimapNode,
    kind: WaypointSourceKind,
    world: String,
    tree: Seq<Seq<u8>>,
) -> Seq<WaypointText> {
    world_files(dir, seq![node], kind, world, tree)
}

/// What `node` adds to the files of the tree `tree`.
spec fn tree_share(tree: Seq<Seq<u8>>, node: MinimapNode, kind: WaypointSourceKind) -> Seq<
    WaypointText,
> {
    tree_files(tree, seq![node], kind)
}

proof fn lemma_one_node(
    dir: Seq<Seq<u8>>,
    node: MinimapNode,
    kind: WaypointSourceKind,
    world: String,
    tree: Seq<Seq<u8>>,
)
    ensures
        world_share(dir, node, kind, world, tree) == (if node.is_dir {
            if node.is_backup {
                world_files(
                    dir.push(node.raw@),
                    node.children@,
                    WaypointSourceKind::Archived,
                    world,
                    tree,
                )
            } else if node.name@ == "temp_to_add"@ {
                Seq::empty()
            } else {
                folder_files(dir, node, kind, world, tree)
            }
        } else {
            match file_at(dir, node, kind, world, None, None, tree) {
                Some(file) => seq![file],
                None => Seq::empty(),
            }
        }),
        tree_share(tree, node, kind) == (if !node.is_dir || node.name@ == "temp_to_add"@ {
            Seq::empty()
        } else if node.is_backup {
            tree_files(tree.push(node.raw@), node.children@, WaypointSourceKind::Archived)
        } else {
            world_files(tree.push(node.raw@), node.children@, kind, node.name, tree)
        }),
{
    let one = seq![node];
    assert(one.last() == node);
    assert(one.drop_last() =~= Seq::<MinimapNode>::empty());
    let none = Seq::<MinimapNode>::empty();
    assert(world_files(dir, none, kind, world, tree) == Seq::<WaypointText>::empty());
    assert(tree_files(tree, none, kind) == Seq::<WaypointText>::empty());
    assert forall|s: Seq<WaypointText>| #[trigger] (Seq::<WaypointText>::empty() + s) == s by {
        assert(Seq::<WaypointText>::empty() + s =~= s);
    }
}

proof fn lemma_world_member(
    dir: Seq<Seq<u8>>,
    nodes: Seq<MinimapNode>,
    kind: WaypointSourceKind,
    world: String,
    tree: Seq<Seq<u8>>,
    file: WaypointText,
)
    ensures
        world_files(dir, nodes, kind, world, tree).contains(file) <==> exists|i: int|
            0 <= i < nodes.len() && world_share(
                dir,
                #[trigger] nodes[i],
                kind,
                world,
                tree,
            ).contains(file),
    decreases nodes.len(),
{
    let all = world_files(dir, nodes, kind, world, tree);
    if nodes.len() > 0 {
        let front = nodes.drop_last();
        let last = nodes.len() - 1;
        let before = world_files(dir, front, kind, world, tree);
        let here = world_share(dir, nodes[last], kind, world, tree);
        lemma_one_node(dir, nodes[last], kind, world, tree);
        assert(all =~= before + here);
        lemma_world_member(dir, front, kind, world, tree, file);
        if all.contains(file) {
            let k = choose|k: int| 0 <= k < all.len() && all[k] == file;
            if k < before.len() {
                assert(before[k] == file);
                let i = choose|i: int|
                    0 <= i < front.len() && world_share(
                        dir,
                        #[trigger] front[i],
                        kind,
                        world,
                        tree,
                    ).contains(file);
                assert(nodes[i] == front[i]);
            } else {
                assert(here[k - before.len()] == file);
            }
        }
        if exists|i: int|
            0 <= i < nodes.len() && world_share(
                dir,
                #[trigger] nodes[i],
                kind,
                world,
                tree,
            ).contains(file) {
            let i = choose|i: int|
                0 <= i < nodes.len() && world_share(
                    dir,
                    #[trigger] nodes[i],
                    kind,
                    world,
                    tree,
                ).contains(file);
            if i < last {
                assert(front[i] == nodes[i]);
                let k = choose|k: int| 0 <= k < before.len() && before[k] == file;
                assert(all[k] == file);
            } else {
                let k = choose|k: int| 0 <= k < here.len() && here[k] == file;
                assert(all[before.len() + k] == file);
            }
        }
    }
}

proof fn lemma_tree_member(
    tree: Seq<Seq<u8>>,
    nodes: Seq<MinimapNode>,
    kind: WaypointSourceKind,
    file: WaypointText,
)
    ensures
        tree_files(tree, nodes, kind).contains(file) <==> exists|i: int|
            0 <= i < nodes.len() && tree_share(tree, #[trigger] nodes[i], kind).contains(file),
    decreases nodes.len(),
{
    let all = tree_files(tree, nodes, kind);
    if nodes.len() > 0 {
        let front = nodes.drop_last();
        let last = nodes.len() - 1;
        let before = tree_files(tree, front, kind);
        let here = tree_share(tree, nodes[last], kind);
        lemma_one_node(tree, nodes[last], kind, nodes[last].name, tree);
        assert(all =~= before + here);
        lemma_tree_member(tree, front, kind, file);
        if all.contains(file) {
            let k = choose|k: int| 0 <= k < all.len() && all[k] == file;
            if k < before.len() {
                assert(before[k] == file);
                let i = choose|i: int|
                    0 <= i < front.len() && tree_share(tree, #[trigger] front[i], kind).contains(
                        file,
                    );
                assert(nodes[i] == front[i]);
            } else {
                assert(here[k - before.len()] == file);
            }
        }
        if exists|i: int|
            0 <= i < nodes.len() && tree_share(tree, #[trigger] nodes[i], kind).contains(file) {
            let i = choose|i: int|
                0 <= i < nodes.len() && tree_share(tree, #[trigger] nodes[i], kind).contains(file);
            if i < last {
                assert(front[i] == nodes[i]);
                let k = choose|k: int| 0 <= k < before.len() && before[k] == file;
                assert(all[k] == file);
            } else {
                let k = choose|k: int| 0 <= k < here.len() && here[k] == file;
                assert(all[before.len() + k] == file);
            }
        }
    }
}

proof fn lemma_folder_member(
    dir: Seq<Seq<u8>>,
    folder: MinimapNode,
    kind: WaypointSourceKind,
    world: String,
    tree: Seq<Seq<u8>>,
    file: WaypointText,
)
    ensures
        folder_files(dir, folder, kind, world, tree).contains(file) <==> exists|k: int|
            0 <= k < folder.children@.len() && file_at(
                dir.push(folder.raw@),
                #[trigger] folder.children@[k],
                kind,
                world,
                Some(folder.name),
                folder.dimension,
                tree,
            ) == Some(file),
{
    let s = folder.children@;
    let f = |f: MinimapNode|
        file_at(dir.push(folder.raw@), f, kind, world, Some(folder.name), folder.dimension, tree);
    if s.filter_map(f).contains(file) {
        s.lemma_filter_map_contains(f, file);
        let n = choose|n: MinimapNode| #[trigger] s.contains(n) && f(n) == Some(file);
        let k = choose|k: int| 0 <= k < s.len() && s[k] == n;
        assert(f(s[k]) == Some(file));
    }
    if exists|k: int| 0 <= k < s.len() && f(#[trigger] s[k]) == Some(file) {
        let k = choose|k: int| 0 <= k < s.len() && f(#[trigger] s[k]) == Some(file);
        lemma_filter_map_has(s, f, k);
    }
}

// ------------------------------------------------------------------ trees --

/// A waypoint file in a dimension folder of a world is listed from there: with
/// the names of its world and its folder, the folder's dimension and its own
/// multiworld, and of the kind of its tree.
pub proof fn law_file_in_a_folder_is_listed(
    tree: Seq<Seq<u8>>,
    nodes: Seq<MinimapNode>,
    kind: WaypointSourceKind,
    i: int,
    j: int,
    k: int,
)
    requires
        0 <= i < nodes.len(),
        is_plain_dir(nodes[i]),
        0 <= j < nodes[i].children@.len(),
        is_plain_dir(nodes[i].children@[j]),
        0 <= k < nodes[i].children@[j].children@.len(),
        nodes[i].children@[j].children@[k].waypoint is Some,
    ensures
        ({
            let world = nodes[i];
            let folder = world.children@[j];
            let file = folder.children@[k];
            tree_files(tree, nodes, kind).contains(
                WaypointText {
                    kind,
                    world: world.name,
                    dim_folder: Some(folder.name),
                    dimension: folder.dimension,
                    mw: file.waypoint->0,
                    tree,
                    path: tree.push(world.raw@).push(folder.raw@).push(file.raw@),
                },
            )
        }),
{
    let world = nodes[i];
    let folder = world.children@[j];
    let file = folder.children@[k];
    let dir = tree.push(world.raw@);
    let text = WaypointText {
        kind,
        world: world.name,
        dim_folder: Some(folder.name),
        dimension: folder.dimension,
        mw: file.waypoint->0,
        tree,
        path: dir.push(folder.raw@).push(file.raw@),
    };
    assert(file_at(
        dir.push(folder.raw@),
        folder.children@[k],
        kind,
        world.name,
        Some(folder.name),
        folder.dimension,
        tree,
    ) == Some(text));
    lemma_folder_member(dir, folder, kind, world.name, tree, text);
    lemma_one_node(dir, folder, kind, world.name, tree);
    assert(world_share(dir, world.children@[j], kind, world.name, tree).contains(text));
    lemma_world_member(dir, world.children@, kind, world.name, tree, text);
    lemma_one_node(tree, world, kind, world.name, tree);
    assert(tree_share(tree, nodes[i], kind).contains(text));
    lemma_tree_member(tree, nodes, kind, text);
}

/// A waypoint file that sits in a world directly is listed from there, without
/// a dimension.
pub proof fn law_file_in_a_world_is_listed(
    tree: Seq<Seq<u8>>,
    nodes: Seq<MinimapNode>,
    kind: WaypointSourceKind,
    i: int,
    j: int,
)
    requires
        0 <= i < nodes.len(),
        is_plain_dir(nodes[i]),
        0 <= j < nodes[i].children@.len(),
        !nodes[i].children@[j].is_dir,
        nodes[i].children@[j].waypoint is Some,
    ensures
        ({
            let world = nodes[i];
            let file = world.children@[j];
            tree_files(tree, nodes, kind).contains(
                WaypointText {
                    kind,
                    world: world.name,
                    dim_folder: None,
                    dimension: None,
                    mw: file.waypoint->0,
                    tree,
                    path: tree.push(world.raw@).push(file.raw@),
                },
            )
        }),
{
    let world = nodes[i];
    let file = world.children@[j];
    let dir = tree.push(world.raw@);
    let text = WaypointText {
        kind,
        world: world.name,
        dim_folder: None,
        dimension: None,
        mw: file.waypoint->0,
        tree,
        path: dir.push(file.raw@),
    };
    lemma_one_node(dir, file, kind, world.name, tree);
    assert(seq![text][0] == text);
    assert(world_share(dir, world.children@[j], kind, world.name, tree).contains(text));
    lemma_world_member(dir, world.children@, kind, world.name, tree, text);
    lemma_one_node(tree, world, kind, world.name, tree);
    assert(tree_share(tree, nodes[i], kind).contains(text));
    lemma_tree_member(tree, nodes, kind, text);
}

/// A `backup*` directory of a tree holds a tree of its own, and one of a world
/// holds that world again: what they hold is listed as archived, whatever the
/// tree around them is.
pub proof fn law_backups_are_listed_as_archived(
    dir: Seq<Seq<u8>>,
    nodes: Seq<MinimapNode>,
    kind: WaypointSourceKind,
    world: String,
    tree: Seq<Seq<u8>>,
    i: int,
    file: WaypointText,
)
    requires
        0 <= i < nodes.len(),
        nodes[i].is_dir,
        nodes[i].is_backup,
    ensures
        nodes[i].name@ != "temp_to_add"@ && tree_files(
            dir.push(nodes[i].raw@),
            nodes[i].children@,
            WaypointSourceKind::Archived,
        ).contains(file) ==> tree_files(dir, nodes, kind).contains(file),
        world_files(
            dir.push(nodes[i].raw@),
            nodes[i].children@,
            WaypointSourceKind::Archived,
            world,
            tree,
        ).contains(file) ==> world_files(dir, nodes, kind, world, tree).contains(file),
{
    lemma_one_node(dir, nodes[i], kind, world, tree);
    lemma_one_node(dir, nodes[i], kind, world, dir);
    lemma_tree_member(dir, nodes, kind, file);
    lemma_world_member(dir, nodes, kind, world, tree, file);
}

// ------------------------------------------------------------------- root --

proof fn lemma_add_contains(a: Seq<WaypointText>, b: Seq<WaypointText>, file: WaypointText)
    ensures
        (a + b).contains(file) <==> a.contains(file) || b.contains(file),
{
    if a.contains(file) {
        let k = choose|k: int| 0 <= k < a.len() && a[k] == file;
        assert((a + b)[k] == file);
    }
    if b.contains(file) {
        let k = choose|k: int| 0 <= k < b.len() && b[k] == file;
        assert((a + b)[a.len() + k] == file);
    }
    if (a + b).contains(file) {
        let k = choose|k: int| 0 <= k < (a + b).len() && (a + b)[k] == file;
        if k < a.len() {
            assert(a[k] == file);
        } else {
            assert(b[k - a.len()] == file);
        }
    }
}

proof fn lemma_copied_member(
    root: Seq<Seq<u8>>,
    entries: Seq<RootEntry>,
    file: WaypointText,
)
    ensures
        copied_files(root, entries).contains(file) <==> exists|i: int|
            0 <= i < entries.len() && is_copied_tree(#[trigger] entries[i]) && tree_files(
                root.push(entries[i].raw@),
                entries[i].nodes@,
                WaypointSourceKind::Archived,
            ).contains(file),
    decreases entries.len(),
{
    if entries.len() > 0 {
        let front = entries.drop_last();
        let last = entries.len() - 1;
        let e = entries[last];
        lemma_copied_member(root, front, file);
        lemma_prefix(e.name@);
        let here = if is_copied_tree(e) {
            tree_files(root.push(e.raw@), e.nodes@, WaypointSourceKind::Archived)
        } else {
            Seq::empty()
        };
        lemma_add_contains(copied_files(root, front), here, file);
        if copied_files(root, front).contains(file) {
            let i = choose|i: int|
                0 <= i < front.len() && is_copied_tree(#[trigger] front[i]) && tree_files(
                    root.push(front[i].raw@),
                    front[i].nodes@,
                    WaypointSourceKind::Archived,
                ).contains(file);
            assert(entries[i] == front[i]);
        }
        assert forall|i: int|
            0 <= i < last && is_copied_tree(#[trigger] entries[i]) && tree_files(
                root.push(entries[i].raw@),
                entries[i].nodes@,
                WaypointSourceKind::Archived,
            ).contains(file) implies copied_files(root, front).contains(file) by {
            assert(front[i] == entries[i]);
        }
    }
}

/// The entry is a directory whose name begins with `XaeroWaypoints`.
pub open spec fn is_copied_tree(e: RootEntry) -> bool {
    &&& e.is_dir
    &&& "XaeroWaypoints"@.is_prefix_of(e.name@)
}

proof fn lemma_prefix(name: Seq<char>)
    ensures
        crate::text::begins_with(name, "XaeroWaypoints"@) <==> "XaeroWaypoints"@.is_prefix_of(name),
{
    let p = "XaeroWaypoints"@;
    if p.is_prefix_of(name) {
        assert(name.subrange(0, p.len() as int) =~= p);
    }
    if crate::text::begins_with(name, p) {
        assert(p =~= name.subrange(0, p.len() as int));
    }
}

/// Every file of the three live trees `<root>/xaero/minimap`,
/// `<root>/config/xaero/minimap` and `<root>/minimap` is listed by its path, as
/// far as they are directories, and so is every file of the directories in
/// `<root>` whose names begin with `XaeroWaypoints`. Nothing else is.
pub proof fn law_all_trees_are_listed(
    root: Seq<Seq<u8>>,
    live: LiveTrees,
    entries: Seq<RootEntry>,
    r: Seq<WaypointFileRef>,
    path: Seq<Seq<u8>>,
)
    requires
        one_per_path(reachable_files(root, live, entries), r),
    ensures
        (exists|i: int| 0 <= i < r.len() && (#[trigger] r[i]).path@ == path) <==> (exists|
            file: WaypointText,
        |
            {
                &&& file.path == path
                &&& #[trigger] is_reachable(root, live, entries, file)
            }),
{
    let files = reachable_files(root, live, entries);
    law_every_file_is_listed(files, r, path);
    if exists|i: int| 0 <= i < files.len() && (#[trigger] files[i]).path == path {
        let i = choose|i: int| 0 <= i < files.len() && (#[trigger] files[i]).path == path;
        assert(files.contains(files[i]));
        lemma_reachable(root, live, entries, files[i]);
    }
    if exists|file: WaypointText|
        file.path == path && #[trigger] is_reachable(root, live, entries, file) {
        let file = choose|file: WaypointText|
            file.path == path && #[trigger] is_reachable(root, live, entries, file);
        lemma_reachable(root, live, entries, file);
        let i = choose|i: int| 0 <= i < files.len() && files[i] == file;
        assert(files[i].path == path);
    }
}

/// `file` is a live file of one of the three live trees, or an archived one of
/// a copied tree.
pub open spec fn is_reachable(
    root: Seq<Seq<u8>>,
    live: LiveTrees,
    entries: Seq<RootEntry>,
    file: WaypointText,
) -> bool {
    let xaero = root.push(encode_utf8("xaero"@)).push(encode_utf8("minimap"@));
    let config = root.push(encode_utf8("config"@)).push(encode_utf8("xaero"@)).push(
        encode_utf8("minimap"@),
    );
    let bare = root.push(encode_utf8("minimap"@));
    ||| live.xaero.is_dir && tree_files(
        xaero,
        live.xaero.nodes@,
        WaypointSourceKind::Live,
    ).contains(file)
    ||| live.config.is_dir && tree_files(
        config,
        live.config.nodes@,
        WaypointSourceKind::Live,
    ).contains(file)
    ||| live.bare.is_dir && tree_files(
        bare,
        live.bare.nodes@,
        WaypointSourceKind::Live,
    ).contains(file)
    ||| exists|i: int|
        0 <= i < entries.len() && is_copied_tree(#[trigger] entries[i]) && tree_files(
            root.push(entries[i].raw@),
            entries[i].nodes@,
            WaypointSourceKind::Archived,
        ).contains(file)
}

proof fn lemma_reachable(
    root: Seq<Seq<u8>>,
    live: LiveTrees,
    entries: Seq<RootEntry>,
    file: WaypointText,
)
    ensures
        reachable_files(root, live, entries).contains(file) <==> is_reachable(
            root,
            live,
            entries,
            file,
        ),
{
    let a = live_files(xaero_tree(root), live.xaero);
    let b = live_files(config_tree(root), live.config);
    let c = live_files(bare_tree(root), live.bare);
    let d = copied_files(root, entries);
    lemma_add_contains(a, b, file);
    lemma_add_contains(a + b, c, file);
    lemma_add_contains(a + b + c, d, file);
    lemma_copied_member(root, entries, file);
}

// ------------------------------------------------------------------- live --

/// `path` lies below `dir`.
pub open spec fn is_below(dir: Seq<Seq<u8>>, path: Seq<Seq<u8>>) -> bool {
    dir.len() < path.len() && dir.is_prefix_of(path)
}

proof fn lemma_below_through(dir: Seq<Seq<u8>>, name: Seq<u8>, path: Seq<Seq<u8>>)
    requires
        is_below(dir.push(name), path),
    ensures
        is_below(dir, path),
        path[dir.len() as int] == name,
{
    assert(path[dir.len() as int] == dir.push(name)[dir.len() as int]);
    assert(dir =~= path.subrange(0, dir.len() as int)) by {
        assert forall|i: int| 0 <= i < dir.len() implies dir[i] == path[i] by {
            assert(dir.push(name)[i] == path[i]);
        }
    }
}

proof fn lemma_world_share_below(
    dir: Seq<Seq<u8>>,
    node: MinimapNode,
    kind: WaypointSourceKind,
    world: String,
    tree: Seq<Seq<u8>>,
    file: WaypointText,
)
    requires
        world_share(dir, node, kind, world, tree).contains(file),
    ensures
        is_below(dir, file.path),
        file.path[dir.len() as int] == node.raw@,
    decreases node, 0int,
{
    lemma_one_node(dir, node, kind, world, tree);
    if node.is_dir {
        if node.is_backup {
            assert(decreases_to!(node => node.children));
            assert(decreases_to!(node.children => node.children@));
            lemma_world_below(
                dir.push(node.raw@),
                node.children@,
                WaypointSourceKind::Archived,
                world,
                tree,
                file,
            );
            lemma_below_through(dir, node.raw@, file.path);
        } else if node.name@ != "temp_to_add"@ {
            lemma_folder_member(dir, node, kind, world, tree, file);
            let k = choose|k: int|
                0 <= k < node.children@.len() && file_at(
                    dir.push(node.raw@),
                    #[trigger] node.children@[k],
                    kind,
                    world,
                    Some(node.name),
                    node.dimension,
                    tree,
                ) == Some(file);
            assert(dir.push(node.raw@).is_prefix_of(file.path));
            lemma_below_through(dir, node.raw@, file.path);
        }
    } else {
        assert(file.path == dir.push(node.raw@));
        assert(dir.is_prefix_of(file.path));
    }
}

proof fn lemma_world_below(
    dir: Seq<Seq<u8>>,
    nodes: Seq<MinimapNode>,
    kind: WaypointSourceKind,
    world: String,
    tree: Seq<Seq<u8>>,
    file: WaypointText,
)
    requires
        world_files(dir, nodes, kind, world, tree).contains(file),
    ensures
        is_below(dir, file.path),
    decreases nodes, 1int,
{
    lemma_world_member(dir, nodes, kind, world, tree, file);
    let i = choose|i: int|
        0 <= i < nodes.len() && world_share(
            dir,
            #[trigger] nodes[i],
            kind,
            world,
            tree,
        ).contains(file);
    assert(decreases_to!(nodes => nodes[i]));
    lemma_world_share_below(dir, nodes[i], kind, world, tree, file);
}

proof fn lemma_tree_share_below(
    tree: Seq<Seq<u8>>,
    node: MinimapNode,
    kind: WaypointSourceKind,
    file: WaypointText,
)
    requires
        tree_share(tree, node, kind).contains(file),
    ensures
        is_below(tree, file.path),
        file.path[tree.len() as int] == node.raw@,
    decreases node, 0int,
{
    lemma_one_node(tree, node, kind, node.name, tree);
    if node.is_backup {
        assert(decreases_to!(node => node.children));
        assert(decreases_to!(node.children => node.children@));
        lemma_tree_below(
            tree.push(node.raw@),
            node.children@,
            WaypointSourceKind::Archived,
            file,
        );
    } else {
        lemma_world_below(tree.push(node.raw@), node.children@, kind, node.name, tree, file);
    }
    lemma_below_through(tree, node.raw@, file.path);
}

proof fn lemma_tree_below(
    tree: Seq<Seq<u8>>,
    nodes: Seq<MinimapNode>,
    kind: WaypointSourceKind,
    file: WaypointText,
)
    requires
        tree_files(tree, nodes, kind).contains(file),
    ensures
        is_below(tree, file.path),
    decreases nodes, 1int,
{
    lemma_tree_member(tree, nodes, kind, file);
    let i = choose|i: int|
        0 <= i < nodes.len() && tree_share(tree, #[trigger] nodes[i], kind).contains(file);
    assert(decreases_to!(nodes => nodes[i]));
    lemma_tree_share_below(tree, nodes[i], kind, file);
}

/// Every file that is listed stands below the tree it is listed of.
pub proof fn law_files_stand_below_their_tree(
    tree: Seq<Seq<u8>>,
    nodes: Seq<MinimapNode>,
    kind: WaypointSourceKind,
    i: int,
)
    requires
        0 <= i < tree_files(tree, nodes, kind).len(),
    ensures
        is_below(tree, tree_files(tree, nodes, kind)[i].path),
{
    let files = tree_files(tree, nodes, kind);
    assert(files.contains(files[i]));
    lemma_tree_below(tree, nodes, kind, files[i]);
}

proof fn lemma_only_file_at(
    tree: Seq<Seq<u8>>,
    nodes: Seq<MinimapNode>,
    i: int,
    j: int,
    k: int,
    file: WaypointText,
)
    requires
        0 <= i < nodes.len(),
        is_plain_dir(nodes[i]),
        0 <= j < nodes[i].children@.len(),
        is_plain_dir(nodes[i].children@[j]),
        0 <= k < nodes[i].children@[j].children@.len(),
        nodes[i].children@[j].children@[k].waypoint is Some,
        have_own_names(nodes),
        have_own_names(nodes[i].children@),
        have_own_names(nodes[i].children@[j].children@),
        tree_files(tree, nodes, WaypointSourceKind::Live).contains(file),
        file.path == tree.push(nodes[i].raw@).push(nodes[i].children@[j].raw@).push(
            nodes[i].children@[j].children@[k].raw@,
        ),
    ensures
        file.kind is Live,
        file.world == nodes[i].name,
        file.dim_folder == Some(nodes[i].children@[j].name),
        file.dimension == nodes[i].children@[j].dimension,
        file.mw == nodes[i].children@[j].children@[k].waypoint->0,
        file.tree == tree,
{
    let live = WaypointSourceKind::Live;
    let world = nodes[i];
    let folder = world.children@[j];
    let n = tree.len() as int;
    let dir = tree.push(world.raw@);
    lemma_tree_member(tree, nodes, live, file);
    let a = choose|a: int|
        0 <= a < nodes.len() && tree_share(tree, #[trigger] nodes[a], live).contains(file);
    lemma_tree_share_below(tree, nodes[a], live, file);
    assert(file.path[n] == world.raw@);
    assert(a == i) by {
        if a < i {
            assert(nodes[a].raw@ != nodes[i].raw@);
        } else if i < a {
            assert(nodes[i].raw@ != nodes[a].raw@);
        }
    }
    lemma_one_node(tree, world, live, world.name, tree);
    lemma_world_member(dir, world.children@, live, world.name, tree, file);
    let b = choose|b: int|
        0 <= b < world.children@.len() && world_share(
            dir,
            #[trigger] world.children@[b],
            live,
            world.name,
            tree,
        ).contains(file);
    lemma_world_share_below(dir, world.children@[b], live, world.name, tree, file);
    assert(file.path[n + 1] == folder.raw@);
    assert(b == j) by {
        if b < j {
            assert(world.children@[b].raw@ != world.children@[j].raw@);
        } else if j < b {
            assert(world.children@[j].raw@ != world.children@[b].raw@);
        }
    }
    lemma_one_node(dir, folder, live, world.name, tree);
    lemma_folder_member(dir, folder, live, world.name, tree, file);
    let c = choose|c: int|
        0 <= c < folder.children@.len() && file_at(
            dir.push(folder.raw@),
            #[trigger] folder.children@[c],
            live,
            world.name,
            Some(folder.name),
            folder.dimension,
            tree,
        ) == Some(file);
    assert(file.path[n + 2] == folder.children@[k].raw@);
    assert(file.path[n + 2] == folder.children@[c].raw@);
    assert(c == k) by {
        if c < k {
            assert(folder.children@[c].raw@ != folder.children@[k].raw@);
        } else if k < c {
            assert(folder.children@[k].raw@ != folder.children@[c].raw@);
        }
    }
}

proof fn lemma_first_of_rank<T: Ranked>(s: Seq<T>, j: int)
    requires
        first_of_rank(s, j),
    ensures
        of_rank(s, s[j].rank()).len() > 0,
        of_rank(s, s[j].rank())[0] == s[j],
    decreases s.len(),
{
    reveal(Seq::filter);
    let k = s[j].rank();
    let front = s.drop_last();
    if j < s.len() - 1 {
        assert(first_of_rank(front, j)) by {
            assert forall|h: int| 0 <= h < j implies (#[trigger] front[h]).rank() != k by {
                assert(front[h] == s[h]);
            }
        }
        lemma_first_of_rank(front, j);
    } else {
        lemma_no_rank(front, k);
    }
}

proof fn lemma_no_rank<T: Ranked>(s: Seq<T>, k: T::K)
    requires
        forall|i: int| 0 <= i < s.len() ==> (#[trigger] s[i]).rank() != k,
    ensures
        of_rank(s, k).len() == 0,
    decreases s.len(),
{
    reveal(Seq::filter);
    if s.len() > 0 {
        assert(s[s.len() - 1].rank() != k);
        assert forall|i: int| 0 <= i < s.drop_last().len() implies (#[trigger] s.drop_last()[i]).rank()
            != k by {
            assert(s.drop_last()[i] == s[i]);
        }
        lemma_no_rank(s.drop_last(), k);
    }
}

proof fn lemma_find_first<T: Ranked>(s: Seq<T>, i: int) -> (j: int)
    requires
        0 <= i < s.len(),
    ensures
        0 <= j <= i,
        first_of_rank(s, j),
        s[j].rank() == s[i].rank(),
    decreases i,
{
    if exists|h: int| 0 <= h < i && (#[trigger] s[h]).rank() == s[i].rank() {
        let h = choose|h: int| 0 <= h < i && (#[trigger] s[h]).rank() == s[i].rank();
        lemma_find_first(s, h)
    } else {
        i
    }
}

/// Of several files at one path the one that was found first is listed.
pub proof fn law_first_found_is_listed(
    files: Seq<WaypointText>,
    r: Seq<WaypointFileRef>,
    i: int,
    m: int,
)
    requires
        one_per_path(files, r),
        0 <= i < r.len(),
        0 <= m < files.len(),
        files[m].path == r[i].path@,
    ensures
        exists|k: int| 0 <= k <= m && #[trigger] files[k] == r[i]@,
{
    let (found, sorted) = choose|found: Seq<WaypointFileRef>, sorted: Seq<WaypointFileRef>|
        {
            &&& file_texts(found) == files
            &&& #[trigger] sorted_from(found, sorted)
            &&& strictly_in_order(r)
            &&& forall|k: Seq<Seq<u8>>| #[trigger] has_rank(r, k) <==> has_rank(sorted, k)
            &&& forall|i: int| 0 <= i < r.len() ==> leads_rank(sorted, #[trigger] r[i])
        };
    let p = r[i].path@;
    assert(leads_rank(sorted, r[i]));
    let j = choose|j: int| #[trigger] first_of_rank(sorted, j) && sorted[j] == r[i];
    lemma_first_of_rank(sorted, j);
    assert(file_texts(found)[m] == files[m]);
    let k = lemma_find_first(found, m);
    assert(found[m].rank() == p);
    lemma_first_of_rank(found, k);
    assert(of_rank(sorted, p) == of_rank(found, p));
    assert(file_texts(found)[k] == files[k]);
    assert(files[k] == r[i]@);
}

/// The names under which the live trees stand differ.
proof fn lemma_trees_apart()
    ensures
        encode_utf8("xaero"@) != encode_utf8("config"@),
        encode_utf8("xaero"@) != encode_utf8("minimap"@),
        encode_utf8("config"@) != encode_utf8("minimap"@),
{
    broadcast use vstd::utf8::encode_utf8_decode_utf8;

    reveal_strlit("xaero");
    reveal_strlit("config");
    reveal_strlit("minimap");
    assert("xaero"@.len() == 5 && "config"@.len() == 6 && "minimap"@.len() == 7);
    assert(vstd::utf8::decode_utf8(encode_utf8("xaero"@)) == "xaero"@);
    assert(vstd::utf8::decode_utf8(encode_utf8("config"@)) == "config"@);
    assert(vstd::utf8::decode_utf8(encode_utf8("minimap"@)) == "minimap"@);
}

/// One of the three live trees below `root`, and what lies there.
pub open spec fn is_live_tree(
    root: Seq<Seq<u8>>,
    live: LiveTrees,
    tree: Seq<Seq<u8>>,
    listing: TreeListing,
) -> bool {
    ||| {
        &&& tree == root.push(encode_utf8("xaero"@)).push(encode_utf8("minimap"@))
        &&& listing == live.xaero
    }
    ||| {
        &&& tree == root.push(encode_utf8("config"@)).push(encode_utf8("xaero"@)).push(
            encode_utf8("minimap"@),
        )
        &&& listing == live.config
    }
    ||| {
        &&& tree == root.push(encode_utf8("minimap"@))
        &&& listing == live.bare
    }
}

proof fn lemma_tree_of_path(
    root: Seq<Seq<u8>>,
    live: LiveTrees,
    tree: Seq<Seq<u8>>,
    listing: TreeListing,
    file: WaypointText,
    path: Seq<Seq<u8>>,
)
    requires
        is_live_tree(root, live, tree, listing),
        is_below(tree, path),
        file.path == path,
        live_files(xaero_tree(root), live.xaero).contains(file) || live_files(
            config_tree(root),
            live.config,
        ).contains(file) || live_files(bare_tree(root), live.bare).contains(file),
    ensures
        listing.is_dir,
        tree_files(tree, listing.nodes@, WaypointSourceKind::Live).contains(file),
{
    lemma_trees_apart();
    let n = root.len() as int;
    let kind = WaypointSourceKind::Live;
    assert(path[n] == tree[n]);
    if live_files(xaero_tree(root), live.xaero).contains(file) {
        lemma_tree_below(xaero_tree(root), live.xaero.nodes@, kind, file);
        assert(path[n] == xaero_tree(root)[n]);
    } else if live_files(config_tree(root), live.config).contains(file) {
        lemma_tree_below(config_tree(root), live.config.nodes@, kind, file);
        assert(path[n] == config_tree(root)[n]);
    } else {
        lemma_tree_below(bare_tree(root), live.bare.nodes@, kind, file);
        assert(path[n] == bare_tree(root)[n]);
    }
}

/// A waypoint file in a dimension folder of a world of one of the three live
/// trees is listed, by its path, as live, and with the names of its world and
/// its folder, the folder's dimension and its own multiworld. This holds where
/// no directory on the way to it lists a name twice.
pub proof fn law_live_files_are_listed_as_live(
    root: Seq<Seq<u8>>,
    live: LiveTrees,
    entries: Seq<RootEntry>,
    r: Seq<WaypointFileRef>,
    tree: Seq<Seq<u8>>,
    listing: TreeListing,
    i: int,
    j: int,
    k: int,
)
    requires
        one_per_path(reachable_files(root, live, entries), r),
        is_live_tree(root, live, tree, listing),
        listing.is_dir,
        0 <= i < listing.nodes@.len(),
        is_plain_dir(listing.nodes@[i]),
        0 <= j < listing.nodes@[i].children@.len(),
        is_plain_dir(listing.nodes@[i].children@[j]),
        0 <= k < listing.nodes@[i].children@[j].children@.len(),
        listing.nodes@[i].children@[j].children@[k].waypoint is Some,
        have_own_names(listing.nodes@),
        have_own_names(listing.nodes@[i].children@),
        have_own_names(listing.nodes@[i].children@[j].children@),
    ensures
        ({
            let world = listing.nodes@[i];
            let folder = world.children@[j];
            let file = folder.children@[k];
            exists|h: int|
                {
                    &&& 0 <= h < r.len()
                    &&& (#[trigger] r[h]).path@ == tree.push(world.raw@).push(folder.raw@).push(
                        file.raw@,
                    )
                    &&& r[h].kind is Live
                    &&& r[h].world == world.name
                    &&& r[h].dim_folder == Some(folder.name)
                    &&& r[h].dimension == folder.dimension
                    &&& r[h].mw == file.waypoint->0
                    &&& r[h].tree@ == tree
                }
        }),
{
    let nodes = listing.nodes@;
    let world = nodes[i];
    let folder = world.children@[j];
    let file = folder.children@[k];
    let path = tree.push(world.raw@).push(folder.raw@).push(file.raw@);
    let kind = WaypointSourceKind::Live;
    let text = WaypointText {
        kind,
        world: world.name,
        dim_folder: Some(folder.name),
        dimension: folder.dimension,
        mw: file.waypoint->0,
        tree,
        path,
    };
    law_file_in_a_folder_is_listed(tree, nodes, kind, i, j, k);
    lemma_tree_below(tree, nodes, kind, text);
    let a = live_files(xaero_tree(root), live.xaero);
    let b = live_files(config_tree(root), live.config);
    let c = live_files(bare_tree(root), live.bare);
    let files = reachable_files(root, live, entries);
    lemma_add_contains(a, b, text);
    lemma_add_contains(a + b, c, text);
    let lives = a + b + c;
    assert(lives.contains(text));
    let m = choose|m: int| 0 <= m < lives.len() && lives[m] == text;
    assert(files[m] == text);
    law_every_file_is_listed(files, r, path);
    let h = choose|h: int| 0 <= h < r.len() && (#[trigger] r[h]).path@ == path;
    law_first_found_is_listed(files, r, h, m);
    let first = choose|first: int| 0 <= first <= m && #[trigger] files[first] == r[h]@;
    assert(lives[first] == files[first]);
    assert(lives.contains(files[first]));
    lemma_add_contains(a, b, files[first]);
    lemma_add_contains(a + b, c, files[first]);
    lemma_tree_of_path(root, live, tree, listing, files[first], path);
    lemma_only_file_at(tree, nodes, i, j, k, files[first]);
}

} // verus!
