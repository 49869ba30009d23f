//! Waypoint files: every one that a minimap tree holds, live and archived.

use vstd::prelude::*;
use crate::naming::Dimension;
use crate::order::{dedup, has_rank, law_sorting_keeps_ranks, leads_rank, sort, sorted_from};
use crate::order::{strictly_in_order, Ranked};
use crate::order::{lex_antisymmetric, lex_le, lex_total, lex_transitive};
use crate::paths::{joined, FilePath};
use crate::text::{begins_with, copy_text, same, starts_with};

verus! {

/// Whether a waypoint file is one the game is still writing to, or a snapshot.
#[derive(Debug, Clone, Copy, PartialEq, Eq, Structural)]
pub enum WaypointSourceKind {
    /// A live minimap tree: `<root>/xaero/minimap`, `<root>/config/xaero/minimap`.
    Live,
    /// A snapshot: the minimap's own `backup*` dirs or a hand-made
    /// `XaeroWaypoints*` copy of a minimap tree. These hold waypoints the
    /// player may since have deleted, so they must never be folded into the
    /// live set.
    Archived,
}

/// One waypoint file found on disk.
#[derive(Debug, Clone)]
pub struct WaypointFileRef {
    pub kind: WaypointSourceKind,
    /// Minimap world folder name, e.g. "Multiplayer_2b2t".
    pub world: String,
    /// Dimension folder as written on disk ("dim%0", the legacy "Nether"), or
    /// `None` for the pre-dimension-folder layout, where waypoint files sit
    /// directly in the world folder and carry no dimension at all.
    pub dim_folder: Option<String>,
    pub dimension: Option<Dimension>,
    /// Multiworld id from the file name; `None` for a legacy `waypoints.txt`.
    pub mw: Option<String>,
    /// Root of the minimap-shaped tree this file was found in.
    pub tree: FilePath,
    pub path: FilePath,
}

/// A waypoint file, its paths as names.
pub struct WaypointText {
    pub kind: WaypointSourceKind,
    pub world: String,
    pub dim_folder: Option<String>,
    pub dimension: Option<Dimension>,
    pub mw: Option<String>,
    pub tree: Seq<Seq<u8>>,
    pub path: Seq<Seq<u8>>,
}

impl View for WaypointFileRef {
    type V = WaypointText;

    open spec fn view(&self) -> WaypointText {
        WaypointText {
            kind: self.kind,
            world: self.world,
            dim_folder: self.dim_folder,
            dimension: self.dimension,
            mw: self.mw,
            tree: self.tree@,
            path: self.path@,
        }
    }
}

/// Waypoint files are put in order by path.
impl Ranked for WaypointFileRef {
    type K = Seq<Seq<u8>>;

    open spec fn rank(&self) -> Seq<Seq<u8>> {
        self.path@
    }

    open spec fn le(a: Seq<Seq<u8>>, b: Seq<Seq<u8>>) -> bool {
        lex_le::<Vec<u8>>(a, b)
    }

    proof fn le_total(a: Seq<Seq<u8>>, b: Seq<Seq<u8>>) {
        lex_total::<Vec<u8>>(a, b);
    }

    proof fn le_transitive(a: Seq<Seq<u8>>, b: Seq<Seq<u8>>, c: Seq<Seq<u8>>) {
        lex_transitive::<Vec<u8>>(a, b, c);
    }

    proof fn le_antisymmetric(a: Seq<Seq<u8>>, b: Seq<Seq<u8>>) {
        lex_antisymmetric::<Vec<u8>>(a, b);
    }

    fn precedes(&self, other: &Self) -> (r: bool) {
        self.path.precedes(&other.path)
    }
}

/// An entry of a minimap tree, with what stands below it.
#[derive(Debug)]
pub struct MinimapNode {
    /// The entry's name.
    pub name: String,
    /// The entry's name, encoded.
    pub raw: Vec<u8>,
    /// Whether it is a directory.
    pub is_dir: bool,
    /// Whether the name is that of one of the mod's `backup*` directories.
    pub is_backup: bool,
    /// The name read as that of a waypoint file: its multiworld id, if it has
    /// one.
    pub waypoint: Option<Option<String>>,
    /// The name read as that of a dimension folder.
    pub dimension: Option<Dimension>,
    /// What a directory holds, as far as it can be listed.
    pub children: Vec<MinimapNode>,
}

/// What a directory of a minimap tree is.
#[derive(Debug, Clone, Copy, PartialEq, Eq, Structural)]
pub enum TreeLevel {
    /// The tree itself, or a `backup*` copy of it.
    Tree,
    /// A world, or a `backup*` copy of one.
    World,
    /// A dimension folder, below which nothing is looked at.
    Folder,
}

impl TreeLevel {
    /// What a directory is that stands in one of this level, if it has to be
    /// listed at all.
    pub fn below(self, is_backup: bool) -> (r: Option<TreeLevel>)
        ensures
            r == (match (self, is_backup) {
                (TreeLevel::Tree, true) => Some(TreeLevel::Tree),
                (TreeLevel::Tree, false) | (TreeLevel::World, true) => Some(TreeLevel::World),
                (TreeLevel::World, false) => Some(TreeLevel::Folder),
                (TreeLevel::Folder, _) => None,
            }),
    {
        match self {
            TreeLevel::Tree => if is_backup {
                Some(TreeLevel::Tree)
            } else {
                Some(TreeLevel::World)
            },
            TreeLevel::World => if is_backup {
                Some(TreeLevel::World)
            } else {
                Some(TreeLevel::Folder)
            },
            TreeLevel::Folder => None,
        }
    }
}

/// The waypoint file that `node` is, in the directory `dir`.
pub open spec fn file_at(
    dir: Seq<Seq<u8>>,
    node: MinimapNode,
    kind: WaypointSourceKind,
    world: String,
    dim_folder: Option<String>,
    dimension: Option<Dimension>,
    tree: Seq<Seq<u8>>,
) -> Option<WaypointText> {
    match node.waypoint {
        Some(mw) => Some(
            WaypointText {
                kind,
                world,
                dim_folder,
                dimension,
                mw,
                tree,
                path: dir.push(node.raw@),
            },
        ),
        None => None,
    }
}

/// The waypoint files of one dimension folder.
pub open spec fn folder_files(
    dir: Seq<Seq<u8>>,
    folder: MinimapNode,
    kind: WaypointSourceKind,
    world: String,
    tree: Seq<Seq<u8>>,
) -> Seq<WaypointText> {
    folder.children@.filter_map(
        |f: MinimapNode|
            file_at(
                dir.push(folder.raw@),
                f,
                kind,
                world,
                Some(folder.name),
                folder.dimension,
                tree,
            ),
    )
}

/// The waypoint files of one world: those in its dimension folders, those of
/// its `backup*` directories, which repeat its shape, and those that sit in it
/// directly, the layout before there were dimension folders.
pub open spec fn world_files(
    dir: Seq<Seq<u8>>,
    nodes: Seq<MinimapNode>,
    kind: WaypointSourceKind,
    world: String,
    tree: Seq<Seq<u8>>,
) -> Seq<WaypointText>
    decreases nodes,
{
    if nodes.len() == 0 {
        Seq::empty()
    } else {
        let node = nodes.last();
        world_files(dir, nodes.drop_last(), kind, world, tree) + (if node.is_dir {
            if node.is_backup {
                world_files(
                    dir.push(node.raw@),
                    node.children@,
                    WaypointSourceKind::Archived,
                    world,
                    tree,
                )
            } else if node.name@ == "temp_to_add"@ {
                Seq::empty()
            } else {
                folder_files(dir, node, kind, world, tree)
            }
        } else {
            match file_at(dir, node, kind, world, None, None, tree) {
                Some(file) => seq![file],
                None => Seq::empty(),
            }
        })
    }
}

/// The waypoint files of a minimap-shaped tree:
/// `<tree>/<world>/[<dim folder>/]<file>.txt`. A `backup*` directory holds a
/// copy of the tree it sits in.
pub open spec fn tree_files(
    tree: Seq<Seq<u8>>,
    nodes: Seq<MinimapNode>,
    kind: WaypointSourceKind,
) -> Seq<WaypointText>
    decreases nodes,
{
    if nodes.len() == 0 {
        Seq::empty()
    } else {
        let node = nodes.last();
        tree_files(tree, nodes.drop_last(), kind) + (if !node.is_dir || node.name@
            == "temp_to_add"@ {
            Seq::empty()
        } else if node.is_backup {
            tree_files(tree.push(node.raw@), node.children@, WaypointSourceKind::Archived)
        } else {
            world_files(tree.push(node.raw@), node.children@, kind, node.name, tree)
        })
    }
}

/// The texts of `files`.
pub open spec fn file_texts(files: Seq<WaypointFileRef>) -> Seq<WaypointText> {
    files.map_values(|f: WaypointFileRef| f@)
}

fn copy_dimension(d: &Option<Dimension>) -> (r: Option<Dimension>)
    ensures
        r == *d,
{
    match d {
        Some(d) => Some(d.copied()),
        None => None,
    }
}

fn push_file(
    dir: &FilePath,
    node: &MinimapNode,
    kind: WaypointSourceKind,
    world: &String,
    folder: Option<&MinimapNode>,
    tree: &FilePath,
    out: &mut Vec<WaypointFileRef>,
)
    ensures
        ({
            let dim_folder = match folder {
                Some(f) => Some(f.name),
                None => None,
            };
            let dimension = match folder {
                Some(f) => f.dimension,
                None => None,
            };
            file_texts(final(out)@) == (match file_at(
                dir@,
                *node,
                kind,
                *world,
                dim_folder,
                dimension,
                tree@,
            ) {
                Some(file) => file_texts(old(out)@).push(file),
                None => file_texts(old(out)@),
            })
        }),
{
    let ghost before = out@;
    if let Some(mw) = &node.waypoint {
        let (dim_folder, dimension) = match folder {
            Some(f) => (Some(f.name.clone()), copy_dimension(&f.dimension)),
            None => (None, None),
        };
        let file = WaypointFileRef {
            kind,
            world: world.clone(),
            dim_folder,
            dimension,
            mw: copy_text(mw),
            tree: tree.copied(),
            path: dir.child(node.raw.as_slice()),
        };
        out.push(file);
        assert(file_texts(out@) =~= file_texts(before).push(file@));
    }
}

fn scan_dimension_folder(
    dir: &FilePath,
    folder: &MinimapNode,
    kind: WaypointSourceKind,
    world: &String,
    tree: &FilePath,
    out: &mut Vec<WaypointFileRef>,
)
    ensures
        file_texts(final(out)@) == file_texts(old(out)@) + folder_files(
            dir@,
            *folder,
            kind,
            *world,
            tree@,
        ),
{
    let ghost start = file_texts(out@);
    let files = &folder.children;
    let path = dir.child(folder.raw.as_slice());
    let ghost f = |f: MinimapNode|
        file_at(dir@.push(folder.raw@), f, kind, *world, Some(folder.name), folder.dimension, tree@);
    let mut i: usize = 0;
    assert(files@.take(0).filter_map(f) =~= Seq::<WaypointText>::empty());
    assert(start + files@.take(0).filter_map(f) =~= start);
    while i < files.len()
        invariant
            i <= files@.len(),
            files@ == folder.children@,
            path@ == dir@.push(folder.raw@),
            f == (|f: MinimapNode|
                file_at(
                    dir@.push(folder.raw@),
                    f,
                    kind,
                    *world,
                    Some(folder.name),
                    folder.dimension,
                    tree@,
                )),
            file_texts(out@) == start + files@.take(i as int).filter_map(f),
        decreases files@.len() - i,
    {
        proof {
            files@.lemma_filter_map_take_succ(f, i as int);
        }
        let ghost done = files@.take(i as int).filter_map(f);
        push_file(&path, &files[i], kind, world, Some(folder), tree, out);
        proof {
            if let Some(file) = f(files@[i as int]) {
                assert(start + done.push(file) =~= (start + done).push(file));
            }
        }
        i = i + 1;
    }
    assert(files@.take(files@.len() as int) =~= files@);
}

fn scan_minimap_world(
    dir: &FilePath,
    nodes: &Vec<MinimapNode>,
    world: &String,
    kind: WaypointSourceKind,
    tree: &FilePath,
    out: &mut Vec<WaypointFileRef>,
)
    ensures
        file_texts(final(out)@) == file_texts(old(out)@) + world_files(
            dir@,
            nodes@,
            kind,
            *world,
            tree@,
        ),
    decreases nodes@,
{
    let ghost start = file_texts(out@);
    let mut i: usize = 0;
    assert(start + world_files(dir@, nodes@.take(0), kind, *world, tree@) =~= start);
    while i < nodes.len()
        invariant
            i <= nodes@.len(),
            file_texts(out@) == start + world_files(
                dir@,
                nodes@.take(i as int),
                kind,
                *world,
                tree@,
            ),
        decreases nodes@.len() - i,
    {
        let node = &nodes[i];
        let ghost done = world_files(dir@, nodes@.take(i as int), kind, *world, tree@);
        let ghost before = file_texts(out@);
        assert(nodes@.take(i + 1).drop_last() =~= nodes@.take(i as int));
        assert(nodes@.take(i + 1).last() == *node);
        if node.is_dir {
            if node.is_backup {
                // <world>/backup/ holds a copy of the dimension folders.
                let inner = dir.child(node.raw.as_slice());
                proof {
                    assert(decreases_to!(nodes@ => nodes@[i as int]));
                    assert(decreases_to!(nodes@[i as int] => nodes@[i as int].children));
                    assert(decreases_to!(nodes@[i as int].children => nodes@[i as int].children@));
                }
                scan_minimap_world(
                    &inner,
                    &node.children,
                    world,
                    WaypointSourceKind::Archived,
                    tree,
                    out,
                );
            } else if !same(node.name.as_str(), "temp_to_add") {
                scan_dimension_folder(dir, node, kind, world, tree, out);
            }
        } else {
            push_file(dir, node, kind, world, None, tree, out);
        }
        proof {
            let all = world_files(dir@, nodes@.take(i + 1), kind, *world, tree@);
            assert(file_texts(out@) =~= start + all);
        }
        i = i + 1;
    }
    assert(nodes@.take(nodes@.len() as int) =~= nodes@);
}

fn scan_minimap_tree(
    tree: &FilePath,
    nodes: &Vec<MinimapNode>,
    kind: WaypointSourceKind,
    out: &mut Vec<WaypointFileRef>,
)
    ensures
        file_texts(final(out)@) == file_texts(old(out)@) + tree_files(tree@, nodes@, kind),
    decreases nodes@,
{
    let ghost start = file_texts(out@);
    let mut i: usize = 0;
    assert(start + tree_files(tree@, nodes@.take(0), kind) =~= start);
    while i < nodes.len()
        invariant
            i <= nodes@.len(),
            file_texts(out@) == start + tree_files(tree@, nodes@.take(i as int), kind),
        decreases nodes@.len() - i,
    {
        let node = &nodes[i];
        assert(nodes@.take(i + 1).drop_last() =~= nodes@.take(i as int));
        assert(nodes@.take(i + 1).last() == *node);
        if node.is_dir && !same(node.name.as_str(), "temp_to_add") {
            let inner = tree.child(node.raw.as_slice());
            if node.is_backup {
                // <tree>/backup/ holds a copy of the tree it sits in.
                proof {
                    assert(decreases_to!(nodes@ => nodes@[i as int]));
                    assert(decreases_to!(nodes@[i as int] => nodes@[i as int].children));
                    assert(decreases_to!(nodes@[i as int].children => nodes@[i as int].children@));
                }
                scan_minimap_tree(&inner, &node.children, WaypointSourceKind::Archived, out);
            } else {
                scan_minimap_world(&inner, &node.children, &node.name, kind, tree, out);
            }
        }
        proof {
            assert(file_texts(out@) =~= start + tree_files(tree@, nodes@.take(i + 1), kind));
        }
        i = i + 1;
    }
    assert(nodes@.take(nodes@.len() as int) =~= nodes@);
}

/// A directory that may hold a minimap tree.
#[derive(Debug)]
pub struct TreeListing {
    /// Whether it is a directory.
    pub is_dir: bool,
    /// What it holds, as far as it can be listed.
    pub nodes: Vec<MinimapNode>,
}

/// The directories below a root that may hold a live minimap tree, in the order
/// of [`live_tree_paths`].
#[derive(Debug)]
pub struct LiveTrees {
    pub xaero: TreeListing,
    pub config: TreeListing,
    pub bare: TreeListing,
}

/// An entry of a root directory.
#[derive(Debug)]
pub struct RootEntry {
    /// The entry's name.
    pub name: String,
    /// The entry's name, encoded.
    pub raw: Vec<u8>,
    /// Whether it is a directory, or a link to one.
    pub is_dir: bool,
    /// What it holds, where its name is that of a copied minimap tree.
    pub nodes: Vec<MinimapNode>,
}

/// `<root>/xaero/minimap`.
pub open spec fn xaero_tree(root: Seq<Seq<u8>>) -> Seq<Seq<u8>> {
    joined(joined(root, "xaero"@), "minimap"@)
}

/// `<root>/config/xaero/minimap`.
pub open spec fn config_tree(root: Seq<Seq<u8>>) -> Seq<Seq<u8>> {
    joined(joined(joined(root, "config"@), "xaero"@), "minimap"@)
}

/// `<root>/minimap`.
pub open spec fn bare_tree(root: Seq<Seq<u8>>) -> Seq<Seq<u8>> {
    joined(root, "minimap"@)
}

/// The directories below `root` that may hold a live minimap tree.
pub fn live_tree_paths(root: &FilePath) -> (r: [FilePath; 3])
    ensures
        r@[0]@ == xaero_tree(root@),
        r@[1]@ == config_tree(root@),
        r@[2]@ == bare_tree(root@),
{
    [
        root.join("xaero").join("minimap"),
        root.join("config").join("xaero").join("minimap"),
        root.join("minimap"),
    ]
}

/// The name is that of a hand-made copy of a whole minimap tree, e.g.
/// XaeroWaypoints_BACKUP240807.
pub fn is_tree_copy(name: &str) -> (r: bool)
    ensures
        r == begins_with(name@, "XaeroWaypoints"@),
{
    starts_with(name, "XaeroWaypoints")
}

/// The waypoint files of a live tree.
pub open spec fn live_files(tree: Seq<Seq<u8>>, listing: TreeListing) -> Seq<WaypointText> {
    if listing.is_dir {
        tree_files(tree, listing.nodes@, WaypointSourceKind::Live)
    } else {
        Seq::empty()
    }
}

/// The waypoint files of the copied trees among `entries`.
pub open spec fn copied_files(root: Seq<Seq<u8>>, entries: Seq<RootEntry>) -> Seq<WaypointText>
    decreases entries.len(),
{
    if entries.len() == 0 {
        Seq::empty()
    } else {
        let e = entries.last();
        copied_files(root, entries.drop_last()) + (if begins_with(e.name@, "XaeroWaypoints"@)
            && e.is_dir {
            tree_files(root.push(e.raw@), e.nodes@, WaypointSourceKind::Archived)
        } else {
            Seq::empty()
        })
    }
}

/// Every waypoint file reachable from `root`, in the order in which they are
/// found.
pub open spec fn reachable_files(
    root: Seq<Seq<u8>>,
    live: LiveTrees,
    entries: Seq<RootEntry>,
) -> Seq<WaypointText> {
    live_files(xaero_tree(root), live.xaero) + live_files(config_tree(root), live.config)
        + live_files(bare_tree(root), live.bare) + copied_files(root, entries)
}

/// `r` holds `files` by path, the first one of every path.
pub open spec fn one_per_path(files: Seq<WaypointText>, r: Seq<WaypointFileRef>) -> bool {
    exists|found: Seq<WaypointFileRef>, sorted: Seq<WaypointFileRef>|
        {
            &&& file_texts(found) == files
            &&& #[trigger] sorted_from(found, sorted)
            &&& strictly_in_order(r)
            &&& forall|k: Seq<Seq<u8>>| #[trigger] has_rank(r, k) <==> has_rank(sorted, k)
            &&& forall|i: int| 0 <= i < r.len() ==> leads_rank(sorted, #[trigger] r[i])
        }
}

fn scan_live_tree(tree: &FilePath, listing: &TreeListing, out: &mut Vec<WaypointFileRef>)
    ensures
        file_texts(final(out)@) == file_texts(old(out)@) + live_files(tree@, *listing),
{
    if listing.is_dir {
        scan_minimap_tree(tree, &listing.nodes, WaypointSourceKind::Live, out);
    } else {
        assert(file_texts(out@) + Seq::<WaypointText>::empty() =~= file_texts(out@));
    }
}

/// Every waypoint file reachable from `root`, live and archived, independent of
/// world-map discovery: most of a long-lived instance's waypoints live in
/// worlds that never had map data, or in snapshot trees.
///
/// Callers that feed a vault **must** keep the two kinds apart: archived files
/// are the state of the world on the day of the snapshot, so importing them as
/// live resurrects waypoints the player deleted.
pub fn scan_waypoint_files(root: &FilePath, live: &LiveTrees, entries: &Vec<RootEntry>) -> (r: Vec<
    WaypointFileRef,
>)
    ensures
        one_per_path(reachable_files(root@, *live, entries@), r@),
{
    let mut out: Vec<WaypointFileRef> = Vec::new();
    assert(file_texts(out@) =~= Seq::<WaypointText>::empty());
    let paths = live_tree_paths(root);
    scan_live_tree(&paths[0], &live.xaero, &mut out);
    scan_live_tree(&paths[1], &live.config, &mut out);
    scan_live_tree(&paths[2], &live.bare, &mut out);
    let ghost start = file_texts(out@);
    assert(start =~= live_files(xaero_tree(root@), live.xaero) + live_files(
        config_tree(root@),
        live.config,
    ) + live_files(bare_tree(root@), live.bare));
    let mut i: usize = 0;
    assert(start + copied_files(root@, entries@.take(0)) =~= start);
    while i < entries.len()
        invariant
            i <= entries@.len(),
            file_texts(out@) == start + copied_files(root@, entries@.take(i as int)),
        decreases entries@.len() - i,
    {
        let e = &entries[i];
        assert(entries@.take(i + 1).drop_last() =~= entries@.take(i as int));
        if is_tree_copy(e.name.as_str()) && e.is_dir {
            let tree = root.child(e.raw.as_slice());
            scan_minimap_tree(&tree, &e.nodes, WaypointSourceKind::Archived, &mut out);
        }
        assert(file_texts(out@) =~= start + copied_files(root@, entries@.take(i + 1)));
        i = i + 1;
    }
    assert(entries@.take(entries@.len() as int) =~= entries@);
    let ghost found = out@;
    let sorted = sort(out);
    let ghost in_path_order = sorted@;
    let r = dedup(sorted);
    assert(sorted_from(found, in_path_order));
    r
}

proof fn lemma_all_of_kind(
    tree: Seq<Seq<u8>>,
    files: Seq<MinimapNode>,
    f: spec_fn(MinimapNode) -> Option<WaypointText>,
    kind: WaypointSourceKind,
)
    requires
        forall|n: MinimapNode| (#[trigger] f(n)) matches Some(file) ==> file.kind == kind && file.tree
            == tree,
    ensures
        forall|i: int|
            0 <= i < files.filter_map(f).len() ==> (#[trigger] files.filter_map(f)[i]).kind == kind
                && files.filter_map(f)[i].tree == tree,
    decreases files.len(),
{
    let n = files.len() as int;
    if n == 0 {
        assert(files =~= Seq::<MinimapNode>::empty());
        assert(files.filter_map(f) =~= Seq::<WaypointText>::empty());
    } else {
        lemma_all_of_kind(tree, files.take(n - 1), f, kind);
        files.lemma_filter_map_take_succ(f, n - 1);
        assert(files.take(n) =~= files);
    }
}

/// Whatever stands below an archived directory is archived, however deep.
pub proof fn law_world_snapshots_stay_archived(
    dir: Seq<Seq<u8>>,
    nodes: Seq<MinimapNode>,
    world: String,
    tree: Seq<Seq<u8>>,
)
    ensures
        forall|i: int|
            0 <= i < world_files(dir, nodes, WaypointSourceKind::Archived, world, tree).len() ==> (
            #[trigger] world_files(
                dir,
                nodes,
                WaypointSourceKind::Archived,
                world,
                tree,
            )[i]).kind is Archived,
    decreases nodes,
{
    if nodes.len() > 0 {
        let node = nodes.last();
        law_world_snapshots_stay_archived(dir, nodes.drop_last(), world, tree);
        if node.is_dir {
            if node.is_backup {
                law_world_snapshots_stay_archived(
                    dir.push(node.raw@),
                    node.children@,
                    world,
                    tree,
                );
            } else {
                lemma_all_of_kind(
                    tree,
                    node.children@,
                    |f: MinimapNode|
                        file_at(
                            dir.push(node.raw@),
                            f,
                            WaypointSourceKind::Archived,
                            world,
                            Some(node.name),
                            node.dimension,
                            tree,
                        ),
                    WaypointSourceKind::Archived,
                );
            }
        }
    }
}

/// Every file of an archived tree is archived, however deep.
pub proof fn law_tree_snapshots_stay_archived(tree: Seq<Seq<u8>>, nodes: Seq<MinimapNode>)
    ensures
        forall|i: int|
            0 <= i < tree_files(tree, nodes, WaypointSourceKind::Archived).len() ==> (
            #[trigger] tree_files(tree, nodes, WaypointSourceKind::Archived)[i]).kind is Archived,
    decreases nodes,
{
    if nodes.len() > 0 {
        let node = nodes.last();
        law_tree_snapshots_stay_archived(tree, nodes.drop_last());
        if node.is_dir && node.name@ != "temp_to_add"@ {
            if node.is_backup {
                law_tree_snapshots_stay_archived(tree.push(node.raw@), node.children@);
            } else {
                law_world_snapshots_stay_archived(
                    tree.push(node.raw@),
                    node.children@,
                    node.name,
                    tree,
                );
            }
        }
    }
}

/// A hand-made copy of a tree never counts as live.
pub proof fn law_copied_trees_are_archived(root: Seq<Seq<u8>>, entries: Seq<RootEntry>)
    ensures
        forall|i: int|
            0 <= i < copied_files(root, entries).len() ==> (#[trigger] copied_files(
                root,
                entries,
            )[i]).kind is Archived,
    decreases entries.len(),
{
    if entries.len() > 0 {
        let e = entries.last();
        law_copied_trees_are_archived(root, entries.drop_last());
        law_tree_snapshots_stay_archived(root.push(e.raw@), e.nodes@);
    }
}

/// What is yet to be added is passed over: a `temp_to_add` directory holds
/// nothing, neither in a tree nor in a world.
pub proof fn law_pending_directories_are_passed_over(
    dir: Seq<Seq<u8>>,
    nodes: Seq<MinimapNode>,
    pending: MinimapNode,
    kind: WaypointSourceKind,
    world: String,
    tree: Seq<Seq<u8>>,
)
    requires
        pending.is_dir,
        !pending.is_backup,
        pending.name@ == "temp_to_add"@,
    ensures
        tree_files(dir, nodes.push(pending), kind) == tree_files(dir, nodes, kind),
        world_files(dir, nodes.push(pending), kind, world, tree) == world_files(
            dir,
            nodes,
            kind,
            world,
            tree,
        ),
{
    assert(nodes.push(pending).drop_last() =~= nodes);
    assert(tree_files(dir, nodes, kind) + Seq::<WaypointText>::empty() =~= tree_files(
        dir,
        nodes,
        kind,
    ));
    let files = world_files(dir, nodes, kind, world, tree);
    assert(files + Seq::<WaypointText>::empty() =~= files);
}

/// A file is listed once: no two entries share a path.
pub proof fn law_no_file_is_listed_twice(
    files: Seq<WaypointText>,
    r: Seq<WaypointFileRef>,
    i: int,
    j: int,
)
    requires
        one_per_path(files, r),
        0 <= i < j < r.len(),
    ensures
        r[i].path@ != r[j].path@,
{
}

/// Every file that was found is listed by its path, and nothing else is.
pub proof fn law_every_file_is_listed(
    files: Seq<WaypointText>,
    r: Seq<WaypointFileRef>,
    path: Seq<Seq<u8>>,
)
    requires
        one_per_path(files, r),
    ensures
        (exists|i: int| 0 <= i < r.len() && (#[trigger] r[i]).path@ == path) <==> (exists|i: int|
            0 <= i < files.len() && (#[trigger] files[i]).path == path),
{
    let (found, sorted) = choose|found: Seq<WaypointFileRef>, sorted: Seq<WaypointFileRef>|
        {
            &&& file_texts(found) == files
            &&& #[trigger] sorted_from(found, sorted)
            &&& strictly_in_order(r)
            &&& forall|k: Seq<Seq<u8>>| #[trigger] has_rank(r, k) <==> has_rank(sorted, k)
            &&& forall|i: int| 0 <= i < r.len() ==> leads_rank(sorted, #[trigger] r[i])
        };
    law_sorting_keeps_ranks(found, sorted, path);
    assert(has_rank(r, path) <==> has_rank(sorted, path));
    if has_rank(found, path) {
        let i = choose|i: int| 0 <= i < found.len() && (#[trigger] found[i]).rank() == path;
        assert(files[i].path == path);
    }
    if exists|i: int| 0 <= i < files.len() && (#[trigger] files[i]).path == path {
        let i = choose|i: int| 0 <= i < files.len() && (#[trigger] files[i]).path == path;
        assert(found[i].rank() == path);
    }
    if has_rank(r, path) {
        let i = choose|i: int| 0 <= i < r.len() && (#[trigger] r[i]).rank() == path;
        assert(r[i].path@ == path);
    }
    if exists|i: int| 0 <= i < r.len() && (#[trigger] r[i]).path@ == path {
        let i = choose|i: int| 0 <= i < r.len() && (#[trigger] r[i]).path@ == path;
        assert(r[i].rank() == path);
    }
}

} // verus!
