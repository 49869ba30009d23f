//! Worlds: which folders of a save root are worlds, and what each one holds.

use vstd::prelude::*;
use crate::listing::EntryKind;
use crate::naming::{Dimension, DimensionConfig};
use crate::order::{lex_antisymmetric, lex_le, lex_total, lex_transitive};
use crate::order::{law_sorting_keeps_apart, law_sorting_keeps_elements, law_sorting_permutes};
use crate::order::{sort, sorted_from, strictly_in_order, Ranked};
use crate::paths::{joined, path_texts, FilePath};
use crate::text::{begins_with, copy_text, ends_with, finishes_with, i32_text, parse_i32, same};
use crate::text::starts_with;

verus! {

/// One multiworld of a dimension.
#[derive(Debug, Clone)]
pub struct MwEntry {
    /// Folder name: "mw$default", "mw$-542221765".
    pub id: String,
    /// Display name from dimension_config MWName, else the id.
    pub display: String,
    /// Cave layer indices present under caves/<n>/.
    pub cave_layers: Vec<i32>,
}

/// One dimension of a world.
#[derive(Debug, Clone)]
pub struct DimEntry {
    /// Folder name: "null", "DIM-1", "DIM1", "DIM0", "minecraft$..".
    pub folder: String,
    pub dimension: Option<Dimension>,
    pub config: DimensionConfig,
    pub multiworlds: Vec<MwEntry>,
}

/// One world of a save root.
#[derive(Debug, Clone)]
pub struct World {
    /// Folder name, e.g. "Multiplayer_2b2t".
    pub id: String,
    pub world_map_path: Option<FilePath>,
    pub minimap_path: Option<FilePath>,
    pub dims: Vec<DimEntry>,
    /// XaeroPlus SQLite files present at the world root (filenames).
    pub databases: Vec<String>,
    /// Minimap waypoint files: (dim folder like "dim%0", file path).
    pub waypoint_files: Vec<(String, FilePath)>,
}

impl DimEntry {
    /// The vanilla dimension that the dimension behaves like.
    pub open spec fn behaves_like(&self) -> Option<Dimension> {
        match self.config.dimension_type_id {
            Some(t) if t@ == "minecraft:overworld"@ => Some(Dimension::Overworld),
            Some(t) if t@ == "minecraft:the_nether"@ => Some(Dimension::Nether),
            Some(t) if t@ == "minecraft:the_end"@ => Some(Dimension::End),
            _ => self.dimension,
        }
    }

    /// The vanilla dimension this behaves like (drives nether 1:8 pairing and
    /// default light mode). Falls back to the folder-derived dimension.
    pub fn dimension_type(&self) -> (r: Option<Dimension>)
        ensures
            r == self.behaves_like(),
    {
        if let Some(t) = &self.config.dimension_type_id {
            if same(t.as_str(), "minecraft:overworld") {
                return Some(Dimension::Overworld);
            }
            if same(t.as_str(), "minecraft:the_nether") {
                return Some(Dimension::Nether);
            }
            if same(t.as_str(), "minecraft:the_end") {
                return Some(Dimension::End);
            }
        }
        match &self.dimension {
            Some(d) => Some(d.copied()),
            None => None,
        }
    }

    /// The dimension's own resource id ("minecraft:worlds/2b2t/2b2t_1"), as
    /// opposed to [`DimEntry::dimension_type`], which is the vanilla dimension
    /// it merely behaves like. Every custom dimension of a server reports the
    /// same `dimensionTypeId`, so this is the only field that tells them apart.
    /// `resource_key` tells the id of a dimension.
    pub fn dimension_id<F: Fn(&Dimension) -> String>(&self, resource_key: F) -> (r: Option<String>)
        requires
            self.dimension matches Some(d) ==> call_requires(resource_key, (&d,)),
        ensures
            r is Some <==> self.dimension is Some,
            r matches Some(key) ==> call_ensures(resource_key, (&self.dimension->0,), key),
    {
        match &self.dimension {
            Some(d) => Some(resource_key(d)),
            None => None,
        }
    }

    /// Short label for a dimension picker: the vanilla name, or the last
    /// segment of a custom dimension's resource id. `display_name` tells the
    /// name of a dimension.
    pub fn label<F: Fn(&Dimension) -> String>(&self, display_name: F) -> (r: String)
        requires
            match (self.dimension, self.behaves_like()) {
                (Some(d), _) => call_requires(display_name, (&d,)),
                (None, Some(t)) => call_requires(display_name, (&t,)),
                (None, None) => true,
            },
        ensures
            match (self.dimension, self.behaves_like()) {
                (Some(d), _) => call_ensures(display_name, (&d,), r),
                (None, Some(t)) => call_ensures(display_name, (&t,), r),
                (None, None) => r == self.folder,
            },
    {
        match (&self.dimension, self.dimension_type()) {
            (Some(d), _) => display_name(d),
            (None, Some(t)) => display_name(&t),
            (None, None) => self.folder.clone(),
        }
    }
}

/// Multiworlds are put in order by id.
impl Ranked for MwEntry {
    type K = Seq<char>;

    open spec fn rank(&self) -> Seq<char> {
        self.id@
    }

    open spec fn le(a: Seq<char>, b: Seq<char>) -> bool {
        lex_le::<char>(a, b)
    }

    proof fn le_total(a: Seq<char>, b: Seq<char>) {
        lex_total::<char>(a, b);
    }

    proof fn le_transitive(a: Seq<char>, b: Seq<char>, c: Seq<char>) {
        lex_transitive::<char>(a, b, c);
    }

    proof fn le_antisymmetric(a: Seq<char>, b: Seq<char>) {
        lex_antisymmetric::<char>(a, b);
    }

    fn precedes(&self, other: &Self) -> (r: bool) {
        self.id.precedes(&other.id)
    }
}

/// Worlds are put in order by id.
impl Ranked for World {
    type K = Seq<char>;

    open spec fn rank(&self) -> Seq<char> {
        self.id@
    }

    open spec fn le(a: Seq<char>, b: Seq<char>) -> bool {
        lex_le::<char>(a, b)
    }

    proof fn le_total(a: Seq<char>, b: Seq<char>) {
        lex_total::<char>(a, b);
    }

    proof fn le_transitive(a: Seq<char>, b: Seq<char>, c: Seq<char>) {
        lex_transitive::<char>(a, b, c);
    }

    proof fn le_antisymmetric(a: Seq<char>, b: Seq<char>) {
        lex_antisymmetric::<char>(a, b);
    }

    fn precedes(&self, other: &Self) -> (r: bool) {
        self.id.precedes(&other.id)
    }
}

/// Where a dimension stands among the others: the vanilla ones first, in their
/// usual order, then the custom ones by folder name.
pub open spec fn dim_key(folder: Seq<char>) -> (u8, Seq<char>) {
    if folder == "null"@ || folder == "DIM0"@ {
        (0, Seq::empty())
    } else if folder == "DIM-1"@ {
        (1, Seq::empty())
    } else if folder == "DIM1"@ {
        (2, Seq::empty())
    } else {
        (3, folder)
    }
}

/// Where a dimension stands among the others.
pub fn dim_sort_key(folder: &str) -> (r: (u8, String))
    ensures
        r.0 == dim_key(folder@).0,
        r.1@ == dim_key(folder@).1,
{
    if same(folder, "null") || same(folder, "DIM0") {
        (0, String::new())
    } else if same(folder, "DIM-1") {
        (1, String::new())
    } else if same(folder, "DIM1") {
        (2, String::new())
    } else {
        (3, folder.to_owned())
    }
}

/// Dimensions are put in order by [`dim_sort_key`].
impl Ranked for DimEntry {
    type K = (u8, Seq<char>);

    open spec fn rank(&self) -> (u8, Seq<char>) {
        dim_key(self.folder@)
    }

    open spec fn le(a: (u8, Seq<char>), b: (u8, Seq<char>)) -> bool {
        <(u8, String) as Ranked>::le(a, b)
    }

    proof fn le_total(a: (u8, Seq<char>), b: (u8, Seq<char>)) {
        <(u8, String) as Ranked>::le_total(a, b);
    }

    proof fn le_transitive(a: (u8, Seq<char>), b: (u8, Seq<char>), c: (u8, Seq<char>)) {
        <(u8, String) as Ranked>::le_transitive(a, b, c);
    }

    proof fn le_antisymmetric(a: (u8, Seq<char>), b: (u8, Seq<char>)) {
        <(u8, String) as Ranked>::le_antisymmetric(a, b);
    }

    fn precedes(&self, other: &Self) -> (r: bool) {
        let a = dim_sort_key(self.folder.as_str());
        let b = dim_sort_key(other.folder.as_str());
        assert(a.rank() == self.rank());
        assert(b.rank() == other.rank());
        a.precedes(&b)
    }
}

// ----------------------------------------------------------- multiworlds --

/// An entry of a `caves` directory.
#[derive(Debug)]
pub struct CaveItem {
    pub name: String,
    pub kind: EntryKind,
}

/// An entry of a dimension folder.
#[derive(Debug)]
pub struct MwItem {
    pub name: String,
    pub kind: EntryKind,
    /// Whether the name is that of a multiworld folder.
    pub is_multiworld: bool,
    /// The name under which the dimension's config shows the multiworld.
    pub display: String,
    /// What its `caves` directory holds, as far as there is one.
    pub caves: Vec<CaveItem>,
}

impl MwItem {
    /// The entry is a multiworld.
    pub open spec fn counts(&self) -> bool {
        self.kind is Directory && self.is_multiworld
    }
}

/// The cave layer that an entry of a `caves` directory is.
pub open spec fn cave_layer_of(c: CaveItem) -> Option<i32> {
    if c.kind is Directory {
        i32_text(c.name@)
    } else {
        None
    }
}

/// The cave layers of a `caves` directory.
pub open spec fn cave_layers_of(caves: Seq<CaveItem>) -> Seq<i32> {
    caves.filter_map(|c: CaveItem| cave_layer_of(c))
}

/// `e` is what the item `m` comes to.
pub open spec fn describes_multiworld(m: MwItem, e: MwEntry) -> bool {
    &&& e.id == m.name
    &&& e.display == m.display
    &&& sorted_from(cave_layers_of(m.caves@), e.cave_layers@)
}

/// The multiworlds among `items`.
pub open spec fn multiworld_items(items: Seq<MwItem>) -> Seq<MwItem> {
    items.filter(|m: MwItem| m.counts())
}

/// `found` are the multiworlds of a dimension folder, in the order of `items`.
pub open spec fn describe_multiworlds(items: Seq<MwItem>, found: Seq<MwEntry>) -> bool {
    &&& found.len() == multiworld_items(items).len()
    &&& forall|i: int|
        0 <= i < found.len() ==> describes_multiworld(
            multiworld_items(items)[i],
            #[trigger] found[i],
        )
}

/// `r` are the multiworlds of a dimension folder, sorted by id.
pub open spec fn lists_multiworlds(items: Seq<MwItem>, r: Seq<MwEntry>) -> bool {
    exists|found: Seq<MwEntry>|
        describe_multiworlds(items, found) && #[trigger] sorted_from(found, r)
}

fn scan_caves(caves: &Vec<CaveItem>) -> (r: Vec<i32>)
    ensures
        sorted_from(cave_layers_of(caves@), r@),
{
    let mut out: Vec<i32> = Vec::new();
    let ghost f = |c: CaveItem| cave_layer_of(c);
    let mut i: usize = 0;
    assert(caves@.take(0).filter_map(f) =~= Seq::<i32>::empty());
    while i < caves.len()
        invariant
            i <= caves@.len(),
            f == (|c: CaveItem| cave_layer_of(c)),
            out@ == caves@.take(i as int).filter_map(f),
        decreases caves@.len() - i,
    {
        proof {
            caves@.lemma_filter_map_take_succ(f, i as int);
        }
        if matches!(caves[i].kind, EntryKind::Directory) {
            if let Some(n) = parse_i32(caves[i].name.as_str()) {
                out.push(n);
            }
        }
        i = i + 1;
    }
    assert(caves@.take(caves@.len() as int) =~= caves@);
    sort(out)
}

/// The multiworlds of a dimension folder, sorted by id.
pub fn scan_multiworlds(items: &Vec<MwItem>) -> (r: Vec<MwEntry>)
    ensures
        lists_multiworlds(items@, r@),
{
    let mut out: Vec<MwEntry> = Vec::new();
    let ghost counts = |m: MwItem| m.counts();
    let mut i: usize = 0;
    proof {
        reveal(Seq::filter);
    }
    assert(items@.take(0) =~= Seq::<MwItem>::empty());
    while i < items.len()
        invariant
            i <= items@.len(),
            counts == (|m: MwItem| m.counts()),
            describe_multiworlds(items@.take(i as int), out@),
        decreases items@.len() - i,
    {
        let m = &items[i];
        let ghost done = items@.take(i as int);
        proof {
            assert(items@.take(i + 1) =~= done.push(*m));
            done.lemma_filter_push(*m, counts);
        }
        if matches!(m.kind, EntryKind::Directory) && m.is_multiworld {
            out.push(
                MwEntry {
                    id: m.name.clone(),
                    display: m.display.clone(),
                    cave_layers: scan_caves(&m.caves),
                },
            );
        }
        i = i + 1;
    }
    assert(items@.take(items@.len() as int) =~= items@);
    let ghost found = out@;
    let sorted = sort(out);
    assert(sorted_from(found, sorted@));
    sorted
}

// --------------------------------------------------------- waypoint files --

/// An entry of a dimension folder of the minimap.
#[derive(Debug)]
pub struct WaypointName {
    /// The entry's name, encoded.
    pub raw: Vec<u8>,
    /// Whether the name is that of a waypoint file.
    pub is_waypoint: bool,
}

/// An entry of a minimap world folder.
#[derive(Debug)]
pub struct WaypointFolder {
    pub name: String,
    /// The entry's name, encoded.
    pub raw: Vec<u8>,
    pub kind: EntryKind,
    /// Whether the name is that of one of the mod's `backup*` directories.
    pub is_backup: bool,
    /// What a directory holds, as far as it can be listed.
    pub files: Vec<WaypointName>,
}

/// The name is one that the mod passes over when it loads the minimap: a
/// snapshot, which holds waypoints the player may since have deleted, or what
/// is yet to be added.
pub open spec fn passed_over(name: Seq<char>, is_backup: bool) -> bool {
    is_backup || name == "temp_to_add"@
}

/// The waypoint files of one dimension folder, as (folder, path).
pub open spec fn folder_waypoints(world: Seq<Seq<u8>>, folder: WaypointFolder) -> Seq<
    (Seq<char>, Seq<Seq<u8>>),
> {
    if passed_over(folder.name@, folder.is_backup) || folder.kind !is Directory {
        Seq::empty()
    } else {
        folder.files@.filter_map(
            |f: WaypointName|
                if f.is_waypoint {
                    Some((folder.name@, world.push(folder.raw@).push(f.raw@)))
                } else {
                    None
                },
        )
    }
}

/// The waypoint files of one minimap world folder, as (dimension folder, path).
pub open spec fn world_waypoints(world: Seq<Seq<u8>>, folders: Seq<WaypointFolder>) -> Seq<
    (Seq<char>, Seq<Seq<u8>>),
>
    decreases folders.len(),
{
    if folders.len() == 0 {
        Seq::empty()
    } else {
        world_waypoints(world, folders.drop_last()) + folder_waypoints(world, folders.last())
    }
}

/// The texts of (dimension folder, path) pairs.
pub open spec fn waypoint_texts(found: Seq<(String, FilePath)>) -> Seq<
    (Seq<char>, Seq<Seq<u8>>),
> {
    found.map_values(|w: (String, FilePath)| (w.0@, w.1@))
}

/// `r` are the waypoint files of one minimap world folder, sorted.
pub open spec fn lists_waypoints(
    world: Seq<Seq<u8>>,
    folders: Seq<WaypointFolder>,
    r: Seq<(String, FilePath)>,
) -> bool {
    exists|found: Seq<(String, FilePath)>|
        waypoint_texts(found) == world_waypoints(world, folders) && #[trigger] sorted_from(found, r)
}

proof fn lemma_listed_waypoints_are_as_many(
    world: Seq<Seq<u8>>,
    folders: Seq<WaypointFolder>,
    r: Seq<(String, FilePath)>,
)
    requires
        lists_waypoints(world, folders, r),
    ensures
        r.len() == world_waypoints(world, folders).len(),
{
    let found = choose|found: Seq<(String, FilePath)>|
        waypoint_texts(found) == world_waypoints(world, folders) && #[trigger] sorted_from(
            found,
            r,
        );
    assert(found.len() == waypoint_texts(found).len());
    law_sorting_permutes(found, r);
}

fn collect_folder(
    world: &FilePath,
    folder: &WaypointFolder,
    out: &mut Vec<(String, FilePath)>,
)
    ensures
        waypoint_texts(final(out)@) == waypoint_texts(old(out)@) + folder_waypoints(
            world@,
            *folder,
        ),
{
    let ghost start = waypoint_texts(out@);
    assert(start + Seq::<(Seq<char>, Seq<Seq<u8>>)>::empty() =~= start);
    if folder.is_backup || same(folder.name.as_str(), "temp_to_add") || !matches!(
        folder.kind,
        EntryKind::Directory
    ) {
        return;
    }
    let dir = world.child(folder.raw.as_slice());
    let files = &folder.files;
    let ghost f = |f: WaypointName|
        if f.is_waypoint {
            Some((folder.name@, world@.push(folder.raw@).push(f.raw@)))
        } else {
            None
        };
    let mut i: usize = 0;
    assert(files@.take(0).filter_map(f) =~= Seq::<(Seq<char>, Seq<Seq<u8>>)>::empty());
    while i < files.len()
        invariant
            i <= files@.len(),
            files@ == folder.files@,
            dir@ == world@.push(folder.raw@),
            f == (|f: WaypointName|
                if f.is_waypoint {
                    Some((folder.name@, world@.push(folder.raw@).push(f.raw@)))
                } else {
                    None
                }),
            waypoint_texts(out@) == start + files@.take(i as int).filter_map(f),
        decreases files@.len() - i,
    {
        let ghost done = files@.take(i as int).filter_map(f);
        let ghost before = out@;
        proof {
            files@.lemma_filter_map_take_succ(f, i as int);
        }
        if files[i].is_waypoint {
            let pair = (folder.name.clone(), dir.child(files[i].raw.as_slice()));
            out.push(pair);
            proof {
                let text = (pair.0@, pair.1@);
                assert(waypoint_texts(out@) =~= waypoint_texts(before).push(text));
                assert(start + done.push(text) =~= (start + done).push(text));
            }
        }
        i = i + 1;
    }
    assert(files@.take(files@.len() as int) =~= files@);
}

/// Every waypoint file under one minimap world folder, as (dimension folder,
/// path): any subdirectory is a dimension folder, any `<mwId>_<name>.txt` (or
/// the legacy `waypoints.txt`) inside it is a waypoint file. The
/// pre-dimension-folder layout, the same files sitting directly in the world
/// folder, is reachable through
/// [`scan_waypoint_files`](crate::waypoints::scan_waypoint_files), which does
/// not have to name a dimension for them.
pub fn collect_waypoint_files(world: &FilePath, folders: &Vec<WaypointFolder>) -> (r: Vec<
    (String, FilePath),
>)
    ensures
        lists_waypoints(world@, folders@, r@),
        r@.len() == 0 <==> world_waypoints(world@, folders@).len() == 0,
{
    let mut out: Vec<(String, FilePath)> = Vec::new();
    let mut i: usize = 0;
    assert(waypoint_texts(out@) =~= world_waypoints(world@, folders@.take(0)));
    while i < folders.len()
        invariant
            i <= folders@.len(),
            waypoint_texts(out@) == world_waypoints(world@, folders@.take(i as int)),
        decreases folders@.len() - i,
    {
        collect_folder(world, &folders[i], &mut out);
        assert(folders@.take(i + 1).drop_last() =~= folders@.take(i as int));
        i = i + 1;
    }
    assert(folders@.take(folders@.len() as int) =~= folders@);
    let ghost found = out@;
    let sorted = sort(out);
    proof {
        assert(sorted_from(found, sorted@));
        lemma_listed_waypoints_are_as_many(world@, folders@, sorted@);
    }
    sorted
}

// ----------------------------------------------------------------- worlds --

/// An entry of a folder that may be a world.
#[derive(Debug)]
pub struct CandidateEntry {
    pub name: String,
    pub kind: EntryKind,
    /// Whether the name is that of a dimension folder of the world map.
    pub is_dimension: bool,
}

impl CandidateEntry {
    /// The entry shows that the folder is a world: it is a dimension folder, or
    /// a XaeroPlus database. A world can hold nothing but highlight databases:
    /// that is how a shared server's world starts when a client sends chunk
    /// finds before it has uploaded a region.
    pub open spec fn shows_world(&self) -> bool {
        match self.kind {
            EntryKind::Directory => self.is_dimension,
            EntryKind::File => begins_with(self.name@, "XaeroPlus"@) && finishes_with(
                self.name@,
                ".db"@,
            ),
            _ => false,
        }
    }
}

/// Whether a folder is a world's: it has a `server_config.txt`, or an entry
/// that shows it. `entries` are what it holds, as far as it can be listed.
pub fn looks_like_world_dir(has_server_config: bool, entries: &Vec<CandidateEntry>) -> (r: bool)
    ensures
        r == (has_server_config || exists|i: int|
            0 <= i < entries@.len() && (#[trigger] entries@[i]).shows_world()),
{
    if has_server_config {
        return true;
    }
    let mut i: usize = 0;
    while i < entries.len()
        invariant
            i <= entries@.len(),
            forall|k: int| 0 <= k < i ==> !(#[trigger] entries@[k]).shows_world(),
        decreases entries@.len() - i,
    {
        let e = &entries[i];
        let shows = match e.kind {
            EntryKind::Directory => e.is_dimension,
            EntryKind::File => starts_with(e.name.as_str(), "XaeroPlus") && ends_with(
                e.name.as_str(),
                ".db",
            ),
            _ => false,
        };
        if shows {
            assert(entries@[i as int].shows_world());
            return true;
        }
        i = i + 1;
    }
    false
}

/// An entry of a world folder.
#[derive(Debug)]
pub struct WorldItem {
    pub name: String,
    pub kind: EntryKind,
    /// The name read as that of a dimension folder.
    pub dimension: Option<Dimension>,
    /// Whether a directory holds a `dimension_config.txt`.
    pub has_config: bool,
    /// What that file says of the dimension's type.
    pub type_id: Option<String>,
    /// What the minimap's config says of the dimension's type. It is the only
    /// place the game records the dimension type of a custom dimension whose
    /// world-map folder never got a `dimension_config.txt`.
    pub minimap_type_id: Option<String>,
    /// What a directory holds, as far as it can be listed.
    pub multiworlds: Vec<MwItem>,
}

impl WorldItem {
    /// The entry is a dimension of the world.
    pub open spec fn counts(&self) -> bool {
        &&& self.kind is Directory
        &&& self.dimension is Some || (self.has_config && multiworld_items(
            self.multiworlds@,
        ).len() > 0)
    }

    /// The type of the dimension.
    pub open spec fn effective_type(&self) -> Option<String> {
        if self.type_id is None && self.dimension is Some {
            self.minimap_type_id
        } else {
            self.type_id
        }
    }

    /// The entry is a database.
    pub open spec fn is_database(&self) -> bool {
        self.kind is File && finishes_with(self.name@, ".db"@)
    }
}

/// `d` is what the item `item` comes to.
pub open spec fn describes_dimension(item: WorldItem, d: DimEntry) -> bool {
    &&& d.folder == item.name
    &&& d.dimension == item.dimension
    &&& d.config.dimension_type_id == item.effective_type()
    &&& lists_multiworlds(item.multiworlds@, d.multiworlds@)
}

/// The dimensions among `items`.
pub open spec fn dimension_items(items: Seq<WorldItem>) -> Seq<WorldItem> {
    items.filter(|item: WorldItem| item.counts())
}

/// `found` are the dimensions of a world, in the order of `items`.
pub open spec fn describe_dimensions(items: Seq<WorldItem>, found: Seq<DimEntry>) -> bool {
    &&& found.len() == dimension_items(items).len()
    &&& forall|i: int|
        0 <= i < found.len() ==> describes_dimension(
            dimension_items(items)[i],
            #[trigger] found[i],
        )
}

/// `r` are the dimensions of a world, sorted.
pub open spec fn lists_dimensions(items: Seq<WorldItem>, r: Seq<DimEntry>) -> bool {
    exists|found: Seq<DimEntry>|
        describe_dimensions(items, found) && #[trigger] sorted_from(found, r)
}

/// The databases of a world.
pub open spec fn database_names(items: Seq<WorldItem>) -> Seq<String> {
    items.filter_map(
        |item: WorldItem|
            if item.is_database() {
                Some(item.name)
            } else {
                None
            },
    )
}

/// The minimap folder of a world.
#[derive(Debug)]
pub struct MinimapWorld {
    pub path: FilePath,
    /// What it holds, as far as it can be listed.
    pub folders: Vec<WaypointFolder>,
}

/// Where the minimap folder of the world `id` is to be looked for: below the
/// minimap root, or else beside the world map. `beside` is the directory that
/// holds the world map.
pub fn minimap_candidate(
    mm_root: Option<&FilePath>,
    beside: Option<&FilePath>,
    id: &str,
) -> (r: Option<FilePath>)
    ensures
        match (mm_root, beside) {
            (Some(mm), _) => r matches Some(p) && p@ == joined(mm@, id@),
            (None, Some(x)) => r matches Some(p) && p@ == joined(joined(x@, "minimap"@), id@),
            (None, None) => r is None,
        },
{
    match (mm_root, beside) {
        (Some(mm), _) => Some(mm.join(id)),
        (None, Some(x)) => Some(x.join("minimap").join(id)),
        (None, None) => None,
    }
}

fn scan_dimension(item: &WorldItem) -> (r: Option<DimEntry>)
    ensures
        r is Some <==> item.counts(),
        r matches Some(d) ==> describes_dimension(*item, d),
{
    if !matches!(item.kind, EntryKind::Directory) {
        return None;
    }
    if item.dimension.is_none() && !item.has_config {
        return None;
    }
    let dimension_type_id = if item.type_id.is_none() && item.dimension.is_some() {
        copy_text(&item.minimap_type_id)
    } else {
        copy_text(&item.type_id)
    };
    let multiworlds = scan_multiworlds(&item.multiworlds);
    proof {
        let found = choose|found: Seq<MwEntry>|
            describe_multiworlds(item.multiworlds@, found) && #[trigger] sorted_from(
                found,
                multiworlds@,
            );
        law_sorting_permutes(found, multiworlds@);
    }
    if multiworlds.len() == 0 && item.dimension.is_none() {
        return None;
    }
    let dimension = match &item.dimension {
        Some(d) => Some(d.copied()),
        None => None,
    };
    Some(
        DimEntry {
            folder: item.name.clone(),
            dimension,
            config: DimensionConfig { dimension_type_id },
            multiworlds,
        },
    )
}

fn scan_dimensions(items: &Vec<WorldItem>) -> (r: Vec<DimEntry>)
    ensures
        lists_dimensions(items@, r@),
        r@.len() == 0 <==> dimension_items(items@).len() == 0,
{
    let mut out: Vec<DimEntry> = Vec::new();
    let ghost counts = |item: WorldItem| item.counts();
    let mut i: usize = 0;
    proof {
        reveal(Seq::filter);
    }
    assert(items@.take(0) =~= Seq::<WorldItem>::empty());
    while i < items.len()
        invariant
            i <= items@.len(),
            counts == (|item: WorldItem| item.counts()),
            describe_dimensions(items@.take(i as int), out@),
        decreases items@.len() - i,
    {
        let item = &items[i];
        let ghost done = items@.take(i as int);
        proof {
            assert(items@.take(i + 1) =~= done.push(*item));
            done.lemma_filter_push(*item, counts);
        }
        if let Some(d) = scan_dimension(item) {
            out.push(d);
        }
        i = i + 1;
    }
    assert(items@.take(items@.len() as int) =~= items@);
    let ghost found = out@;
    let sorted = sort(out);
    proof {
        assert(sorted_from(found, sorted@));
        law_sorting_permutes(found, sorted@);
    }
    sorted
}

fn scan_databases(items: &Vec<WorldItem>) -> (r: Vec<String>)
    ensures
        sorted_from(database_names(items@), r@),
        r@.len() == 0 <==> database_names(items@).len() == 0,
{
    let mut out: Vec<String> = Vec::new();
    let ghost f = |item: WorldItem|
        if item.is_database() {
            Some(item.name)
        } else {
            None
        };
    let mut i: usize = 0;
    assert(items@.take(0).filter_map(f) =~= Seq::<String>::empty());
    while i < items.len()
        invariant
            i <= items@.len(),
            f == (|item: WorldItem|
                if item.is_database() {
                    Some(item.name)
                } else {
                    None
                }),
            out@ == items@.take(i as int).filter_map(f),
        decreases items@.len() - i,
    {
        proof {
            items@.lemma_filter_map_take_succ(f, i as int);
        }
        let item = &items[i];
        if matches!(item.kind, EntryKind::File) && ends_with(item.name.as_str(), ".db") {
            out.push(item.name.clone());
        }
        i = i + 1;
    }
    assert(items@.take(items@.len() as int) =~= items@);
    let ghost found = out@;
    let sorted = sort(out);
    proof {
        law_sorting_permutes(found, sorted@);
    }
    sorted
}

/// There is map data to show: a dimension or a database.
pub open spec fn is_mapped(w: World) -> bool {
    w.dims@.len() > 0 || w.databases@.len() > 0
}

/// No two of `worlds` share an id.
pub open spec fn have_own_ids(worlds: Seq<World>) -> bool {
    forall|i: int, j: int|
        0 <= i < j < worlds.len() ==> (#[trigger] worlds[i]).id@ != (#[trigger] worlds[j]).id@
}

/// Every one of `worlds` has map data.
pub open spec fn are_mapped(worlds: Seq<World>) -> bool {
    forall|i: int| 0 <= i < worlds.len() ==> is_mapped(#[trigger] worlds[i])
}

/// There is something in the world folder to show.
pub open spec fn holds_map_data(items: Seq<WorldItem>) -> bool {
    dimension_items(items).len() > 0 || database_names(items).len() > 0
}

/// `w` is the world that a folder at `world_dir` holds.
pub open spec fn describes_world(
    id: String,
    world_dir: FilePath,
    minimap: Option<MinimapWorld>,
    items: Seq<WorldItem>,
    w: World,
) -> bool {
    &&& w.id == id
    &&& w.world_map_path == Some(world_dir)
    &&& w.minimap_path == (match minimap {
        Some(m) => Some(m.path),
        None => None,
    })
    &&& lists_dimensions(items, w.dims@)
    &&& sorted_from(database_names(items), w.databases@)
    &&& match minimap {
        Some(m) => lists_waypoints(m.path@, m.folders@, w.waypoint_files@),
        None => w.waypoint_files@.len() == 0,
    }
}

/// Scans one world folder. `id` is the folder's name, if it has one; `items`
/// are what it holds, if it can be listed; `minimap` is its minimap folder, if
/// it is a directory. A folder with neither a dimension nor a database is no
/// world.
pub fn scan_world(
    id: Option<String>,
    world_dir: FilePath,
    minimap: Option<MinimapWorld>,
    items: Option<&Vec<WorldItem>>,
) -> (r: Option<World>)
    ensures
        r is Some <==> id is Some && items is Some && holds_map_data(items->0@),
        r matches Some(w) ==> describes_world(id->0, world_dir, minimap, items->0@, w)
            && is_mapped(w),
{
    let id = match id {
        Some(id) => id,
        None => return None,
    };
    let items = match items {
        Some(items) => items,
        None => return None,
    };
    let dims = scan_dimensions(items);
    let databases = scan_databases(items);
    if dims.len() == 0 && databases.len() == 0 {
        return None;
    }
    let (minimap_path, waypoint_files) = match minimap {
        Some(m) => {
            let files = collect_waypoint_files(&m.path, &m.folders);
            (Some(m.path), files)
        },
        None => (None, Vec::new()),
    };
    Some(
        World {
            id,
            world_map_path: Some(world_dir),
            minimap_path,
            dims,
            databases,
            waypoint_files,
        },
    )
}

/// A subdirectory of a world-map root, scanned.
#[derive(Debug)]
pub struct ScannedDir {
    pub kind: EntryKind,
    /// Whether it looks like a world.
    pub looks_like_world: bool,
    /// The world that it holds, where it looks like one.
    pub world: Option<World>,
}

impl ScannedDir {
    /// The world that the directory counts as.
    pub open spec fn as_world(&self) -> Option<World> {
        if self.kind is Directory && self.looks_like_world {
            self.world
        } else {
            None
        }
    }
}

/// The worlds of a world-map root, sorted by id.
pub fn scan_world_map_root(dirs: Vec<ScannedDir>) -> (r: Vec<World>)
    ensures
        sorted_from(dirs@.filter_map(|d: ScannedDir| d.as_world()), r@),
{
    let ghost all = dirs@;
    let ghost f = |d: ScannedDir| d.as_world();
    let mut out: Vec<World> = Vec::new();
    assert(all.take(0).filter_map(f) =~= Seq::<World>::empty());
    for d in it: dirs.into_iter()
        invariant
            it.seq() == all,
            f == (|d: ScannedDir| d.as_world()),
            out@ == all.take(it.index() as int).filter_map(f),
    {
        proof {
            all.lemma_filter_map_take_succ(f, it.index() as int);
        }
        if matches!(d.kind, EntryKind::Directory) && d.looks_like_world {
            if let Some(world) = d.world {
                out.push(world);
            }
        }
    }
    assert(all.take(all.len() as int) =~= all);
    sort(out)
}

// ------------------------------------------------------------------ roots --

/// An entry of a minimap root.
#[derive(Debug)]
pub struct MinimapFolder {
    pub name: String,
    /// The entry's name, encoded.
    pub raw: Vec<u8>,
    pub kind: EntryKind,
    /// Whether the name is that of one of the mod's `backup*` directories.
    pub is_backup: bool,
    /// What a directory holds, as far as it can be listed.
    pub folders: Vec<WaypointFolder>,
}

/// A minimap root, listed.
#[derive(Debug)]
pub struct MinimapRoot {
    pub path: FilePath,
    /// What it holds, as far as it can be listed.
    pub folders: Vec<MinimapFolder>,
}

impl MinimapFolder {
    /// The folder holds waypoints of a world: it is a directory that the mod
    /// loads, and not an empty one.
    pub open spec fn holds_waypoints(&self, root: Seq<Seq<u8>>) -> bool {
        &&& !passed_over(self.name@, self.is_backup)
        &&& self.kind is Directory
        &&& world_waypoints(root.push(self.raw@), self.folders@).len() > 0
    }
}

/// One of `worlds` has the id `id`.
pub open spec fn has_world(worlds: Seq<World>, id: Seq<char>) -> bool {
    exists|i: int| 0 <= i < worlds.len() && (#[trigger] worlds[i]).id@ == id
}

/// One of `folders` is called `name`.
pub open spec fn has_folder(folders: Seq<MinimapFolder>, name: Seq<char>) -> bool {
    exists|i: int| 0 <= i < folders.len() && (#[trigger] folders[i]).name@ == name
}

/// The minimap folders that are worlds of their own: they hold waypoints, and
/// no world of that name is there yet.
pub open spec fn minimap_only(
    root: Seq<Seq<u8>>,
    worlds: Seq<World>,
    folders: Seq<MinimapFolder>,
) -> Seq<MinimapFolder>
    decreases folders.len(),
{
    if folders.len() == 0 {
        Seq::empty()
    } else {
        let before = minimap_only(root, worlds, folders.drop_last());
        let f = folders.last();
        if f.holds_waypoints(root) && !has_world(worlds, f.name@) && !has_folder(before, f.name@) {
            before.push(f)
        } else {
            before
        }
    }
}

/// `w` is the world that the minimap folder `f` alone makes up.
pub open spec fn describes_minimap_world(root: Seq<Seq<u8>>, f: MinimapFolder, w: World) -> bool {
    &&& w.id == f.name
    &&& w.world_map_path is None
    &&& w.minimap_path matches Some(p) && p@ == root.push(f.raw@)
    &&& w.dims@.len() == 0
    &&& w.databases@.len() == 0
    &&& lists_waypoints(root.push(f.raw@), f.folders@, w.waypoint_files@)
}

/// `all` are `worlds` and, behind them, the worlds that the minimap folders
/// `folders` alone make up.
pub open spec fn with_minimap_worlds(
    root: Seq<Seq<u8>>,
    worlds: Seq<World>,
    folders: Seq<MinimapFolder>,
    all: Seq<World>,
) -> bool {
    let extra = minimap_only(root, worlds, folders);
    &&& all.len() == worlds.len() + extra.len()
    &&& forall|i: int| 0 <= i < worlds.len() ==> #[trigger] all[i] == worlds[i]
    &&& forall|i: int|
        worlds.len() <= i < all.len() ==> describes_minimap_world(
            root,
            extra[i - worlds.len()],
            #[trigger] all[i],
        )
}

fn lists_world(worlds: &Vec<World>, id: &str) -> (r: bool)
    ensures
        r == has_world(worlds@, id@),
{
    let mut i: usize = 0;
    while i < worlds.len()
        invariant
            i <= worlds@.len(),
            forall|k: int| 0 <= k < i ==> (#[trigger] worlds@[k]).id@ != id@,
        decreases worlds@.len() - i,
    {
        if same(worlds[i].id.as_str(), id) {
            return true;
        }
        i = i + 1;
    }
    false
}

proof fn lemma_known_worlds(
    root: Seq<Seq<u8>>,
    worlds: Seq<World>,
    folders: Seq<MinimapFolder>,
    all: Seq<World>,
    id: Seq<char>,
)
    requires
        with_minimap_worlds(root, worlds, folders, all),
    ensures
        has_world(all, id) <==> has_world(worlds, id) || has_folder(
            minimap_only(root, worlds, folders),
            id,
        ),
{
    let extra = minimap_only(root, worlds, folders);
    let n = worlds.len() as int;
    if has_world(worlds, id) {
        let i = choose|i: int| 0 <= i < worlds.len() && (#[trigger] worlds[i]).id@ == id;
        assert(all[i].id@ == id);
    }
    if has_folder(extra, id) {
        let i = choose|i: int| 0 <= i < extra.len() && (#[trigger] extra[i]).name@ == id;
        assert(describes_minimap_world(root, extra[(n + i) - n], all[n + i]));
    }
    if has_world(all, id) {
        let i = choose|i: int| 0 <= i < all.len() && (#[trigger] all[i]).id@ == id;
        if i < n {
            assert(worlds[i].id@ == id);
        } else {
            assert(extra[i - n].name@ == id);
        }
    }
}

/// Adds a world for every minimap world folder that has no world-map
/// counterpart. The mod's own `backup*` snapshots are skipped, as the mod skips
/// them: they hold waypoints the player may since have deleted.
pub fn append_minimap_only_worlds(root: &MinimapRoot, worlds: Vec<World>) -> (r: Vec<World>)
    ensures
        with_minimap_worlds(root.path@, worlds@, root.folders@, r@),
{
    let ghost given = worlds@;
    let mut out = worlds;
    let folders = &root.folders;
    let mut i: usize = 0;
    while i < folders.len()
        invariant
            i <= folders@.len(),
            folders@ == root.folders@,
            with_minimap_worlds(root.path@, given, folders@.take(i as int), out@),
        decreases folders@.len() - i,
    {
        let f = &folders[i];
        let ghost before = out@;
        let ghost extra = minimap_only(root.path@, given, folders@.take(i as int));
        proof {
            assert(folders@.take(i + 1).drop_last() =~= folders@.take(i as int));
            assert(folders@.take(i + 1).last() == *f);
            lemma_known_worlds(root.path@, given, folders@.take(i as int), out@, f.name@);
        }
        let skip = f.is_backup || same(f.name.as_str(), "temp_to_add") || !matches!(
            f.kind,
            EntryKind::Directory
        ) || lists_world(&out, f.name.as_str());
        if !skip {
            let path = root.path.child(f.raw.as_slice());
            let waypoint_files = collect_waypoint_files(&path, &f.folders);
            if waypoint_files.len() > 0 {
                let world = World {
                    id: f.name.clone(),
                    world_map_path: None,
                    minimap_path: Some(path),
                    dims: Vec::new(),
                    databases: Vec::new(),
                    waypoint_files,
                };
                out.push(world);
                proof {
                    let n = given.len() as int;
                    assert(minimap_only(root.path@, given, folders@.take(i + 1)) == extra.push(*f));
                    assert forall|k: int| n <= k < out@.len() implies describes_minimap_world(
                        root.path@,
                        extra.push(*f)[k - n],
                        #[trigger] out@[k],
                    ) by {
                        if k < before.len() {
                            assert(describes_minimap_world(root.path@, extra[k - n], before[k]));
                        }
                    }
                }
            }
        }
        i = i + 1;
    }
    assert(folders@.take(folders@.len() as int) =~= folders@);
    out
}

/// The directories that may hold the minimap tree of `path`, best first. The
/// minimap and the world map are separate mods with separate configs, so the
/// two trees do not have to sit beside each other.
pub open spec fn minimap_roots(path: Seq<Seq<u8>>, parent: Seq<Seq<u8>>) -> Seq<Seq<Seq<u8>>> {
    seq![
        joined(joined(path, "xaero"@), "minimap"@),
        joined(joined(joined(path, "config"@), "xaero"@), "minimap"@),
        joined(path, "minimap"@),
        joined(parent, "minimap"@),
    ]
}

/// The directories that may hold the world map of `path`, best first.
pub open spec fn world_map_roots(path: Seq<Seq<u8>>) -> Seq<Seq<Seq<u8>>> {
    seq![
        joined(joined(path, "xaero"@), "world-map"@),
        joined(joined(joined(path, "config"@), "xaero"@), "world-map"@),
        joined(path, "world-map"@),
        path,
    ]
}

/// `r` is the first of the directories that may hold the minimap tree of
/// `path` that there is, asked for one by one.
pub open spec fn finds_minimap<F: Fn(&FilePath) -> bool>(
    path: Seq<Seq<u8>>,
    parent: Seq<Seq<u8>>,
    is_dir: F,
    r: Option<FilePath>,
) -> bool {
    exists|tried: Seq<FilePath>|
        {
            &&& tried.len() <= 4
            &&& #[trigger] path_texts(tried) == minimap_roots(path, parent).take(tried.len() as int)
            &&& match r {
                Some(found) => {
                    &&& tried.len() > 0 && found == tried.last()
                    &&& call_ensures(is_dir, (&found,), true)
                    &&& forall|i: int|
                        0 <= i < tried.len() - 1 ==> call_ensures(
                            is_dir,
                            (&#[trigger] tried[i],),
                            false,
                        )
                },
                None => {
                    &&& tried.len() == 4
                    &&& forall|i: int|
                        0 <= i < 4 ==> call_ensures(is_dir, (&#[trigger] tried[i],), false)
                },
            }
        }
}

/// The first directory that may hold the minimap tree of `path`. `parent` is
/// the directory above `path` (`--root <...>/world-map`: the minimap tree is
/// its sibling), or `path` itself.
pub fn find_minimap_root<F: Fn(&FilePath) -> bool>(
    path: &FilePath,
    parent: &FilePath,
    is_dir: F,
) -> (r: Option<FilePath>)
    requires
        forall|p: &FilePath| call_requires(is_dir, (p,)),
    ensures
        finds_minimap(path@, parent@, is_dir, r),
{
    let mut candidates: Vec<FilePath> = Vec::new();
    candidates.push(path.join("xaero").join("minimap"));
    candidates.push(path.join("config").join("xaero").join("minimap"));
    candidates.push(path.join("minimap"));
    candidates.push(parent.join("minimap"));
    let ghost all = candidates@;
    assert(path_texts(all) =~= minimap_roots(path@, parent@));
    for p in it: candidates.into_iter()
        invariant
            it.seq() == all,
            all.len() == 4,
            path_texts(all) == minimap_roots(path@, parent@),
            forall|p: &FilePath| call_requires(is_dir, (p,)),
            forall|i: int|
                0 <= i < it.index() ==> call_ensures(is_dir, (&#[trigger] all[i],), false),
    {
        if is_dir(&p) {
            proof {
                let tried = all.take(it.index() + 1);
                assert(path_texts(tried) =~= minimap_roots(path@, parent@).take(
                    tried.len() as int,
                ));
                assert forall|i: int| 0 <= i < tried.len() - 1 implies call_ensures(
                    is_dir,
                    (&#[trigger] tried[i],),
                    false,
                ) by {
                    assert(tried[i] == all[i]);
                }
            }
            return Some(p);
        }
    }
    assert(path_texts(all) =~= minimap_roots(path@, parent@).take(4));
    None
}

/// The candidate `p` offers `worlds`: what its scan brought, or else the one
/// world that it is itself. A candidate that is no directory offers none.
pub open spec fn offered<S: Fn(&FilePath) -> Option<Vec<World>>, D: Fn(&FilePath) -> Option<World>>(
    scan: S,
    direct: D,
    p: FilePath,
    worlds: Seq<World>,
) -> bool {
    ||| call_ensures(scan, (&p,), None) && worlds.len() == 0
    ||| exists|found: Vec<World>| #[trigger]
        call_ensures(scan, (&p,), Some(found)) && if found@.len() > 0 {
            worlds == found@
        } else {
            exists|itself: Option<World>| #[trigger]
                call_ensures(direct, (&p,), itself) && worlds == (match itself {
                    Some(w) => seq![w],
                    None => Seq::empty(),
                })
        }
}

/// `worlds` are those of the first world-map candidate of `path` that offers
/// any, or none.
pub open spec fn settled<S: Fn(&FilePath) -> Option<Vec<World>>, D: Fn(&FilePath) -> Option<World>>(
    scan: S,
    direct: D,
    path: Seq<Seq<u8>>,
    worlds: Seq<World>,
) -> bool {
    exists|tried: Seq<FilePath>|
        {
            &&& 1 <= tried.len() <= 4
            &&& #[trigger] path_texts(tried) == world_map_roots(path).take(tried.len() as int)
            &&& forall|i: int|
                0 <= i < tried.len() - 1 ==> offered(
                    scan,
                    direct,
                    #[trigger] tried[i],
                    Seq::<World>::empty(),
                )
            &&& offered(scan, direct, tried.last(), worlds)
            &&& worlds.len() > 0 || tried.len() == 4
        }
}

/// `r` are the worlds of the winning candidate of `path` and those that the
/// minimap alone makes up, sorted by id.
pub open spec fn discovers<S: Fn(&FilePath) -> Option<Vec<World>>, D: Fn(&FilePath) -> Option<World>>(
    scan: S,
    direct: D,
    path: Seq<Seq<u8>>,
    minimap: Option<MinimapRoot>,
    r: Seq<World>,
) -> bool {
    exists|worlds: Seq<World>, all: Seq<World>|
        {
            &&& #[trigger] settled(scan, direct, path, worlds)
            &&& match minimap {
                Some(m) => with_minimap_worlds(m.path@, worlds, m.folders@, all),
                None => all == worlds,
            }
            &&& #[trigger] sorted_from(all, r)
        }
}

/// Interprets `path` as one of: a dir containing `xaero/` or `config/xaero/`,
/// a dir containing `world-map/`, a `world-map` dir itself, or a single world
/// folder. The minimap tree is located separately and joined onto whichever
/// world-map candidate wins, so a world the player only ever had the minimap
/// for (waypoints, no map data) still shows up, with no world-map path.
/// Only map data settles which candidate wins: a minimap tree on its own must
/// not stop the search, or an instance that splits the two mods would lose its
/// map.
///
/// `scan` scans a world-map candidate, if it is a directory; `direct` scans it
/// as a single world folder, if it looks like one.
pub fn discover_root<S: Fn(&FilePath) -> Option<Vec<World>>, D: Fn(&FilePath) -> Option<World>>(
    path: &FilePath,
    minimap: Option<MinimapRoot>,
    scan: S,
    direct: D,
) -> (r: Vec<World>)
    requires
        forall|p: &FilePath| call_requires(scan, (p,)),
        forall|p: &FilePath| call_requires(direct, (p,)),
    ensures
        discovers(scan, direct, path@, minimap, r@),
{
    let mut candidates: Vec<FilePath> = Vec::new();
    candidates.push(path.join("xaero").join("world-map"));
    candidates.push(path.join("config").join("xaero").join("world-map"));
    candidates.push(path.join("world-map"));
    candidates.push(path.copied());
    let ghost all = candidates@;
    assert(path_texts(all) =~= world_map_roots(path@));
    let mut worlds: Vec<World> = Vec::new();
    let mut i: usize = 0;
    while i < 4 && worlds.len() == 0
        invariant
            i <= 4,
            candidates@ == all,
            all.len() == 4,
            forall|p: &FilePath| call_requires(scan, (p,)),
            forall|p: &FilePath| call_requires(direct, (p,)),
            worlds@.len() > 0 ==> i > 0,
            i > 0 ==> offered(scan, direct, all[i - 1], worlds@),
            forall|k: int|
                0 <= k < i - 1 ==> offered(
                    scan,
                    direct,
                    #[trigger] all[k],
                    Seq::<World>::empty(),
                ),
        decreases 4 - i,
    {
        assert(worlds@ =~= Seq::<World>::empty());
        let p = &candidates[i];
        if let Some(found) = scan(p) {
            worlds = found;
            // A single world folder given directly?
            if worlds.len() == 0 {
                let itself = direct(p);
                let ghost w = itself;
                if let Some(world) = itself {
                    worlds.push(world);
                }
                assert(worlds@ =~= (match w {
                    Some(w) => seq![w],
                    None => Seq::empty(),
                }));
                assert(call_ensures(direct, (p,), w));
            }
        }
        assert(offered(scan, direct, all[i as int], worlds@));
        i = i + 1;
    }
    let ghost won = worlds@;
    proof {
        let tried = all.take(i as int);
        assert(path_texts(tried) =~= world_map_roots(path@).take(i as int));
        assert forall|k: int| 0 <= k < tried.len() - 1 implies offered(
            scan,
            direct,
            #[trigger] tried[k],
            Seq::<World>::empty(),
        ) by {
            assert(tried[k] == all[k]);
        }
        assert(tried.last() == all[i - 1]);
        assert(settled(scan, direct, path@, won));
    }
    if let Some(m) = &minimap {
        worlds = append_minimap_only_worlds(m, worlds);
    }
    let ghost everything = worlds@;
    let sorted = sort(worlds);
    assert(sorted_from(everything, sorted@));
    sorted
}

/// A world is made up of a minimap folder alone only when it holds waypoints
/// that the mod loads, and only when no world of that id is there; and no two
/// of them share an id.
pub proof fn law_minimap_only_worlds_are_new(
    root: Seq<Seq<u8>>,
    worlds: Seq<World>,
    folders: Seq<MinimapFolder>,
    i: int,
)
    requires
        0 <= i < minimap_only(root, worlds, folders).len(),
    ensures
        minimap_only(root, worlds, folders)[i].holds_waypoints(root),
        !has_world(worlds, minimap_only(root, worlds, folders)[i].name@),
        forall|j: int|
            0 <= j < i ==> (#[trigger] minimap_only(root, worlds, folders)[j]).name@
                != minimap_only(root, worlds, folders)[i].name@,
    decreases folders.len(),
{
    let all = minimap_only(root, worlds, folders);
    if folders.len() > 0 {
        let before = minimap_only(root, worlds, folders.drop_last());
        if i < before.len() {
            law_minimap_only_worlds_are_new(root, worlds, folders.drop_last(), i);
            assert forall|j: int| 0 <= j < i implies (#[trigger] all[j]).name@
                != all[i].name@ by {
                assert(all[j] == before[j]);
            }
        } else {
            assert forall|j: int| 0 <= j < i implies (#[trigger] all[j]).name@
                != all[i].name@ by {
                assert(all[j] == before[j]);
            }
        }
    }
}

/// The worlds of a world-map root are in strict order of id, where no two of
/// its folders make worlds of one id, and all have map data, where all of its
/// folders' worlds do.
pub proof fn law_world_map_root_is_in_order(dirs: Seq<ScannedDir>, r: Seq<World>)
    requires
        sorted_from(dirs.filter_map(|d: ScannedDir| d.as_world()), r),
        have_own_ids(dirs.filter_map(|d: ScannedDir| d.as_world())),
        forall|i: int|
            0 <= i < dirs.len() ==> ((#[trigger] dirs[i]).world matches Some(w) ==> is_mapped(w)),
    ensures
        strictly_in_order(r),
        have_own_ids(r),
        are_mapped(r),
{
    let f = |d: ScannedDir| d.as_world();
    let found = dirs.filter_map(f);
    law_sorting_keeps_apart(found, r);
    assert forall|i: int| 0 <= i < r.len() implies is_mapped(#[trigger] r[i]) by {
        assert(r.contains(r[i]));
        law_sorting_keeps_elements(found, r, r[i]);
        dirs.lemma_filter_map_contains(f, r[i]);
        let d = choose|d: ScannedDir| #[trigger] dirs.contains(d) && f(d) == Some(r[i]);
        let k = choose|k: int| 0 <= k < dirs.len() && dirs[k] == d;
        assert(dirs[k].world == Some(r[i]));
    }
    assert forall|i: int, j: int| 0 <= i < j < r.len() implies (#[trigger] r[i]).id@ != (
    #[trigger] r[j]).id@ by {
        assert(r[i].rank() != r[j].rank());
    }
}

proof fn lemma_offered_worlds<
    S: Fn(&FilePath) -> Option<Vec<World>>,
    D: Fn(&FilePath) -> Option<World>,
>(scan: S, direct: D, p: FilePath, worlds: Seq<World>)
    requires
        offered(scan, direct, p, worlds),
        forall|p: FilePath, found: Vec<World>| #[trigger]
            call_ensures(scan, (&p,), Some(found)) ==> have_own_ids(found@) && are_mapped(found@),
        forall|p: FilePath, itself: World| #[trigger]
            call_ensures(direct, (&p,), Some(itself)) ==> is_mapped(itself),
    ensures
        have_own_ids(worlds),
        are_mapped(worlds),
{
    if !(call_ensures(scan, (&p,), None) && worlds.len() == 0) {
        let found = choose|found: Vec<World>| #[trigger]
            call_ensures(scan, (&p,), Some(found)) && if found@.len() > 0 {
                worlds == found@
            } else {
                exists|itself: Option<World>| #[trigger]
                    call_ensures(direct, (&p,), itself) && worlds == (match itself {
                        Some(w) => seq![w],
                        None => Seq::empty(),
                    })
            };
        if found@.len() == 0 {
            let itself = choose|itself: Option<World>| #[trigger]
                call_ensures(direct, (&p,), itself) && worlds == (match itself {
                    Some(w) => seq![w],
                    None => Seq::empty(),
                });
            if let Some(w) = itself {
                assert(call_ensures(direct, (&p,), Some(w)));
            }
        }
    }
}

proof fn lemma_own_ids_with_minimap(
    root: Seq<Seq<u8>>,
    worlds: Seq<World>,
    folders: Seq<MinimapFolder>,
    all: Seq<World>,
)
    requires
        have_own_ids(worlds),
        with_minimap_worlds(root, worlds, folders, all),
    ensures
        have_own_ids(all),
{
    let extra = minimap_only(root, worlds, folders);
    let n = worlds.len() as int;
    assert forall|i: int, j: int| 0 <= i < j < all.len() implies (#[trigger] all[i]).id@ != (
    #[trigger] all[j]).id@ by {
        if j < n {
            assert(worlds[i].id@ != worlds[j].id@);
        } else {
            law_minimap_only_worlds_are_new(root, worlds, folders, j - n);
            if i < n {
                assert(worlds[i].id@ == all[i].id@);
            } else {
                assert(extra[i - n].name@ != extra[j - n].name@);
            }
        }
    }
}

/// The worlds of a save root come in strict order of id: each is there once.
/// Every world with a map path has a dimension or a database, and one without
/// has waypoints. This holds where `scan` brings worlds with ids of their own,
/// and where it and `direct` bring worlds with map data alone.
pub proof fn law_discovered_worlds_are_in_order<
    S: Fn(&FilePath) -> Option<Vec<World>>,
    D: Fn(&FilePath) -> Option<World>,
>(scan: S, direct: D, path: Seq<Seq<u8>>, minimap: Option<MinimapRoot>, r: Seq<World>)
    requires
        discovers(scan, direct, path, minimap, r),
        forall|p: FilePath, found: Vec<World>| #[trigger]
            call_ensures(scan, (&p,), Some(found)) ==> have_own_ids(found@) && are_mapped(found@),
        forall|p: FilePath, itself: World| #[trigger]
            call_ensures(direct, (&p,), Some(itself)) ==> is_mapped(itself),
    ensures
        strictly_in_order(r),
        forall|i: int|
            0 <= i < r.len() && (#[trigger] r[i]).world_map_path is Some ==> is_mapped(r[i]),
        forall|i: int|
            0 <= i < r.len() ==> is_mapped(#[trigger] r[i]) || r[i].waypoint_files@.len() > 0,
{
    let (worlds, all) = choose|worlds: Seq<World>, all: Seq<World>|
        {
            &&& #[trigger] settled(scan, direct, path, worlds)
            &&& match minimap {
                Some(m) => with_minimap_worlds(m.path@, worlds, m.folders@, all),
                None => all == worlds,
            }
            &&& #[trigger] sorted_from(all, r)
        };
    let tried = choose|tried: Seq<FilePath>|
        {
            &&& 1 <= tried.len() <= 4
            &&& #[trigger] path_texts(tried) == world_map_roots(path).take(tried.len() as int)
            &&& forall|i: int|
                0 <= i < tried.len() - 1 ==> offered(
                    scan,
                    direct,
                    #[trigger] tried[i],
                    Seq::<World>::empty(),
                )
            &&& offered(scan, direct, tried.last(), worlds)
            &&& worlds.len() > 0 || tried.len() == 4
        };
    lemma_offered_worlds(scan, direct, tried.last(), worlds);
    if let Some(m) = minimap {
        lemma_own_ids_with_minimap(m.path@, worlds, m.folders@, all);
    }
    assert forall|i: int, j: int| 0 <= i < j < all.len() implies (#[trigger] all[i]).rank() != (
    #[trigger] all[j]).rank() by {
        assert(all[i].id@ != all[j].id@);
    }
    law_sorting_keeps_apart(all, r);
    assert forall|i: int| 0 <= i < r.len() implies (is_mapped(#[trigger] r[i]) || (
    r[i].world_map_path is None && r[i].waypoint_files@.len() > 0)) by {
        assert(r.contains(r[i]));
        law_sorting_keeps_elements(all, r, r[i]);
        let k = choose|k: int| 0 <= k < all.len() && all[k] == r[i];
        if k < worlds.len() {
            assert(is_mapped(worlds[k]));
        } else if let Some(m) = minimap {
            let extra = minimap_only(m.path@, worlds, m.folders@);
            let f = extra[k - worlds.len()];
            assert(describes_minimap_world(m.path@, f, all[k]));
            law_minimap_only_worlds_are_new(m.path@, worlds, m.folders@, k - worlds.len());
            lemma_listed_waypoints_are_as_many(
                m.path@.push(f.raw@),
                f.folders@,
                all[k].waypoint_files@,
            );
        }
    }
}

/// A minimap folder with waypoints that the mod loads always shows up: as a
/// world of its own, or under the world of its name.
pub proof fn law_waypoints_are_never_lost(
    root: Seq<Seq<u8>>,
    worlds: Seq<World>,
    folders: Seq<MinimapFolder>,
    i: int,
)
    requires
        0 <= i < folders.len(),
        folders[i].holds_waypoints(root),
    ensures
        has_world(worlds, folders[i].name@) || has_folder(
            minimap_only(root, worlds, folders),
            folders[i].name@,
        ),
    decreases folders.len(),
{
    let front = folders.drop_last();
    let before = minimap_only(root, worlds, front);
    let all = minimap_only(root, worlds, folders);
    let name = folders[i].name@;
    if i < front.len() {
        assert(front[i] == folders[i]);
        law_waypoints_are_never_lost(root, worlds, front, i);
    } else if !has_world(worlds, name) && !has_folder(before, name) {
        assert(all[before.len() as int].name@ == name);
    }
    if has_folder(before, name) {
        let k = choose|k: int| 0 <= k < before.len() && (#[trigger] before[k]).name@ == name;
        assert(all[k] == before[k]);
    }
}

/// The overworld stands before every other dimension, then come the nether and
/// the end, then the custom ones.
pub proof fn law_vanilla_dimensions_come_first(folder: Seq<char>)
    ensures
        DimEntry::le(dim_key("null"@), dim_key(folder)),
        folder != "null"@ && folder != "DIM0"@ ==> DimEntry::le(dim_key("DIM-1"@), dim_key(folder)),
        folder != "null"@ && folder != "DIM0"@ && folder != "DIM-1"@ ==> DimEntry::le(
            dim_key("DIM1"@),
            dim_key(folder),
        ),
{
    reveal_strlit("null");
    reveal_strlit("DIM0");
    reveal_strlit("DIM-1");
    reveal_strlit("DIM1");
    assert("DIM-1"@.len() == 5 && "DIM1"@.len() == 4 && "null"@[0] == 'n' && "DIM1"@[0] == 'D'
        && "DIM1"@[3] == '1' && "DIM0"@[3] == '0');
    <(u8, String) as Ranked>::le_total(dim_key(folder), dim_key(folder));
}

} // verus!
