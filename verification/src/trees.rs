//! The layout of a minimal world-map tree.

use vstd::prelude::*;
use vstd::utf8::encode_utf8;
use crate::paths::{joined, FilePath};
use crate::regions::{region_file_name, region_name};

verus! {

/// Where one region of a world goes, below the root of the tree.
#[derive(Debug)]
pub struct RegionPlace {
    pub directory: FilePath,
    pub file_name: String,
}

/// The directory of the regions of `world`: dim "null", mw "0".
pub open spec fn region_directory(world: Seq<char>) -> Seq<Seq<u8>> {
    joined(joined(joined(joined(Seq::empty(), "world-map"@), world), "null"@), "0"@)
}

/// Where the regions (world, rx, rz) of a minimal world-map tree go: at
/// world-map/<world>/null/0/<rx>_<rz>.zip.
pub fn world_map_tree(regions: &Vec<(String, i32, i32)>) -> (r: Vec<RegionPlace>)
    ensures
        r@.len() == regions@.len(),
        forall|i: int|
            0 <= i < r@.len() ==> (#[trigger] r@[i]).directory@ == region_directory(regions@[i].0@)
                && r@[i].file_name@ == region_name(
                regions@[i].1 as int,
                regions@[i].2 as int,
                "zip"@,
            ),
{
    let mut out: Vec<RegionPlace> = Vec::new();
    let mut i: usize = 0;
    while i < regions.len()
        invariant
            i <= regions@.len(),
            out@.len() == i,
            forall|k: int|
                0 <= k < i ==> (#[trigger] out@[k]).directory@ == region_directory(
                    regions@[k].0@,
                ) && out@[k].file_name@ == region_name(
                    regions@[k].1 as int,
                    regions@[k].2 as int,
                    "zip"@,
                ),
        decreases regions@.len() - i,
    {
        let world = regions[i].0.as_str();
        let directory = FilePath::empty().join("world-map").join(world).join("null").join("0");
        let file_name = region_file_name(regions[i].1, regions[i].2, "zip");
        out.push(RegionPlace { directory, file_name });
        i = i + 1;
    }
    out
}

/// The regions of a world lie in `world-map/<world>/null/0`.
pub proof fn law_regions_lie_in_the_overworld(world: Seq<char>)
    ensures
        region_directory(world) == seq![
            encode_utf8("world-map"@),
            encode_utf8(world),
            encode_utf8("null"@),
            encode_utf8("0"@),
        ],
{
    assert(region_directory(world) =~= seq![
        encode_utf8("world-map"@),
        encode_utf8(world),
        encode_utf8("null"@),
        encode_utf8("0"@),
    ]);
}

} // verus!
