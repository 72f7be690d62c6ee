//! The tileset manifest: the quadtree of emitted tiles and the
//! geometric-error schedule.
//!
//! Per-tile geographic bounds ride through as the bit patterns of the
//! source doubles; the serializer outside the library turns the tree
//! into the tileset JSON and gives the root its sentinel error.  The
//! geometric error halves per level, so a parent never claims a smaller
//! error than a child — proved on the built tree.

use vstd::prelude::*;

use crate::aggregate::parent_key;

verus! {

/// The geometric error of a level-0 tile, in micrometers: the equatorial
/// circumference divided by the screen-space constant.
pub const GE_ROOT_UM: u64 = 40075016686000 / 128;

/// The error halves with each level of refinement.
pub open spec fn geometric_error_um_spec(z: nat) -> u64
    decreases z,
{
    if z == 0 {
        GE_ROOT_UM
    } else {
        geometric_error_um_spec((z - 1) as nat) / 2
    }
}

/// The schedule never grows with depth.
pub proof fn lemma_geometric_error_monotonic(a: nat, b: nat)
    requires
        a <= b,
    ensures
        geometric_error_um_spec(a) >= geometric_error_um_spec(b),
    decreases b,
{
    if a < b {
        lemma_geometric_error_monotonic(a, (b - 1) as nat);
    }
}

/// The geometric error of a tile at level `z`, in micrometers.
pub fn geometric_error_um(z: u8) -> (r: u64)
    ensures
        r == geometric_error_um_spec(z as nat),
{
    let mut e: u64 = GE_ROOT_UM;
    let mut i: u8 = 0;
    while i < z
        invariant
            i <= z,
            e == geometric_error_um_spec(i as nat),
        decreases z - i,
    {
        e = e / 2;
        i = i + 1;
    }
    e
}

/// What the export stage records per emitted tile: its key and its
/// geographic bounds, as the bit patterns of the bound doubles.
#[derive(Debug, Clone, Copy)]
pub struct TileContent {
    pub zxy: (u8, u32, u32),
    pub min_lng_bits: u64,
    pub max_lng_bits: u64,
    pub min_lat_bits: u64,
    pub max_lat_bits: u64,
    pub min_height_bits: u64,
    pub max_height_bits: u64,
}

/// The record the export stage emits for one tile: its key and the
/// geographic bounds it computed for the decoded points.
pub fn make_tile_content(
    tile_coord: &(u8, u32, u32),
    min_lng_bits: u64,
    max_lng_bits: u64,
    min_lat_bits: u64,
    max_lat_bits: u64,
    min_height_bits: u64,
    max_height_bits: u64,
) -> (r: TileContent)
    ensures
        r == (TileContent {
            zxy: *tile_coord,
            min_lng_bits,
            max_lng_bits,
            min_lat_bits,
            max_lat_bits,
            min_height_bits,
            max_height_bits,
        }),
{
    TileContent {
        zxy: *tile_coord,
        min_lng_bits,
        max_lng_bits,
        min_lat_bits,
        max_lat_bits,
        min_height_bits,
        max_height_bits,
    }
}

/// The collected tile records, in arrival order.
#[derive(Debug)]
pub struct TileTree {
    pub contents: Vec<TileContent>,
}

/// One node of the manifest tree.
#[derive(Debug)]
pub struct TileNode {
    pub key: (u8, u32, u32),
    pub geometric_error_um: u64,
    pub content: Option<TileContent>,
    pub children: Vec<TileNode>,
}

/// Every node's children carry its child keys and no larger an error,
/// all the way down.
pub open spec fn node_monotone(n: TileNode) -> bool
    decreases n,
{
    forall|i: int|
        0 <= i < n.children@.len() ==> (#[trigger] n.children@[i]).geometric_error_um
            <= n.geometric_error_um && parent_key(n.children@[i].key) == n.key && node_monotone(
            n.children@[i],
        )
}

/// Every node's error follows the schedule for its level.
pub open spec fn node_on_schedule(n: TileNode) -> bool
    decreases n,
{
    n.geometric_error_um == geometric_error_um_spec(n.key.0 as nat) && forall|i: int|
        0 <= i < n.children@.len() ==> node_on_schedule(#[trigger] n.children@[i])
}

impl TileTree {
    /// An empty record collection.
    pub fn new() -> (r: TileTree)
        ensures
            r.contents@ =~= Seq::<TileContent>::empty(),
    {
        TileTree { contents: Vec::new() }
    }

    /// Record one emitted tile.
    pub fn add_content(&mut self, content: TileContent)
        ensures
            final(self).contents@ == old(self).contents@.push(content),
    {
        self.contents.push(content);
    }

    /// The record for a tile key, if one was emitted.
    fn find_content(&self, z: u8, x: u32, y: u32) -> (r: Option<TileContent>)
        ensures
            match r {
                Some(c) => exists|i: int|
                    0 <= i < self.contents@.len() && #[trigger] self.contents@[i] == c && c.zxy
                        == (z, x, y),
                None => forall|i: int|
                    0 <= i < self.contents@.len() ==> (#[trigger] self.contents@[i]).zxy != (
                    z,
                    x,
                    y,
                ),
            },
    {
        let mut i: usize = 0;
        while i < self.contents.len()
            invariant
                i <= self.contents@.len(),
                forall|k: int| 0 <= k < i ==> (#[trigger] self.contents@[k]).zxy != (z, x, y),
            decreases self.contents@.len() - i,
        {
            let c = self.contents[i];
            if c.zxy.0 == z && c.zxy.1 == x && c.zxy.2 == y {
                return Some(c);
            }
            i = i + 1;
        }
        None
    }

    /// Build the manifest subtree rooted at tile `(z, x, y)`.  A node
    /// exists where a tile was emitted for the key or below it; each
    /// node's geometric error follows the halving schedule, so errors
    /// never grow from a parent to a child.
    pub fn build_node(&self, z: u8, x: u32, y: u32, zmax: u8) -> (r: Option<TileNode>)
        requires
            z <= zmax <= 31,
            x < (1u64 << (z as u64)),
            y < (1u64 << (z as u64)),
        ensures
            match r {
                Some(n) => n.key == (z, x, y) && node_monotone(n) && node_on_schedule(n),
                None => forall|i: int|
                    0 <= i < self.contents@.len() ==> (#[trigger] self.contents@[i]).zxy != (
                    z,
                    x,
                    y,
                ),
            },
        decreases zmax - z,
    {
        let content = self.find_content(z, x, y);
        let mut children: Vec<TileNode> = Vec::new();
        let error = geometric_error_um(z);
        if z < zmax {
            proof {
                assert((2 * (x as u64) + 1) < (1u64 << (((z + 1) as u8) as u64)) && 2 * (
                y as u64) + 1 < (1u64 << (((z + 1) as u8) as u64)) && (1u64 << ((
                z as u8) as u64)) <= 0x80000000) by (bit_vector)
                    requires
                        (x as u64) < (1u64 << ((z as u8) as u64)),
                        (y as u64) < (1u64 << ((z as u8) as u64)),
                        z < 31,
                ;
            }
            let mut dx: u8 = 0;
            while dx < 2
                invariant
                    dx <= 2,
                    z < zmax <= 31,
                    x < (1u64 << (z as u64)),
                    y < (1u64 << (z as u64)),
                    2 * x + 1 < (1u64 << ((z + 1) as u64)),
                    2 * y + 1 < (1u64 << ((z + 1) as u64)),
                    x <= 0x7fffffff && y <= 0x7fffffff,
                    forall|i: int|
                        0 <= i < children@.len() ==> (#[trigger] children@[i]).geometric_error_um
                            == geometric_error_um_spec((z + 1) as nat) && parent_key(
                            children@[i].key,
                        ) == ((z, x, y)) && node_monotone(children@[i]) && node_on_schedule(
                            children@[i],
                        ),
                decreases 2 - dx,
            {
                let mut dy: u8 = 0;
                while dy < 2
                    invariant
                        dx < 2,
                        dy <= 2,
                        z < zmax <= 31,
                        x < (1u64 << (z as u64)),
                        y < (1u64 << (z as u64)),
                        2 * x + 1 < (1u64 << ((z + 1) as u64)),
                        2 * y + 1 < (1u64 << ((z + 1) as u64)),
                        x <= 0x7fffffff && y <= 0x7fffffff,
                        forall|i: int|
                            0 <= i < children@.len() ==> (
                            #[trigger] children@[i]).geometric_error_um
                                == geometric_error_um_spec((z + 1) as nat) && parent_key(
                                children@[i].key,
                            ) == ((z, x, y)) && node_monotone(children@[i]) && node_on_schedule(
                                children@[i],
                            ),
                    decreases 2 - dy,
                {
                    let cx = 2 * x + (dx as u32);
                    let cy = 2 * y + (dy as u32);
                    match self.build_node(z + 1, cx, cy, zmax) {
                        Some(child) => {
                            proof {
                                assert(parent_key(child.key) == ((z, x, y)));
                            }
                            children.push(child);
                        },
                        None => {},
                    }
                    dy = dy + 1;
                }
                dx = dx + 1;
            }
        }
        if content.is_none() && children.len() == 0 {
            proof {
                assert(children@.len() == 0);
            }
            return None;
        }
        let n = TileNode { key: (z, x, y), geometric_error_um: error, content, children };
        proof {
            assert(n.children@.len() > 0 ==> geometric_error_um_spec((z + 1) as nat)
                <= geometric_error_um_spec(z as nat)) by {
                if n.children@.len() > 0 {
                    lemma_geometric_error_monotonic(z as nat, (z + 1) as nat);
                }
            }
            assert(node_monotone(n));
            assert(node_on_schedule(n));
        }
        Some(n)
    }
}

} // verus!
