//! The tiling stages that run on plain values: leaf-key assignment,
//! run sorting, grouping of a sorted stream, and the driver's choices.
//!
//! The driver reads points and reprojects them outside the library; the
//! leaf tile of each point arrives here as its `(x, y)` coordinates at
//! the leaf zoom.  This module attaches the 64-bit sort key, sorts a
//! chunk into a run, groups a globally sorted stream into per-tile
//! buckets, and fixes the memory-driven choices of the driver.

use vstd::prelude::*;
use vstd::multiset::Multiset;
use vstd::seq_lib::lemma_multiset_commutative;

use crate::point::{Point, PointModel, points_view};
use crate::tileid::{SortKey, TileIdMethod, tile_id};

verus! {

/// One chunk entry: a point and the leaf tile it falls in.
pub struct KeyedPoint {
    pub key: SortKey,
    pub point: Point,
}

/// Pairs in non-decreasing key order.
pub open spec fn sorted_by_key(s: Seq<KeyedPoint>) -> bool {
    forall|i: int, j: int|
        0 <= i < j < s.len() ==> (#[trigger] s[i]).key.tile_id <= (#[trigger] s[j]).key.tile_id
}

/// Attach to each point the id of its leaf tile.  The caller supplies the
/// leaf coordinates it computed for the point at zoom `z`.
pub fn key_points(points: Vec<Point>, tile_xys: &Vec<(u32, u32)>, z: u8) -> (r: Vec<KeyedPoint>)
    requires
        z <= 31,
        points@.len() == tile_xys@.len(),
        forall|i: int|
            0 <= i < tile_xys@.len() ==> (#[trigger] tile_xys@[i]).0 < (1u64 << (z as u64))
                && tile_xys@[i].1 < (1u64 << (z as u64)),
    ensures
        r@.len() == points@.len(),
        forall|i: int|
            0 <= i < r@.len() ==> (#[trigger] r@[i]).point == points@[i] && r@[i].key.tile_id
                == tile_id(z as nat, tile_xys@[i].0 as u64, tile_xys@[i].1 as u64),
{
    let ghost pv = points@;
    let method = TileIdMethod::Morton;
    let mut rest = points;
    let n_total = rest.len();
    proof {
        assert(pv.len() == n_total);
    }
    let mut r: Vec<KeyedPoint> = Vec::new();
    let mut i: usize = 0;
    while rest.len() > 0
        invariant
            z <= 31,
            pv.len() <= usize::MAX,
            i + rest@.len() == pv.len(),
            pv.len() == tile_xys@.len(),
            rest@ == pv.skip(i as int),
            forall|k: int|
                0 <= k < tile_xys@.len() ==> (#[trigger] tile_xys@[k]).0 < (1u64 << (z as u64))
                    && tile_xys@[k].1 < (1u64 << (z as u64)),
            r@.len() == i,
            forall|k: int|
                0 <= k < i ==> (#[trigger] r@[k]).point == pv[k] && r@[k].key.tile_id == tile_id(
                    z as nat,
                    tile_xys@[k].0 as u64,
                    tile_xys@[k].1 as u64,
                ),
        decreases rest@.len(),
    {
        let p = rest.remove(0);
        proof {
            assert(p == pv.skip(i as int)[0]);
            assert(pv.skip(i as int)[0] == pv[i as int]);
            assert(rest@ =~= pv.skip(i + 1));
        }
        let (tx, ty) = tile_xys[i];
        let id = method.zxy_to_id(z, tx, ty);
        r.push(KeyedPoint { key: SortKey { tile_id: id }, point: p });
        i = i + 1;
    }
    r
}

/// A sequence and its insertion differ by that one element, as multisets.
proof fn lemma_to_multiset_insert(s: Seq<KeyedPoint>, pos: int, e: KeyedPoint)
    requires
        0 <= pos <= s.len(),
    ensures
        s.insert(pos, e).to_multiset() == s.to_multiset().insert(e),
{
    Seq::<KeyedPoint>::empty().to_multiset_ensures();
    assert(s.insert(pos, e) =~= s.take(pos) + (seq![e] + s.skip(pos)));
    lemma_multiset_commutative(s.take(pos), seq![e] + s.skip(pos));
    lemma_multiset_commutative(seq![e], s.skip(pos));
    assert(s =~= s.take(pos) + s.skip(pos));
    lemma_multiset_commutative(s.take(pos), s.skip(pos));
    assert(seq![e] =~= Seq::<KeyedPoint>::empty().push(e));
    assert(Seq::<KeyedPoint>::empty().to_multiset() =~= Multiset::<KeyedPoint>::empty());
    assert(seq![e].to_multiset() =~= Multiset::<KeyedPoint>::empty().insert(e));
    assert(s.take(pos).to_multiset().add(Multiset::<KeyedPoint>::empty().insert(e).add(
        s.skip(pos).to_multiset(),
    )) =~= s.take(pos).to_multiset().add(s.skip(pos).to_multiset()).insert(e));
}

/// Sort a chunk of keyed points by tile id: the run written to disk.  The
/// result holds the same entries, in non-decreasing key order.
pub fn sort_run(pairs: Vec<KeyedPoint>) -> (r: Vec<KeyedPoint>)
    ensures
        sorted_by_key(r@),
        r@.to_multiset() == pairs@.to_multiset(),
        r@.len() == pairs@.len(),
{
    let ghost pv = pairs@;
    let mut rest = pairs;
    let mut r: Vec<KeyedPoint> = Vec::new();
    let ghost mut t: int = 0;
    proof {
        assert(rest@ =~= pv.skip(0));
        assert(pv.take(0) =~= r@);
    }
    while rest.len() > 0
        invariant
            0 <= t <= pv.len(),
            rest@ == pv.skip(t),
            sorted_by_key(r@),
            r@.to_multiset() == pv.take(t).to_multiset(),
            r@.len() == t,
        decreases rest@.len(),
    {
        let ghost rv = r@;
        let e = rest.remove(0);
        proof {
            assert(e == pv.skip(t)[0]);
            assert(pv.skip(t)[0] == pv[t + 0]);
            assert(rest@ =~= pv.skip(t + 1));
        }
        let k = e.key.tile_id;
        let mut pos: usize = 0;
        while pos < r.len() && r[pos].key.tile_id <= k
            invariant
                pos <= r@.len(),
                r@ == rv,
                forall|i: int| 0 <= i < pos ==> (#[trigger] rv[i]).key.tile_id <= k,
            decreases r@.len() - pos,
        {
            pos = pos + 1;
        }
        proof {
            lemma_to_multiset_insert(rv, pos as int, pv[t]);
            assert(pv.take(t + 1) =~= pv.take(t).push(pv[t]));
            pv.take(t).to_multiset_ensures();
            assert(pv.take(t).push(pv[t]).to_multiset() =~= pv.take(t).to_multiset().insert(
                pv[t],
            ));
            rv.insert_ensures(pos as int, pv[t]);
        }
        r.insert(pos, e);
        proof {
            assert(sorted_by_key(r@)) by {
                assert forall|i: int, j: int| 0 <= i < j < r@.len() implies (
                #[trigger] r@[i]).key.tile_id <= (#[trigger] r@[j]).key.tile_id by {
                    if j < pos {
                    } else if i < pos && j == pos {
                        assert(r@[i] == rv[i]);
                    } else if i < pos {
                        assert(r@[i] == rv[i] && r@[j] == rv[j - 1]);
                    } else if i == pos {
                        assert(r@[j] == rv[j - 1]);
                        assert(rv[pos as int].key.tile_id > k || pos == rv.len());
                        assert(rv[j - 1].key.tile_id >= rv[pos as int].key.tile_id);
                    } else {
                        assert(r@[i] == rv[i - 1] && r@[j] == rv[j - 1]);
                    }
                }
            }
            t = t + 1;
        }
    }
    proof {
        assert(t == pv.len());
        assert(pv.take(t) =~= pv);
    }
    r
}

/// A bucket of the sorted stream: one tile id and its points, in stream
/// order.
pub struct KeyGroup {
    pub key: SortKey,
    pub points: Vec<Point>,
}

/// The mathematical value of a group.
#[verifier::ext_equal]
pub struct KeyGroupModel {
    pub key: u64,
    pub points: Seq<Point>,
}

impl View for KeyGroup {
    type V = KeyGroupModel;

    open spec fn view(&self) -> KeyGroupModel {
        KeyGroupModel { key: self.key.tile_id, points: self.points@ }
    }
}

/// The views of a vector of groups.
pub open spec fn groups_view(s: Seq<KeyGroup>) -> Seq<KeyGroupModel> {
    s.map_values(|g: KeyGroup| g@)
}

/// One group unrolled back into keyed pairs.
pub open spec fn ungroup_one(g: KeyGroupModel) -> Seq<KeyedPoint> {
    g.points.map_values(|p: Point| KeyedPoint { key: SortKey { tile_id: g.key }, point: p })
}

/// The groups unrolled back into the stream they came from.
pub open spec fn ungroup(groups: Seq<KeyGroupModel>) -> Seq<KeyedPoint>
    decreases groups.len(),
{
    if groups.len() == 0 {
        Seq::empty()
    } else {
        ungroup(groups.drop_last()) + ungroup_one(groups.last())
    }
}

/// Group keys in strictly increasing order.
pub open spec fn group_keys_increasing(s: Seq<KeyGroupModel>) -> bool {
    forall|i: int, j: int| 0 <= i < j < s.len() ==> (#[trigger] s[i]).key < (#[trigger] s[j]).key
}

/// Split a stream in non-decreasing key order into its runs of equal
/// keys.  Unrolling the groups gives back exactly the input stream, so a
/// point lies in the bucket of its own key and no other.
pub fn group_sorted_pairs(pairs: Vec<KeyedPoint>) -> (r: Vec<KeyGroup>)
    requires
        sorted_by_key(pairs@),
    ensures
        group_keys_increasing(groups_view(r@)),
        ungroup(groups_view(r@)) == pairs@,
        forall|i: int| 0 <= i < r@.len() ==> (#[trigger] groups_view(r@)[i]).points.len() > 0,
{
    let ghost pv = pairs@;
    let mut rest = pairs;
    let mut out: Vec<KeyGroup> = Vec::new();
    let ghost mut t: int = 0;
    proof {
        assert(rest@ =~= pv.skip(0));
        assert(groups_view(out@) =~= Seq::<KeyGroupModel>::empty());
        assert(ungroup(groups_view(out@)) =~= pv.take(0));
    }
    while rest.len() > 0
        invariant
            0 <= t <= pv.len(),
            sorted_by_key(pv),
            rest@ == pv.skip(t),
            group_keys_increasing(groups_view(out@)),
            ungroup(groups_view(out@)) == pv.take(t),
            forall|i: int|
                0 <= i < out@.len() ==> (#[trigger] groups_view(out@)[i]).points.len() > 0,
            out@.len() > 0 ==> t > 0 && groups_view(out@).last().key == pv[t - 1].key.tile_id,
            t > 0 ==> out@.len() > 0,
        decreases rest@.len(),
    {
        let ghost outv = groups_view(out@);
        let e = rest.remove(0);
        proof {
            assert(e == pv.skip(t)[0]);
            assert(pv.skip(t)[0] == pv[t + 0]);
            assert(rest@ =~= pv.skip(t + 1));
            assert(pv.take(t + 1) =~= pv.take(t).push(pv[t]));
        }
        let k = e.key.tile_id;
        let mut extend_last = false;
        if out.len() > 0 {
            proof {
                assert(groups_view(out@)[out@.len() - 1] == out@[out@.len() - 1]@);
            }
            if out[out.len() - 1].key.tile_id == k {
                extend_last = true;
            }
        }
        if extend_last {
            let last = out.len() - 1;
            out[last].points.push(e.point);
            proof {
                let outv2 = groups_view(out@);
                assert(outv2 =~= outv.update(
                    outv.len() - 1,
                    KeyGroupModel { key: k, points: outv.last().points.push(pv[t].point) },
                ));
                assert(outv2.drop_last() =~= outv.drop_last());
                assert(ungroup_one(outv2.last()) =~= ungroup_one(outv.last()).push(pv[t])) by {
                    assert(pv[t].key.tile_id == k);
                    assert forall|q: int|
                        0 <= q < outv2.last().points.len() implies #[trigger] ungroup_one(
                        outv2.last(),
                    )[q] == ungroup_one(outv.last()).push(pv[t])[q] by {
                        if q < outv.last().points.len() {
                            assert(outv2.last().points[q] == outv.last().points[q]);
                        } else {
                            assert(outv2.last().points[q] == pv[t].point);
                            assert(pv[t] == (KeyedPoint {
                                key: SortKey { tile_id: k },
                                point: pv[t].point,
                            }));
                        }
                    }
                }
                assert(ungroup(outv2) == ungroup(outv2.drop_last()) + ungroup_one(outv2.last()));
                assert(ungroup(outv) == ungroup(outv.drop_last()) + ungroup_one(outv.last()));
                assert(ungroup(outv2) =~= ungroup(outv).push(pv[t]));
                assert(ungroup(outv2) =~= pv.take(t + 1));
                assert forall|i: int, j: int| 0 <= i < j < outv2.len() implies (
                #[trigger] outv2[i]).key < (#[trigger] outv2[j]).key by {
                    assert(outv2[i].key == outv[i].key && outv2[j].key == outv[j].key);
                }
            }
        } else {
            proof {
                if out@.len() > 0 {
                    assert(pv[t - 1].key.tile_id <= pv[t].key.tile_id);
                    assert(outv.last().key != k);
                    assert(outv.last().key < k);
                }
            }
            let mut npts: Vec<Point> = Vec::new();
            npts.push(e.point);
            let ng = KeyGroup { key: SortKey { tile_id: k }, points: npts };
            proof {
                let ngm = KeyGroupModel { key: k, points: seq![pv[t].point] };
                assert(ng@ =~= ngm);
                let outv2 = outv.push(ngm);
                assert(groups_view(out@.push(ng)) =~= outv2);
                assert(outv2.drop_last() =~= outv);
                assert(outv2.last() == ngm);
                assert(ungroup_one(ngm) =~= seq![pv[t]]) by {
                    assert(ungroup_one(ngm).len() == 1);
                    assert(ungroup_one(ngm)[0] == (KeyedPoint {
                        key: SortKey { tile_id: k },
                        point: pv[t].point,
                    }));
                    assert(pv[t] == (KeyedPoint {
                        key: SortKey { tile_id: k },
                        point: pv[t].point,
                    }));
                }
                assert(ungroup(outv2) == ungroup(outv) + ungroup_one(ngm));
                assert(ungroup(outv2) =~= pv.take(t + 1));
                assert forall|i: int, j: int| 0 <= i < j < outv2.len() implies (
                #[trigger] outv2[i]).key < (#[trigger] outv2[j]).key by {
                    if j < outv.len() {
                        assert(outv2[i].key == outv[i].key && outv2[j].key == outv[j].key);
                    } else {
                        assert(outv2[j] == ngm);
                        if i < outv.len() {
                            assert(outv2[i].key == outv[i].key);
                            assert(outv[i].key <= outv.last().key) by {
                                if i < outv.len() - 1 {
                                    assert(outv[i].key < outv[outv.len() - 1].key);
                                }
                            }
                        }
                    }
                }
            }
            out.push(ng);
        }
        proof {
            t = t + 1;
        }
    }
    proof {
        assert(t == pv.len());
        assert(pv.take(t) =~= pv);
    }
    out
}

/// Every entry of a group is an entry of the unrolled stream.
proof fn lemma_ungroup_contains(groups: Seq<KeyGroupModel>, i: int, q: int)
    requires
        0 <= i < groups.len(),
        0 <= q < groups[i].points.len(),
    ensures
        ungroup(groups).contains(
            KeyedPoint { key: SortKey { tile_id: groups[i].key }, point: groups[i].points[q] },
        ),
    decreases groups.len(),
{
    let e = KeyedPoint { key: SortKey { tile_id: groups[i].key }, point: groups[i].points[q] };
    let a = ungroup(groups.drop_last());
    let b = ungroup_one(groups.last());
    if i == groups.len() - 1 {
        assert(b[q] == e);
        assert((a + b)[a.len() + q] == e);
    } else {
        assert(groups.drop_last()[i] == groups[i]);
        lemma_ungroup_contains(groups.drop_last(), i, q);
        let j = choose|j: int| 0 <= j < a.len() && a[j] == e;
        assert((a + b)[j] == e);
    }
}

/// Every entry of the unrolled stream comes from some group.
proof fn lemma_ungroup_origin(groups: Seq<KeyGroupModel>, j: int)
    requires
        0 <= j < ungroup(groups).len(),
    ensures
        exists|i: int, q: int|
            0 <= i < groups.len() && 0 <= q < groups[i].points.len() && ungroup(groups)[j]
                == (KeyedPoint {
                key: SortKey { tile_id: groups[i].key },
                point: groups[i].points[q],
            }),
    decreases groups.len(),
{
    let a = ungroup(groups.drop_last());
    let b = ungroup_one(groups.last());
    if j < a.len() {
        lemma_ungroup_origin(groups.drop_last(), j);
        let (i, q) = choose|i: int, q: int|
            0 <= i < groups.drop_last().len() && 0 <= q < groups.drop_last()[i].points.len()
                && a[j] == (KeyedPoint {
                key: SortKey { tile_id: groups.drop_last()[i].key },
                point: groups.drop_last()[i].points[q],
            });
        assert(groups.drop_last()[i] == groups[i]);
        assert(ungroup(groups)[j] == a[j]);
        assert(0 <= i < groups.len() && 0 <= q < groups[i].points.len() && ungroup(groups)[j]
            == (KeyedPoint { key: SortKey { tile_id: groups[i].key }, point: groups[i].points[q] }));
    } else {
        let q = j - a.len();
        let i = groups.len() - 1;
        assert(ungroup(groups)[j] == b[q]);
        assert(b[q] == (KeyedPoint {
            key: SortKey { tile_id: groups[i].key },
            point: groups[i].points[q],
        }));
        assert(0 <= i < groups.len() && 0 <= q < groups[i].points.len() && ungroup(groups)[j]
            == (KeyedPoint { key: SortKey { tile_id: groups[i].key }, point: groups[i].points[q] }));
    }
}

/// A point stands in a bucket exactly when the stream paired it with the
/// bucket's key: the leaf files hold each point under its own tile id
/// and no other.
pub proof fn lemma_bucket_membership(
    groups: Seq<KeyGroupModel>,
    pairs: Seq<KeyedPoint>,
    i: int,
    p: Point,
)
    requires
        group_keys_increasing(groups),
        ungroup(groups) == pairs,
        0 <= i < groups.len(),
    ensures
        groups[i].points.contains(p) <==> exists|j: int|
            0 <= j < pairs.len() && (#[trigger] pairs[j]).key.tile_id == groups[i].key
                && pairs[j].point == p,
{
    if groups[i].points.contains(p) {
        let q = choose|q: int| 0 <= q < groups[i].points.len() && groups[i].points[q] == p;
        lemma_ungroup_contains(groups, i, q);
        let e = KeyedPoint { key: SortKey { tile_id: groups[i].key }, point: p };
        let j = choose|j: int| 0 <= j < pairs.len() && pairs[j] == e;
        assert(pairs[j].key.tile_id == groups[i].key && pairs[j].point == p);
    }
    if exists|j: int|
        0 <= j < pairs.len() && (#[trigger] pairs[j]).key.tile_id == groups[i].key
            && pairs[j].point == p {
        let j = choose|j: int|
            0 <= j < pairs.len() && (#[trigger] pairs[j]).key.tile_id == groups[i].key
                && pairs[j].point == p;
        lemma_ungroup_origin(groups, j);
        let (i2, q) = choose|i2: int, q: int|
            0 <= i2 < groups.len() && 0 <= q < groups[i2].points.len() && ungroup(groups)[j]
                == (KeyedPoint {
                key: SortKey { tile_id: groups[i2].key },
                point: groups[i2].points[q],
            });
        assert(groups[i2].key == groups[i].key);
        assert(i2 == i) by {
            if i2 < i {
                assert(groups[i2].key < groups[i].key);
            } else if i2 > i {
                assert(groups[i].key < groups[i2].key);
            }
        }
        assert(groups[i].points[q] == p);
    }
}

/// The points a reader buffers before handing a chunk to the writer.
pub const DEFAULT_CHUNK_POINTS: usize = 10000000;

/// The assumed in-memory size of one point, for memory accounting.
pub const POINT_SIZE_BYTES: usize = 96;

/// The two pipeline shapes the driver can run.
#[derive(Debug, Clone, Copy, PartialEq, Eq, Structural)]
pub enum Workflow {
    InMemory,
    ExternalSort,
}

/// The in-memory path serves inputs that fit the budget; everything
/// larger goes through the external sort.
pub fn choose_workflow(total_size: u64, max_memory_bytes: u64) -> (r: Workflow)
    ensures
        r == Workflow::InMemory <==> total_size <= max_memory_bytes,
{
    if total_size <= max_memory_bytes {
        Workflow::InMemory
    } else {
        Workflow::ExternalSort
    }
}

/// The sum of the input file sizes, the driver's estimate of the input.
/// Saturates at the largest `u64`, which always chooses the external
/// sort.
pub fn estimate_total_size(sizes: &Vec<u64>) -> (r: u64)
    ensures
        r == sum_or_max(sizes@),
{
    let mut acc: u64 = 0;
    let mut i: usize = 0;
    while i < sizes.len()
        invariant
            i <= sizes@.len(),
            acc == sum_or_max(sizes@.take(i as int)),
        decreases sizes@.len() - i,
    {
        proof {
            assert(sizes@.take(i + 1 as int).drop_last() =~= sizes@.take(i as int));
            assert(sizes@.take(i + 1 as int).last() == sizes@[i as int]);
        }
        if acc > u64::MAX - sizes[i] {
            acc = u64::MAX;
        } else {
            acc = acc + sizes[i];
        }
        i = i + 1;
    }
    proof {
        assert(sizes@.take(sizes@.len() as int) =~= sizes@);
    }
    acc
}

/// The size sum, capped at the largest `u64`.
pub open spec fn sum_or_max(s: Seq<u64>) -> u64
    decreases s.len(),
{
    if s.len() == 0 {
        0u64
    } else {
        if sum_or_max(s.drop_last()) + s.last() > u64::MAX {
            u64::MAX
        } else {
            (sum_or_max(s.drop_last()) + s.last()) as u64
        }
    }
}

/// The bounded channel's capacity: enough chunks to fill the memory
/// budget, at least one, and at least two per core so that readers stay
/// busy.
pub fn channel_capacity(max_memory_bytes: usize, cores: usize) -> (r: usize)
    requires
        cores <= usize::MAX / 2,
    ensures
        ({
            let per_chunk: int = DEFAULT_CHUNK_POINTS * POINT_SIZE_BYTES;
            let base: int = if max_memory_bytes as int / per_chunk == 0 {
                1
            } else {
                max_memory_bytes as int / per_chunk
            };
            r == (if base >= 2 * cores {
                base
            } else {
                2 * cores as int
            })
        }),
{
    let per_chunk: usize = DEFAULT_CHUNK_POINTS * POINT_SIZE_BYTES;
    let mut capacity = max_memory_bytes / per_chunk;
    if capacity == 0 {
        capacity = 1;
    }
    let twice_cores = cores * 2;
    if capacity < twice_cores {
        capacity = twice_cores;
    }
    capacity
}

} // verus!

