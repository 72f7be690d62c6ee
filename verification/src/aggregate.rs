//! The quadtree aggregator: one coarser level from its children.
//!
//! The parent of tile `(z, x, y)` is `(z - 1, x / 2, y / 2)`.  Given the
//! decoded buckets of level `z + 1`, the aggregator groups them by parent
//! key; each parent bucket holds, as a multiset, exactly the union of the
//! points of its children.

use vstd::prelude::*;
use vstd::multiset::Multiset;
use vstd::seq_lib::lemma_multiset_commutative;

use crate::point::{Point, PointModel, points_view};

verus! {

/// A decoded tile bucket: the tile key and its points.
#[derive(Debug)]
pub struct TileBucket {
    pub key: (u8, u32, u32),
    pub points: Vec<Point>,
}

/// The mathematical value of a bucket.
#[verifier::ext_equal]
pub struct TileBucketModel {
    pub key: (u8, u32, u32),
    pub points: Seq<PointModel>,
}

impl View for TileBucket {
    type V = TileBucketModel;

    open spec fn view(&self) -> TileBucketModel {
        TileBucketModel { key: self.key, points: points_view(self.points@) }
    }
}

/// The views of a vector of buckets.
pub open spec fn buckets_view(s: Seq<TileBucket>) -> Seq<TileBucketModel> {
    s.map_values(|b: TileBucket| b@)
}

/// The parent key of a tile key.
pub open spec fn parent_key(k: (u8, u32, u32)) -> (u8, u32, u32) {
    (((k.0 - 1) as u8), k.1 / 2, k.2 / 2)
}

/// The quadtree parent of a tile: one level up, coordinates halved.
pub fn parent_tile(z: u8, x: u32, y: u32) -> (r: (u8, u32, u32))
    requires
        z >= 1,
    ensures
        r == parent_key((z, x, y)),
{
    (z - 1, x / 2, y / 2)
}

/// The union of the points of every child of `p` among the first `t`
/// buckets.
pub open spec fn points_under(
    children: Seq<TileBucketModel>,
    p: (u8, u32, u32),
) -> Multiset<PointModel>
    decreases children.len(),
{
    if children.len() == 0 {
        Multiset::empty()
    } else {
        points_under(children.drop_last(), p).add(
            if parent_key(children.last().key) == p {
                children.last().points.to_multiset()
            } else {
                Multiset::empty()
            },
        )
    }
}

/// Some bucket carries the key `p`.
pub open spec fn has_key(s: Seq<TileBucketModel>, p: (u8, u32, u32)) -> bool {
    exists|i: int| 0 <= i < s.len() && #[trigger] s[i].key == p
}

/// Every bucket key appears once.
pub open spec fn keys_distinct(s: Seq<TileBucketModel>) -> bool {
    forall|i: int, j: int| 0 <= i < j < s.len() ==> #[trigger] s[i].key != #[trigger] s[j].key
}

/// Some child among the first `t` maps to parent key `p`.
pub open spec fn from_some_child(sv: Seq<TileBucketModel>, t: int, p: (u8, u32, u32)) -> bool {
    exists|j: int| 0 <= j < t && parent_key(#[trigger] sv[j].key) == p
}

/// `parents` is the level-`z` aggregation of `children`: one bucket per
/// occupied parent tile, holding the union of its children's points.
pub open spec fn aggregated_from(
    children: Seq<TileBucketModel>,
    parents: Seq<TileBucketModel>,
    z: u8,
) -> bool {
    &&& keys_distinct(parents)
    &&& forall|i: int|
        0 <= i < parents.len() ==> (#[trigger] parents[i]).key.0 == z
            && parents[i].points.to_multiset() == points_under(children, parents[i].key)
    &&& forall|j: int|
        0 <= j < children.len() ==> has_key(parents, parent_key(#[trigger] children[j].key))
    &&& forall|i: int|
        0 <= i < parents.len() ==> from_some_child(
            children,
            children.len() as int,
            (#[trigger] parents[i]).key,
        )
}

/// Extending the child prefix by one bucket adds its points to its
/// parent's union and no other.
proof fn lemma_points_under_push(s: Seq<TileBucketModel>, b: TileBucketModel, p: (u8, u32, u32))
    ensures
        points_under(s.push(b), p) == points_under(s, p).add(
            if parent_key(b.key) == p {
                b.points.to_multiset()
            } else {
                Multiset::empty()
            },
        ),
{
    assert(s.push(b).drop_last() =~= s);
    assert(s.push(b).last() == b);
}

/// The bucket of `out` that carries key `p`, if any.
fn find_bucket(out: &Vec<TileBucket>, p: (u8, u32, u32)) -> (r: Option<usize>)
    ensures
        match r {
            Some(idx) => idx < out@.len() && buckets_view(out@)[idx as int].key == p,
            None => forall|i: int|
                0 <= i < out@.len() ==> (#[trigger] buckets_view(out@)[i]).key != p,
        },
{
    let mut idx: usize = 0;
    while idx < out.len()
        invariant
            idx <= out@.len(),
            forall|i: int| 0 <= i < idx ==> (#[trigger] buckets_view(out@)[i]).key != p,
        decreases out@.len() - idx,
    {
        proof {
            assert(buckets_view(out@)[idx as int] == out@[idx as int]@);
        }
        let k = out[idx].key;
        if k.0 == p.0 && k.1 == p.1 && k.2 == p.2 {
            return Some(idx);
        }
        idx = idx + 1;
    }
    None
}

/// Group the buckets of level `z + 1` by parent tile.  Each returned
/// bucket holds, as a multiset, the union of the points of the children
/// of its key.
pub fn aggregate_zoom_level(children: Vec<TileBucket>, z: u8) -> (r: Vec<TileBucket>)
    requires
        z < 31,
        forall|j: int|
            0 <= j < children@.len() ==> (#[trigger] buckets_view(children@)[j]).key.0 == z + 1,
    ensures
        aggregated_from(buckets_view(children@), buckets_view(r@), z),
{
    let ghost sv = buckets_view(children@);
    let mut rest = children;
    let mut out: Vec<TileBucket> = Vec::new();
    let ghost mut t: int = 0;
    proof {
        assert(buckets_view(rest@) =~= sv.skip(0));
        assert(buckets_view(out@) =~= Seq::<TileBucketModel>::empty());
    }
    while rest.len() > 0
        invariant
            0 <= t <= sv.len(),
            forall|j: int| 0 <= j < sv.len() ==> (#[trigger] sv[j]).key.0 == z + 1,
            z < 31,
            buckets_view(rest@) == sv.skip(t),
            buckets_view(rest@).len() == rest@.len(),
            keys_distinct(buckets_view(out@)),
            forall|i: int|
                0 <= i < buckets_view(out@).len() ==> (#[trigger] buckets_view(out@)[i]).key.0
                    == z && buckets_view(out@)[i].points.to_multiset() == points_under(
                    sv.take(t),
                    buckets_view(out@)[i].key,
                ),
            forall|j: int|
                0 <= j < t ==> has_key(buckets_view(out@), parent_key(#[trigger] sv[j].key)),
            forall|i: int|
                0 <= i < buckets_view(out@).len() ==> from_some_child(
                    sv,
                    t,
                    (#[trigger] buckets_view(out@)[i]).key,
                ),
        decreases rest.len(),
    {
        let ghost outv = buckets_view(out@);
        proof {
            lemma_bucket_view_tail(rest@, sv, t);
        }
        let child = rest.remove(0);
        proof {
            assert(child@ == sv[t]);
            assert(sv.take(t + 1) =~= sv.take(t).push(sv[t]));
        }
        let ck = child.key;
        let p = parent_tile(ck.0, ck.1, ck.2);
        proof {
            assert(p == parent_key(sv[t].key));
        }
        let slot = find_bucket(&out, p);
        let mut pts = child.points;
        if let Some(idx) = slot {
            proof {
                assert(buckets_view(out@)[idx as int] == out@[idx as int]@);
                assert(outv[idx as int].key == p);
            }
            let ghost old_bucket = out@[idx as int];
            out[idx].points.append(&mut pts);
            proof {
                assert(out@[idx as int].points@ =~= old_bucket.points@ + child.points@);
                assert(buckets_view(out@) =~= outv.update(
                    idx as int,
                    TileBucketModel {
                        key: p,
                        points: points_view(old_bucket.points@ + child.points@),
                    },
                ));
                assert(points_view(old_bucket.points@ + child.points@) =~= points_view(
                    old_bucket.points@,
                ) + points_view(child.points@));
                lemma_multiset_commutative(
                    points_view(old_bucket.points@),
                    points_view(child.points@),
                );
                lemma_step_buckets(sv, t, outv, idx as int, z);
            }
        } else {
            let nb = TileBucket { key: p, points: pts };
            proof {
                assert(nb@ == (TileBucketModel { key: p, points: points_view(child.points@) }));
                lemma_bucket_view_push(out@, nb);
                lemma_step_new_bucket(sv, t, outv, nb@, z);
            }
            out.push(nb);
        }
        proof {
            t = t + 1;
        }
    }
    proof {
        assert(sv.skip(t).len() == 0);
        assert(t == sv.len());
        assert(sv.take(t) =~= sv);
    }
    out
}

/// The views of a bucket vector after removing its first element.
proof fn lemma_bucket_view_tail(s0: Seq<TileBucket>, sv: Seq<TileBucketModel>, t: int)
    requires
        0 <= t <= sv.len(),
        buckets_view(s0) == sv.skip(t),
        s0.len() > 0,
    ensures
        buckets_view(s0.remove(0)) == sv.skip(t + 1),
        s0[0]@ == sv[t],
{
    s0.remove_ensures(0);
    assert(buckets_view(s0).len() == s0.len());
    assert(sv.skip(t).len() == sv.len() - t);
    assert(buckets_view(s0)[0] == s0[0]@);
    assert(sv.skip(t)[0] == sv[t + 0]);
    assert(buckets_view(s0.remove(0)) =~= sv.skip(t + 1)) by {
        assert forall|i: int| 0 <= i < s0.len() - 1 implies #[trigger] buckets_view(
            s0.remove(0),
        )[i] == sv.skip(t + 1)[i] by {
            assert(s0.remove(0)[i] == s0[i + 1]);
            assert(buckets_view(s0)[i + 1] == s0[i + 1]@);
            assert(sv.skip(t)[i + 1] == sv[t + i + 1]);
            assert(sv.skip(t + 1)[i] == sv[t + 1 + i]);
        }
    }
}

/// The views of a bucket vector after a push.
proof fn lemma_bucket_view_push(s0: Seq<TileBucket>, b: TileBucket)
    ensures
        buckets_view(s0.push(b)) == buckets_view(s0).push(b@),
{
    assert(buckets_view(s0.push(b)) =~= buckets_view(s0).push(b@)) by {
        assert forall|i: int| 0 <= i < s0.len() + 1 implies #[trigger] buckets_view(
            s0.push(b),
        )[i] == buckets_view(s0).push(b@)[i] by {
            if i < s0.len() {
                assert(s0.push(b)[i] == s0[i]);
            } else {
                assert(s0.push(b)[i] == b);
            }
        }
    }
}

/// Appending a child's points to its existing parent bucket keeps the
/// aggregation invariants.
proof fn lemma_step_buckets(
    sv: Seq<TileBucketModel>,
    t: int,
    outv: Seq<TileBucketModel>,
    idx: int,
    z: u8,
)
    requires
        0 <= t < sv.len(),
        0 <= idx < outv.len(),
        keys_distinct(outv),
        outv[idx].key == parent_key(sv[t].key),
        forall|i: int|
            0 <= i < outv.len() ==> (#[trigger] outv[i]).key.0 == z
                && outv[i].points.to_multiset() == points_under(sv.take(t), outv[i].key),
        forall|j: int| 0 <= j < t ==> has_key(outv, parent_key(#[trigger] sv[j].key)),
        forall|i: int|
            0 <= i < outv.len() ==> from_some_child(sv, t, (#[trigger] outv[i]).key),
    ensures
        ({
            let nb = TileBucketModel {
                key: outv[idx].key,
                points: outv[idx].points + sv[t].points,
            };
            let outv2 = outv.update(idx, nb);
            &&& keys_distinct(outv2)
            &&& forall|i: int|
                0 <= i < outv2.len() ==> (#[trigger] outv2[i]).key.0 == z
                    && outv2[i].points.to_multiset() == points_under(
                    sv.take(t + 1),
                    outv2[i].key,
                )
            &&& forall|j: int| 0 <= j < t + 1 ==> has_key(outv2, parent_key(#[trigger] sv[j].key))
            &&& forall|i: int|
                0 <= i < outv2.len() ==> from_some_child(sv, t + 1, (#[trigger] outv2[i]).key)
        }),
{
    let p = outv[idx].key;
    let nb = TileBucketModel { key: p, points: outv[idx].points + sv[t].points };
    let outv2 = outv.update(idx, nb);
    assert(sv.take(t + 1) =~= sv.take(t).push(sv[t]));
    lemma_multiset_commutative(outv[idx].points, sv[t].points);
    assert forall|i: int| 0 <= i < outv2.len() implies (#[trigger] outv2[i]).key.0 == z
        && outv2[i].points.to_multiset() == points_under(sv.take(t + 1), outv2[i].key) by {
        lemma_points_under_push(sv.take(t), sv[t], outv2[i].key);
        if i == idx {
            assert(outv2[i] == nb);
            assert(parent_key(sv[t].key) == p);
        } else {
            assert(outv2[i] == outv[i]);
            assert(outv[i].key != p);
        }
    }
    assert forall|j: int| 0 <= j < t + 1 implies has_key(
        outv2,
        parent_key(#[trigger] sv[j].key),
    ) by {
        if j == t {
            assert(outv2[idx].key == parent_key(sv[t].key));
        } else {
            let w = choose|i: int|
                0 <= i < outv.len() && #[trigger] outv[i].key == parent_key(sv[j].key);
            assert(outv2[w].key == parent_key(sv[j].key));
        }
    }
    assert forall|i: int| 0 <= i < outv2.len() implies from_some_child(
        sv,
        t + 1,
        (#[trigger] outv2[i]).key,
    ) by {
        if i == idx {
            assert(parent_key(sv[t].key) == outv2[i].key);
        } else {
            assert(from_some_child(sv, t, outv[i].key));
            let j = choose|j: int| 0 <= j < t && parent_key(#[trigger] sv[j].key) == outv[i].key;
            assert(parent_key(sv[j].key) == outv2[i].key);
        }
    }
}

/// Opening a new parent bucket for a child keeps the aggregation
/// invariants.
proof fn lemma_step_new_bucket(
    sv: Seq<TileBucketModel>,
    t: int,
    outv: Seq<TileBucketModel>,
    nb: TileBucketModel,
    z: u8,
)
    requires
        0 <= t < sv.len(),
        sv[t].key.0 == z + 1,
        z < 31,
        keys_distinct(outv),
        nb.key == parent_key(sv[t].key),
        nb.points == sv[t].points,
        forall|i: int| 0 <= i < outv.len() ==> (#[trigger] outv[i]).key != nb.key,
        forall|i: int|
            0 <= i < outv.len() ==> (#[trigger] outv[i]).key.0 == z
                && outv[i].points.to_multiset() == points_under(sv.take(t), outv[i].key),
        forall|j: int| 0 <= j < t ==> has_key(outv, parent_key(#[trigger] sv[j].key)),
        forall|i: int|
            0 <= i < outv.len() ==> from_some_child(sv, t, (#[trigger] outv[i]).key),
    ensures
        ({
            let outv2 = outv.push(nb);
            &&& keys_distinct(outv2)
            &&& forall|i: int|
                0 <= i < outv2.len() ==> (#[trigger] outv2[i]).key.0 == z
                    && outv2[i].points.to_multiset() == points_under(
                    sv.take(t + 1),
                    outv2[i].key,
                )
            &&& forall|j: int| 0 <= j < t + 1 ==> has_key(outv2, parent_key(#[trigger] sv[j].key))
            &&& forall|i: int|
                0 <= i < outv2.len() ==> from_some_child(sv, t + 1, (#[trigger] outv2[i]).key)
        }),
{
    let p = nb.key;
    let outv2 = outv.push(nb);
    assert(sv.take(t + 1) =~= sv.take(t).push(sv[t]));
    assert(points_under(sv.take(t), p) == Multiset::<PointModel>::empty()) by {
        lemma_points_under_empty(sv, t, outv, p);
    }
    assert forall|i: int| 0 <= i < outv2.len() implies (#[trigger] outv2[i]).key.0 == z
        && outv2[i].points.to_multiset() == points_under(sv.take(t + 1), outv2[i].key) by {
        lemma_points_under_push(sv.take(t), sv[t], outv2[i].key);
        if i == outv.len() {
            assert(outv2[i] == nb);
            assert(points_under(sv.take(t + 1), p) == points_under(sv.take(t), p).add(
                sv[t].points.to_multiset(),
            ));
            assert(points_under(sv.take(t), p).add(sv[t].points.to_multiset())
                =~= sv[t].points.to_multiset());
        } else {
            assert(outv2[i] == outv[i]);
            assert(outv[i].key != p);
        }
    }
    assert forall|j: int| 0 <= j < t + 1 implies has_key(
        outv2,
        parent_key(#[trigger] sv[j].key),
    ) by {
        if j == t {
            assert(outv2[outv.len() as int].key == parent_key(sv[t].key));
        } else {
            let w = choose|i: int|
                0 <= i < outv.len() && #[trigger] outv[i].key == parent_key(sv[j].key);
            assert(outv2[w].key == parent_key(sv[j].key));
        }
    }
    assert forall|i: int| 0 <= i < outv2.len() implies from_some_child(
        sv,
        t + 1,
        (#[trigger] outv2[i]).key,
    ) by {
        if i == outv.len() {
            assert(parent_key(sv[t].key) == outv2[i].key);
        } else {
            assert(from_some_child(sv, t, outv[i].key));
            let j = choose|j: int| 0 <= j < t && parent_key(#[trigger] sv[j].key) == outv[i].key;
            assert(parent_key(sv[j].key) == outv2[i].key);
        }
    }
}

/// A parent key no child of the prefix maps to collects no points.
proof fn lemma_points_under_empty(
    sv: Seq<TileBucketModel>,
    t: int,
    outv: Seq<TileBucketModel>,
    p: (u8, u32, u32),
)
    requires
        0 <= t <= sv.len(),
        forall|j: int| 0 <= j < t ==> has_key(outv, parent_key(#[trigger] sv[j].key)),
        forall|i: int| 0 <= i < outv.len() ==> (#[trigger] outv[i]).key != p,
    ensures
        points_under(sv.take(t), p) == Multiset::<PointModel>::empty(),
    decreases t,
{
    if t == 0 {
        assert(sv.take(0).len() == 0);
    } else {
        lemma_points_under_empty(sv, t - 1, outv, p);
        assert(sv.take(t) =~= sv.take(t - 1).push(sv[t - 1]));
        lemma_points_under_push(sv.take(t - 1), sv[t - 1], p);
        assert(parent_key(sv[t - 1].key) != p) by {
            if parent_key(sv[t - 1].key) == p {
                let w = choose|i: int|
                    0 <= i < outv.len() && #[trigger] outv[i].key == parent_key(sv[t - 1].key);
            }
        }
        assert(points_under(sv.take(t - 1), p).add(Multiset::<PointModel>::empty())
            =~= points_under(sv.take(t - 1), p));
    }
}

} // verus!
