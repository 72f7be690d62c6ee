//! Voxel decimation: at most one representative point per voxel cell.
//!
//! The caller grids each point into its voxel (biased so that 21 bits per
//! axis suffice for negative indices) and ranks it by an order-preserving
//! key of its squared distance to the voxel center.  This module keeps,
//! per cell, the entry with the least key — ties broken in favor of the
//! earlier entry — and returns the survivors sorted by the Morton code of
//! their cell.  With 21-bit indices the Morton code identifies the cell
//! (`lemma_morton3_injective`), so the code below speaks of cells through
//! their codes.

use vstd::prelude::*;

use crate::morton::{interleave_bits, morton3};
use crate::point::{Point, PointModel};

verus! {

/// One candidate: a voxel cell (biased indices), the distance rank within
/// the cell, and the point itself.
#[derive(Debug, Clone)]
pub struct VoxelPoint {
    pub vx: u32,
    pub vy: u32,
    pub vz: u32,
    pub dist_key: u64,
    pub point: Point,
}

/// The mathematical value of a `VoxelPoint`.
#[verifier::ext_equal]
pub struct VoxelPointModel {
    pub vx: u32,
    pub vy: u32,
    pub vz: u32,
    pub dist_key: u64,
    pub point: PointModel,
}

impl View for VoxelPoint {
    type V = VoxelPointModel;

    open spec fn view(&self) -> VoxelPointModel {
        VoxelPointModel {
            vx: self.vx,
            vy: self.vy,
            vz: self.vz,
            dist_key: self.dist_key,
            point: self.point@,
        }
    }
}

/// The views of a vector of entries.
pub open spec fn entries_view(s: Seq<VoxelPoint>) -> Seq<VoxelPointModel> {
    s.map_values(|e: VoxelPoint| e@)
}

/// The biased indices fit 21 bits per axis.
pub open spec fn entry_ok(e: VoxelPointModel) -> bool {
    e.vx < 0x200000 && e.vy < 0x200000 && e.vz < 0x200000
}

/// Every entry of the sequence fits.
pub open spec fn entries_ok(s: Seq<VoxelPointModel>) -> bool {
    forall|i: int| 0 <= i < s.len() ==> entry_ok(#[trigger] s[i])
}

/// The cell code of an entry: the Morton code of its voxel indices.
pub open spec fn cell_code(e: VoxelPointModel) -> u64 {
    morton3(e.vx as u64, e.vy as u64, e.vz as u64)
}

/// Strictly increasing cell codes: one entry per cell, in Morton order.
pub open spec fn sorted_distinct(s: Seq<VoxelPointModel>) -> bool {
    forall|i: int, j: int| 0 <= i < j < s.len() ==> cell_code(#[trigger] s[i]) < cell_code(
        #[trigger] s[j],
    )
}

/// The entry at `j` beats every other entry of its cell: a smaller
/// distance key, or an equal key and an earlier position.
pub open spec fn is_winner(s: Seq<VoxelPointModel>, j: int) -> bool {
    &&& 0 <= j < s.len()
    &&& forall|k: int|
        0 <= k < s.len() && k != j && cell_code(#[trigger] s[k]) == cell_code(s[j])
            ==> s[k].dist_key > s[j].dist_key || (s[k].dist_key == s[j].dist_key && k > j)
}

/// Some entry of `s` lies in the cell with code `c`.
pub open spec fn has_cell(s: Seq<VoxelPointModel>, c: u64) -> bool {
    exists|j: int| 0 <= j < s.len() && cell_code(#[trigger] s[j]) == c
}

/// The occupied voxel cells of an entry sequence, as their codes.
pub open spec fn voxel_cells(s: Seq<VoxelPointModel>) -> Set<u64> {
    s.map_values(|e: VoxelPointModel| cell_code(e)).to_set()
}

/// `e` is the winning entry of its cell in `s`.
pub open spec fn picked(s: Seq<VoxelPointModel>, e: VoxelPointModel) -> bool {
    exists|j: int| is_winner(s, j) && s[j] == e
}

/// `e` is the winning entry of its cell among the first `t` entries.
pub open spec fn picked_from(sv: Seq<VoxelPointModel>, t: int, e: VoxelPointModel) -> bool {
    exists|j: int| 0 <= j < t && is_winner(sv.take(t), j) && sv[j] == e
}

/// `output` is a decimation of `input`: per occupied cell exactly the
/// winning entry, in Morton order.
pub open spec fn decimated_from(
    input: Seq<VoxelPointModel>,
    output: Seq<VoxelPointModel>,
) -> bool {
    &&& sorted_distinct(output)
    &&& forall|i: int| 0 <= i < output.len() ==> picked(input, #[trigger] output[i])
    &&& forall|c: u64| #[trigger] has_cell(input, c) <==> has_cell(output, c)
}

/// After `t` entries, every kept entry is a winner of the prefix.
pub open spec fn winners_from(sv: Seq<VoxelPointModel>, t: int, rv: Seq<VoxelPointModel>) -> bool {
    forall|i: int| 0 <= i < rv.len() ==> picked_from(sv, t, #[trigger] rv[i])
}

/// After `t` entries, every seen cell is represented.
pub open spec fn covers(sv: Seq<VoxelPointModel>, t: int, rv: Seq<VoxelPointModel>) -> bool {
    forall|j: int| 0 <= j < t ==> has_cell(rv, cell_code(#[trigger] sv[j]))
}

/// The state of one decimation step: the invariants so far, and the
/// position `pos` where the cell of entry `t` belongs.
spec fn step_ctx(sv: Seq<VoxelPointModel>, t: int, rv: Seq<VoxelPointModel>, pos: int) -> bool {
    &&& 0 <= t < sv.len()
    &&& sorted_distinct(rv)
    &&& winners_from(sv, t, rv)
    &&& covers(sv, t, rv)
    &&& 0 <= pos <= rv.len()
    &&& forall|i: int| 0 <= i < pos ==> cell_code(#[trigger] rv[i]) < cell_code(sv[t])
    &&& pos < rv.len() ==> cell_code(rv[pos]) >= cell_code(sv[t])
}

/// A winner of the prefix stays a winner when the next entry lies in a
/// different cell.
proof fn lemma_winner_extend(sv: Seq<VoxelPointModel>, t: int, j: int)
    requires
        0 <= t < sv.len(),
        0 <= j < t,
        is_winner(sv.take(t), j),
        cell_code(sv[j]) != cell_code(sv[t]),
    ensures
        is_winner(sv.take(t + 1), j),
{
    assert forall|k: int|
        0 <= k < t + 1 && k != j && cell_code(#[trigger] sv.take(t + 1)[k]) == cell_code(
            sv.take(t + 1)[j],
        ) implies sv.take(t + 1)[k].dist_key > sv.take(t + 1)[j].dist_key || (sv.take(
        t + 1,
    )[k].dist_key == sv.take(t + 1)[j].dist_key && k > j) by {
        assert(sv.take(t + 1)[k] == sv[k] && sv.take(t + 1)[j] == sv[j]);
        assert(k < t);
        assert(sv.take(t)[k] == sv[k] && sv.take(t)[j] == sv[j]);
    }
}

/// When no kept entry lies in the cell of entry `t`, no earlier entry
/// does either, and entry `t` wins its cell.
proof fn lemma_new_cell_winner(sv: Seq<VoxelPointModel>, t: int, rv: Seq<VoxelPointModel>)
    requires
        0 <= t < sv.len(),
        covers(sv, t, rv),
        forall|i: int| 0 <= i < rv.len() ==> cell_code(#[trigger] rv[i]) != cell_code(sv[t]),
    ensures
        is_winner(sv.take(t + 1), t),
        forall|k: int| 0 <= k < t ==> cell_code(#[trigger] sv[k]) != cell_code(sv[t]),
{
    assert forall|k: int| 0 <= k < t implies cell_code(#[trigger] sv[k]) != cell_code(sv[t]) by {
        if cell_code(sv[k]) == cell_code(sv[t]) {
            assert(has_cell(rv, cell_code(sv[k])));
            let w = choose|i: int|
                0 <= i < rv.len() && cell_code(#[trigger] rv[i]) == cell_code(sv[k]);
            assert(cell_code(rv[w]) != cell_code(sv[t]));
        }
    }
    assert forall|k: int|
        0 <= k < t + 1 && k != t && cell_code(#[trigger] sv.take(t + 1)[k]) == cell_code(
            sv.take(t + 1)[t],
        ) implies false by {
        assert(sv.take(t + 1)[k] == sv[k] && sv.take(t + 1)[t] == sv[t]);
    }
}

/// Inserting entry `t` at `pos` keeps the step invariants, when its cell
/// is new.
proof fn lemma_step_insert(sv: Seq<VoxelPointModel>, t: int, rv: Seq<VoxelPointModel>, pos: int)
    requires
        step_ctx(sv, t, rv, pos),
        pos < rv.len() ==> cell_code(rv[pos]) > cell_code(sv[t]),
    ensures
        sorted_distinct(rv.insert(pos, sv[t])),
        winners_from(sv, t + 1, rv.insert(pos, sv[t])),
        covers(sv, t + 1, rv.insert(pos, sv[t])),
{
    let c = cell_code(sv[t]);
    let rv2 = rv.insert(pos, sv[t]);
    rv.insert_ensures(pos, sv[t]);
    assert forall|i: int| 0 <= i < rv.len() implies cell_code(#[trigger] rv[i]) != c by {
        if i > pos {
            assert(cell_code(rv[pos]) < cell_code(rv[i]));
        }
    }
    lemma_new_cell_winner(sv, t, rv);
    assert forall|i: int, j: int| 0 <= i < j < rv2.len() implies cell_code(#[trigger] rv2[i])
        < cell_code(#[trigger] rv2[j]) by {
        if j < pos {
        } else if i < pos && j == pos {
            assert(rv2[i] == rv[i]);
        } else if i < pos {
            assert(rv2[i] == rv[i] && rv2[j] == rv[j - 1]);
            assert(cell_code(rv[j - 1]) != c);
        } else if i == pos {
            assert(rv2[j] == rv[j - 1]);
            assert(cell_code(rv[j - 1]) >= c && cell_code(rv[j - 1]) != c);
        } else {
            assert(rv2[i] == rv[i - 1] && rv2[j] == rv[j - 1]);
        }
    }
    assert forall|i: int| 0 <= i < rv2.len() implies picked_from(sv, t + 1, #[trigger] rv2[i]) by {
        if i == pos {
            assert(rv2[i] == sv[t]);
            assert(0 <= t < t + 1 && is_winner(sv.take(t + 1), t) && sv[t] == rv2[i]);
        } else {
            let iold: int = if i < pos {
                i
            } else {
                i - 1
            };
            assert(rv2[i] == rv[iold]);
            assert(picked_from(sv, t, rv[iold]));
            let j = choose|j: int| 0 <= j < t && is_winner(sv.take(t), j) && sv[j] == rv[iold];
            assert(cell_code(sv[j]) != c);
            lemma_winner_extend(sv, t, j);
            assert(0 <= j < t + 1 && is_winner(sv.take(t + 1), j) && sv[j] == rv2[i]);
        }
    }
    assert forall|j: int| 0 <= j < t + 1 implies has_cell(rv2, cell_code(#[trigger] sv[j])) by {
        if j == t {
            assert(cell_code(rv2[pos]) == cell_code(sv[t]));
        } else {
            let w = choose|i: int|
                0 <= i < rv.len() && cell_code(#[trigger] rv[i]) == cell_code(sv[j]);
            let w2: int = if w < pos {
                w
            } else {
                w + 1
            };
            assert(rv2[w2] == rv[w]);
        }
    }
}

/// Replacing the kept entry of a cell by a strictly closer one keeps the
/// step invariants.
proof fn lemma_step_replace(sv: Seq<VoxelPointModel>, t: int, rv: Seq<VoxelPointModel>, pos: int)
    requires
        step_ctx(sv, t, rv, pos),
        pos < rv.len(),
        cell_code(rv[pos]) == cell_code(sv[t]),
        sv[t].dist_key < rv[pos].dist_key,
    ensures
        sorted_distinct(rv.update(pos, sv[t])),
        winners_from(sv, t + 1, rv.update(pos, sv[t])),
        covers(sv, t + 1, rv.update(pos, sv[t])),
{
    let c = cell_code(sv[t]);
    let rv2 = rv.update(pos, sv[t]);
    assert(picked_from(sv, t, rv[pos]));
    let j0 = choose|j: int| 0 <= j < t && is_winner(sv.take(t), j) && sv[j] == rv[pos];
    assert forall|i: int, j: int| 0 <= i < j < rv2.len() implies cell_code(#[trigger] rv2[i])
        < cell_code(#[trigger] rv2[j]) by {
        assert(cell_code(rv2[i]) == cell_code(rv[i]) && cell_code(rv2[j]) == cell_code(rv[j]));
    }
    assert(is_winner(sv.take(t + 1), t)) by {
        assert forall|k: int|
            0 <= k < t + 1 && k != t && cell_code(#[trigger] sv.take(t + 1)[k]) == cell_code(
                sv.take(t + 1)[t],
            ) implies sv.take(t + 1)[k].dist_key > sv.take(t + 1)[t].dist_key by {
            assert(sv.take(t + 1)[k] == sv[k] && sv.take(t + 1)[t] == sv[t]);
            if k != j0 {
                assert(sv.take(t)[k] == sv[k] && sv.take(t)[j0] == sv[j0]);
                assert(sv[k].dist_key >= sv[j0].dist_key);
            }
            assert(sv[j0].dist_key == rv[pos].dist_key);
        }
    }
    assert forall|i: int| 0 <= i < rv2.len() implies picked_from(sv, t + 1, #[trigger] rv2[i]) by {
        if i == pos {
            assert(rv2[i] == sv[t]);
            assert(0 <= t < t + 1 && is_winner(sv.take(t + 1), t) && sv[t] == rv2[i]);
        } else {
            assert(rv2[i] == rv[i]);
            assert(picked_from(sv, t, rv[i]));
            let j = choose|j: int| 0 <= j < t && is_winner(sv.take(t), j) && sv[j] == rv[i];
            assert(cell_code(sv[j]) != c) by {
                if i < pos {
                    assert(cell_code(rv[i]) < c);
                } else {
                    assert(cell_code(rv[pos]) < cell_code(rv[i]));
                }
            }
            lemma_winner_extend(sv, t, j);
            assert(0 <= j < t + 1 && is_winner(sv.take(t + 1), j) && sv[j] == rv2[i]);
        }
    }
    assert forall|j: int| 0 <= j < t + 1 implies has_cell(rv2, cell_code(#[trigger] sv[j])) by {
        if j == t {
            assert(cell_code(rv2[pos]) == cell_code(sv[t]));
        } else {
            let w = choose|i: int|
                0 <= i < rv.len() && cell_code(#[trigger] rv[i]) == cell_code(sv[j]);
            assert(cell_code(rv2[w]) == cell_code(sv[j])) by {
                if w == pos {
                    assert(cell_code(rv[w]) == c);
                }
            }
        }
    }
}

/// Keeping the current entry of a cell — the new one is no closer — keeps
/// the step invariants.
proof fn lemma_step_keep(sv: Seq<VoxelPointModel>, t: int, rv: Seq<VoxelPointModel>, pos: int)
    requires
        step_ctx(sv, t, rv, pos),
        pos < rv.len(),
        cell_code(rv[pos]) == cell_code(sv[t]),
        sv[t].dist_key >= rv[pos].dist_key,
    ensures
        winners_from(sv, t + 1, rv),
        covers(sv, t + 1, rv),
{
    let c = cell_code(sv[t]);
    assert(picked_from(sv, t, rv[pos]));
    let j0 = choose|j: int| 0 <= j < t && is_winner(sv.take(t), j) && sv[j] == rv[pos];
    assert(is_winner(sv.take(t + 1), j0)) by {
        assert forall|k: int|
            0 <= k < t + 1 && k != j0 && cell_code(#[trigger] sv.take(t + 1)[k]) == cell_code(
                sv.take(t + 1)[j0],
            ) implies sv.take(t + 1)[k].dist_key > sv.take(t + 1)[j0].dist_key || (sv.take(
            t + 1,
        )[k].dist_key == sv.take(t + 1)[j0].dist_key && k > j0) by {
            assert(sv.take(t + 1)[k] == sv[k] && sv.take(t + 1)[j0] == sv[j0]);
            if k < t {
                assert(sv.take(t)[k] == sv[k] && sv.take(t)[j0] == sv[j0]);
            } else {
                assert(k == t);
                assert(sv[j0].dist_key == rv[pos].dist_key);
            }
        }
    }
    assert forall|i: int| 0 <= i < rv.len() implies picked_from(sv, t + 1, #[trigger] rv[i]) by {
        if i == pos {
            assert(0 <= j0 < t + 1 && is_winner(sv.take(t + 1), j0) && sv[j0] == rv[i]);
        } else {
            assert(picked_from(sv, t, rv[i]));
            let j = choose|j: int| 0 <= j < t && is_winner(sv.take(t), j) && sv[j] == rv[i];
            assert(cell_code(sv[j]) != c) by {
                if i < pos {
                    assert(cell_code(rv[i]) < c);
                } else {
                    assert(cell_code(rv[pos]) < cell_code(rv[i]));
                }
            }
            lemma_winner_extend(sv, t, j);
            assert(0 <= j < t + 1 && is_winner(sv.take(t + 1), j) && sv[j] == rv[i]);
        }
    }
    assert forall|j: int| 0 <= j < t + 1 implies has_cell(rv, cell_code(#[trigger] sv[j])) by {
        if j == t {
            assert(cell_code(rv[pos]) == cell_code(sv[t]));
        }
    }
}

/// The step invariants at the end of the input give a decimation.
proof fn lemma_finish(sv: Seq<VoxelPointModel>, rv: Seq<VoxelPointModel>)
    requires
        sorted_distinct(rv),
        winners_from(sv, sv.len() as int, rv),
        covers(sv, sv.len() as int, rv),
    ensures
        decimated_from(sv, rv),
{
    let t = sv.len() as int;
    assert(sv.take(t) =~= sv);
    assert forall|i: int| 0 <= i < rv.len() implies picked(sv, #[trigger] rv[i]) by {
        assert(picked_from(sv, t, rv[i]));
        let j = choose|j: int| 0 <= j < t && is_winner(sv.take(t), j) && sv[j] == rv[i];
        assert(is_winner(sv, j) && sv[j] == rv[i]);
    }
    assert forall|c: u64| #[trigger] has_cell(sv, c) implies has_cell(rv, c) by {
        let j = choose|j: int| 0 <= j < sv.len() && cell_code(#[trigger] sv[j]) == c;
        assert(has_cell(rv, cell_code(sv[j])));
    }
    assert forall|c: u64| #[trigger] has_cell(rv, c) implies has_cell(sv, c) by {
        let i = choose|i: int| 0 <= i < rv.len() && cell_code(#[trigger] rv[i]) == c;
        assert(picked_from(sv, t, rv[i]));
        let j = choose|j: int| 0 <= j < t && is_winner(sv.take(t), j) && sv[j] == rv[i];
        assert(cell_code(sv[j]) == c);
    }
    assert(forall|c: u64| #[trigger] has_cell(sv, c) <==> has_cell(rv, c));
}

/// The views of a vector after removing its first element.
proof fn lemma_view_tail(s0: Seq<VoxelPoint>, sv: Seq<VoxelPointModel>, t: int)
    requires
        0 <= t <= sv.len(),
        entries_view(s0) == sv.skip(t),
        s0.len() > 0,
    ensures
        entries_view(s0.remove(0)) == sv.skip(t + 1),
        s0[0]@ == sv[t],
{
    s0.remove_ensures(0);
    assert(entries_view(s0).len() == s0.len());
    assert(sv.skip(t).len() == sv.len() - t);
    assert(t < sv.len());
    assert(entries_view(s0)[0] == s0[0]@);
    assert(sv.skip(t)[0] == sv[t + 0]);
    assert(entries_view(s0.remove(0)) =~= sv.skip(t + 1)) by {
        assert forall|i: int| 0 <= i < s0.len() - 1 implies #[trigger] entries_view(
            s0.remove(0),
        )[i] == sv.skip(t + 1)[i] by {
            assert(s0.remove(0)[i] == s0[i + 1]);
            assert(entries_view(s0)[i + 1] == s0[i + 1]@);
            assert(sv.skip(t)[i + 1] == sv[t + i + 1]);
            assert(sv.skip(t + 1)[i] == sv[t + 1 + i]);
        }
    }
}

/// The views of a vector after inserting an element.
proof fn lemma_view_insert(s0: Seq<VoxelPoint>, pos: int, e: VoxelPoint)
    requires
        0 <= pos <= s0.len(),
    ensures
        entries_view(s0.insert(pos, e)) == entries_view(s0).insert(pos, e@),
{
    s0.insert_ensures(pos, e);
    entries_view(s0).insert_ensures(pos, e@);
    assert(entries_view(s0.insert(pos, e)) =~= entries_view(s0).insert(pos, e@)) by {
        assert forall|i: int| 0 <= i < s0.len() + 1 implies #[trigger] entries_view(
            s0.insert(pos, e),
        )[i] == entries_view(s0).insert(pos, e@)[i] by {
            if i < pos {
                assert(s0.insert(pos, e)[i] == s0[i]);
            } else if i == pos {
                assert(s0.insert(pos, e)[i] == e);
            } else {
                assert(s0.insert(pos, e)[(i - 1) + 1] == s0[i - 1]);
                assert(entries_view(s0).insert(pos, e@)[(i - 1) + 1] == entries_view(s0)[i - 1]);
            }
        }
    }
}

/// The views of a vector after overwriting one element.
proof fn lemma_view_update(s0: Seq<VoxelPoint>, pos: int, e: VoxelPoint)
    requires
        0 <= pos < s0.len(),
    ensures
        entries_view(s0.update(pos, e)) == entries_view(s0).update(pos, e@),
{
    assert(entries_view(s0.update(pos, e)) =~= entries_view(s0).update(pos, e@));
}

/// A decimation holds at most one entry per occupied voxel cell of its
/// input.
pub proof fn lemma_decimate_cell_bound(
    input: Seq<VoxelPointModel>,
    output: Seq<VoxelPointModel>,
)
    requires
        decimated_from(input, output),
    ensures
        output.len() <= voxel_cells(input).len(),
{
    let oc = output.map_values(|e: VoxelPointModel| cell_code(e));
    let ic = input.map_values(|e: VoxelPointModel| cell_code(e));
    assert(oc.no_duplicates()) by {
        assert forall|i: int, j: int|
            0 <= i < oc.len() && 0 <= j < oc.len() && i != j implies oc[i] != oc[j] by {
            assert(oc[i] == cell_code(output[i]) && oc[j] == cell_code(output[j]));
        }
    }
    oc.unique_seq_to_set();
    assert(oc.to_set().subset_of(ic.to_set())) by {
        assert forall|c: u64| oc.to_set().contains(c) implies ic.to_set().contains(c) by {
            let i = choose|i: int| 0 <= i < oc.len() && oc[i] == c;
            assert(cell_code(output[i]) == c);
            assert(has_cell(output, c));
            assert(has_cell(input, c));
            let j = choose|j: int| 0 <= j < input.len() && cell_code(#[trigger] input[j]) == c;
            assert(ic[j] == c);
        }
    }
    vstd::seq_lib::seq_to_set_is_finite(ic);
    vstd::set_lib::lemma_len_subset(oc.to_set(), ic.to_set());
}

/// Two sequences in strict Morton order over the same occupied cells have
/// the same cells position by position.
proof fn lemma_sorted_same_cells(a: Seq<VoxelPointModel>, b: Seq<VoxelPointModel>)
    requires
        sorted_distinct(a),
        sorted_distinct(b),
        forall|c: u64| #[trigger] has_cell(a, c) <==> has_cell(b, c),
    ensures
        a.len() == b.len(),
        forall|i: int| 0 <= i < a.len() ==> cell_code(#[trigger] a[i]) == cell_code(b[i]),
    decreases a.len(),
{
    if a.len() == 0 {
        if b.len() > 0 {
            assert(has_cell(b, cell_code(b[0])));
            assert(has_cell(a, cell_code(b[0])));
        }
    } else {
        assert(has_cell(a, cell_code(a[0])));
        assert(has_cell(b, cell_code(a[0])));
        let jb = choose|j: int| 0 <= j < b.len() && cell_code(#[trigger] b[j]) == cell_code(a[0]);
        assert(has_cell(b, cell_code(b[0])));
        assert(has_cell(a, cell_code(b[0])));
        let ja = choose|j: int| 0 <= j < a.len() && cell_code(#[trigger] a[j]) == cell_code(b[0]);
        assert(cell_code(a[0]) <= cell_code(a[ja]));
        assert(cell_code(b[0]) <= cell_code(b[jb]));
        assert(cell_code(a[0]) == cell_code(b[0]));
        let a1 = a.skip(1);
        let b1 = b.skip(1);
        assert(sorted_distinct(a1)) by {
            assert(forall|i: int| 0 <= i < a1.len() ==> #[trigger] a1[i] == a[i + 1]);
        }
        assert(sorted_distinct(b1)) by {
            assert(forall|i: int| 0 <= i < b1.len() ==> #[trigger] b1[i] == b[i + 1]);
        }
        assert forall|c: u64| #[trigger] has_cell(a1, c) implies has_cell(b1, c) by {
            let i = choose|i: int| 0 <= i < a1.len() && cell_code(#[trigger] a1[i]) == c;
            assert(a1[i] == a[i + 1]);
            assert(cell_code(a[0]) < c);
            assert(has_cell(a, c));
            assert(has_cell(b, c));
            let j = choose|j: int| 0 <= j < b.len() && cell_code(#[trigger] b[j]) == c;
            assert(j >= 1);
            assert(b1[j - 1] == b[j]);
            assert(cell_code(b1[j - 1]) == c);
        }
        assert forall|c: u64| #[trigger] has_cell(b1, c) implies has_cell(a1, c) by {
            let i = choose|i: int| 0 <= i < b1.len() && cell_code(#[trigger] b1[i]) == c;
            assert(b1[i] == b[i + 1]);
            assert(cell_code(b[0]) < c);
            assert(has_cell(b, c));
            assert(has_cell(a, c));
            let j = choose|j: int| 0 <= j < a.len() && cell_code(#[trigger] a[j]) == c;
            assert(j >= 1);
            assert(a1[j - 1] == a[j]);
            assert(cell_code(a1[j - 1]) == c);
        }
        lemma_sorted_same_cells(a1, b1);
        assert forall|i: int| 0 <= i < a.len() implies cell_code(#[trigger] a[i]) == cell_code(
            b[i],
        ) by {
            if i > 0 {
                assert(a1[i - 1] == a[i] && b1[i - 1] == b[i]);
                assert(cell_code(a1[i - 1]) == cell_code(b1[i - 1]));
            }
        }
    }
}

/// Decimating a decimated sequence changes nothing: every entry already
/// stands alone in its cell and is its own winner.
pub proof fn lemma_decimate_idempotent(
    input: Seq<VoxelPointModel>,
    once: Seq<VoxelPointModel>,
    twice: Seq<VoxelPointModel>,
)
    requires
        decimated_from(input, once),
        decimated_from(once, twice),
    ensures
        twice == once,
{
    lemma_sorted_same_cells(once, twice);
    assert forall|i: int| 0 <= i < twice.len() implies twice[i] == once[i] by {
        assert(picked(once, twice[i]));
        let j = choose|j: int| is_winner(once, j) && once[j] == twice[i];
        assert(cell_code(once[j]) == cell_code(twice[i]));
        assert(cell_code(twice[i]) == cell_code(once[i]));
        assert(j == i) by {
            if j < i {
                assert(cell_code(once[j]) < cell_code(once[i]));
            } else if j > i {
                assert(cell_code(once[i]) < cell_code(once[j]));
            }
        }
    }
    assert(twice =~= once);
}

/// Values below `2^21` pass the 21-bit mask unchanged.
proof fn lemma_mask21(v: u64)
    ensures
        v < 0x200000 ==> v & 0x1fffff == v,
{
    assert(v < 0x200000 ==> v & 0x1fffff == v) by (bit_vector);
}

/// The cell code of one entry.
fn cell_code_exec(e: &VoxelPoint) -> (c: u64)
    requires
        entry_ok(e@),
    ensures
        c == cell_code(e@),
{
    proof {
        lemma_mask21(e.vx as u64);
        lemma_mask21(e.vy as u64);
        lemma_mask21(e.vz as u64);
    }
    interleave_bits(e.vx, e.vy, e.vz)
}

/// The position where an entry with cell code `c` belongs in `r`.
fn find_pos(r: &Vec<VoxelPoint>, c: u64) -> (pos: usize)
    requires
        entries_ok(entries_view(r@)),
    ensures
        pos <= r@.len(),
        forall|i: int| 0 <= i < pos ==> cell_code(#[trigger] entries_view(r@)[i]) < c,
        pos < r@.len() ==> cell_code(entries_view(r@)[pos as int]) >= c,
{
    let mut pos: usize = 0;
    while pos < r.len()
        invariant
            pos <= r@.len(),
            entries_ok(entries_view(r@)),
            forall|i: int| 0 <= i < pos ==> cell_code(#[trigger] entries_view(r@)[i]) < c,
        decreases r@.len() - pos,
    {
        proof {
            assert(entries_view(r@)[pos as int] == r@[pos as int]@);
        }
        let cc = cell_code_exec(&r[pos]);
        if cc >= c {
            return pos;
        }
        pos = pos + 1;
    }
    pos
}

/// Keep, per voxel cell, the entry with the least distance key — ties in
/// favor of the earlier entry — and return the survivors in Morton order
/// of their cells.
pub fn decimate_by_voxel(entries: Vec<VoxelPoint>) -> (r: Vec<VoxelPoint>)
    requires
        entries_ok(entries_view(entries@)),
    ensures
        decimated_from(entries_view(entries@), entries_view(r@)),
        entries_ok(entries_view(r@)),
{
    let ghost sv = entries_view(entries@);
    let mut rest = entries;
    let mut r: Vec<VoxelPoint> = Vec::new();
    let ghost mut t: int = 0;
    proof {
        assert(entries_view(rest@) =~= sv.skip(0));
        assert(entries_view(r@) =~= Seq::<VoxelPointModel>::empty());
    }
    while rest.len() > 0
        invariant
            0 <= t <= sv.len(),
            entries_ok(sv),
            entries_view(rest@) == sv.skip(t),
            entries_view(rest@).len() == rest@.len(),
            sorted_distinct(entries_view(r@)),
            entries_ok(entries_view(r@)),
            winners_from(sv, t, entries_view(r@)),
            covers(sv, t, entries_view(r@)),
        decreases rest.len(),
    {
        let ghost rv = entries_view(r@);
        proof {
            lemma_view_tail(rest@, sv, t);
        }
        let e = rest.remove(0);
        proof {
            assert(e@ == sv[t]);
            assert(entry_ok(sv[t]));
        }
        let c = cell_code_exec(&e);
        let pos = find_pos(&r, c);
        proof {
            assert(step_ctx(sv, t, rv, pos as int));
        }
        let mut same_cell = false;
        if pos < r.len() {
            proof {
                assert(entries_view(r@)[pos as int] == r@[pos as int]@);
            }
            let cpos = cell_code_exec(&r[pos]);
            if cpos == c {
                same_cell = true;
            }
        }
        if same_cell {
            if e.dist_key < r[pos].dist_key {
                proof {
                    lemma_step_replace(sv, t, rv, pos as int);
                    lemma_view_update(r@, pos as int, e);
                }
                r[pos] = e;
            } else {
                proof {
                    lemma_step_keep(sv, t, rv, pos as int);
                }
            }
        } else {
            proof {
                if pos < r.len() {
                    assert(cell_code(rv[pos as int]) != c);
                }
                lemma_step_insert(sv, t, rv, pos as int);
            }
            proof {
                lemma_view_insert(r@, pos as int, e);
            }
            r.insert(pos, e);
        }
        proof {
            t = t + 1;
        }
    }
    proof {
        assert(sv.skip(t).len() == 0);
        assert(t == sv.len());
        lemma_finish(sv, entries_view(r@));
    }
    r
}

} // verus!
