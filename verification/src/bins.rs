//! Sorting points in time into bins of equal width.

use std::collections::HashMap;
use vstd::prelude::*;

verus! {

broadcast use vstd::std_specs::hash::group_hash_axioms;

/// The points that fall into one bin.
pub struct TimeBin {
    /// Number of the bin: times from `index * width` up to the next bin.
    pub index: u64,
    /// Positions of the points in the bin, ascending.
    pub positions: Vec<usize>,
}

/// The positions of the times that fall into bin `index`, ascending.
pub open spec fn positions_in(times: Seq<u64>, width: u64, index: u64) -> Seq<usize>
    decreases times.len(),
{
    if times.len() == 0 {
        Seq::empty()
    } else {
        let rest = positions_in(times.drop_last(), width, index);
        if times.last() / width == index {
            rest.push((times.len() - 1) as usize)
        } else {
            rest
        }
    }
}

/// Whether a bin has an entry.
pub open spec fn has_bin(bins: Seq<TimeBin>, index: u64) -> bool {
    exists|i: int| 0 <= i < bins.len() && (#[trigger] bins[i]).index == index
}

/// Whether `bins` holds every bin that any time falls into, once, with all its positions.
pub open spec fn is_binning(bins: Seq<TimeBin>, times: Seq<u64>, width: u64) -> bool {
    &&& forall|i: int, j: int|
        0 <= i < j < bins.len() ==> (#[trigger] bins[i]).index != (#[trigger] bins[j]).index
    &&& forall|i: int|
        0 <= i < bins.len() ==> (#[trigger] bins[i]).positions@ == positions_in(
            times,
            width,
            bins[i].index,
        ) && bins[i].positions@.len() > 0
    &&& forall|b: u64|
        (#[trigger] positions_in(times, width, b)).len() > 0 ==> has_bin(bins, b)
}

/// Sorts times into bins of the given width, in the order in which bins are first met.
pub fn bin_times(times: &Vec<u64>, width: u64) -> (r: Vec<TimeBin>)
    requires
        width > 0,
    ensures
        is_binning(r@, times@, width),
{
    let mut bins: Vec<TimeBin> = Vec::new();
    let mut slots: HashMap<u64, usize> = HashMap::new();
    let mut i: usize = 0;
    assert(times@.take(0) =~= Seq::empty());
    while i < times.len()
        invariant
            i <= times@.len(),
            width > 0,
            is_binning(bins@, times@.take(i as int), width),
            forall|b: u64| #[trigger]
                slots@.contains_key(b) ==> slots@[b] < bins@.len() && bins@[slots@[b] as int].index
                    == b,
            forall|k: int|
                0 <= k < bins@.len() ==> slots@.contains_key((#[trigger] bins@[k]).index)
                    && slots@[bins@[k].index] == k,
        decreases times@.len() - i,
    {
        let ghost before = bins@;
        let ghost seen = times@.take(i as int);
        let ghost next = times@.take(i as int + 1);
        assert(next.drop_last() =~= seen);
        let index: u64 = times[i] / width;
        assert(next.last() / width == index);
        let found: Option<usize> = match slots.get(&index) {
            Some(slot) => Some(*slot),
            None => None,
        };
        let slot: usize = match found {
            Some(slot) => slot,
            None => {
                assert(positions_in(seen, width, index).len() == 0) by {
                    if positions_in(seen, width, index).len() > 0 {
                        let k = choose|k: int|
                            0 <= k < before.len() && (#[trigger] before[k]).index == index;
                        assert(slots@.contains_key(before[k].index));
                    }
                }
                let slot: usize = bins.len();
                bins.push(TimeBin { index, positions: Vec::new() });
                slots.insert(index, slot);
                slot
            },
        };
        let ghost mid = bins@;
        bins[slot].positions.push(i);
        proof {
            assert(bins@[slot as int].positions@ == mid[slot as int].positions@.push(i));
            assert(mid[slot as int].positions@ =~= positions_in(seen, width, index));
            assert forall|k: int| 0 <= k < bins@.len() implies (#[trigger] bins@[k]).positions@
                == positions_in(next, width, bins@[k].index) && bins@[k].positions@.len() > 0 by {
                if k != slot {
                    assert(bins@[k] == before[k]);
                    assert(before[k].index != index) by {
                        if before[k].index == index {
                            assert(slots@[before[k].index] == k);
                        }
                    }
                }
            }
            assert forall|a: int, b: int| 0 <= a < b < bins@.len() implies (
            #[trigger] bins@[a]).index != (#[trigger] bins@[b]).index by {
                assert(mid[a].index == bins@[a].index);
                assert(mid[b].index == bins@[b].index);
                if b < before.len() {
                    assert(before[a].index != before[b].index);
                }
            }
            assert forall|b: u64|
                (#[trigger] positions_in(next, width, b)).len() > 0 implies has_bin(bins@, b) by {
                if b == index {
                    assert(bins@[slot as int].index == b);
                } else {
                    assert(positions_in(seen, width, b).len() > 0);
                    let k = choose|k: int|
                        0 <= k < before.len() && (#[trigger] before[k]).index == b;
                    assert(bins@[k].index == b);
                }
            }
        }
        i = i + 1;
    }
    assert(times@.take(times@.len() as int) =~= times@);
    bins
}

/// Every point is in the bin of its time: position `i` is listed there.
pub proof fn every_point_is_binned(times: Seq<u64>, width: u64, i: int)
    requires
        0 <= i < times.len() <= usize::MAX,
        width > 0,
    ensures
        positions_in(times, width, times[i] / width).contains(i as usize),
    decreases times.len(),
{
    let rest = positions_in(times.drop_last(), width, times[i] / width);
    let all = positions_in(times, width, times[i] / width);
    if i == times.len() - 1 {
        assert(all[rest.len() as int] == i as usize);
    } else {
        every_point_is_binned(times.drop_last(), width, i);
        let k = choose|k: int| 0 <= k < rest.len() && rest[k] == i as usize;
        assert(all[k] == i as usize);
    }
}

/// What a bin lists falls into it, and is listed in ascending order.
pub proof fn bins_hold_their_points(times: Seq<u64>, width: u64, index: u64)
    requires
        times.len() <= usize::MAX,
        width > 0,
    ensures
        forall|k: int|
            0 <= k < positions_in(times, width, index).len() ==> (#[trigger] positions_in(
                times,
                width,
                index,
            )[k]) < times.len() && times[positions_in(times, width, index)[k] as int] / width
                == index,
        forall|a: int, b: int|
            0 <= a < b < positions_in(times, width, index).len() ==> (#[trigger] positions_in(
                times,
                width,
                index,
            )[a]) < (#[trigger] positions_in(times, width, index)[b]),
    decreases times.len(),
{
    if times.len() > 0 {
        bins_hold_their_points(times.drop_last(), width, index);
        let rest = positions_in(times.drop_last(), width, index);
        let all = positions_in(times, width, index);
        assert forall|k: int| 0 <= k < all.len() implies (#[trigger] all[k]) < times.len()
            && times[all[k] as int] / width == index by {
            if k < rest.len() {
                assert(all[k] == rest[k]);
                assert(times.drop_last()[rest[k] as int] == times[rest[k] as int]);
            }
        }
        assert forall|a: int, b: int| 0 <= a < b < all.len() implies (#[trigger] all[a]) < (
        #[trigger] all[b]) by {
            assert(all[a] == rest[a]);
            if b < rest.len() {
                assert(all[b] == rest[b]);
            }
        }
    }
}

} // verus!
