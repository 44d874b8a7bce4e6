//! The selection engine: picks a subset of spendable inputs whose combined
//! value dominates a required total on every dimension.
//!
//! [`select`] works in two greedy phases.  First, for each asset the
//! requirement names, it draws the still-unselected input holding the least
//! positive amount of that asset until the per-asset requirement is met.
//! Then, if the base-quantity requirement is still short, it draws further
//! inputs ascending by base quantity.  Drawn inputs keep their draw order in
//! `selected`; everything else stays, in its original relative order, in
//! `unselected`.  The excess is the difference between the combined selected
//! records and the requirement.

use vstd::prelude::*;
use crate::record::{
    asset_qty, keys_unique, lemma_entries_absent, lemma_entries_nonneg, lemma_entries_unique_at,
    lemma_record_bounds, AssetId, Record,
};
use crate::total::{
    acc_add, combine, difference, fits, has_key, lemma_sum_asset_zero, lemma_sum_nonneg,
    lemma_sum_push, lemma_sum_remove, lemma_sum_take_step, sum_asset, sum_quantity,
};

verus! {

/// The records of `s` together dominate `target + threshold`: their summed
/// base quantity and their summed holding of every asset each meet it.
pub open spec fn dominates(s: Seq<Record>, target: Record, threshold: Record) -> bool {
    &&& sum_quantity(s) >= target.quantity + threshold.quantity
    &&& forall|k: (Seq<char>, Seq<char>)| #[trigger] sum_asset(s, k) >= asset_qty(target, k)
        + asset_qty(threshold, k)
}

/// The requirement `target + threshold` is itself representable in `u64` on
/// every dimension.
pub open spec fn requirement_fits(target: Record, threshold: Record) -> bool {
    &&& target.quantity + threshold.quantity <= u64::MAX
    &&& forall|k: (Seq<char>, Seq<char>)| #[trigger] asset_qty(target, k) + asset_qty(
        threshold,
        k,
    ) <= u64::MAX
}

/// A successful selection: the drawn inputs, the rest in their original
/// relative order, and the surplus left after meeting the requirement.
pub struct Selection {
    /// The drawn inputs, in draw order.
    pub selected: Vec<Record>,
    /// The inputs left over, in their original relative order.
    pub unselected: Vec<Record>,
    /// `combine(selected) - (target + threshold)`, a synthetic record.
    pub excess: Record,
}

/// How far `have` still is from `need`, floored at zero.
pub open spec fn shortfall(need: int, have: int) -> int {
    if need > have {
        need - have
    } else {
        0
    }
}

/// `a` is `b` with zero or more records left out: the records of `a` appear
/// in `b` in the same relative order.
pub open spec fn subsequence_of(a: Seq<Record>, b: Seq<Record>) -> bool
    decreases a.len() + b.len(),
{
    if a.len() == 0 {
        true
    } else if b.len() == 0 {
        false
    } else if a.last() == b.last() {
        subsequence_of(a.drop_last(), b.drop_last())
    } else {
        subsequence_of(a, b.drop_last())
    }
}

pub proof fn lemma_subsequence_refl(s: Seq<Record>)
    ensures
        subsequence_of(s, s),
    decreases s.len(),
{
    if s.len() > 0 {
        lemma_subsequence_refl(s.drop_last());
    }
}

/// A subsequence of `y` without its last record is one of `y` as well.
pub proof fn lemma_subsequence_widen(x: Seq<Record>, y: Seq<Record>)
    requires
        y.len() > 0,
        subsequence_of(x, y.drop_last()),
    ensures
        subsequence_of(x, y),
    decreases x.len() + y.len(),
{
    if x.len() > 0 && x.last() == y.last() {
        lemma_subsequence_shrink(x, y.drop_last());
    }
}

/// Dropping the last record of a subsequence keeps it one.
pub proof fn lemma_subsequence_shrink(x: Seq<Record>, y: Seq<Record>)
    requires
        x.len() > 0,
        subsequence_of(x, y),
    ensures
        subsequence_of(x.drop_last(), y),
    decreases x.len() + y.len(),
{
    if x.last() == y.last() {
        lemma_subsequence_widen(x.drop_last(), y);
    } else {
        lemma_subsequence_shrink(x, y.drop_last());
        lemma_subsequence_widen(x.drop_last(), y);
    }
}

/// Removing any record of a subsequence keeps it one.
pub proof fn lemma_subsequence_remove(a: Seq<Record>, b: Seq<Record>, i: int)
    requires
        subsequence_of(a, b),
        0 <= i < a.len(),
    ensures
        subsequence_of(a.remove(i), b),
    decreases b.len(),
{
    if i == a.len() - 1 {
        assert(a.remove(i) =~= a.drop_last());
        lemma_subsequence_shrink(a, b);
    } else {
        if a.last() == b.last() {
            lemma_subsequence_remove(a.drop_last(), b.drop_last(), i);
            assert(a.remove(i).drop_last() =~= a.drop_last().remove(i));
            assert(a.remove(i).last() == b.last());
        } else {
            lemma_subsequence_remove(a, b.drop_last(), i);
            lemma_subsequence_widen(a.remove(i), b);
        }
    }
}

/// The index of a still-unselected record holding the least positive amount
/// of asset `key`, if any record holds a positive amount at all.
fn pick_asset_holder(remaining: &Vec<Record>, key: &AssetId) -> (r: Option<usize>)
    requires
        forall|i: int| 0 <= i < remaining@.len() ==> keys_unique(#[trigger] remaining@[i]),
    ensures
        match r {
            Some(b) => {
                &&& 0 <= b < remaining@.len()
                &&& asset_qty(remaining@[b as int], key@) > 0
                &&& forall|j: int|
                    0 <= j < remaining@.len() && asset_qty(#[trigger] remaining@[j], key@) > 0
                        ==> asset_qty(remaining@[b as int], key@) <= asset_qty(remaining@[j], key@)
            },
            None => forall|j: int|
                0 <= j < remaining@.len() ==> asset_qty(#[trigger] remaining@[j], key@) == 0,
        },
{
    let n = remaining.len();
    let mut best: Option<usize> = None;
    let mut best_qty: u64 = 0;
    let mut i: usize = 0;
    while i < n
        invariant
            0 <= i <= n,
            n == remaining@.len(),
            forall|j: int| 0 <= j < remaining@.len() ==> keys_unique(#[trigger] remaining@[j]),
            match best {
                Some(b) => {
                    &&& 0 <= b < i
                    &&& best_qty as int == asset_qty(remaining@[b as int], key@)
                    &&& best_qty > 0
                    &&& forall|j: int|
                        0 <= j < i && asset_qty(#[trigger] remaining@[j], key@) > 0 ==> best_qty
                            as int <= asset_qty(remaining@[j], key@)
                },
                None => forall|j: int|
                    0 <= j < i ==> asset_qty(#[trigger] remaining@[j], key@) == 0,
            },
        decreases n - i,
    {
        let q = remaining[i].asset_of(key);
        if q > 0 {
            match best {
                Some(b) => {
                    if q < best_qty {
                        best = Some(i);
                        best_qty = q;
                    }
                },
                None => {
                    best = Some(i);
                    best_qty = q;
                },
            }
        } else {
            proof {
                lemma_entries_nonneg(remaining@[i as int].assets@, key@);
            }
        }
        i = i + 1;
    }
    best
}

/// The index of a record with the least base quantity.
fn pick_smallest_quantity(remaining: &Vec<Record>) -> (b: usize)
    requires
        remaining@.len() > 0,
    ensures
        0 <= b < remaining@.len(),
        forall|j: int|
            0 <= j < remaining@.len() ==> remaining@[b as int].quantity <= (
            #[trigger] remaining@[j]).quantity,
{
    let n = remaining.len();
    let mut best: usize = 0;
    let mut i: usize = 1;
    while i < n
        invariant
            0 <= best < i <= n,
            n == remaining@.len(),
            forall|j: int|
                0 <= j < i ==> remaining@[best as int].quantity <= (
                #[trigger] remaining@[j]).quantity,
        decreases n - i,
    {
        if remaining[i].quantity < remaining[best].quantity {
            best = i;
        }
        i = i + 1;
    }
    best
}

/// Moves the record at `b` from `remaining` to the end of `selected`,
/// maintaining the partition of the original inputs.
fn draw(remaining: &mut Vec<Record>, selected: &mut Vec<Record>, b: usize)
    requires
        0 <= b < old(remaining)@.len(),
    ensures
        ({
            let drawn = old(remaining)@[b as int];
            &&& final(remaining)@ == old(remaining)@.remove(b as int)
            &&& final(selected)@ == old(selected)@.push(drawn)
            &&& final(selected)@.to_multiset().add(final(remaining)@.to_multiset()) == old(
                selected,
            )@.to_multiset().add(old(remaining)@.to_multiset())
            &&& sum_quantity(final(selected)@) == sum_quantity(old(selected)@) + drawn.quantity
            &&& sum_quantity(final(remaining)@) == sum_quantity(old(remaining)@) - drawn.quantity
            &&& forall|k: (Seq<char>, Seq<char>)| #[trigger] sum_asset(final(selected)@, k)
                == sum_asset(old(selected)@, k) + asset_qty(drawn, k)
            &&& forall|k: (Seq<char>, Seq<char>)| #[trigger] sum_asset(final(remaining)@, k)
                == sum_asset(old(remaining)@, k) - asset_qty(drawn, k)
        }),
{
    let rec = remaining.remove(b);
    proof {
        broadcast use vstd::seq_lib::group_to_multiset_ensures;

        lemma_sum_remove(old(remaining)@, b as int);
        lemma_sum_push(selected@, rec);
        assert(old(remaining)@.remove(b as int).to_multiset() =~= old(
            remaining,
        )@.to_multiset().remove(rec));
    }
    let ghost sel0 = selected@;
    selected.push(rec);
    proof {
        assert(selected@.to_multiset() =~= sel0.to_multiset().insert(rec));
        assert(selected@.to_multiset().add(remaining@.to_multiset()) =~= sel0.to_multiset().add(
            old(remaining)@.to_multiset(),
        ));
    }
}

/// Chooses a subset of `inputs` whose combined value dominates
/// `target + threshold` on the base quantity and on every asset the
/// requirement names, greedily and deterministically, favouring small
/// holders to keep the overshoot low.
///
/// On success the result partitions the inputs (selected in draw order,
/// unselected in original order) and carries the excess,
/// `combine(selected) - (target + threshold)`.  `None` is the normal
/// "insufficient funds" answer: it comes whenever the inputs do not dominate
/// the requirement, and also when the requirement itself, or the combined
/// selection, cannot be represented.  Whenever the requirement and the total
/// of all inputs are representable and the inputs dominate the requirement,
/// selection succeeds.
#[verifier::loop_isolation(false)]
pub fn select(inputs: Vec<Record>, target: &Record, threshold: &Record) -> (r: Option<Selection>)
    requires
        keys_unique(*target),
        keys_unique(*threshold),
        forall|i: int| 0 <= i < inputs@.len() ==> keys_unique(#[trigger] inputs@[i]),
    ensures
        r matches Some(sel) ==> {
            &&& sel.selected@.to_multiset().add(sel.unselected@.to_multiset())
                == inputs@.to_multiset()
            &&& dominates(sel.selected@, *target, *threshold)
            &&& sel.excess.quantity == sum_quantity(sel.selected@) - (target.quantity
                + threshold.quantity)
            &&& forall|k: (Seq<char>, Seq<char>)| #[trigger] asset_qty(sel.excess, k) == sum_asset(
                sel.selected@,
                k,
            ) - (asset_qty(*target, k) + asset_qty(*threshold, k))
            &&& sel.excess.identity is None
            &&& keys_unique(sel.excess)
            &&& subsequence_of(sel.unselected@, inputs@)
        },
        !requirement_fits(*target, *threshold) ==> r is None,
        !dominates(inputs@, *target, *threshold) ==> r is None,
        requirement_fits(*target, *threshold) && fits(inputs@) && dominates(
            inputs@,
            *target,
            *threshold,
        ) ==> r is Some,
{
    proof {
        lemma_record_bounds(*target);
        lemma_record_bounds(*threshold);
    }
    let mut need = Record::zero();
    let ok_t = acc_add(&mut need, target);
    proof {
        assert(ok_t);
    }
    let ok_n = acc_add(&mut need, threshold);
    if !ok_n {
        proof {
            assert(!requirement_fits(*target, *threshold));
        }
        return None;
    }
    // `need` now carries the requirement: target + threshold on every dimension.
    assert(need.quantity == target.quantity + threshold.quantity);
    assert(forall|k: (Seq<char>, Seq<char>)| #[trigger] asset_qty(need, k) == asset_qty(*target, k)
        + asset_qty(*threshold, k));
    proof {
        lemma_record_bounds(need);
        assert forall|k: (Seq<char>, Seq<char>)| #[trigger] asset_qty(*target, k) + asset_qty(
            *threshold,
            k,
        ) <= u64::MAX by {
            assert(asset_qty(need, k) == asset_qty(*target, k) + asset_qty(*threshold, k));
            assert(asset_qty(need, k) <= u64::MAX);
        }
        assert(requirement_fits(*target, *threshold));
    }

    let ghost inputs0 = inputs@;
    let mut remaining = inputs;
    let mut selected: Vec<Record> = Vec::new();
    proof {
        broadcast use vstd::seq_lib::group_to_multiset_ensures;

        assert(selected@.to_multiset().add(remaining@.to_multiset()) =~= inputs0.to_multiset());
        lemma_sum_nonneg(inputs0);
        lemma_subsequence_refl(inputs0);
    }

    // Asset-coverage phase: meet every per-asset requirement in key order.
    let nk = need.assets.len();
    let mut idx: usize = 0;
    while idx < nk
        invariant
            0 <= idx <= nk,
            selected@.to_multiset().add(remaining@.to_multiset()) == inputs0.to_multiset(),
            sum_quantity(selected@) + sum_quantity(remaining@) == sum_quantity(inputs0),
            forall|k: (Seq<char>, Seq<char>)| #[trigger] sum_asset(selected@, k) + sum_asset(
                remaining@,
                k,
            ) == sum_asset(inputs0, k),
            forall|i: int| 0 <= i < selected@.len() ==> keys_unique(#[trigger] selected@[i]),
            forall|i: int| 0 <= i < remaining@.len() ==> keys_unique(#[trigger] remaining@[i]),
            forall|j: int|
                0 <= j < idx ==> sum_asset(selected@, (#[trigger] need.assets@[j]).0@)
                    >= need.assets@[j].1,
            subsequence_of(remaining@, inputs0),
        decreases nk - idx,
    {
        let needed = need.assets[idx].1;
        let ghost kk = need.assets@[idx as int].0@;
        proof {
            lemma_entries_unique_at(need.assets@, idx as int);
        }
        // How far the already-drawn records leave this asset short.
        let mut deficit: u64 = needed;
        let ns = selected.len();
        let mut j: usize = 0;
        while j < ns
            invariant
                0 <= j <= ns,
                ns == selected@.len(),
                deficit as int == shortfall(
                    needed as int,
                    sum_asset(selected@.take(j as int), kk),
                ),
            decreases ns - j,
        {
            proof {
                lemma_sum_take_step(selected@, j as int);
                lemma_entries_nonneg(selected@[j as int].assets@, kk);
            }
            let have = selected[j].asset_of(&need.assets[idx].0);
            deficit = if deficit > have {
                deficit - have
            } else {
                0
            };
            j = j + 1;
        }
        proof {
            assert(selected@.take(ns as int) =~= selected@);
        }
        while deficit > 0
            invariant
                selected@.to_multiset().add(remaining@.to_multiset()) == inputs0.to_multiset(),
                sum_quantity(selected@) + sum_quantity(remaining@) == sum_quantity(inputs0),
                forall|k: (Seq<char>, Seq<char>)| #[trigger] sum_asset(selected@, k) + sum_asset(
                    remaining@,
                    k,
                ) == sum_asset(inputs0, k),
                forall|i: int| 0 <= i < selected@.len() ==> keys_unique(#[trigger] selected@[i]),
                forall|i: int| 0 <= i < remaining@.len() ==> keys_unique(#[trigger] remaining@[i]),
                forall|j2: int|
                    0 <= j2 < idx ==> sum_asset(selected@, (#[trigger] need.assets@[j2]).0@)
                        >= need.assets@[j2].1,
                deficit as int == shortfall(needed as int, sum_asset(selected@, kk)),
                subsequence_of(remaining@, inputs0),
            decreases remaining@.len(),
        {
            let b = match pick_asset_holder(&remaining, &need.assets[idx].0) {
                Some(b) => b,
                None => {
                    proof {
                        lemma_sum_asset_zero(remaining@, kk);
                        assert(sum_asset(selected@, kk) < needed);
                        assert(sum_asset(inputs0, kk) < asset_qty(need, kk));
                        assert(!dominates(inputs0, *target, *threshold));
                    }
                    return None;
                },
            };
            let got = remaining[b].asset_of(&need.assets[idx].0);
            let ghost drawn = remaining@[b as int];
            let ghost rem0 = remaining@;
            draw(&mut remaining, &mut selected, b);
            proof {
                lemma_subsequence_remove(rem0, inputs0, b as int);
                assert(got > 0);
                assert forall|j2: int| 0 <= j2 < idx implies sum_asset(
                    selected@,
                    (#[trigger] need.assets@[j2]).0@,
                ) >= need.assets@[j2].1 by {
                    lemma_entries_nonneg(drawn.assets@, need.assets@[j2].0@);
                }
            }
            deficit = if deficit > got {
                deficit - got
            } else {
                0
            };
        }
        proof {
            assert(sum_asset(selected@, kk) >= needed);
        }
        idx = idx + 1;
    }

    // Value-coverage phase: meet the base-quantity requirement.
    let mut deficit: u64 = need.quantity;
    let ns = selected.len();
    let mut j: usize = 0;
    while j < ns
        invariant
            0 <= j <= ns,
            ns == selected@.len(),
            deficit as int == shortfall(
                need.quantity as int,
                sum_quantity(selected@.take(j as int)),
            ),
        decreases ns - j,
    {
        proof {
            lemma_sum_take_step(selected@, j as int);
        }
        let have = selected[j].quantity;
        deficit = if deficit > have {
            deficit - have
        } else {
            0
        };
        j = j + 1;
    }
    proof {
        assert(selected@.take(ns as int) =~= selected@);
    }
    while deficit > 0
        invariant
            selected@.to_multiset().add(remaining@.to_multiset()) == inputs0.to_multiset(),
            sum_quantity(selected@) + sum_quantity(remaining@) == sum_quantity(inputs0),
            forall|k: (Seq<char>, Seq<char>)| #[trigger] sum_asset(selected@, k) + sum_asset(
                remaining@,
                k,
            ) == sum_asset(inputs0, k),
            forall|i: int| 0 <= i < selected@.len() ==> keys_unique(#[trigger] selected@[i]),
            forall|i: int| 0 <= i < remaining@.len() ==> keys_unique(#[trigger] remaining@[i]),
            forall|j2: int|
                0 <= j2 < need.assets@.len() ==> sum_asset(
                    selected@,
                    (#[trigger] need.assets@[j2]).0@,
                ) >= need.assets@[j2].1,
            deficit as int == shortfall(need.quantity as int, sum_quantity(selected@)),
            subsequence_of(remaining@, inputs0),
        decreases remaining@.len(),
    {
        if remaining.len() == 0 {
            proof {
                assert(sum_quantity(selected@) < need.quantity);
                assert(sum_quantity(remaining@) == 0);
                assert(!dominates(inputs0, *target, *threshold));
            }
            return None;
        }
        let b = pick_smallest_quantity(&remaining);
        let got = remaining[b].quantity;
        let ghost drawn = remaining@[b as int];
        let ghost rem0 = remaining@;
        draw(&mut remaining, &mut selected, b);
        proof {
            lemma_subsequence_remove(rem0, inputs0, b as int);
            assert forall|j2: int| 0 <= j2 < need.assets@.len() implies sum_asset(
                selected@,
                (#[trigger] need.assets@[j2]).0@,
            ) >= need.assets@[j2].1 by {
                lemma_entries_nonneg(drawn.assets@, need.assets@[j2].0@);
            }
        }
        deficit = if deficit > got {
            deficit - got
        } else {
            0
        };
    }

    // The selection now dominates the requirement on every dimension.
    proof {
        assert(sum_quantity(selected@) >= need.quantity);
        assert forall|k: (Seq<char>, Seq<char>)| #[trigger] sum_asset(selected@, k) >= asset_qty(
            need,
            k,
        ) by {
            if has_key(need.assets@, k) {
                let j2 = choose|j2: int|
                    0 <= j2 < need.assets@.len() && (#[trigger] need.assets@[j2]).0@ == k;
                lemma_entries_unique_at(need.assets@, j2);
                assert(sum_asset(selected@, need.assets@[j2].0@) >= need.assets@[j2].1);
            } else {
                lemma_entries_absent(need.assets@, k);
                lemma_sum_nonneg(selected@);
            }
        }
    }

    let total = match combine(&selected) {
        Ok(total) => total,
        Err(_) => {
            proof {
                lemma_sum_nonneg(selected@);
                lemma_sum_nonneg(remaining@);
                assert(!fits(selected@));
                if fits(inputs0) {
                    assert forall|k: (Seq<char>, Seq<char>)| #[trigger] sum_asset(selected@, k)
                        <= u64::MAX by {
                        assert(sum_asset(selected@, k) + sum_asset(remaining@, k) == sum_asset(
                            inputs0,
                            k,
                        ));
                        assert(sum_asset(inputs0, k) <= u64::MAX);
                    }
                    assert(fits(selected@));
                }
            }
            return None;
        },
    };
    let excess = difference(&total, &need);
    proof {
        lemma_sum_nonneg(remaining@);
        assert(dominates(inputs0, *target, *threshold)) by {
            assert forall|k: (Seq<char>, Seq<char>)| #[trigger] sum_asset(inputs0, k) >= asset_qty(
                *target,
                k,
            ) + asset_qty(*threshold, k) by {
                assert(sum_asset(selected@, k) >= asset_qty(need, k));
                assert(sum_asset(selected@, k) + sum_asset(remaining@, k) == sum_asset(inputs0, k));
            }
        };
    }
    Some(Selection { selected, unselected: remaining, excess })
}

/// With a zero-valued threshold the requirement reduces to the target alone:
/// it is always representable, and a set of records dominates it exactly
/// when the set dominates the target.  Together with the contract of
/// [`select`], selection under a zero threshold therefore succeeds if and
/// only if the inputs alone dominate the target, whenever the total of all
/// inputs is representable.
pub proof fn lemma_zero_threshold(s: Seq<Record>, target: Record, threshold: Record)
    requires
        keys_unique(target),
        crate::record::is_zero_value(threshold),
    ensures
        requirement_fits(target, threshold),
        dominates(s, target, threshold) <==> (sum_quantity(s) >= target.quantity && forall|
            k: (Seq<char>, Seq<char>),
        | #[trigger] sum_asset(s, k) >= asset_qty(target, k)),
{
    lemma_record_bounds(target);
    assert forall|k: (Seq<char>, Seq<char>)| #[trigger] asset_qty(target, k) + asset_qty(
        threshold,
        k,
    ) <= u64::MAX by {
        assert(asset_qty(threshold, k) == 0);
    }
    assert forall|k: (Seq<char>, Seq<char>)| #[trigger] sum_asset(s, k) >= asset_qty(target, k)
        + asset_qty(threshold, k) <==> sum_asset(s, k) >= asset_qty(target, k) by {
        assert(asset_qty(threshold, k) == 0);
    }
}

} // verus!
