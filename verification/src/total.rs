//! Aggregate totals: the element-wise sum of a sequence of records.
//!
//! `sum_quantity` and `sum_asset` give the mathematical totals of a sequence
//! (as unbounded integers).  [`combine`] is the executable fold: it returns
//! the aggregate record exactly when every total is representable in `u64`,
//! and an explicit overflow error otherwise — never a wrapped value.
//! [`difference`] subtracts one record from a dominating one, which is how
//! the engine computes the excess.

use vstd::prelude::*;
use crate::record::{
    asset_qty, entries_qty, entry_keys_unique, find_entry, keys_unique, lemma_entries_absent,
    lemma_entries_nonneg, lemma_entries_remove, lemma_entries_take_le, lemma_entries_take_step,
    lemma_entries_unique_at, lemma_record_bounds, AssetId, Record,
};

verus! {

/// The summed base quantity of a sequence of records.
pub open spec fn sum_quantity(s: Seq<Record>) -> int
    decreases s.len(),
{
    if s.len() == 0 {
        0
    } else {
        sum_quantity(s.drop_last()) + s.last().quantity as int
    }
}

/// The summed quantity of asset `k` over a sequence of records.
pub open spec fn sum_asset(s: Seq<Record>, k: (Seq<char>, Seq<char>)) -> int
    decreases s.len(),
{
    if s.len() == 0 {
        0
    } else {
        sum_asset(s.drop_last(), k) + asset_qty(s.last(), k)
    }
}

/// Every total of the sequence is representable in `u64`.
pub open spec fn fits(s: Seq<Record>) -> bool {
    &&& sum_quantity(s) <= u64::MAX
    &&& forall|k: (Seq<char>, Seq<char>)| #[trigger] sum_asset(s, k) <= u64::MAX
}

/// An additive combination would exceed the representable range.
#[derive(Clone, Copy, Debug, PartialEq, Eq)]
pub struct OverflowError;

pub proof fn lemma_sum_take_step(s: Seq<Record>, i: int)
    requires
        0 <= i < s.len(),
    ensures
        sum_quantity(s.take(i + 1)) == sum_quantity(s.take(i)) + s[i].quantity,
        forall|k: (Seq<char>, Seq<char>)| #[trigger] sum_asset(s.take(i + 1), k) == sum_asset(
            s.take(i),
            k,
        ) + asset_qty(s[i], k),
{
    assert(s.take(i + 1).drop_last() =~= s.take(i));
    assert(s.take(i + 1).last() == s[i]);
}

pub proof fn lemma_sum_nonneg(s: Seq<Record>)
    ensures
        sum_quantity(s) >= 0,
        forall|k: (Seq<char>, Seq<char>)| #[trigger] sum_asset(s, k) >= 0,
    decreases s.len(),
{
    if s.len() > 0 {
        lemma_sum_nonneg(s.drop_last());
        assert forall|k: (Seq<char>, Seq<char>)| #[trigger] sum_asset(s, k) >= 0 by {
            lemma_entries_nonneg(s.last().assets@, k);
            assert(sum_asset(s.drop_last(), k) >= 0);
        }
    }
}

pub proof fn lemma_sum_take_le(s: Seq<Record>, i: int)
    requires
        0 <= i <= s.len(),
    ensures
        sum_quantity(s.take(i)) <= sum_quantity(s),
        forall|k: (Seq<char>, Seq<char>)| #[trigger] sum_asset(s.take(i), k) <= sum_asset(s, k),
    decreases s.len() - i,
{
    if i == s.len() {
        assert(s.take(i) =~= s);
    } else {
        lemma_sum_take_step(s, i);
        lemma_sum_take_le(s, i + 1);
        assert forall|k: (Seq<char>, Seq<char>)| #[trigger] sum_asset(s.take(i), k) <= sum_asset(
            s,
            k,
        ) by {
            lemma_entries_nonneg(s[i].assets@, k);
            assert(sum_asset(s.take(i + 1), k) <= sum_asset(s, k));
        }
    }
}

pub proof fn lemma_sum_push(s: Seq<Record>, r: Record)
    ensures
        sum_quantity(s.push(r)) == sum_quantity(s) + r.quantity,
        forall|k: (Seq<char>, Seq<char>)| #[trigger] sum_asset(s.push(r), k) == sum_asset(s, k)
            + asset_qty(r, k),
{
    assert(s.push(r).drop_last() =~= s);
    assert(s.push(r).last() == r);
}

pub proof fn lemma_sum_remove(s: Seq<Record>, i: int)
    requires
        0 <= i < s.len(),
    ensures
        sum_quantity(s.remove(i)) == sum_quantity(s) - s[i].quantity,
        forall|k: (Seq<char>, Seq<char>)| #[trigger] sum_asset(s.remove(i), k) == sum_asset(s, k)
            - asset_qty(s[i], k),
    decreases s.len(),
{
    if i == s.len() - 1 {
        assert(s.remove(i) =~= s.drop_last());
    } else {
        assert(s.remove(i).drop_last() =~= s.drop_last().remove(i));
        assert(s.remove(i).last() == s.last());
        lemma_sum_remove(s.drop_last(), i);
        assert forall|k: (Seq<char>, Seq<char>)| #[trigger] sum_asset(s.remove(i), k) == sum_asset(
            s,
            k,
        ) - asset_qty(s[i], k) by {
            assert(sum_asset(s.remove(i), k) == sum_asset(s.remove(i).drop_last(), k) + asset_qty(
                s.last(),
                k,
            ));
            assert(sum_asset(s.drop_last().remove(i), k) == sum_asset(s.drop_last(), k)
                - asset_qty(s.drop_last()[i], k));
        }
    }
}

/// If no record of the sequence carries asset `k`, the total for `k` is zero.
pub proof fn lemma_sum_asset_zero(s: Seq<Record>, k: (Seq<char>, Seq<char>))
    requires
        forall|i: int| 0 <= i < s.len() ==> asset_qty(#[trigger] s[i], k) == 0,
    ensures
        sum_asset(s, k) == 0,
    decreases s.len(),
{
    if s.len() > 0 {
        assert(s.last() == s[s.len() - 1]);
        lemma_sum_asset_zero(s.drop_last(), k);
    }
}

/// Combining is order-independent: two sequences that hold the same records
/// as a multiset have the same base-quantity total and the same total of
/// every asset, hence `combine` returns equal-valued aggregates, or reports
/// overflow, on both.
pub proof fn lemma_totals_permutation(s1: Seq<Record>, s2: Seq<Record>)
    requires
        s1.to_multiset() == s2.to_multiset(),
    ensures
        sum_quantity(s1) == sum_quantity(s2),
        forall|k: (Seq<char>, Seq<char>)|
            #![trigger sum_asset(s1, k)]
            #![trigger sum_asset(s2, k)]
            sum_asset(s1, k) == sum_asset(s2, k),
        fits(s1) <==> fits(s2),
    decreases s1.len(),
{
    broadcast use vstd::seq_lib::group_to_multiset_ensures;

    if s1.len() == 0 {
        assert(s2.to_multiset().len() == 0);
        assert(s2 =~= Seq::<Record>::empty());
    } else {
        let x = s1.last();
        assert(s1.contains(x));
        assert(s1.to_multiset().count(x) > 0);
        assert(s2.to_multiset().count(x) > 0);
        assert(s2.contains(x));
        let i = choose|i: int| 0 <= i < s2.len() && s2[i] == x;
        let s2r = s2.remove(i);
        let s1r = s1.drop_last();
        assert(s1 =~= s1r.push(x));
        assert(s1.to_multiset() =~= s1r.to_multiset().insert(x));
        assert(s2r.to_multiset() =~= s2.to_multiset().remove(x));
        assert(s1r.to_multiset() =~= s1.to_multiset().remove(x));
        lemma_totals_permutation(s1r, s2r);
        lemma_sum_remove(s2, i);
        assert(sum_quantity(s1) == sum_quantity(s1r) + x.quantity);
        assert forall|k: (Seq<char>, Seq<char>)|
            #![trigger sum_asset(s1, k)]
            #![trigger sum_asset(s2, k)]
            sum_asset(s1, k) == sum_asset(s2, k) by {
            assert(sum_asset(s1, k) == sum_asset(s1r, k) + asset_qty(x, k));
            assert(sum_asset(s1r, k) == sum_asset(s2r, k));
            assert(sum_asset(s2r, k) == sum_asset(s2, k) - asset_qty(s2[i], k));
        }
    }
}

/// Accumulates `r` into `acc`, element-wise and overflow-checked.  Returns
/// `true` and updates `acc` exactly when every dimension of the sum fits in
/// `u64`; on `false`, `acc` is in an unspecified state and must be dropped.
#[verifier::loop_isolation(false)]
pub(crate) fn acc_add(acc: &mut Record, r: &Record) -> (ok: bool)
    requires
        keys_unique(*old(acc)),
    ensures
        ok <==> {
            &&& old(acc).quantity + r.quantity <= u64::MAX
            &&& forall|k: (Seq<char>, Seq<char>)| #[trigger] asset_qty(*old(acc), k) + asset_qty(
                *r,
                k,
            ) <= u64::MAX
        },
        ok ==> {
            &&& keys_unique(*final(acc))
            &&& final(acc).quantity == old(acc).quantity + r.quantity
            &&& final(acc).identity == old(acc).identity
            &&& forall|k: (Seq<char>, Seq<char>)| #[trigger] asset_qty(*final(acc), k)
                == asset_qty(*old(acc), k) + asset_qty(*r, k)
        },
{
    let ghost acc0 = *acc;
    let q = match acc.quantity.checked_add(r.quantity) {
        Some(q) => q,
        None => {
            return false;
        },
    };
    acc.quantity = q;
    let n = r.assets.len();
    let mut e: usize = 0;
    while e < n
        invariant
            0 <= e <= n,
            n == r.assets@.len(),
            keys_unique(*acc),
            acc.quantity == q,
            acc.identity == acc0.identity,
            forall|k: (Seq<char>, Seq<char>)| #[trigger] asset_qty(*acc, k) == asset_qty(acc0, k)
                + entries_qty(r.assets@.take(e as int), k),
        decreases n - e,
    {
        let ghost accpre = *acc;
        let qty = r.assets[e].1;
        proof {
            lemma_entries_take_step(r.assets@, r.assets@[e as int].0@, e as int);
            assert forall|k: (Seq<char>, Seq<char>)|
                k != r.assets@[e as int].0@ implies entries_qty(r.assets@.take(e as int + 1), k)
                == entries_qty(r.assets@.take(e as int), k) by {
                lemma_entries_take_step(r.assets@, k, e as int);
            }
        }
        if qty > 0 {
            let ghost kk = r.assets@[e as int].0@;
            match find_entry(&acc.assets, &r.assets[e].0) {
                Some(i) => {
                    let ghost sa = acc.assets@;
                    proof {
                        lemma_entries_unique_at(sa, i as int);
                    }
                    let entry = acc.assets.remove(i);
                    proof {
                        lemma_entries_remove(sa, kk, i as int);
                        assert forall|k: (Seq<char>, Seq<char>)| k != kk implies entries_qty(
                            acc.assets@,
                            k,
                        ) == entries_qty(sa, k) by {
                            lemma_entries_remove(sa, k, i as int);
                        }
                        assert forall|j: int| 0 <= j < acc.assets@.len() implies (
                        #[trigger] acc.assets@[j]).0@ != kk by {
                            if j < i {
                                assert(acc.assets@[j] == sa[j]);
                            } else {
                                assert(acc.assets@[j] == sa[j + 1]);
                            }
                        }
                    }
                    let v = match entry.1.checked_add(qty) {
                        Some(v) => v,
                        None => {
                            proof {
                                lemma_entries_take_le(r.assets@, kk, e as int + 1);
                                assert(entry == sa[i as int]);
                                assert(entries_qty(sa, kk) == entry.1 as int);
                                assert(accpre.assets@ == sa);
                                assert(asset_qty(accpre, kk) == asset_qty(acc0, kk) + entries_qty(
                                    r.assets@.take(e as int),
                                    kk,
                                ));
                                assert(entries_qty(r.assets@.take(e as int + 1), kk) == entries_qty(
                                    r.assets@.take(e as int),
                                    kk,
                                ) + qty);
                                assert(asset_qty(*r, kk) >= entries_qty(
                                    r.assets@.take(e as int + 1),
                                    kk,
                                ));
                                assert(entry.1 + qty > u64::MAX);
                                assert(asset_qty(acc0, kk) + asset_qty(*r, kk) > u64::MAX);
                            }
                            return false;
                        },
                    };
                    let ghost sb = acc.assets@;
                    acc.assets.push((entry.0, v));
                    proof {
                        lemma_entries_absent(sb, kk);
                        assert(acc.assets@.drop_last() =~= sb);
                        assert(acc.assets@.last() == (entry.0, v));
                        assert(acc.assets@.last().0@ == kk);
                        assert forall|k: (Seq<char>, Seq<char>)| true implies entries_qty(
                            acc.assets@,
                            k,
                        ) == entries_qty(sb, k) + if k == kk {
                            v as int
                        } else {
                            0
                        } by {}
                        assert(entries_qty(sb, kk) == 0);
                        assert(entries_qty(sa, kk) == entry.1 as int);
                        assert(accpre.assets@ == sa);
                        assert forall|k: (Seq<char>, Seq<char>)| #[trigger] asset_qty(*acc, k)
                            == asset_qty(accpre, k) + (if k == kk {
                            qty as int
                        } else {
                            0
                        }) by {
                            assert(entries_qty(acc.assets@, k) == entries_qty(sb, k) + if k == kk {
                                v as int
                            } else {
                                0
                            });
                            if k != kk {
                                assert(entries_qty(sb, k) == entries_qty(sa, k));
                            }
                        }
                    }
                },
                None => {
                    proof {
                        lemma_entries_absent(acc.assets@, kk);
                    }
                    let ghost sb = acc.assets@;
                    acc.assets.push((r.assets[e].0.dup(), qty));
                    proof {
                        assert(acc.assets@.drop_last() =~= sb);
                        assert(acc.assets@.last().0@ == kk);
                        assert(acc.assets@.last().1 == qty);
                        assert(accpre.assets@ == sb);
                        assert(entries_qty(sb, kk) == 0);
                        assert forall|k: (Seq<char>, Seq<char>)| #[trigger] asset_qty(*acc, k)
                            == asset_qty(accpre, k) + (if k == kk {
                            qty as int
                        } else {
                            0
                        }) by {
                            assert(entries_qty(acc.assets@, k) == entries_qty(sb, k) + if k == kk {
                                qty as int
                            } else {
                                0
                            });
                        }
                    }
                },
            }
        } else {
            proof {
                assert forall|k: (Seq<char>, Seq<char>)| #[trigger] asset_qty(*acc, k)
                    == asset_qty(accpre, k) + (if k == r.assets@[e as int].0@ {
                    qty as int
                } else {
                    0
                }) by {}
            }
        }
        proof {
            assert forall|k: (Seq<char>, Seq<char>)| #[trigger] asset_qty(*acc, k) == asset_qty(
                acc0,
                k,
            ) + entries_qty(r.assets@.take(e as int + 1), k) by {
                assert(asset_qty(accpre, k) == asset_qty(acc0, k) + entries_qty(
                    r.assets@.take(e as int),
                    k,
                ));
                assert(asset_qty(*acc, k) == asset_qty(accpre, k) + (if k == r.assets@[e as int].0@ {
                    qty as int
                } else {
                    0
                }));
                if k == r.assets@[e as int].0@ {
                    assert(entries_qty(r.assets@.take(e as int + 1), k) == entries_qty(
                        r.assets@.take(e as int),
                        k,
                    ) + qty);
                } else {
                    assert(entries_qty(r.assets@.take(e as int + 1), k) == entries_qty(
                        r.assets@.take(e as int),
                        k,
                    ));
                }
            }
        }
        e = e + 1;
    }
    proof {
        assert(r.assets@.take(n as int) =~= r.assets@);
        lemma_record_bounds(*acc);
        assert forall|k: (Seq<char>, Seq<char>)| #[trigger] asset_qty(acc0, k) + asset_qty(*r, k)
            <= u64::MAX by {
            assert(asset_qty(*acc, k) == asset_qty(acc0, k) + asset_qty(*r, k));
        }
    }
    true
}

/// The element-wise additive fold of a sequence of records.  Succeeds, with
/// a synthetic identity-free aggregate, exactly when the base-quantity total
/// and every per-asset total fit in `u64`; otherwise reports overflow.
pub fn combine(records: &Vec<Record>) -> (res: Result<Record, OverflowError>)
    ensures
        res is Ok <==> fits(records@),
        res matches Ok(c) ==> {
            &&& c.quantity == sum_quantity(records@)
            &&& forall|k: (Seq<char>, Seq<char>)| #[trigger] asset_qty(c, k) == sum_asset(
                records@,
                k,
            )
            &&& c.identity is None
            &&& keys_unique(c)
        },
{
    let mut acc = Record::zero();
    let n = records.len();
    let mut i: usize = 0;
    while i < n
        invariant
            0 <= i <= n,
            n == records@.len(),
            keys_unique(acc),
            acc.identity is None,
            acc.quantity == sum_quantity(records@.take(i as int)),
            forall|k: (Seq<char>, Seq<char>)| #[trigger] asset_qty(acc, k) == sum_asset(
                records@.take(i as int),
                k,
            ),
        decreases n - i,
    {
        proof {
            lemma_sum_take_step(records@, i as int);
        }
        let ghost accpre = acc;
        let ok = acc_add(&mut acc, &records[i]);
        if !ok {
            proof {
                lemma_sum_take_le(records@, i as int + 1);
                lemma_sum_nonneg(records@);
                if accpre.quantity + records@[i as int].quantity > u64::MAX {
                    assert(sum_quantity(records@.take(i as int + 1)) > u64::MAX);
                } else {
                    assert(exists|k: (Seq<char>, Seq<char>)|
                        #[trigger] asset_qty(accpre, k) + asset_qty(records@[i as int], k)
                            > u64::MAX);
                    let k = choose|k: (Seq<char>, Seq<char>)|
                        #[trigger] asset_qty(accpre, k) + asset_qty(records@[i as int], k)
                            > u64::MAX;
                    assert(sum_asset(records@.take(i as int + 1), k) > u64::MAX);
                    assert(sum_asset(records@, k) > u64::MAX);
                }
                assert(!fits(records@));
            }
            return Err(OverflowError);
        }
        i = i + 1;
    }
    proof {
        assert(records@.take(n as int) =~= records@);
        lemma_record_bounds(acc);
        assert(fits(records@)) by {
            assert forall|k: (Seq<char>, Seq<char>)| #[trigger] sum_asset(records@, k)
                <= u64::MAX by {
                assert(asset_qty(acc, k) == sum_asset(records@, k));
            }
        };
    }
    Ok(acc)
}

/// Whether a key list holds an entry for `k`.
pub open spec fn has_key(s: Seq<(AssetId, u64)>, k: (Seq<char>, Seq<char>)) -> bool {
    exists|j: int| 0 <= j < s.len() && (#[trigger] s[j]).0@ == k
}

/// Subtracts `b` from `a`, element-wise.  Defined only when `a` dominates
/// `b` on the base quantity and on every asset; the engine guarantees this
/// before calling.  The result is synthetic (no identity) and normalized:
/// zero-valued entries are dropped.
pub fn difference(a: &Record, b: &Record) -> (d: Record)
    requires
        keys_unique(*a),
        keys_unique(*b),
        b.quantity <= a.quantity,
        forall|k: (Seq<char>, Seq<char>)| #[trigger] asset_qty(*b, k) <= asset_qty(*a, k),
    ensures
        keys_unique(d),
        d.identity is None,
        d.quantity == a.quantity - b.quantity,
        forall|k: (Seq<char>, Seq<char>)| #[trigger] asset_qty(d, k) == asset_qty(*a, k)
            - asset_qty(*b, k),
{
    let mut assets: Vec<(AssetId, u64)> = Vec::new();
    let n = a.assets.len();
    let mut i: usize = 0;
    while i < n
        invariant
            0 <= i <= n,
            n == a.assets@.len(),
            keys_unique(*a),
            keys_unique(*b),
            forall|k: (Seq<char>, Seq<char>)| #[trigger] asset_qty(*b, k) <= asset_qty(*a, k),
            entry_keys_unique(assets@),
            forall|j: int|
                0 <= j < assets@.len() ==> has_key(
                    a.assets@.take(i as int),
                    (#[trigger] assets@[j]).0@,
                ),
            forall|k: (Seq<char>, Seq<char>)| #[trigger] entries_qty(assets@, k) == if has_key(
                a.assets@.take(i as int),
                k,
            ) {
                asset_qty(*a, k) - asset_qty(*b, k)
            } else {
                0
            },
        decreases n - i,
    {
        let ghost ki = a.assets@[i as int].0@;
        proof {
            lemma_entries_unique_at(a.assets@, i as int);
            lemma_entries_nonneg(b.assets@, ki);
            assert(!has_key(a.assets@.take(i as int), ki)) by {
                if has_key(a.assets@.take(i as int), ki) {
                    let j = choose|j: int|
                        0 <= j < i && (#[trigger] a.assets@.take(i as int)[j]).0@ == ki;
                    assert(a.assets@[j].0@ == a.assets@[i as int].0@);
                }
            };
        }
        let sub = b.asset_of(&a.assets[i].0);
        let v = a.assets[i].1;
        proof {
            assert(asset_qty(*b, ki) <= asset_qty(*a, ki));
            assert(sub <= v);
        }
        let ghost olds = assets@;
        if v > sub {
            assets.push((a.assets[i].0.dup(), v - sub));
            proof {
                assert(assets@.drop_last() =~= olds);
                assert(assets@.last().0@ == ki);
                assert(!has_key(olds, ki));
                assert(entry_keys_unique(assets@)) by {
                    assert forall|p: int, q2: int|
                        0 <= p < q2 < assets@.len() implies (#[trigger] assets@[p]).0@ != (
                        #[trigger] assets@[q2]).0@ by {
                        if q2 == assets@.len() - 1 {
                            assert(assets@[p] == olds[p]);
                        } else {
                            assert(assets@[p] == olds[p]);
                            assert(assets@[q2] == olds[q2]);
                        }
                    }
                };
            }
        }
        proof {
            assert forall|k: (Seq<char>, Seq<char>)|
                has_key(a.assets@.take(i as int + 1), k) <==> (has_key(a.assets@.take(i as int), k)
                || k == ki) by {
                if has_key(a.assets@.take(i as int + 1), k) {
                    let j = choose|j: int|
                        0 <= j < i + 1 && (#[trigger] a.assets@.take(i as int + 1)[j]).0@ == k;
                    if j < i {
                        assert(a.assets@.take(i as int)[j].0@ == k);
                    }
                }
                if has_key(a.assets@.take(i as int), k) {
                    let j = choose|j: int|
                        0 <= j < i && (#[trigger] a.assets@.take(i as int)[j]).0@ == k;
                    assert(a.assets@.take(i as int + 1)[j].0@ == k);
                }
                if k == ki {
                    assert(a.assets@.take(i as int + 1)[i as int].0@ == k);
                }
            }
            assert forall|k: (Seq<char>, Seq<char>)| #[trigger] entries_qty(assets@, k) == (
            if has_key(a.assets@.take(i as int + 1), k) {
                asset_qty(*a, k) - asset_qty(*b, k)
            } else {
                0
            }) by {
                if v > sub {
                    assert(assets@.drop_last() == olds);
                    assert(entries_qty(assets@, k) == entries_qty(olds, k) + if k == ki {
                        (v - sub) as int
                    } else {
                        0
                    });
                } else {
                    assert(assets@ == olds);
                }
                if k == ki {
                    assert(entries_qty(olds, ki) == 0);
                    assert(asset_qty(*a, ki) == v as int);
                    assert(asset_qty(*b, ki) == sub as int);
                } else {
                    assert(has_key(a.assets@.take(i as int + 1), k) == has_key(
                        a.assets@.take(i as int),
                        k,
                    ));
                }
            }
        }
        i = i + 1;
    }
    proof {
        assert(a.assets@.take(n as int) =~= a.assets@);
        assert forall|k: (Seq<char>, Seq<char>)| #[trigger] entries_qty(assets@, k) == asset_qty(
            *a,
            k,
        ) - asset_qty(*b, k) by {
            if !has_key(a.assets@, k) {
                lemma_entries_absent(a.assets@, k);
                lemma_entries_nonneg(b.assets@, k);
            }
        }
    }
    Record { identity: None, quantity: a.quantity - b.quantity, assets }
}

} // verus!
