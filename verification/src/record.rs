//! The value-bearing record type and its per-asset quantity model.
//!
//! A record holds a base `quantity` plus a list of `(AssetId, u64)` entries.
//! The mathematical reading of an asset list is the function `entries_qty`:
//! how much of a given key the list carries, counting an absent key as zero.
//! All contracts in this crate speak in terms of that reading, so a record
//! with an explicit zero-valued entry carries the same value as one without.

use vstd::prelude::*;

verus! {

/// Identifies a named fungible sub-asset by its issuing policy and its name.
pub struct AssetId {
    pub policy_id: String,
    pub asset_name: String,
}

impl View for AssetId {
    type V = (Seq<char>, Seq<char>);

    open spec fn view(&self) -> (Seq<char>, Seq<char>) {
        (self.policy_id@, self.asset_name@)
    }
}

impl AssetId {
    pub fn new(policy_id: String, asset_name: String) -> (r: AssetId)
        ensures
            r@ == (policy_id@, asset_name@),
    {
        AssetId { policy_id, asset_name }
    }

    /// An owned copy of this identifier.
    pub fn dup(&self) -> (r: AssetId)
        ensures
            r == *self,
    {
        AssetId { policy_id: self.policy_id.clone(), asset_name: self.asset_name.clone() }
    }

    /// Whether two identifiers name the same asset.
    pub fn same(&self, other: &AssetId) -> (r: bool)
        ensures
            r == (self@ == other@),
    {
        self.policy_id == other.policy_id && self.asset_name == other.asset_name
    }
}

/// Locates the external source of a spendable record, for example a
/// transaction hash together with an output index.  The engine never reads
/// it; it only lets callers map results back to their own records.
pub struct RecordId {
    pub hash: String,
    pub index: u32,
}

/// A value-bearing record: a base quantity plus named asset quantities,
/// optionally tied to an external identity.
pub struct Record {
    /// Present for concrete spendable inputs, absent for synthetic records
    /// such as totals, thresholds and the excess.
    pub identity: Option<RecordId>,
    /// The base monetary amount.
    pub quantity: u64,
    /// Named asset quantities.  Well-formed records keep the keys distinct.
    pub assets: Vec<(AssetId, u64)>,
}

/// How much of asset `k` a list of entries carries; entries with other keys
/// count zero, so an absent key reads as zero.
pub open spec fn entries_qty(s: Seq<(AssetId, u64)>, k: (Seq<char>, Seq<char>)) -> int
    decreases s.len(),
{
    if s.len() == 0 {
        0
    } else {
        entries_qty(s.drop_last(), k) + if s.last().0@ == k {
            s.last().1 as int
        } else {
            0
        }
    }
}

/// The keys of an entry list are pairwise distinct.
pub open spec fn entry_keys_unique(s: Seq<(AssetId, u64)>) -> bool {
    forall|i: int, j: int|
        0 <= i < j < s.len() ==> (#[trigger] s[i]).0@ != (#[trigger] s[j]).0@
}

/// How much of asset `k` a record carries; zero when the key is absent.
pub open spec fn asset_qty(r: Record, k: (Seq<char>, Seq<char>)) -> int {
    entries_qty(r.assets@, k)
}

/// A record is well formed when its asset keys are pairwise distinct.
pub open spec fn keys_unique(r: Record) -> bool {
    entry_keys_unique(r.assets@)
}

/// Two records carry equal value: equal base quantity and equal holdings of
/// every asset.  Zero-valued entries and the identity do not matter.
pub open spec fn same_value(a: Record, b: Record) -> bool {
    &&& a.quantity == b.quantity
    &&& forall|k: (Seq<char>, Seq<char>)| asset_qty(a, k) == asset_qty(b, k)
}

/// A record carrying no value at all.
pub open spec fn is_zero_value(r: Record) -> bool {
    &&& r.quantity == 0
    &&& forall|k: (Seq<char>, Seq<char>)| asset_qty(r, k) == 0
}

pub proof fn lemma_entries_take_step(s: Seq<(AssetId, u64)>, k: (Seq<char>, Seq<char>), i: int)
    requires
        0 <= i < s.len(),
    ensures
        entries_qty(s.take(i + 1), k) == entries_qty(s.take(i), k) + if s[i].0@ == k {
            s[i].1 as int
        } else {
            0
        },
{
    assert(s.take(i + 1).drop_last() =~= s.take(i));
    assert(s.take(i + 1).last() == s[i]);
}

pub proof fn lemma_entries_nonneg(s: Seq<(AssetId, u64)>, k: (Seq<char>, Seq<char>))
    ensures
        entries_qty(s, k) >= 0,
    decreases s.len(),
{
    if s.len() > 0 {
        lemma_entries_nonneg(s.drop_last(), k);
    }
}

pub proof fn lemma_entries_absent(s: Seq<(AssetId, u64)>, k: (Seq<char>, Seq<char>))
    requires
        forall|j: int| 0 <= j < s.len() ==> (#[trigger] s[j]).0@ != k,
    ensures
        entries_qty(s, k) == 0,
    decreases s.len(),
{
    if s.len() > 0 {
        assert(s.last() == s[s.len() - 1]);
        lemma_entries_absent(s.drop_last(), k);
    }
}

pub proof fn lemma_entries_remove(s: Seq<(AssetId, u64)>, k: (Seq<char>, Seq<char>), i: int)
    requires
        0 <= i < s.len(),
    ensures
        entries_qty(s.remove(i), k) == entries_qty(s, k) - if s[i].0@ == k {
            s[i].1 as int
        } else {
            0
        },
    decreases s.len(),
{
    if i == s.len() - 1 {
        assert(s.remove(i) =~= s.drop_last());
    } else {
        assert(s.remove(i).drop_last() =~= s.drop_last().remove(i));
        assert(s.remove(i).last() == s.last());
        lemma_entries_remove(s.drop_last(), k, i);
    }
}

pub proof fn lemma_entries_take_le(s: Seq<(AssetId, u64)>, k: (Seq<char>, Seq<char>), i: int)
    requires
        0 <= i <= s.len(),
    ensures
        entries_qty(s.take(i), k) <= entries_qty(s, k),
    decreases s.len() - i,
{
    if i == s.len() {
        assert(s.take(i) =~= s);
    } else {
        lemma_entries_take_step(s, k, i);
        lemma_entries_take_le(s, k, i + 1);
    }
}

/// In a list with distinct keys, the quantity at the key of entry `i` is
/// exactly that entry's value.
pub proof fn lemma_entries_unique_at(s: Seq<(AssetId, u64)>, i: int)
    requires
        entry_keys_unique(s),
        0 <= i < s.len(),
    ensures
        entries_qty(s, s[i].0@) == s[i].1 as int,
{
    lemma_entries_remove(s, s[i].0@, i);
    assert forall|j: int| 0 <= j < s.remove(i).len() implies (#[trigger] s.remove(i)[j]).0@
        != s[i].0@ by {
        if j < i {
            assert(s.remove(i)[j] == s[j]);
        } else {
            assert(s.remove(i)[j] == s[j + 1]);
        }
    }
    lemma_entries_absent(s.remove(i), s[i].0@);
}

/// A record with distinct keys holds at most `u64::MAX` of any one asset.
pub proof fn lemma_record_bounds(r: Record)
    requires
        keys_unique(r),
    ensures
        forall|k: (Seq<char>, Seq<char>)| 0 <= #[trigger] asset_qty(r, k) <= u64::MAX,
{
    assert forall|k: (Seq<char>, Seq<char>)| 0 <= #[trigger] asset_qty(r, k) <= u64::MAX by {
        lemma_entries_nonneg(r.assets@, k);
        if exists|j: int| 0 <= j < r.assets@.len() && (#[trigger] r.assets@[j]).0@ == k {
            let j = choose|j: int| 0 <= j < r.assets@.len() && (#[trigger] r.assets@[j]).0@ == k;
            lemma_entries_unique_at(r.assets@, j);
        } else {
            lemma_entries_absent(r.assets@, k);
        }
    }
}

/// The index of the first entry whose key names the same asset as `key`.
pub(crate) fn find_entry(assets: &Vec<(AssetId, u64)>, key: &AssetId) -> (r: Option<usize>)
    ensures
        match r {
            Some(i) => {
                &&& 0 <= i < assets@.len()
                &&& assets@[i as int].0@ == key@
                &&& forall|j: int| 0 <= j < i ==> (#[trigger] assets@[j]).0@ != key@
            },
            None => forall|j: int| 0 <= j < assets@.len() ==> (#[trigger] assets@[j]).0@ != key@,
        },
{
    let n = assets.len();
    let mut i: usize = 0;
    while i < n
        invariant
            0 <= i <= n,
            n == assets@.len(),
            forall|j: int| 0 <= j < i ==> (#[trigger] assets@[j]).0@ != key@,
        decreases n - i,
    {
        if assets[i].0.same(key) {
            return Some(i);
        }
        i = i + 1;
    }
    None
}

impl Record {
    /// A fresh record with the given identity and base quantity and no assets.
    pub fn new(identity: Option<RecordId>, quantity: u64) -> (r: Record)
        ensures
            r.identity == identity,
            r.quantity == quantity,
            r.assets@.len() == 0,
            keys_unique(r),
            forall|k: (Seq<char>, Seq<char>)| asset_qty(r, k) == 0,
    {
        Record { identity, quantity, assets: Vec::new() }
    }

    /// The neutral record: no identity, zero quantity, no assets.
    pub fn zero() -> (r: Record)
        ensures
            r.identity is None,
            keys_unique(r),
            is_zero_value(r),
            r.quantity == 0,
            r.assets@.len() == 0,
    {
        Record { identity: None, quantity: 0, assets: Vec::new() }
    }

    /// The quantity of asset `key` this record carries; zero when absent.
    pub fn asset_of(&self, key: &AssetId) -> (q: u64)
        requires
            keys_unique(*self),
        ensures
            q as int == asset_qty(*self, key@),
    {
        match find_entry(&self.assets, key) {
            Some(i) => {
                proof {
                    lemma_entries_unique_at(self.assets@, i as int);
                }
                self.assets[i].1
            },
            None => {
                proof {
                    lemma_entries_absent(self.assets@, key@);
                }
                0
            },
        }
    }

    /// Sets the quantity of asset `key` to `value`, dropping the entry when
    /// `value` is zero.  Other assets, the base quantity and the identity are
    /// untouched.
    pub fn insert_asset(&mut self, key: AssetId, value: u64)
        requires
            keys_unique(*old(self)),
        ensures
            keys_unique(*final(self)),
            final(self).quantity == old(self).quantity,
            final(self).identity == old(self).identity,
            asset_qty(*final(self), key@) == value as int,
            forall|k: (Seq<char>, Seq<char>)|
                k != key@ ==> asset_qty(*final(self), k) == asset_qty(*old(self), k),
    {
        let ghost s0 = self.assets@;
        match find_entry(&self.assets, &key) {
            Some(i) => {
                proof {
                    lemma_entries_remove(s0, key@, i as int);
                    assert forall|k: (Seq<char>, Seq<char>)| k != key@ implies entries_qty(
                        s0.remove(i as int),
                        k,
                    ) == entries_qty(s0, k) by {
                        lemma_entries_remove(s0, k, i as int);
                    }
                    assert forall|j: int| 0 <= j < s0.remove(i as int).len() implies (
                    #[trigger] s0.remove(i as int)[j]).0@ != key@ by {
                        if j < i {
                            assert(s0.remove(i as int)[j] == s0[j]);
                        } else {
                            assert(s0.remove(i as int)[j] == s0[j + 1]);
                        }
                    }
                }
                let _ = self.assets.remove(i);
            },
            None => {
            },
        }
        let ghost s1 = self.assets@;
        proof {
            // after removal (or when absent) the key is gone
            lemma_entries_absent(s1, key@);
        }
        if value > 0 {
            self.assets.push((key, value));
            proof {
                assert(self.assets@.drop_last() =~= s1);
                assert forall|k: (Seq<char>, Seq<char>)| true implies entries_qty(self.assets@, k)
                    == entries_qty(s1, k) + if k == key@ {
                    value as int
                } else {
                    0
                } by {
                    assert(self.assets@.last().1 == value);
                }
            }
        }
    }

    /// Whether this record and `other` carry equal value, discarding
    /// zero-valued entries and ignoring identities.
    pub fn value_eq(&self, other: &Record) -> (r: bool)
        requires
            keys_unique(*self),
            keys_unique(*other),
        ensures
            r == same_value(*self, *other),
    {
        if self.quantity != other.quantity {
            return false;
        }
        let n = self.assets.len();
        let mut i: usize = 0;
        while i < n
            invariant
                0 <= i <= n,
                n == self.assets@.len(),
                keys_unique(*self),
                keys_unique(*other),
                forall|j: int|
                    0 <= j < i ==> asset_qty(*other, (#[trigger] self.assets@[j]).0@) == asset_qty(
                        *self,
                        self.assets@[j].0@,
                    ),
            decreases n - i,
        {
            let have = other.asset_of(&self.assets[i].0);
            proof {
                lemma_entries_unique_at(self.assets@, i as int);
            }
            if have != self.assets[i].1 {
                return false;
            }
            i = i + 1;
        }
        let m = other.assets.len();
        let mut j: usize = 0;
        while j < m
            invariant
                0 <= j <= m,
                m == other.assets@.len(),
                keys_unique(*self),
                keys_unique(*other),
                forall|jj: int|
                    0 <= jj < self.assets@.len() ==> asset_qty(
                        *other,
                        (#[trigger] self.assets@[jj]).0@,
                    ) == asset_qty(*self, self.assets@[jj].0@),
                forall|jj: int|
                    0 <= jj < j ==> asset_qty(*self, (#[trigger] other.assets@[jj]).0@)
                        == asset_qty(*other, other.assets@[jj].0@),
            decreases m - j,
        {
            let have = self.asset_of(&other.assets[j].0);
            proof {
                lemma_entries_unique_at(other.assets@, j as int);
            }
            if have != other.assets[j].1 {
                return false;
            }
            j = j + 1;
        }
        proof {
            assert forall|k: (Seq<char>, Seq<char>)| asset_qty(*self, k) == asset_qty(
                *other,
                k,
            ) by {
                if exists|jj: int|
                    0 <= jj < self.assets@.len() && (#[trigger] self.assets@[jj]).0@ == k {
                    let jj = choose|jj: int|
                        0 <= jj < self.assets@.len() && (#[trigger] self.assets@[jj]).0@ == k;
                    assert(asset_qty(*other, self.assets@[jj].0@) == asset_qty(
                        *self,
                        self.assets@[jj].0@,
                    ));
                } else if exists|jj: int|
                    0 <= jj < other.assets@.len() && (#[trigger] other.assets@[jj]).0@ == k {
                    let jj = choose|jj: int|
                        0 <= jj < other.assets@.len() && (#[trigger] other.assets@[jj]).0@ == k;
                    assert(asset_qty(*self, other.assets@[jj].0@) == asset_qty(
                        *other,
                        other.assets@[jj].0@,
                    ));
                } else {
                    lemma_entries_absent(self.assets@, k);
                    lemma_entries_absent(other.assets@, k);
                }
            }
        }
        true
    }
}

} // verus!
