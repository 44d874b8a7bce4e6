use utxo_select::record::{AssetId, Record, RecordId};
use utxo_select::total::{combine, difference, OverflowError};

fn aid(policy: &str, name: &str) -> AssetId {
    AssetId::new(policy.to_string(), name.to_string())
}

fn rec(id: Option<(&str, u32)>, quantity: u64, assets: &[(&str, &str, u64)]) -> Record {
    let identity = id.map(|(h, i)| RecordId { hash: h.to_string(), index: i });
    let mut r = Record::new(identity, quantity);
    for (p, n, q) in assets {
        r.insert_asset(aid(p, n), *q);
    }
    r
}

#[test]
fn zero_is_neutral() {
    let z = Record::zero();
    assert_eq!(z.quantity, 0);
    assert!(z.identity.is_none());
    assert_eq!(z.assets.len(), 0);
}

#[test]
fn asset_of_reads_back_and_missing_is_zero() {
    let r = rec(None, 5, &[("p1", "a1", 10), ("p2", "a2", 20)]);
    assert_eq!(r.asset_of(&aid("p1", "a1")), 10);
    assert_eq!(r.asset_of(&aid("p2", "a2")), 20);
    assert_eq!(r.asset_of(&aid("p3", "a3")), 0);
}

#[test]
fn insert_asset_replaces_and_drops_zero() {
    let mut r = rec(None, 0, &[("p1", "a1", 10)]);
    r.insert_asset(aid("p1", "a1"), 7);
    assert_eq!(r.asset_of(&aid("p1", "a1")), 7);
    assert_eq!(r.assets.len(), 1);
    r.insert_asset(aid("p1", "a1"), 0);
    assert_eq!(r.asset_of(&aid("p1", "a1")), 0);
    assert_eq!(r.assets.len(), 0);
}

#[test]
fn value_eq_ignores_identity_and_order() {
    let a = rec(Some(("h1", 0)), 9, &[("p1", "a1", 1), ("p2", "a2", 2)]);
    let b = rec(None, 9, &[("p2", "a2", 2), ("p1", "a1", 1)]);
    assert!(a.value_eq(&b));
    let c = rec(None, 9, &[("p1", "a1", 1)]);
    assert!(!a.value_eq(&c));
    let d = rec(None, 8, &[("p1", "a1", 1), ("p2", "a2", 2)]);
    assert!(!a.value_eq(&d));
}

#[test]
fn combine_sums_quantities_and_assets() {
    let records = vec![
        rec(None, 1000, &[("p1", "a1", 10000), ("p2", "a2", 100000)]),
        rec(None, 5000, &[]),
    ];
    let total = combine(&records).unwrap();
    assert_eq!(total.quantity, 6000);
    assert_eq!(total.asset_of(&aid("p1", "a1")), 10000);
    assert_eq!(total.asset_of(&aid("p2", "a2")), 100000);
    assert!(total.identity.is_none());
}

#[test]
fn combine_empty_is_zero() {
    let total = combine(&Vec::new()).unwrap();
    assert!(total.value_eq(&Record::zero()));
}

#[test]
fn combine_is_order_independent() {
    let a = rec(None, 1, &[("p1", "a1", 5)]);
    let b = rec(None, 2, &[("p1", "a1", 7), ("p2", "a2", 3)]);
    let c = rec(None, 3, &[("p2", "a2", 11)]);
    let one = combine(&vec![
        rec(None, 1, &[("p1", "a1", 5)]),
        rec(None, 2, &[("p1", "a1", 7), ("p2", "a2", 3)]),
        rec(None, 3, &[("p2", "a2", 11)]),
    ])
    .unwrap();
    let other = combine(&vec![c, a, b]).unwrap();
    assert!(one.value_eq(&other));
    assert_eq!(one.quantity, 6);
    assert_eq!(one.asset_of(&aid("p1", "a1")), 12);
    assert_eq!(one.asset_of(&aid("p2", "a2")), 14);
}

#[test]
fn combine_quantity_overflow_is_reported() {
    let records = vec![rec(None, u64::MAX, &[]), rec(None, 1, &[])];
    assert!(matches!(combine(&records), Err(OverflowError)));
    // the same records in the other order overflow too
    let records = vec![rec(None, 1, &[]), rec(None, u64::MAX, &[])];
    assert!(matches!(combine(&records), Err(OverflowError)));
}

#[test]
fn combine_asset_overflow_is_reported() {
    let records = vec![
        rec(None, 0, &[("p1", "a1", u64::MAX)]),
        rec(None, 0, &[("p1", "a1", 1)]),
    ];
    assert!(matches!(combine(&records), Err(OverflowError)));
}

#[test]
fn difference_subtracts_per_dimension() {
    let a = rec(None, 10, &[("p1", "a1", 5), ("p2", "a2", 9)]);
    let b = rec(None, 4, &[("p1", "a1", 5), ("p2", "a2", 2)]);
    let d = difference(&a, &b);
    assert_eq!(d.quantity, 6);
    assert_eq!(d.asset_of(&aid("p1", "a1")), 0);
    assert_eq!(d.asset_of(&aid("p2", "a2")), 7);
    assert!(d.identity.is_none());
}
