use utxo_select::record::{AssetId, Record, RecordId};
use utxo_select::selection::select;
use utxo_select::total::combine;

fn aid(policy: &str, name: &str) -> AssetId {
    AssetId::new(policy.to_string(), name.to_string())
}

fn rec(id: Option<(&str, u32)>, quantity: u64, assets: &[(&str, &str, u64)]) -> Record {
    let identity = id.map(|(h, i)| RecordId { hash: h.to_string(), index: i });
    let mut r = Record::new(identity, quantity);
    for (p, n, q) in assets {
        r.insert_asset(aid(p, n), *q);
    }
    r
}

fn hash_of(r: &Record) -> String {
    r.identity.as_ref().expect("identity").hash.clone()
}

fn scenario_inputs() -> Vec<Record> {
    vec![
        rec(
            Some(("hash1", 1)),
            10000,
            &[("policy3", "aname1", 10000), ("policy4", "aname2", 100000)],
        ),
        rec(
            Some(("hash2", 2)),
            200,
            &[("policy1", "aname1", 20000), ("policy2", "aname2", 200000)],
        ),
        rec(Some(("hash3", 3)), 7000, &[]),
    ]
}

fn scenario_target() -> Record {
    let outputs = vec![
        rec(None, 1000, &[("policy1", "aname1", 10000), ("policy2", "aname2", 100000)]),
        rec(None, 5000, &[]),
    ];
    combine(&outputs).unwrap()
}

#[test]
fn covers_assets_then_value() {
    let target = scenario_target();
    assert_eq!(target.quantity, 6000);
    let outcome = select(scenario_inputs(), &target, &Record::zero()).expect("enough inputs");

    assert_eq!(outcome.selected.len(), 2);
    assert_eq!(hash_of(&outcome.selected[0]), "hash2");
    assert_eq!(outcome.selected[0].identity.as_ref().unwrap().index, 2);
    assert_eq!(outcome.selected[0].quantity, 200);
    assert_eq!(hash_of(&outcome.selected[1]), "hash3");
    assert_eq!(outcome.selected[1].identity.as_ref().unwrap().index, 3);
    assert_eq!(outcome.selected[1].quantity, 7000);

    assert_eq!(outcome.unselected.len(), 1);
    assert_eq!(hash_of(&outcome.unselected[0]), "hash1");

    assert_eq!(outcome.excess.quantity, 1200);
    assert_eq!(outcome.excess.asset_of(&aid("policy1", "aname1")), 10000);
    assert_eq!(outcome.excess.asset_of(&aid("policy2", "aname2")), 100000);
    assert!(outcome.excess.identity.is_none());
}

#[test]
fn reports_no_solution_when_value_short() {
    let target = rec(None, 1_000_000, &[]);
    assert!(select(scenario_inputs(), &target, &Record::zero()).is_none());
}

#[test]
fn reports_overflow_when_outputs_do_not_fit() {
    let outputs = vec![rec(None, u64::MAX, &[]), rec(None, 1, &[])];
    assert!(combine(&outputs).is_err());
}

#[test]
fn empty_inputs_cover_a_zero_target() {
    let outcome = select(Vec::new(), &Record::zero(), &Record::zero()).expect("zero needs nothing");
    assert!(outcome.selected.is_empty());
    assert!(outcome.unselected.is_empty());
    assert!(outcome.excess.value_eq(&Record::zero()));
}

#[test]
fn dominance_holds_on_success() {
    let target = scenario_target();
    let threshold = rec(None, 500, &[]);
    let outcome = select(scenario_inputs(), &target, &threshold).expect("enough inputs");
    let total = combine(&outcome.selected).unwrap();
    assert!(total.quantity >= target.quantity + threshold.quantity);
    assert!(total.asset_of(&aid("policy1", "aname1")) >= target.asset_of(&aid("policy1", "aname1")));
    assert!(total.asset_of(&aid("policy2", "aname2")) >= target.asset_of(&aid("policy2", "aname2")));
    // excess == combine(selected) - (target + threshold), per dimension
    assert_eq!(outcome.excess.quantity, total.quantity - target.quantity - threshold.quantity);
    assert_eq!(
        outcome.excess.asset_of(&aid("policy1", "aname1")),
        total.asset_of(&aid("policy1", "aname1")) - target.asset_of(&aid("policy1", "aname1"))
    );
}

#[test]
fn partition_keeps_every_input_exactly_once() {
    let target = scenario_target();
    let outcome = select(scenario_inputs(), &target, &Record::zero()).expect("enough inputs");
    let mut seen: Vec<String> = outcome
        .selected
        .iter()
        .chain(outcome.unselected.iter())
        .map(|r| hash_of(r))
        .collect();
    seen.sort();
    assert_eq!(seen, vec!["hash1".to_string(), "hash2".to_string(), "hash3".to_string()]);
}

#[test]
fn insufficient_assets_mean_no_solution() {
    // inputs dominate the quantity but lack the required asset entirely
    let target = rec(None, 100, &[("p9", "rare", 1)]);
    let inputs = vec![rec(Some(("h1", 0)), 1000, &[("p1", "a1", 50)])];
    assert!(select(inputs, &target, &Record::zero()).is_none());
}

#[test]
fn asset_amount_short_means_no_solution() {
    let target = rec(None, 0, &[("p1", "a1", 100)]);
    let inputs = vec![
        rec(Some(("h1", 0)), 10, &[("p1", "a1", 60)]),
        rec(Some(("h2", 1)), 10, &[("p1", "a1", 30)]),
    ];
    assert!(select(inputs, &target, &Record::zero()).is_none());
}

#[test]
fn zero_threshold_succeeds_exactly_when_inputs_cover_target() {
    let inputs = vec![rec(Some(("h1", 0)), 300, &[]), rec(Some(("h2", 1)), 200, &[])];
    let covered = rec(None, 500, &[]);
    assert!(select(inputs.clone_for_test(), &covered, &Record::zero()).is_some());
    let uncovered = rec(None, 501, &[]);
    assert!(select(inputs, &uncovered, &Record::zero()).is_none());
}

#[test]
fn threshold_forces_extra_inputs() {
    let inputs = vec![
        rec(Some(("h1", 0)), 100, &[]),
        rec(Some(("h2", 1)), 400, &[]),
        rec(Some(("h3", 2)), 200, &[]),
    ];
    let target = rec(None, 100, &[]);
    let threshold = rec(None, 500, &[]);
    let outcome = select(inputs, &target, &threshold).expect("600 of 700 needed");
    // ascending draw by quantity: 100, then 200, then 400
    assert_eq!(outcome.selected.len(), 3);
    assert_eq!(hash_of(&outcome.selected[0]), "h1");
    assert_eq!(hash_of(&outcome.selected[1]), "h3");
    assert_eq!(hash_of(&outcome.selected[2]), "h2");
    assert_eq!(outcome.excess.quantity, 100);
}

#[test]
fn smallest_holder_of_an_asset_is_drawn_first() {
    let inputs = vec![
        rec(Some(("big", 0)), 1, &[("p1", "a1", 500)]),
        rec(Some(("small", 1)), 1, &[("p1", "a1", 40)]),
    ];
    let target = rec(None, 0, &[("p1", "a1", 30)]);
    let outcome = select(inputs, &target, &Record::zero()).expect("covered");
    assert_eq!(outcome.selected.len(), 1);
    assert_eq!(hash_of(&outcome.selected[0]), "small");
    assert_eq!(outcome.excess.asset_of(&aid("p1", "a1")), 10);
    assert_eq!(outcome.excess.quantity, 1);
}

#[test]
fn requirement_overflow_is_no_solution() {
    // target + threshold does not fit in u64
    let target = rec(None, u64::MAX, &[]);
    let threshold = rec(None, 1, &[]);
    let inputs = vec![rec(Some(("h1", 0)), u64::MAX, &[])];
    assert!(select(inputs, &target, &threshold).is_none());
}

trait CloneForTest {
    fn clone_for_test(&self) -> Self;
}

impl CloneForTest for Vec<Record> {
    fn clone_for_test(&self) -> Vec<Record> {
        self.iter()
            .map(|r| {
                let identity = r.identity.as_ref().map(|id| RecordId {
                    hash: id.hash.clone(),
                    index: id.index,
                });
                let mut c = Record::new(identity, r.quantity);
                for (k, q) in r.assets.iter() {
                    c.insert_asset(AssetId::new(k.policy_id.clone(), k.asset_name.clone()), *q);
                }
                c
            })
            .collect()
    }
}

#[test]
fn unrequested_assets_ride_along_into_excess() {
    let inputs = vec![rec(Some(("h1", 0)), 5, &[("px", "extra", 42), ("p1", "a1", 10)])];
    let target = rec(None, 0, &[("p1", "a1", 10)]);
    let outcome = select(inputs, &target, &Record::zero()).expect("covered");
    assert_eq!(outcome.selected.len(), 1);
    assert_eq!(outcome.excess.quantity, 5);
    assert_eq!(outcome.excess.asset_of(&aid("px", "extra")), 42);
    assert_eq!(outcome.excess.asset_of(&aid("p1", "a1")), 0);
}

#[test]
fn threshold_assets_join_the_requirement() {
    let inputs = vec![
        rec(Some(("h1", 0)), 0, &[("p1", "a1", 7)]),
        rec(Some(("h2", 1)), 0, &[("p1", "a1", 12)]),
    ];
    let target = rec(None, 0, &[("p1", "a1", 5)]);
    let threshold = rec(None, 0, &[("p1", "a1", 5)]);
    let outcome = select(inputs, &target, &threshold).expect("covered");
    // 10 of p1/a1 are required; the 7-holder alone is short, so both are drawn,
    // smallest holder first
    assert_eq!(outcome.selected.len(), 2);
    assert_eq!(hash_of(&outcome.selected[0]), "h1");
    assert_eq!(hash_of(&outcome.selected[1]), "h2");
    assert_eq!(outcome.excess.asset_of(&aid("p1", "a1")), 9);
    assert_eq!(outcome.excess.quantity, 0);
}
