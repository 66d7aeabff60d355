use xcm::{
    AssetId, Fungibility, MultiAsset, MultiLocation, Order, Outcome, Xcm, XcmConfig, XcmError,
    MAX_RECURSION_LIMIT,
};

fn nothing() -> MultiAsset {
    MultiAsset { id: AssetId::Concrete(MultiLocation::here()), fun: Fungibility::Fungible(0) }
}

fn nested(levels: u32) -> Xcm<()> {
    let mut msg = Xcm::WithdrawAsset { assets: vec![nothing()], effects: vec![] };
    for _ in 0..levels {
        msg = Xcm::WithdrawAsset {
            assets: vec![nothing()],
            effects: vec![Order::BuyExecution {
                fees: nothing(),
                weight: 0,
                debt: 0,
                halt_on_error: true,
                // nest `msg` into itself on each iteration.
                xcm: vec![msg],
            }],
        };
    }
    msg
}

#[test]
fn execute_within_recursion_limit() {
    let mut executor = XcmConfig::executor();
    let msg = nested(MAX_RECURSION_LIMIT);
    let outcome = executor.execute_xcm(MultiLocation::here(), msg, 1_000_000_000);
    assert!(matches!(outcome, Outcome::Complete(_)));
}

#[test]
fn exceed_recursion_limit() {
    let mut executor = XcmConfig::executor();
    let msg = nested(MAX_RECURSION_LIMIT + 1);
    let outcome = executor.execute_xcm(MultiLocation::here(), msg, 1_000_000_000);
    assert!(matches!(outcome, Outcome::Incomplete(_, XcmError::RecursionLimitReached)));
}

#[test]
fn weight_of_nested_message_counts_every_instruction() {
    let mut executor = XcmConfig::executor();
    let outcome = executor.execute_xcm(MultiLocation::here(), nested(2), 1_000_000_000);
    // three messages and two orders, at 1000 each
    assert_eq!(outcome, Outcome::Complete(5_000));
}

#[test]
fn message_above_the_weight_limit_is_refused() {
    let mut executor = XcmConfig::executor();
    let outcome = executor.execute_xcm(MultiLocation::here(), nested(2), 4_999);
    assert_eq!(outcome, Outcome::Error(XcmError::WeightLimitReached(5_000)));
}
