use xcm::{
    AssetId, FixedRateOfConcreteFungible, Junction, MultiAsset, MultiLocation, Outcome,
    XcmError, WEIGHT_PER_SECOND,
};

fn path(parents: u8, interior: Vec<Junction>) -> MultiLocation {
    MultiLocation::new(parents, interior)
}

#[test]
fn here_is_here() {
    assert!(MultiLocation::here().is_here());
    assert!(!path(1, vec![]).is_here());
    assert!(!path(0, vec![Junction::OnlyChild]).is_here());
}

#[test]
fn locations_are_compared_by_parents_and_path() {
    let a = path(1, vec![Junction::Parachain(1), Junction::GeneralIndex(7)]);
    assert!(a.same(&a.clone()));
    assert!(!a.same(&path(2, vec![Junction::Parachain(1), Junction::GeneralIndex(7)])));
    assert!(!a.same(&path(1, vec![Junction::Parachain(1)])));
    assert!(!a.same(&path(1, vec![Junction::Parachain(1), Junction::GeneralIndex(8)])));
}

#[test]
fn prepending_cancels_parents_against_the_end_of_the_prefix() {
    let prefix = path(1, vec![Junction::Parachain(1), Junction::PalletInstance(2)]);
    let one_up = path(1, vec![Junction::GeneralIndex(9)]);
    assert_eq!(
        one_up.prepended(&prefix),
        Some(path(1, vec![Junction::Parachain(1), Junction::GeneralIndex(9)]))
    );
    let three_up = path(3, vec![Junction::OnlyChild]);
    assert_eq!(three_up.prepended(&prefix), Some(path(2, vec![Junction::OnlyChild])));
    let below = path(0, vec![Junction::OnlyChild]);
    assert_eq!(
        below.prepended(&prefix),
        Some(path(
            1,
            vec![Junction::Parachain(1), Junction::PalletInstance(2), Junction::OnlyChild]
        ))
    );
}

#[test]
fn prepending_fails_when_the_parents_do_not_fit() {
    let prefix = path(200, vec![]);
    assert_eq!(path(56, vec![]).prepended(&prefix), None);
    assert_eq!(path(55, vec![]).prepended(&prefix), Some(path(255, vec![])));
}

#[test]
fn inversion_leads_back() {
    let ancestry = path(0, vec![Junction::Parachain(1), Junction::PalletInstance(3)]);
    let target = path(1, vec![Junction::Parachain(2), Junction::AccountIndex64(5)]);
    assert_eq!(target.inverted(&ancestry), Some(path(2, vec![Junction::Parachain(1)])));
    let far = path(3, vec![]);
    assert_eq!(
        far.inverted(&ancestry),
        Some(path(
            0,
            vec![Junction::Parachain(1), Junction::PalletInstance(3), Junction::OnlyChild]
        ))
    );
    assert_eq!(MultiLocation::here().inverted(&ancestry), Some(MultiLocation::here()));
    let deep = path(0, vec![Junction::OnlyChild; 256]);
    assert_eq!(deep.inverted(&ancestry), None);
}

#[test]
fn reanchoring_moves_concrete_assets_only() {
    let prefix = path(1, vec![]);
    let concrete = MultiAsset::fungible(AssetId::Concrete(MultiLocation::here()), 5);
    let named = MultiAsset::fungible(AssetId::Abstract(vec![1]), 5);
    assert_eq!(
        concrete.reanchored(&prefix),
        Some(MultiAsset::fungible(AssetId::Concrete(path(1, vec![])), 5))
    );
    assert_eq!(named.reanchored(&prefix), Some(named.clone()));
    assert!(named.same(&named.clone()));
    assert!(!named.same(&concrete));
    assert!(concrete.is_fungible());
}

#[test]
fn price_is_the_rate_times_the_weight_rounded_down() {
    let trader = FixedRateOfConcreteFungible::new(MultiLocation::here(), 3);
    assert_eq!(trader.price(0), Some(0));
    assert_eq!(trader.price(WEIGHT_PER_SECOND), Some(3));
    assert_eq!(trader.price(WEIGHT_PER_SECOND - 1), Some(2));
    assert_eq!(trader.price(WEIGHT_PER_SECOND / 3), Some(0));
    let dear = FixedRateOfConcreteFungible::new(MultiLocation::here(), u128::MAX);
    assert_eq!(dear.price(2), None);
    assert_eq!(dear.price(1), Some(u128::MAX / WEIGHT_PER_SECOND as u128));
}

#[test]
fn outcome_tells_what_was_done() {
    assert_eq!(Outcome::Complete(5).ensure_complete(), Ok(()));
    assert_eq!(Outcome::Incomplete(5, XcmError::Underpaid).ensure_complete(), Err(XcmError::Underpaid));
    assert_eq!(Outcome::Error(XcmError::Barrier).ensure_complete(), Err(XcmError::Barrier));
    assert_eq!(Outcome::Complete(5).ensure_execution(), Ok(5));
    assert_eq!(Outcome::Incomplete(4, XcmError::Underpaid).ensure_execution(), Ok(4));
    assert_eq!(Outcome::Error(XcmError::Barrier).ensure_execution(), Err(XcmError::Barrier));
    assert_eq!(Outcome::Complete(5).weight_used(), 5);
    assert_eq!(Outcome::Incomplete(4, XcmError::Underpaid).weight_used(), 4);
    assert_eq!(Outcome::Error(XcmError::Barrier).weight_used(), 0);
}
