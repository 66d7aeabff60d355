use xcm::{AssetId, Assets, MultiAsset, MultiAssetFilter, MultiLocation, WildMultiAsset, XcmError};

fn here() -> AssetId {
    AssetId::Concrete(MultiLocation::here())
}

fn named(name: &[u8]) -> AssetId {
    AssetId::Abstract(name.to_vec())
}

#[test]
fn subsume_adds_amounts_of_one_class() {
    let mut holding = Assets::new();
    holding.subsume(MultiAsset::fungible(here(), 40));
    holding.subsume(MultiAsset::fungible(named(b"x"), 7));
    holding.subsume(MultiAsset::fungible(here(), 60));
    assert_eq!(holding.balance_of(&here()), 100);
    assert_eq!(holding.balance_of(&named(b"x")), 7);
    assert_eq!(holding.len(), 2);
}

#[test]
fn subsume_saturates_at_the_largest_amount() {
    let mut holding = Assets::new();
    holding.subsume(MultiAsset::fungible(here(), u128::MAX - 1));
    holding.subsume(MultiAsset::fungible(here(), 5));
    assert_eq!(holding.balance_of(&here()), u128::MAX);
}

#[test]
fn withdraw_of_too_much_leaves_the_register_unchanged() {
    let mut holding = Assets::new();
    holding.subsume(MultiAsset::fungible(here(), 10));
    let filter = MultiAssetFilter::Definite(vec![MultiAsset::fungible(here(), 11)]);
    assert_eq!(holding.withdraw(&filter).err(), Some(XcmError::NotWithdrawable));
    assert_eq!(holding.balance_of(&here()), 10);
}

#[test]
fn withdraw_of_everything_empties_the_register() {
    let mut holding = Assets::new();
    holding.subsume(MultiAsset::fungible(here(), 10));
    let taken = holding.withdraw(&MultiAssetFilter::Wild(WildMultiAsset::All)).unwrap();
    assert!(holding.is_empty());
    assert_eq!(taken.balance_of(&here()), 10);
}

fn art(index: u128) -> MultiAsset {
    MultiAsset::non_fungible(named(b"art"), xcm::AssetInstance::Index(index))
}

fn listed(holding: &Assets) -> Vec<MultiAsset> {
    holding.to_assets()
}

#[test]
fn subsume_of_nothing_changes_nothing() {
    let mut holding = Assets::new();
    holding.subsume(MultiAsset::fungible(here(), 0));
    assert!(holding.is_empty());
    assert_eq!(holding.len(), 0);
}

#[test]
fn subsume_holds_an_instance_once() {
    let mut holding = Assets::new();
    holding.subsume(art(1));
    holding.subsume(art(1));
    holding.subsume(art(2));
    assert_eq!(holding.len(), 2);
    assert!(holding.has_instance(&named(b"art"), xcm::AssetInstance::Index(1)));
    assert!(!holding.has_instance(&named(b"art"), xcm::AssetInstance::Index(3)));
}

#[test]
fn total_per_class_is_the_capped_sum_of_what_was_merged() {
    let inputs = vec![
        MultiAsset::fungible(here(), 5),
        MultiAsset::fungible(named(b"x"), u128::MAX),
        art(4),
        MultiAsset::fungible(here(), 6),
        MultiAsset::fungible(named(b"x"), 1),
        MultiAsset::fungible(here(), 7),
    ];
    let holding = Assets::from_assets(inputs);
    assert_eq!(holding.balance_of(&here()), 18);
    assert_eq!(holding.balance_of(&named(b"x")), u128::MAX);
    assert_eq!(holding.balance_of(&named(b"y")), 0);
    assert_eq!(holding.len(), 3);
}

#[test]
fn assets_are_listed_fungibles_first_in_order_of_arrival() {
    let holding = Assets::from_assets(vec![
        art(4),
        MultiAsset::fungible(named(b"x"), 2),
        MultiAsset::fungible(here(), 5),
        MultiAsset::fungible(named(b"x"), 3),
    ]);
    assert_eq!(
        listed(&holding),
        vec![MultiAsset::fungible(named(b"x"), 5), MultiAsset::fungible(here(), 5), art(4)]
    );
}

#[test]
fn withdraw_of_what_is_held_empties_the_register_and_returns_it() {
    let list = vec![
        MultiAsset::fungible(here(), 5),
        art(4),
        MultiAsset::fungible(named(b"x"), 2),
        MultiAsset::fungible(here(), 6),
    ];
    let mut holding = Assets::from_assets(list.clone());
    let before = listed(&holding);
    let taken = holding.withdraw(&MultiAssetFilter::Definite(list)).unwrap();
    assert!(holding.is_empty());
    assert_eq!(listed(&taken), before);
}

#[test]
fn withdraw_is_atomic_when_a_later_asset_is_missing() {
    let mut holding = Assets::from_assets(vec![MultiAsset::fungible(here(), 5), art(4)]);
    let before = listed(&holding);
    let filter = MultiAssetFilter::Definite(vec![MultiAsset::fungible(here(), 5), art(5)]);
    assert_eq!(holding.withdraw(&filter).err(), Some(XcmError::NotWithdrawable));
    assert_eq!(listed(&holding), before);
}

#[test]
fn withdraw_counts_an_asset_that_is_listed_twice_twice() {
    let mut holding = Assets::from_assets(vec![MultiAsset::fungible(here(), 100)]);
    let twice = MultiAssetFilter::Definite(vec![
        MultiAsset::fungible(here(), 60),
        MultiAsset::fungible(here(), 60),
    ]);
    assert_eq!(holding.withdraw(&twice).err(), Some(XcmError::NotWithdrawable));
    assert_eq!(holding.balance_of(&here()), 100);
}

#[test]
fn withdraw_of_part_leaves_the_rest() {
    let mut holding = Assets::from_assets(vec![MultiAsset::fungible(here(), 100), art(1)]);
    let taken = holding
        .withdraw(&MultiAssetFilter::Definite(vec![MultiAsset::fungible(here(), 30)]))
        .unwrap();
    assert_eq!(taken.balance_of(&here()), 30);
    assert_eq!(holding.balance_of(&here()), 70);
    assert_eq!(holding.len(), 2);
}

#[test]
fn withdraw_of_nothing_from_nothing_succeeds() {
    let mut holding = Assets::new();
    let taken = holding
        .withdraw(&MultiAssetFilter::Definite(vec![MultiAsset::fungible(here(), 0)]))
        .unwrap();
    assert!(taken.is_empty());
    assert!(holding.is_empty());
}

#[test]
fn wildcard_of_one_class_takes_that_class_only() {
    let mut holding = Assets::from_assets(vec![
        MultiAsset::fungible(here(), 100),
        MultiAsset::fungible(named(b"art"), 3),
        art(1),
        art(2),
    ]);
    let instances = MultiAssetFilter::Wild(WildMultiAsset::AllOf {
        id: named(b"art"),
        fun: xcm::WildFungibility::NonFungible,
    });
    let taken = holding.withdraw(&instances).unwrap();
    assert_eq!(listed(&taken), vec![art(1), art(2)]);
    assert_eq!(holding.len(), 2);
    let amounts = MultiAssetFilter::Wild(WildMultiAsset::AllOf {
        id: named(b"art"),
        fun: xcm::WildFungibility::Fungible,
    });
    let taken = holding.withdraw(&amounts).unwrap();
    assert_eq!(listed(&taken), vec![MultiAsset::fungible(named(b"art"), 3)]);
    assert_eq!(listed(&holding), vec![MultiAsset::fungible(here(), 100)]);
}

#[test]
fn capped_take_takes_what_is_there() {
    let mut holding = Assets::from_assets(vec![MultiAsset::fungible(here(), 100), art(1)]);
    let filter = MultiAssetFilter::Definite(vec![
        MultiAsset::fungible(here(), 150),
        art(2),
        MultiAsset::fungible(named(b"x"), 1),
        art(1),
    ]);
    let taken = holding.saturating_take(&filter, 10);
    assert_eq!(listed(&taken), vec![MultiAsset::fungible(here(), 100), art(1)]);
    assert!(holding.is_empty());
}

#[test]
fn capped_take_stops_at_the_limit() {
    let mut holding = Assets::from_assets(vec![
        MultiAsset::fungible(here(), 100),
        MultiAsset::fungible(named(b"x"), 7),
        art(1),
    ]);
    let all = MultiAssetFilter::Wild(WildMultiAsset::All);
    let taken = holding.saturating_take(&all, 2);
    assert_eq!(
        listed(&taken),
        vec![MultiAsset::fungible(here(), 100), MultiAsset::fungible(named(b"x"), 7)]
    );
    assert_eq!(listed(&holding), vec![art(1)]);
    let taken = holding.saturating_take(&all, 0);
    assert!(taken.is_empty());
    assert_eq!(holding.len(), 1);

    let mut holding = Assets::from_assets(vec![MultiAsset::fungible(here(), 100), art(1)]);
    let filter = MultiAssetFilter::Definite(vec![art(1), MultiAsset::fungible(here(), 1)]);
    let taken = holding.saturating_take(&filter, 1);
    assert_eq!(listed(&taken), vec![art(1)]);
    assert_eq!(holding.balance_of(&here()), 100);
}

#[test]
fn min_is_what_a_capped_take_would_take_and_changes_nothing() {
    let holding = Assets::from_assets(vec![MultiAsset::fungible(here(), 100), art(1)]);
    let filter = MultiAssetFilter::Definite(vec![
        MultiAsset::fungible(here(), 150),
        MultiAsset::fungible(named(b"x"), 1),
        art(1),
        art(2),
    ]);
    let least = holding.min(&filter);
    assert_eq!(listed(&least), vec![MultiAsset::fungible(here(), 100), art(1)]);
    assert_eq!(holding.balance_of(&here()), 100);
    let part = holding.min(&MultiAssetFilter::Definite(vec![MultiAsset::fungible(here(), 40)]));
    assert_eq!(listed(&part), vec![MultiAsset::fungible(here(), 40)]);
    let whole = holding.min(&MultiAssetFilter::Wild(WildMultiAsset::All));
    assert_eq!(listed(&whole), listed(&holding));
}

#[test]
fn checked_sub_removes_a_balance_that_is_used_up() {
    let mut holding = Assets::from_assets(vec![MultiAsset::fungible(here(), 100)]);
    assert_eq!(holding.checked_sub(&MultiAsset::fungible(here(), 101)), Err(XcmError::NotWithdrawable));
    assert_eq!(holding.checked_sub(&MultiAsset::fungible(here(), 100)), Ok(()));
    assert!(holding.is_empty());
    assert_eq!(holding.checked_sub(&art(1)), Err(XcmError::NotWithdrawable));
}

#[test]
fn merging_a_register_merges_its_assets() {
    let mut holding = Assets::from_assets(vec![MultiAsset::fungible(here(), 1), art(1)]);
    let other = Assets::from_assets(vec![art(1), art(2), MultiAsset::fungible(here(), 2)]);
    holding.saturating_subsume_all(other);
    assert_eq!(listed(&holding), vec![MultiAsset::fungible(here(), 3), art(1), art(2)]);
    assert!(holding.contains(&MultiAsset::fungible(here(), 3)));
    assert!(!holding.contains(&MultiAsset::fungible(here(), 4)));
    assert!(holding.contains(&art(2)));
    let copy = holding.clone();
    assert_eq!(listed(&copy), listed(&holding));
}
