//! The holding register: the assets under the control of one execution.

use crate::multiasset::{
    views, AssetId, AssetIdModel, AssetInstance, AssetModel, FilterModel, Fungibility, MultiAsset,
    MultiAssetFilter, WildFungibility, WildModel, WildMultiAsset,
};
use crate::error::XcmError;
use vstd::prelude::*;

verus! {

/// The sum of two amounts, or the largest representable amount if the sum
/// exceeds it.
pub open spec fn saturating_sum(a: u128, b: u128) -> u128 {
    if a + b > u128::MAX {
        u128::MAX
    } else {
        (a + b) as u128
    }
}

/// The mathematical value of a holding register: its fungible balances and
/// its non-fungible instances, each in the order in which they arrived.
pub ghost struct HoldingModel {
    pub fungible: Seq<(AssetIdModel, u128)>,
    pub non_fungible: Seq<(AssetIdModel, AssetInstance)>,
}

impl HoldingModel {
    /// The register that holds nothing.
    pub open spec fn empty() -> HoldingModel {
        HoldingModel { fungible: Seq::empty(), non_fungible: Seq::empty() }
    }

    /// Well-formedness: every balance is positive, no class has two balances,
    /// and no instance is held twice.
    pub open spec fn wf(self) -> bool {
        &&& forall|i: int| 0 <= i < self.fungible.len() ==> (#[trigger] self.fungible[i]).1 > 0
        &&& forall|i: int, j: int|
            0 <= i < j < self.fungible.len() ==> (#[trigger] self.fungible[i]).0
                != (#[trigger] self.fungible[j]).0
        &&& forall|i: int, j: int|
            0 <= i < j < self.non_fungible.len() ==> #[trigger] self.non_fungible[i]
                != #[trigger] self.non_fungible[j]
    }

    /// Whether the register holds nothing.
    pub open spec fn is_empty(self) -> bool {
        self.fungible.len() == 0 && self.non_fungible.len() == 0
    }

    /// The number of distinct assets held.
    pub open spec fn len(self) -> nat {
        self.fungible.len() + self.non_fungible.len()
    }

    /// Where the balance of class `id` is kept, if there is one.
    pub open spec fn position(self, id: AssetIdModel) -> Option<int> {
        if exists|i: int| 0 <= i < self.fungible.len() && (#[trigger] self.fungible[i]).0 == id {
            Some(choose|i: int| 0 <= i < self.fungible.len() && (#[trigger] self.fungible[i]).0 == id)
        } else {
            None
        }
    }

    /// The amount of the fungible class `id` that is held; zero if none.
    pub open spec fn balance(self, id: AssetIdModel) -> u128 {
        match self.position(id) {
            Some(i) => self.fungible[i].1,
            None => 0,
        }
    }

    /// Whether the instance `instance` of class `id` is held.
    pub open spec fn has_instance(self, id: AssetIdModel, instance: AssetInstance) -> bool {
        self.non_fungible.contains((id, instance))
    }

    /// Whether the register could give up `asset`.
    pub open spec fn contains(self, asset: AssetModel) -> bool {
        match asset.fun {
            Fungibility::Fungible(amount) => self.balance(asset.id) >= amount,
            Fungibility::NonFungible(instance) => self.has_instance(asset.id, instance),
        }
    }

    /// The assets held, fungible balances first.
    pub open spec fn assets(self) -> Seq<AssetModel> {
        Seq::new(
            self.len(),
            |i: int|
                if i < self.fungible.len() {
                    AssetModel {
                        id: self.fungible[i].0,
                        fun: Fungibility::Fungible(self.fungible[i].1),
                    }
                } else {
                    AssetModel {
                        id: self.non_fungible[i - self.fungible.len()].0,
                        fun: Fungibility::NonFungible(self.non_fungible[i - self.fungible.len()].1),
                    }
                },
        )
    }

    /// The register after `asset` has been merged into it. A fungible amount
    /// is added to the balance of its class, saturating; an instance is added
    /// unless it is already held.
    pub open spec fn subsume(self, asset: AssetModel) -> HoldingModel {
        match asset.fun {
            Fungibility::Fungible(amount) => if amount == 0 {
                self
            } else {
                match self.position(asset.id) {
                    Some(i) => HoldingModel {
                        fungible: self.fungible.update(
                            i,
                            (asset.id, saturating_sum(self.fungible[i].1, amount)),
                        ),
                        non_fungible: self.non_fungible,
                    },
                    None => HoldingModel {
                        fungible: self.fungible.push((asset.id, amount)),
                        non_fungible: self.non_fungible,
                    },
                }
            },
            Fungibility::NonFungible(instance) => if self.has_instance(asset.id, instance) {
                self
            } else {
                HoldingModel {
                    fungible: self.fungible,
                    non_fungible: self.non_fungible.push((asset.id, instance)),
                }
            },
        }
    }

    /// The register after each of `assets` has been merged into it, in order.
    pub open spec fn subsume_all(self, assets: Seq<AssetModel>) -> HoldingModel
        decreases assets.len(),
    {
        if assets.len() == 0 {
            self
        } else {
            self.subsume_all(assets.drop_last()).subsume(assets.last())
        }
    }

    /// The register after exactly `asset` has been removed from it, or `None`
    /// if it does not hold that much.
    pub open spec fn checked_sub(self, asset: AssetModel) -> Option<HoldingModel> {
        match asset.fun {
            Fungibility::Fungible(amount) => if amount == 0 {
                Some(self)
            } else {
                match self.position(asset.id) {
                    Some(i) => if self.fungible[i].1 > amount {
                        Some(
                            HoldingModel {
                                fungible: self.fungible.update(
                                    i,
                                    (asset.id, (self.fungible[i].1 - amount) as u128),
                                ),
                                non_fungible: self.non_fungible,
                            },
                        )
                    } else if self.fungible[i].1 == amount {
                        Some(
                            HoldingModel {
                                fungible: self.fungible.remove(i),
                                non_fungible: self.non_fungible,
                            },
                        )
                    } else {
                        None
                    },
                    None => None,
                }
            },
            Fungibility::NonFungible(instance) => if self.has_instance(asset.id, instance) {
                Some(
                    HoldingModel {
                        fungible: self.fungible,
                        non_fungible: self.non_fungible.remove(
                            self.non_fungible.index_of((asset.id, instance)),
                        ),
                    },
                )
            } else {
                None
            },
        }
    }

    /// The register after each of `assets` has been removed from it, in
    /// order, or `None` if at some point it does not hold the next one.
    pub open spec fn checked_sub_all(self, assets: Seq<AssetModel>) -> Option<HoldingModel>
        decreases assets.len(),
    {
        if assets.len() == 0 {
            Some(self)
        } else {
            match self.checked_sub_all(assets.drop_last()) {
                Some(rest) => rest.checked_sub(assets.last()),
                None => None,
            }
        }
    }

    /// The first entries of the register, `limit` of them at most, and what
    /// is left: `(rest, taken)`. Fungible balances come first.
    pub open spec fn take_first(self, limit: nat) -> (HoldingModel, HoldingModel) {
        let k = if limit < self.fungible.len() {
            limit as int
        } else {
            self.fungible.len() as int
        };
        let m = if limit - k < self.non_fungible.len() {
            limit - k
        } else {
            self.non_fungible.len() as int
        };
        (
            HoldingModel {
                fungible: self.fungible.skip(k),
                non_fungible: self.non_fungible.skip(m),
            },
            HoldingModel {
                fungible: self.fungible.take(k),
                non_fungible: self.non_fungible.take(m),
            },
        )
    }

    /// What a wildcard takes from the register when at most `limit` assets
    /// may be taken, and what is left: `(rest, taken)`.
    pub open spec fn take_wild(self, wild: WildModel, limit: nat) -> (HoldingModel, HoldingModel) {
        match wild {
            WildModel::All => self.take_first(limit),
            WildModel::AllOf { id, fun: WildFungibility::Fungible } => match self.position(id) {
                Some(i) => if limit == 0 {
                    (self, HoldingModel::empty())
                } else {
                    (
                        HoldingModel {
                            fungible: self.fungible.remove(i),
                            non_fungible: self.non_fungible,
                        },
                        HoldingModel {
                            fungible: seq![self.fungible[i]],
                            non_fungible: Seq::empty(),
                        },
                    )
                },
                None => (self, HoldingModel::empty()),
            },
            WildModel::AllOf { id, fun: WildFungibility::NonFungible } => {
                let (rest, taken) = split_instances(self.non_fungible, id, limit);
                (
                    HoldingModel { fungible: self.fungible, non_fungible: rest },
                    HoldingModel { fungible: Seq::empty(), non_fungible: taken },
                )
            },
        }
    }

    /// Moves as much of `asset` as `rest` holds from `rest` to `taken`.
    pub open spec fn take_one(rest: HoldingModel, taken: HoldingModel, asset: AssetModel) -> (
        HoldingModel,
        HoldingModel,
    ) {
        let part = match asset.fun {
            Fungibility::Fungible(amount) => AssetModel {
                id: asset.id,
                fun: Fungibility::Fungible(
                    if amount <= rest.balance(asset.id) {
                        amount
                    } else {
                        rest.balance(asset.id)
                    },
                ),
            },
            Fungibility::NonFungible(_) => asset,
        };
        match rest.checked_sub(part) {
            Some(r) => (r, taken.subsume(part)),
            None => (rest, taken),
        }
    }

    /// What a list of assets takes from the register when each is capped at
    /// what is held and at most `limit` distinct assets may be taken, and
    /// what is left: `(rest, taken)`.
    pub open spec fn take_listed(self, assets: Seq<AssetModel>, limit: nat) -> (
        HoldingModel,
        HoldingModel,
    )
        decreases assets.len(),
    {
        if assets.len() == 0 {
            (self, HoldingModel::empty())
        } else {
            let (rest, taken) = self.take_listed(assets.drop_last(), limit);
            if taken.len() >= limit {
                (rest, taken)
            } else {
                Self::take_one(rest, taken, assets.last())
            }
        }
    }

    /// The capped withdrawal: what `filter` takes when amounts are capped at
    /// what is held and at most `limit` distinct assets may be taken, and
    /// what is left: `(rest, taken)`.
    pub open spec fn saturating_take(self, filter: FilterModel, limit: nat) -> (
        HoldingModel,
        HoldingModel,
    ) {
        match filter {
            FilterModel::Definite(assets) => self.take_listed(assets, limit),
            FilterModel::Wild(wild) => self.take_wild(wild, limit),
        }
    }

    /// The exact withdrawal: `(rest, taken)` if the register holds all that
    /// `filter` asks for, `None` otherwise. A wildcard asks for whatever
    /// matches and so is always satisfied.
    pub open spec fn try_take(self, filter: FilterModel) -> Option<(HoldingModel, HoldingModel)> {
        match filter {
            FilterModel::Definite(assets) => match self.checked_sub_all(assets) {
                Some(rest) => Some((rest, HoldingModel::empty().subsume_all(assets))),
                None => None,
            },
            FilterModel::Wild(wild) => Some(self.take_wild(wild, self.len())),
        }
    }

    /// The asset-wise minimum of `filter` and the register: what a capped
    /// withdrawal of `filter` would take.
    pub open spec fn min(self, filter: FilterModel) -> HoldingModel {
        self.saturating_take(filter, self.len()).1
    }
}

/// Splits a list of instances into those of class `id`, at most `limit` of
/// them, and the others: `(rest, taken)`.
pub open spec fn split_instances(
    instances: Seq<(AssetIdModel, AssetInstance)>,
    id: AssetIdModel,
    limit: nat,
) -> (Seq<(AssetIdModel, AssetInstance)>, Seq<(AssetIdModel, AssetInstance)>)
    decreases instances.len(),
{
    if instances.len() == 0 {
        (Seq::empty(), Seq::empty())
    } else {
        let (rest, taken) = split_instances(instances.drop_last(), id, limit);
        if instances.last().0 == id && taken.len() < limit {
            (rest, taken.push(instances.last()))
        } else {
            (rest.push(instances.last()), taken)
        }
    }
}

/// Merging an asset into a well-formed register leaves it well-formed.
pub proof fn lemma_subsume_wf(h: HoldingModel, asset: AssetModel)
    requires
        h.wf(),
    ensures
        h.subsume(asset).wf(),
{
    let r = h.subsume(asset);
    match asset.fun {
        Fungibility::Fungible(amount) => {
            if amount != 0 {
                match h.position(asset.id) {
                    Some(i) => {
                        assert forall|a: int, b: int| 0 <= a < b < r.fungible.len() implies (
                        #[trigger] r.fungible[a]).0 != (#[trigger] r.fungible[b]).0 by {
                            assert(r.fungible[a].0 == h.fungible[a].0);
                            assert(r.fungible[b].0 == h.fungible[b].0);
                        }
                        assert forall|a: int| 0 <= a < r.fungible.len() implies (
                        #[trigger] r.fungible[a]).1 > 0 by {
                            assert(h.fungible[a].1 > 0);
                        }
                    },
                    None => {
                        assert forall|a: int, b: int| 0 <= a < b < r.fungible.len() implies (
                        #[trigger] r.fungible[a]).0 != (#[trigger] r.fungible[b]).0 by {
                            if b == h.fungible.len() {
                                assert(h.fungible[a].0 != asset.id);
                            } else {
                                assert(r.fungible[a] == h.fungible[a]);
                                assert(r.fungible[b] == h.fungible[b]);
                            }
                        }
                        assert forall|a: int| 0 <= a < r.fungible.len() implies (
                        #[trigger] r.fungible[a]).1 > 0 by {
                            if a < h.fungible.len() {
                                assert(r.fungible[a] == h.fungible[a]);
                            }
                        }
                    },
                }
            }
        },
        Fungibility::NonFungible(instance) => {
            if !h.has_instance(asset.id, instance) {
                assert forall|a: int, b: int| 0 <= a < b < r.non_fungible.len() implies
                    #[trigger] r.non_fungible[a] != #[trigger] r.non_fungible[b] by {
                    if b == h.non_fungible.len() {
                        assert(h.non_fungible[a] != (asset.id, instance));
                    } else {
                        assert(r.non_fungible[a] == h.non_fungible[a]);
                        assert(r.non_fungible[b] == h.non_fungible[b]);
                    }
                }
            }
        },
    }
}

/// Removing an asset from a well-formed register leaves it well-formed.
pub proof fn lemma_checked_sub_wf(h: HoldingModel, asset: AssetModel)
    requires
        h.wf(),
        h.checked_sub(asset).is_some(),
    ensures
        h.checked_sub(asset).unwrap().wf(),
{
    let r = h.checked_sub(asset).unwrap();
    match asset.fun {
        Fungibility::Fungible(amount) => {
            if amount != 0 {
                let i = h.position(asset.id).unwrap();
                if h.fungible[i].1 > amount {
                    assert forall|a: int, b: int| 0 <= a < b < r.fungible.len() implies (
                    #[trigger] r.fungible[a]).0 != (#[trigger] r.fungible[b]).0 by {
                        assert(r.fungible[a].0 == h.fungible[a].0);
                        assert(r.fungible[b].0 == h.fungible[b].0);
                    }
                    assert forall|a: int| 0 <= a < r.fungible.len() implies (
                    #[trigger] r.fungible[a]).1 > 0 by {
                        assert(h.fungible[a].1 > 0);
                    }
                } else {
                    assert forall|a: int, b: int| 0 <= a < b < r.fungible.len() implies (
                    #[trigger] r.fungible[a]).0 != (#[trigger] r.fungible[b]).0 by {
                        let a0 = if a < i { a } else { a + 1 };
                        let b0 = if b < i { b } else { b + 1 };
                        assert(r.fungible[a] == h.fungible[a0]);
                        assert(r.fungible[b] == h.fungible[b0]);
                    }
                    assert forall|a: int| 0 <= a < r.fungible.len() implies (
                    #[trigger] r.fungible[a]).1 > 0 by {
                        let a0 = if a < i { a } else { a + 1 };
                        assert(r.fungible[a] == h.fungible[a0]);
                    }
                }
            }
        },
        Fungibility::NonFungible(instance) => {
            let i = h.non_fungible.index_of((asset.id, instance));
            assert forall|a: int, b: int| 0 <= a < b < r.non_fungible.len() implies
                #[trigger] r.non_fungible[a] != #[trigger] r.non_fungible[b] by {
                let a0 = if a < i { a } else { a + 1 };
                let b0 = if b < i { b } else { b + 1 };
                assert(r.non_fungible[a] == h.non_fungible[a0]);
                assert(r.non_fungible[b] == h.non_fungible[b0]);
            }
        },
    }
}

/// Merging a list of assets into a well-formed register leaves it
/// well-formed.
pub proof fn lemma_subsume_all_wf(h: HoldingModel, assets: Seq<AssetModel>)
    requires
        h.wf(),
    ensures
        h.subsume_all(assets).wf(),
    decreases assets.len(),
{
    if assets.len() > 0 {
        lemma_subsume_all_wf(h, assets.drop_last());
        lemma_subsume_wf(h.subsume_all(assets.drop_last()), assets.last());
    }
}

/// In a well-formed register the balance of a class is found at the one
/// place where the class occurs.
pub proof fn lemma_position_unique(h: HoldingModel, i: int)
    requires
        h.wf(),
        0 <= i < h.fungible.len(),
    ensures
        h.position(h.fungible[i].0) == Some(i),
        h.balance(h.fungible[i].0) == h.fungible[i].1,
{
    let id = h.fungible[i].0;
    let j = choose|j: int| 0 <= j < h.fungible.len() && (#[trigger] h.fungible[j]).0 == id;
    if j < i {
        assert(h.fungible[j].0 != h.fungible[i].0);
    } else if i < j {
        assert(h.fungible[i].0 != h.fungible[j].0);
    }
}

/// A prefix of a well-formed register and what follows it are well-formed.
pub proof fn lemma_take_first_wf(h: HoldingModel, limit: nat)
    requires
        h.wf(),
    ensures
        h.take_first(limit).0.wf(),
        h.take_first(limit).1.wf(),
{
    let (rest, taken) = h.take_first(limit);
    let k = h.fungible.len() - rest.fungible.len();
    let m = h.non_fungible.len() - rest.non_fungible.len();
    assert forall|a: int, b: int| 0 <= a < b < rest.fungible.len() implies (
    #[trigger] rest.fungible[a]).0 != (#[trigger] rest.fungible[b]).0 by {
        assert(rest.fungible[a] == h.fungible[a + k]);
        assert(rest.fungible[b] == h.fungible[b + k]);
    }
    assert forall|a: int| 0 <= a < rest.fungible.len() implies (#[trigger] rest.fungible[a]).1
        > 0 by {
        assert(rest.fungible[a] == h.fungible[a + k]);
    }
    assert forall|a: int, b: int| 0 <= a < b < rest.non_fungible.len() implies
        #[trigger] rest.non_fungible[a] != #[trigger] rest.non_fungible[b] by {
        assert(rest.non_fungible[a] == h.non_fungible[a + m]);
        assert(rest.non_fungible[b] == h.non_fungible[b + m]);
    }
    assert forall|a: int, b: int| 0 <= a < b < taken.fungible.len() implies (
    #[trigger] taken.fungible[a]).0 != (#[trigger] taken.fungible[b]).0 by {
        assert(taken.fungible[a] == h.fungible[a]);
        assert(taken.fungible[b] == h.fungible[b]);
    }
    assert forall|a: int| 0 <= a < taken.fungible.len() implies (#[trigger] taken.fungible[a]).1
        > 0 by {
        assert(taken.fungible[a] == h.fungible[a]);
    }
    assert forall|a: int, b: int| 0 <= a < b < taken.non_fungible.len() implies
        #[trigger] taken.non_fungible[a] != #[trigger] taken.non_fungible[b] by {
        assert(taken.non_fungible[a] == h.non_fungible[a]);
        assert(taken.non_fungible[b] == h.non_fungible[b]);
    }
}

/// Whether no element of the list occurs twice.
pub open spec fn distinct(s: Seq<(AssetIdModel, AssetInstance)>) -> bool {
    forall|i: int, j: int| 0 <= i < j < s.len() ==> #[trigger] s[i] != #[trigger] s[j]
}

/// Both parts of a split hold only elements of the list that was split, and
/// hold none twice if the list held none twice.
pub proof fn lemma_split_instances(
    instances: Seq<(AssetIdModel, AssetInstance)>,
    id: AssetIdModel,
    limit: nat,
)
    ensures
        forall|i: int|
            0 <= i < split_instances(instances, id, limit).0.len() ==> instances.contains(
                #[trigger] split_instances(instances, id, limit).0[i],
            ),
        forall|i: int|
            0 <= i < split_instances(instances, id, limit).1.len() ==> instances.contains(
                #[trigger] split_instances(instances, id, limit).1[i],
            ),
        distinct(instances) ==> distinct(split_instances(instances, id, limit).0) && distinct(
            split_instances(instances, id, limit).1,
        ),
    decreases instances.len(),
{
    if instances.len() > 0 {
        let front = instances.drop_last();
        let e = instances.last();
        lemma_split_instances(front, id, limit);
        let (r0, t0) = split_instances(front, id, limit);
        let (r1, t1) = split_instances(instances, id, limit);
        assert forall|x: (AssetIdModel, AssetInstance)| front.contains(x) implies instances.contains(
            x,
        ) by {
            let k = choose|k: int| 0 <= k < front.len() && front[k] == x;
            assert(instances[k] == x);
        }
        assert(instances.contains(e)) by {
            assert(instances[instances.len() - 1] == e);
        }
        assert forall|i: int| 0 <= i < r1.len() implies instances.contains(#[trigger] r1[i]) by {
            if i < r0.len() {
                assert(r1[i] == r0[i]);
                assert(front.contains(r0[i]));
            }
        }
        assert forall|i: int| 0 <= i < t1.len() implies instances.contains(#[trigger] t1[i]) by {
            if i < t0.len() {
                assert(t1[i] == t0[i]);
                assert(front.contains(t0[i]));
            }
        }
        if distinct(instances) {
            assert(distinct(front)) by {
                assert forall|i: int, j: int| 0 <= i < j < front.len() implies #[trigger] front[i]
                    != #[trigger] front[j] by {
                    assert(front[i] == instances[i]);
                    assert(front[j] == instances[j]);
                }
            }
            assert(!front.contains(e)) by {
                if front.contains(e) {
                    let k = choose|k: int| 0 <= k < front.len() && front[k] == e;
                    assert(instances[k] != instances[instances.len() - 1]);
                }
            }
            assert forall|i: int, j: int| 0 <= i < j < r1.len() implies #[trigger] r1[i]
                != #[trigger] r1[j] by {
                if j < r0.len() {
                    assert(r1[i] == r0[i] && r1[j] == r0[j]);
                } else {
                    assert(r1[i] == r0[i]);
                    assert(front.contains(r0[i]));
                }
            }
            assert forall|i: int, j: int| 0 <= i < j < t1.len() implies #[trigger] t1[i]
                != #[trigger] t1[j] by {
                if j < t0.len() {
                    assert(t1[i] == t0[i] && t1[j] == t0[j]);
                } else {
                    assert(t1[i] == t0[i]);
                    assert(front.contains(t0[i]));
                }
            }
        }
    }
}

/// Once a list of removals has failed, no longer list succeeds.
pub proof fn lemma_checked_sub_all_prefix(h: HoldingModel, assets: Seq<AssetModel>, k: int)
    requires
        0 <= k <= assets.len(),
        h.checked_sub_all(assets.take(k)).is_none(),
    ensures
        h.checked_sub_all(assets).is_none(),
    decreases assets.len(),
{
    if k == assets.len() {
        assert(assets.take(k) =~= assets);
    } else {
        assert(assets.drop_last().take(k) =~= assets.take(k));
        lemma_checked_sub_all_prefix(h, assets.drop_last(), k);
    }
}

/// The holding register: a collection of assets in which every
/// fungible class has one balance and every instance occurs once.
#[derive(Debug)]
pub struct Assets {
    fungible: Vec<(AssetId, u128)>,
    non_fungible: Vec<(AssetId, AssetInstance)>,
}

/// The value of a register with the given parts.
spec fn model_of(
    fungible: Seq<(AssetId, u128)>,
    non_fungible: Seq<(AssetId, AssetInstance)>,
) -> HoldingModel {
    HoldingModel {
        fungible: Seq::new(fungible.len(), |i: int| (fungible[i].0@, fungible[i].1)),
        non_fungible: Seq::new(non_fungible.len(), |i: int| (non_fungible[i].0@, non_fungible[i].1)),
    }
}

impl View for Assets {
    type V = HoldingModel;

    closed spec fn view(&self) -> HoldingModel {
        model_of(self.fungible@, self.non_fungible@)
    }
}

impl Assets {
    #[verifier::type_invariant]
    spec fn inv(&self) -> bool {
        self@.wf()
    }

    /// An empty register.
    pub fn new() -> (r: Assets)
        ensures
            r@ == HoldingModel::empty(),
    {
        let r = Assets { fungible: Vec::new(), non_fungible: Vec::new() };
        assert(r@.fungible =~= Seq::empty());
        assert(r@.non_fungible =~= Seq::empty());
        r
    }

    /// Whether the register holds nothing.
    pub fn is_empty(&self) -> (r: bool)
        ensures
            r == self@.is_empty(),
            self@.wf(),
    {
        proof {
            use_type_invariant(self);
        }
        self.fungible.len() == 0 && self.non_fungible.len() == 0
    }

    /// The number of distinct assets held, or `usize::MAX` if there are more.
    pub fn len(&self) -> (r: usize)
        ensures
            r == if self@.len() > usize::MAX { usize::MAX as nat } else { self@.len() },
            self@.wf(),
    {
        proof {
            use_type_invariant(self);
        }
        self.fungible.len().saturating_add(self.non_fungible.len())
    }

    fn find_fungible(&self, id: &AssetId) -> (r: Option<usize>)
        ensures
            self@.wf(),
            match r {
                Some(i) => i < self.fungible@.len() && self@.position(id@) == Some(i as int)
                    && self@.fungible[i as int] == (id@, self.fungible@[i as int].1),
                None => self@.position(id@).is_none(),
            },
    {
        proof {
            use_type_invariant(self);
        }
        let mut i: usize = 0;
        while i < self.fungible.len()
            invariant
                i <= self.fungible@.len(),
                self@.wf(),
                forall|j: int| 0 <= j < i ==> (#[trigger] self@.fungible[j]).0 != id@,
            decreases self.fungible.len() - i,
        {
            if self.fungible[i].0.same(id) {
                proof {
                    assert(self@.fungible[i as int].0 == id@);
                    lemma_position_unique(self@, i as int);
                }
                return Some(i);
            }
            i += 1;
        }
        None
    }

    fn find_instance(&self, id: &AssetId, instance: AssetInstance) -> (r: Option<usize>)
        ensures
            self@.wf(),
            match r {
                Some(i) => i < self.non_fungible@.len() && self@.non_fungible[i as int] == (
                    id@,
                    instance,
                ) && self@.non_fungible.index_of((id@, instance)) == i
                    && self@.has_instance(id@, instance),
                None => !self@.has_instance(id@, instance),
            },
    {
        proof {
            use_type_invariant(self);
        }
        let mut i: usize = 0;
        while i < self.non_fungible.len()
            invariant
                i <= self.non_fungible@.len(),
                self@.wf(),
                forall|j: int| 0 <= j < i ==> #[trigger] self@.non_fungible[j] != (id@, instance),
            decreases self.non_fungible.len() - i,
        {
            if self.non_fungible[i].0.same(id) && self.non_fungible[i].1 == instance {
                proof {
                    let e = (id@, instance);
                    assert(self@.non_fungible[i as int] == e);
                    let k = self@.non_fungible.index_of(e);
                    if k < i {
                        assert(self@.non_fungible[k] != self@.non_fungible[i as int]);
                    } else if i < k {
                        assert(self@.non_fungible[i as int] != self@.non_fungible[k]);
                    }
                }
                return Some(i);
            }
            i += 1;
        }
        None
    }

    /// The amount of the fungible class `id` that is held; zero if none.
    pub fn balance_of(&self, id: &AssetId) -> (r: u128)
        ensures
            r == self@.balance(id@),
    {
        match self.find_fungible(id) {
            Some(i) => self.fungible[i].1,
            None => 0,
        }
    }

    /// Whether the instance `instance` of class `id` is held.
    pub fn has_instance(&self, id: &AssetId, instance: AssetInstance) -> (r: bool)
        ensures
            r == self@.has_instance(id@, instance),
    {
        self.find_instance(id, instance).is_some()
    }

    /// Whether the register could give up `asset`.
    pub fn contains(&self, asset: &MultiAsset) -> (r: bool)
        ensures
            r == self@.contains(asset@),
    {
        match asset.fun {
            Fungibility::Fungible(amount) => self.balance_of(&asset.id) >= amount,
            Fungibility::NonFungible(instance) => self.has_instance(&asset.id, instance),
        }
    }

    fn subsumed(self, asset: MultiAsset) -> (r: Assets)
        ensures
            r@ == self@.subsume(asset@),
    {
        proof {
            use_type_invariant(&self);
            lemma_subsume_wf(self@, asset@);
        }
        let ghost target = self@.subsume(asset@);
        match asset.fun {
            Fungibility::Fungible(amount) => {
                if amount != 0 {
                    let found = self.find_fungible(&asset.id);
                    let mut f = self.fungible;
                    let n = self.non_fungible;
                    match found {
                        Some(i) => {
                            let sum = f[i].1.saturating_add(amount);
                            f.set(i, (asset.id, sum));
                        },
                        None => {
                            f.push((asset.id, amount));
                        },
                    }
                    assert(model_of(f@, n@).fungible =~= target.fungible);
                    assert(model_of(f@, n@).non_fungible =~= target.non_fungible);
                    Assets { fungible: f, non_fungible: n }
                } else {
                    self
                }
            },
            Fungibility::NonFungible(instance) => {
                if self.find_instance(&asset.id, instance).is_none() {
                    let f = self.fungible;
                    let mut n = self.non_fungible;
                    n.push((asset.id, instance));
                    assert(model_of(f@, n@).fungible =~= target.fungible);
                    assert(model_of(f@, n@).non_fungible =~= target.non_fungible);
                    Assets { fungible: f, non_fungible: n }
                } else {
                    self
                }
            },
        }
    }

    /// Merges `asset` into the register: a fungible amount is added to the
    /// balance of its class, saturating at the largest amount; an instance is
    /// added unless it is already held.
    pub fn subsume(&mut self, asset: MultiAsset)
        ensures
            final(self)@ == old(self)@.subsume(asset@),
            final(self)@.wf(),
    {
        proof {
            use_type_invariant(&*self);
            lemma_subsume_wf(self@, asset@);
        }
        let mut current = Assets::new();
        core::mem::swap(self, &mut current);
        *self = current.subsumed(asset);
    }

    fn count(&self) -> (r: u128)
        ensures
            r == self@.len(),
    {
        self.fungible.len() as u128 + self.non_fungible.len() as u128
    }

    fn checked_subbed(self, asset: &MultiAsset) -> (r: Result<Assets, Assets>)
        ensures
            match r {
                Ok(a) => self@.checked_sub(asset@) == Some(a@),
                Err(a) => self@.checked_sub(asset@).is_none() && a@ == self@,
            },
    {
        proof {
            use_type_invariant(&self);
            if self@.checked_sub(asset@).is_some() {
                lemma_checked_sub_wf(self@, asset@);
            }
        }
        let ghost target = self@.checked_sub(asset@);
        match asset.fun {
            Fungibility::Fungible(amount) => {
                if amount == 0 {
                    return Ok(self);
                }
                match self.find_fungible(&asset.id) {
                    Some(i) => {
                        let current = self.fungible[i].1;
                        if current > amount {
                            let mut f = self.fungible;
                            let n = self.non_fungible;
                            f.set(i, (asset.id.clone(), current - amount));
                            assert(model_of(f@, n@).fungible =~= target.unwrap().fungible);
                            assert(model_of(f@, n@).non_fungible =~= target.unwrap().non_fungible);
                            Ok(Assets { fungible: f, non_fungible: n })
                        } else if current == amount {
                            let mut f = self.fungible;
                            let n = self.non_fungible;
                            let _ = f.remove(i);
                            assert(model_of(f@, n@).fungible =~= target.unwrap().fungible);
                            assert(model_of(f@, n@).non_fungible =~= target.unwrap().non_fungible);
                            Ok(Assets { fungible: f, non_fungible: n })
                        } else {
                            Err(self)
                        }
                    },
                    None => Err(self),
                }
            },
            Fungibility::NonFungible(instance) => {
                match self.find_instance(&asset.id, instance) {
                    Some(i) => {
                        let f = self.fungible;
                        let mut n = self.non_fungible;
                        let _ = n.remove(i);
                        assert(model_of(f@, n@).fungible =~= target.unwrap().fungible);
                        assert(model_of(f@, n@).non_fungible =~= target.unwrap().non_fungible);
                        Ok(Assets { fungible: f, non_fungible: n })
                    },
                    None => Err(self),
                }
            },
        }
    }

    fn take_one(rest: Assets, taken: Assets, asset: &MultiAsset) -> (r: (Assets, Assets))
        ensures
            (r.0@, r.1@) == HoldingModel::take_one(rest@, taken@, asset@),
    {
        let part = match asset.fun {
            Fungibility::Fungible(amount) => {
                let held = rest.balance_of(&asset.id);
                MultiAsset {
                    id: asset.id.clone(),
                    fun: Fungibility::Fungible(if amount <= held { amount } else { held }),
                }
            },
            Fungibility::NonFungible(_) => asset.clone(),
        };
        match rest.checked_subbed(&part) {
            Ok(r) => {
                let t = taken.subsumed(part);
                (r, t)
            },
            Err(r) => (r, taken),
        }
    }

    fn take_listed(self, assets: &Vec<MultiAsset>, limit: u128) -> (r: (Assets, Assets))
        ensures
            (r.0@, r.1@) == self@.take_listed(views(assets@), limit as nat),
    {
        let mut rest = self;
        let mut taken = Assets::new();
        let mut i: usize = 0;
        assert(views(assets@).take(0) =~= Seq::empty());
        while i < assets.len()
            invariant
                i <= assets@.len(),
                (rest@, taken@) == self@.take_listed(views(assets@).take(i as int), limit as nat),
            decreases assets.len() - i,
        {
            proof {
                let next = views(assets@).take(i + 1);
                assert(next.drop_last() =~= views(assets@).take(i as int));
                assert(next.last() == assets@[i as int]@);
            }
            if taken.count() < limit {
                let moved = Self::take_one(rest, taken, &assets[i]);
                rest = moved.0;
                taken = moved.1;
            }
            i += 1;
        }
        assert(views(assets@).take(assets@.len() as int) =~= views(assets@));
        (rest, taken)
    }

    fn take_first(self, limit: u128) -> (r: (Assets, Assets))
        ensures
            (r.0@, r.1@) == self@.take_first(limit as nat),
    {
        proof {
            use_type_invariant(&self);
            lemma_take_first_wf(self@, limit as nat);
        }
        let ghost target = self@.take_first(limit as nat);
        let mut f = self.fungible;
        let mut n = self.non_fungible;
        let k: usize = if limit < f.len() as u128 {
            limit as usize
        } else {
            f.len()
        };
        let left: u128 = limit - k as u128;
        let m: usize = if left < n.len() as u128 {
            left as usize
        } else {
            n.len()
        };
        let rest_f = f.split_off(k);
        let rest_n = n.split_off(m);
        assert(model_of(rest_f@, rest_n@).fungible =~= target.0.fungible);
        assert(model_of(rest_f@, rest_n@).non_fungible =~= target.0.non_fungible);
        assert(model_of(f@, n@).fungible =~= target.1.fungible);
        assert(model_of(f@, n@).non_fungible =~= target.1.non_fungible);
        (Assets { fungible: rest_f, non_fungible: rest_n }, Assets { fungible: f, non_fungible: n })
    }

    fn take_wild(self, wild: &WildMultiAsset, limit: u128) -> (r: (Assets, Assets))
        ensures
            (r.0@, r.1@) == self@.take_wild(wild@, limit as nat),
    {
        proof {
            use_type_invariant(&self);
        }
        let ghost target = self@.take_wild(wild@, limit as nat);
        match wild {
            WildMultiAsset::All => self.take_first(limit),
            WildMultiAsset::AllOf { id, fun: WildFungibility::Fungible } => {
                match self.find_fungible(id) {
                    Some(i) => {
                        if limit == 0 {
                            return (self, Assets::new());
                        }
                        proof {
                            let whole = AssetModel {
                                id: id@,
                                fun: Fungibility::Fungible(self@.fungible[i as int].1),
                            };
                            lemma_checked_sub_wf(self@, whole);
                        }
                        let mut f = self.fungible;
                        let n = self.non_fungible;
                        let entry = f.remove(i);
                        let mut tf: Vec<(AssetId, u128)> = Vec::new();
                        tf.push(entry);
                        let tn: Vec<(AssetId, AssetInstance)> = Vec::new();
                        assert(model_of(f@, n@).fungible =~= target.0.fungible);
                        assert(model_of(f@, n@).non_fungible =~= target.0.non_fungible);
                        assert(model_of(tf@, tn@).fungible =~= target.1.fungible);
                        assert(model_of(tf@, tn@).non_fungible =~= target.1.non_fungible);
                        (
                            Assets { fungible: f, non_fungible: n },
                            Assets { fungible: tf, non_fungible: tn },
                        )
                    },
                    None => (self, Assets::new()),
                }
            },
            WildMultiAsset::AllOf { id, fun: WildFungibility::NonFungible } => {
                let ghost whole = self@;
                let f = self.fungible;
                let n = self.non_fungible;
                let ghost src = n@;
                let ghost all = model_of(f@, src).non_fungible;
                let mut rest: Vec<(AssetId, AssetInstance)> = Vec::new();
                let mut taken: Vec<(AssetId, AssetInstance)> = Vec::new();
                assert(all.take(0) =~= Seq::empty());
                for e in it: n
                    invariant
                        it.seq() == src,
                        all == model_of(f@, src).non_fungible,
                        all.len() == src.len(),
                        (model_of(f@, rest@).non_fungible, model_of(f@, taken@).non_fungible)
                            == split_instances(all.take(it.index() as int), id@, limit as nat),
                {
                    let ghost k = it.index() as int;
                    let ghost before = split_instances(all.take(k), id@, limit as nat);
                    proof {
                        assert(all.take(k + 1).drop_last() =~= all.take(k));
                        assert(all.take(k + 1).last() == (e.0@, e.1));
                    }
                    if e.0.same(id) && (taken.len() as u128) < limit {
                        taken.push(e);
                        assert(model_of(f@, taken@).non_fungible =~= before.1.push((e.0@, e.1)));
                    } else {
                        rest.push(e);
                        assert(model_of(f@, rest@).non_fungible =~= before.0.push((e.0@, e.1)));
                    }
                }
                proof {
                    assert(all.take(src.len() as int) =~= all);
                    assert(all =~= whole.non_fungible);
                    lemma_split_instances(all, id@, limit as nat);
                    assert(model_of(f@, rest@).fungible =~= target.0.fungible);
                    assert(model_of(f@, rest@).non_fungible =~= target.0.non_fungible);
                }
                let tf: Vec<(AssetId, u128)> = Vec::new();
                proof {
                    assert(model_of(tf@, taken@).fungible =~= target.1.fungible);
                    assert(model_of(tf@, taken@).non_fungible =~= target.1.non_fungible);
                }
                (
                    Assets { fungible: f, non_fungible: rest },
                    Assets { fungible: tf, non_fungible: taken },
                )
            },
        }
    }

    fn saturating_taken(self, filter: &MultiAssetFilter, limit: u128) -> (r: (Assets, Assets))
        ensures
            (r.0@, r.1@) == self@.saturating_take(filter@, limit as nat),
    {
        match filter {
            MultiAssetFilter::Definite(assets) => self.take_listed(assets, limit),
            MultiAssetFilter::Wild(wild) => self.take_wild(wild, limit),
        }
    }

    /// Takes exactly `asset` out of the register. If the register does not
    /// hold that much, it is left as it is and the error is
    /// `NotWithdrawable`.
    pub fn checked_sub(&mut self, asset: &MultiAsset) -> (r: Result<(), XcmError>)
        ensures
            match r {
                Ok(_) => old(self)@.checked_sub(asset@) == Some(final(self)@),
                Err(e) => e == XcmError::NotWithdrawable && old(self)@.checked_sub(asset@).is_none()
                    && final(self)@ == old(self)@,
            },
    {
        let mut current = Assets::new();
        core::mem::swap(self, &mut current);
        match current.checked_subbed(asset) {
            Ok(rest) => {
                *self = rest;
                Ok(())
            },
            Err(same) => {
                *self = same;
                Err(XcmError::NotWithdrawable)
            },
        }
    }

    /// Takes out of the register what `filter` selects, capping each amount
    /// at what is held and taking at most `limit` distinct assets. Returns
    /// what was taken.
    pub fn saturating_take(&mut self, filter: &MultiAssetFilter, limit: u32) -> (taken: Assets)
        ensures
            (final(self)@, taken@) == old(self)@.saturating_take(filter@, limit as nat),
    {
        let mut current = Assets::new();
        core::mem::swap(self, &mut current);
        let moved = current.saturating_taken(filter, limit as u128);
        *self = moved.0;
        moved.1
    }

    /// Takes out of the register exactly what `filter` selects. If the
    /// register does not hold all of it, nothing is taken and the error is
    /// `NotWithdrawable`.
    pub fn withdraw(&mut self, filter: &MultiAssetFilter) -> (r: Result<Assets, XcmError>)
        ensures
            match r {
                Ok(taken) => old(self)@.try_take(filter@) == Some((final(self)@, taken@)),
                Err(e) => e == XcmError::NotWithdrawable && old(self)@.try_take(filter@).is_none()
                    && final(self)@ == old(self)@,
            },
    {
        match filter {
            MultiAssetFilter::Definite(assets) => {
                let mut work = self.clone();
                let mut i: usize = 0;
                assert(views(assets@).take(0) =~= Seq::empty());
                while i < assets.len()
                    invariant
                        i <= assets@.len(),
                        self@ == old(self)@,
                        filter@ == FilterModel::Definite(views(assets@)),
                        old(self)@.checked_sub_all(views(assets@).take(i as int)) == Some(work@),
                    decreases assets.len() - i,
                {
                    proof {
                        let next = views(assets@).take(i + 1);
                        assert(next.drop_last() =~= views(assets@).take(i as int));
                        assert(next.last() == assets@[i as int]@);
                    }
                    match work.checked_subbed(&assets[i]) {
                        Ok(w) => {
                            work = w;
                        },
                        Err(_) => {
                            proof {
                                lemma_checked_sub_all_prefix(old(self)@, views(assets@), i + 1);
                            }
                            return Err(XcmError::NotWithdrawable);
                        },
                    }
                    i += 1;
                }
                assert(views(assets@).take(assets@.len() as int) =~= views(assets@));
                *self = work;
                Ok(Assets::from_assets(crate::multiasset::clone_assets(assets)))
            },
            MultiAssetFilter::Wild(wild) => {
                let mut current = Assets::new();
                core::mem::swap(self, &mut current);
                let limit = current.count();
                let moved = current.take_wild(wild, limit);
                *self = moved.0;
                Ok(moved.1)
            },
        }
    }

    /// The asset-wise minimum of `filter` and the register: what a capped
    /// withdrawal of `filter` would take. The register is left as it is.
    pub fn min(&self, filter: &MultiAssetFilter) -> (r: Assets)
        ensures
            r@ == self@.min(filter@),
    {
        let work = self.clone();
        let limit = work.count();
        let moved = work.saturating_taken(filter, limit);
        moved.1
    }

    /// Merges every asset of `assets` into the register, in order. Amounts
    /// saturate, so the merge cannot fail.
    pub fn subsume_all(&mut self, assets: Vec<MultiAsset>)
        ensures
            final(self)@ == old(self)@.subsume_all(views(assets@)),
            final(self)@.wf(),
    {
        proof {
            use_type_invariant(&*self);
        }
        let ghost src = assets@;
        for a in it: assets
            invariant
                it.seq() == src,
                self@.wf(),
                self@ == old(self)@.subsume_all(views(src).take(it.index() as int)),
        {
            let ghost k = it.index() as int;
            assert(views(src).take(k + 1).drop_last() =~= views(src).take(k));
            assert(views(src).take(k + 1).last() == a@);
            self.subsume(a);
        }
        assert(views(src).take(src.len() as int) =~= views(src));
    }

    /// Merges the whole of `other` into the register.
    pub fn saturating_subsume_all(&mut self, other: Assets)
        ensures
            final(self)@ == old(self)@.subsume_all(other@.assets()),
            final(self)@.wf(),
    {
        let list = other.into_assets();
        self.subsume_all(list);
    }

    /// The register made by merging `assets`, in order, into an empty one.
    pub fn from_assets(assets: Vec<MultiAsset>) -> (r: Assets)
        ensures
            r@ == HoldingModel::empty().subsume_all(views(assets@)),
            r@.wf(),
    {
        let mut r = Assets::new();
        r.subsume_all(assets);
        r
    }

    /// The assets held, fungible balances first, each group in the order in
    /// which it arrived.
    pub fn to_assets(&self) -> (r: Vec<MultiAsset>)
        ensures
            views(r@) == self@.assets(),
    {
        let mut out: Vec<MultiAsset> = Vec::new();
        let mut i: usize = 0;
        while i < self.fungible.len()
            invariant
                i <= self.fungible@.len(),
                out@.len() == i,
                forall|j: int| 0 <= j < i ==> (#[trigger] out@[j])@ == self@.assets()[j],
            decreases self.fungible.len() - i,
        {
            out.push(
                MultiAsset {
                    id: self.fungible[i].0.clone(),
                    fun: Fungibility::Fungible(self.fungible[i].1),
                },
            );
            i += 1;
        }
        let mut k: usize = 0;
        while k < self.non_fungible.len()
            invariant
                k <= self.non_fungible@.len(),
                out@.len() == self.fungible@.len() + k,
                forall|j: int| 0 <= j < out@.len() ==> (#[trigger] out@[j])@ == self@.assets()[j],
            decreases self.non_fungible.len() - k,
        {
            out.push(
                MultiAsset {
                    id: self.non_fungible[k].0.clone(),
                    fun: Fungibility::NonFungible(self.non_fungible[k].1),
                },
            );
            k += 1;
        }
        assert(views(out@) =~= self@.assets());
        out
    }

    /// The assets held, as `to_assets` lists them, consuming the register.
    pub fn into_assets(self) -> (r: Vec<MultiAsset>)
        ensures
            views(r@) == self@.assets(),
    {
        self.to_assets()
    }
}

impl Clone for Assets {
    fn clone(&self) -> (r: Self)
        ensures
            r@ == self@,
    {
        proof {
            use_type_invariant(self);
        }
        let mut f: Vec<(AssetId, u128)> = Vec::new();
        let mut i: usize = 0;
        while i < self.fungible.len()
            invariant
                i <= self.fungible@.len(),
                f@.len() == i,
                forall|j: int|
                    0 <= j < i ==> (#[trigger] f@[j]).0@ == self.fungible@[j].0@ && f@[j].1
                        == self.fungible@[j].1,
            decreases self.fungible.len() - i,
        {
            f.push((self.fungible[i].0.clone(), self.fungible[i].1));
            i += 1;
        }
        let mut n: Vec<(AssetId, AssetInstance)> = Vec::new();
        let mut k: usize = 0;
        while k < self.non_fungible.len()
            invariant
                k <= self.non_fungible@.len(),
                n@.len() == k,
                forall|j: int|
                    0 <= j < k ==> (#[trigger] n@[j]).0@ == self.non_fungible@[j].0@ && n@[j].1
                        == self.non_fungible@[j].1,
            decreases self.non_fungible.len() - k,
        {
            n.push((self.non_fungible[k].0.clone(), self.non_fungible[k].1));
            k += 1;
        }
        proof {
            assert(model_of(f@, n@).fungible =~= self@.fungible);
            assert(model_of(f@, n@).non_fungible =~= self@.non_fungible);
        }
        Assets { fungible: f, non_fungible: n }
    }
}

} // verus!
