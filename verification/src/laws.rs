//! What holds of the holding register whatever is merged into it or taken
//! out of it.

use crate::assets::{
    distinct, lemma_checked_sub_wf, lemma_position_unique, lemma_split_instances,
    lemma_subsume_all_wf, lemma_subsume_wf, lemma_take_first_wf, split_instances, HoldingModel,
};
use crate::multiasset::{
    AssetIdModel, AssetInstance, AssetModel, FilterModel, Fungibility, WildFungibility, WildModel,
};
use vstd::prelude::*;

verus! {

/// The amount of the fungible class `id` that `asset` stands for.
pub open spec fn amount_of(asset: AssetModel, id: AssetIdModel) -> nat {
    match asset.fun {
        Fungibility::Fungible(amount) => if asset.id == id {
            amount as nat
        } else {
            0
        },
        Fungibility::NonFungible(_) => 0,
    }
}

/// The sum of the amounts of the fungible class `id` in `assets`.
pub open spec fn total_of(assets: Seq<AssetModel>, id: AssetIdModel) -> nat
    decreases assets.len(),
{
    if assets.len() == 0 {
        0
    } else {
        total_of(assets.drop_last(), id) + amount_of(assets.last(), id)
    }
}

/// Whether `assets` names the instance `instance` of class `id`.
pub open spec fn names_instance(
    assets: Seq<AssetModel>,
    id: AssetIdModel,
    instance: AssetInstance,
) -> bool {
    exists|i: int|
        0 <= i < assets.len() && #[trigger] assets[i] == (AssetModel {
            id,
            fun: Fungibility::NonFungible(instance),
        })
}

/// `n`, or the largest amount if `n` exceeds it.
pub open spec fn capped(n: int) -> u128 {
    if n > u128::MAX {
        u128::MAX
    } else {
        n as u128
    }
}

/// A class whose balance is not kept in a register has balance zero there,
/// and a class whose balance is zero is not kept.
proof fn lemma_absent(h: HoldingModel, id: AssetIdModel)
    requires
        h.wf(),
    ensures
        h.position(id).is_none() <==> h.balance(id) == 0,
        h.position(id).is_none() <==> forall|j: int|
            0 <= j < h.fungible.len() ==> (#[trigger] h.fungible[j]).0 != id,
        h.position(id) matches Some(i) ==> 0 <= i < h.fungible.len() && h.fungible[i].0 == id,
{
    if h.position(id).is_some() {
        let i = h.position(id).unwrap();
        assert(h.fungible[i].1 > 0);
    }
}

/// Merging one asset changes the balance of its own class by its amount,
/// saturating, and no other balance; it adds its own instance and no other.
pub proof fn lemma_subsume_effect(
    h: HoldingModel,
    asset: AssetModel,
    id: AssetIdModel,
    instance: AssetInstance,
)
    requires
        h.wf(),
    ensures
        h.subsume(asset).wf(),
        h.subsume(asset).balance(id) == capped(h.balance(id) + amount_of(asset, id)),
        h.subsume(asset).has_instance(id, instance) <==> h.has_instance(id, instance) || asset == (
            AssetModel { id, fun: Fungibility::NonFungible(instance) }),
{
    let r = h.subsume(asset);
    lemma_subsume_wf(h, asset);
    lemma_absent(h, id);
    lemma_absent(r, id);
    lemma_absent(h, asset.id);
    match asset.fun {
        Fungibility::Fungible(amount) => {
            assert(r.non_fungible == h.non_fungible);
            if amount != 0 {
                match h.position(asset.id) {
                    Some(i) => {
                        if asset.id == id {
                            lemma_position_unique(r, i);
                        } else {
                            match h.position(id) {
                                Some(j) => {
                                    assert(r.fungible[j] == h.fungible[j]);
                                    lemma_position_unique(r, j);
                                },
                                None => {
                                    assert forall|j: int| 0 <= j < r.fungible.len() implies (
                                    #[trigger] r.fungible[j]).0 != id by {
                                        if j != i {
                                            assert(r.fungible[j] == h.fungible[j]);
                                        }
                                    }
                                },
                            }
                        }
                    },
                    None => {
                        let n = h.fungible.len() as int;
                        if asset.id == id {
                            assert(r.fungible[n] == (id, amount));
                            lemma_position_unique(r, n);
                        } else {
                            match h.position(id) {
                                Some(j) => {
                                    assert(r.fungible[j] == h.fungible[j]);
                                    lemma_position_unique(r, j);
                                },
                                None => {
                                    assert forall|j: int| 0 <= j < r.fungible.len() implies (
                                    #[trigger] r.fungible[j]).0 != id by {
                                        if j < n {
                                            assert(r.fungible[j] == h.fungible[j]);
                                        }
                                    }
                                },
                            }
                        }
                    },
                }
            }
        },
        Fungibility::NonFungible(held) => {
            assert(r.fungible == h.fungible);
            assert(r.position(id) == h.position(id));
            let x = (id, instance);
            if !h.has_instance(asset.id, held) {
                let n = h.non_fungible.len() as int;
                if h.non_fungible.contains(x) {
                    let k = choose|k: int| 0 <= k < h.non_fungible.len() && h.non_fungible[k] == x;
                    assert(r.non_fungible[k] == x);
                }
                if x == (asset.id, held) {
                    assert(r.non_fungible[n] == x);
                }
                if r.non_fungible.contains(x) {
                    let k = choose|k: int| 0 <= k < r.non_fungible.len() && r.non_fungible[k] == x;
                    if k < n {
                        assert(h.non_fungible[k] == x);
                    }
                }
            }
        },
    }
}

/// Amounts add up when capped at each step as when capped at the end.
proof fn lemma_capped_sum(a: int, b: int, c: int)
    requires
        a >= 0,
        b >= 0,
        c >= 0,
    ensures
        capped(capped(a + b) + c) == capped(a + b + c),
{
}

/// Whatever sequence of assets is merged into a register, the balance of
/// every fungible class is the balance it had plus the sum of the amounts
/// merged, capped at the largest amount: nothing is lost and nothing is
/// counted twice. An instance is held afterwards exactly if it was held
/// before or was among the assets merged.
pub proof fn law_subsume_conserves(
    h: HoldingModel,
    assets: Seq<AssetModel>,
    id: AssetIdModel,
    instance: AssetInstance,
)
    requires
        h.wf(),
    ensures
        h.subsume_all(assets).wf(),
        h.subsume_all(assets).balance(id) == capped(h.balance(id) + total_of(assets, id)),
        h.subsume_all(assets).has_instance(id, instance) <==> h.has_instance(id, instance)
            || names_instance(assets, id, instance),
    decreases assets.len(),
{
    lemma_subsume_all_wf(h, assets);
    if assets.len() > 0 {
        let front = assets.drop_last();
        let mid = h.subsume_all(front);
        law_subsume_conserves(h, front, id, instance);
        lemma_subsume_effect(mid, assets.last(), id, instance);
        lemma_capped_sum(
            h.balance(id) as int,
            total_of(front, id) as int,
            amount_of(assets.last(), id) as int,
        );
        let x = AssetModel { id, fun: Fungibility::NonFungible(instance) };
        if names_instance(front, id, instance) {
            let k = choose|k: int| 0 <= k < front.len() && #[trigger] front[k] == x;
            assert(assets[k] == x);
        }
        if assets.last() == x {
            assert(assets[assets.len() - 1] == x);
        }
        if names_instance(assets, id, instance) {
            let k = choose|k: int| 0 <= k < assets.len() && #[trigger] assets[k] == x;
            if k < front.len() {
                assert(front[k] == x);
            }
        }
    }
}

/// Removing one asset that is held changes the balance of its own class
/// by its amount and no other balance; it removes its own instance and no
/// other.
pub proof fn lemma_checked_sub_effect(
    h: HoldingModel,
    asset: AssetModel,
    id: AssetIdModel,
    instance: AssetInstance,
)
    requires
        h.wf(),
        h.contains(asset),
    ensures
        h.checked_sub(asset).is_some(),
        h.checked_sub(asset).unwrap().wf(),
        h.checked_sub(asset).unwrap().balance(id) == h.balance(id) - amount_of(asset, id),
        h.checked_sub(asset).unwrap().has_instance(id, instance) <==> h.has_instance(id, instance)
            && asset != (AssetModel { id, fun: Fungibility::NonFungible(instance) }),
{
    lemma_absent(h, id);
    lemma_absent(h, asset.id);
    match asset.fun {
        Fungibility::Fungible(amount) => {
            if amount != 0 {
                let i = h.position(asset.id).unwrap();
                let r = h.checked_sub(asset).unwrap();
                crate::assets::lemma_checked_sub_wf(h, asset);
                lemma_absent(r, id);
                assert(r.non_fungible == h.non_fungible);
                if h.fungible[i].1 > amount {
                    if asset.id == id {
                        lemma_position_unique(r, i);
                    } else {
                        match h.position(id) {
                            Some(j) => {
                                assert(r.fungible[j] == h.fungible[j]);
                                lemma_position_unique(r, j);
                            },
                            None => {
                                assert forall|j: int| 0 <= j < r.fungible.len() implies (
                                #[trigger] r.fungible[j]).0 != id by {
                                    if j != i {
                                        assert(r.fungible[j] == h.fungible[j]);
                                    }
                                }
                            },
                        }
                    }
                } else {
                    if asset.id == id {
                        assert forall|j: int| 0 <= j < r.fungible.len() implies (
                        #[trigger] r.fungible[j]).0 != id by {
                            let j0 = if j < i { j } else { j + 1 };
                            assert(r.fungible[j] == h.fungible[j0]);
                            if j0 < i {
                                assert(h.fungible[j0].0 != h.fungible[i].0);
                            } else {
                                assert(h.fungible[i].0 != h.fungible[j0].0);
                            }
                        }
                    } else {
                        match h.position(id) {
                            Some(j) => {
                                let j1 = if j < i { j } else { j - 1 };
                                assert(r.fungible[j1] == h.fungible[j]);
                                lemma_position_unique(r, j1);
                            },
                            None => {
                                assert forall|j: int| 0 <= j < r.fungible.len() implies (
                                #[trigger] r.fungible[j]).0 != id by {
                                    let j0 = if j < i { j } else { j + 1 };
                                    assert(r.fungible[j] == h.fungible[j0]);
                                }
                            },
                        }
                    }
                }
            }
        },
        Fungibility::NonFungible(held) => {
            let r = h.checked_sub(asset).unwrap();
            crate::assets::lemma_checked_sub_wf(h, asset);
            assert(r.fungible == h.fungible);
            assert(r.position(id) == h.position(id));
            let x = (id, instance);
            let gone = (asset.id, held);
            let k = h.non_fungible.index_of(gone);
            assert(h.non_fungible[k] == gone);
            if r.non_fungible.contains(x) {
                let j = choose|j: int| 0 <= j < r.non_fungible.len() && r.non_fungible[j] == x;
                let j0 = if j < k { j } else { j + 1 };
                assert(h.non_fungible[j0] == x);
                if j0 < k {
                    assert(h.non_fungible[j0] != h.non_fungible[k]);
                } else {
                    assert(h.non_fungible[k] != h.non_fungible[j0]);
                }
            }
            if h.non_fungible.contains(x) && x != gone {
                let j = choose|j: int| 0 <= j < h.non_fungible.len() && h.non_fungible[j] == x;
                let j1 = if j < k { j } else { j - 1 };
                assert(r.non_fungible[j1] == x);
            }
        },
    }
}

/// A register in which every balance is zero and no instance is held is the
/// empty register.
pub proof fn lemma_nothing_held(h: HoldingModel)
    requires
        h.wf(),
        forall|id: AssetIdModel| #[trigger] h.balance(id) == 0,
        forall|id: AssetIdModel, instance: AssetInstance| !#[trigger] h.has_instance(id, instance),
    ensures
        h == HoldingModel::empty(),
{
    if h.fungible.len() > 0 {
        lemma_position_unique(h, 0);
        assert(h.balance(h.fungible[0].0) == 0);
    }
    if h.non_fungible.len() > 0 {
        let x = h.non_fungible[0];
        assert(h.non_fungible.contains(x));
        assert(h.has_instance(x.0, x.1));
    }
    assert(h.fungible =~= Seq::empty());
    assert(h.non_fungible =~= Seq::empty());
}

/// A part of a list holds no more of a class than the whole list.
pub proof fn lemma_total_of_prefix(assets: Seq<AssetModel>, k: int, id: AssetIdModel)
    requires
        0 <= k <= assets.len(),
    ensures
        total_of(assets.take(k), id) <= total_of(assets, id),
        k < assets.len() ==> total_of(assets.take(k + 1), id) == total_of(assets.take(k), id)
            + amount_of(assets[k], id),
    decreases assets.len(),
{
    if k < assets.len() {
        assert(assets.take(k + 1).drop_last() =~= assets.take(k));
        assert(assets.take(k + 1).last() == assets[k]);
        assert(assets.drop_last().take(k) =~= assets.take(k));
        lemma_total_of_prefix(assets.drop_last(), k, id);
    } else {
        assert(assets.take(k) =~= assets);
    }
}

/// Whether no instance is named twice in `assets`.
pub open spec fn instances_once(assets: Seq<AssetModel>) -> bool {
    forall|i: int, j: int|
        0 <= i < j < assets.len() && (#[trigger] assets[i]).fun is NonFungible ==> assets[i]
            != #[trigger] assets[j]
}

/// Whether the amounts that `assets` names of each class fit the largest
/// amount.
pub open spec fn totals_fit(assets: Seq<AssetModel>) -> bool {
    forall|id: AssetIdModel| #[trigger] total_of(assets, id) <= u128::MAX
}

proof fn lemma_take_back(assets: Seq<AssetModel>, k: int)
    requires
        instances_once(assets),
        totals_fit(assets),
        0 <= k <= assets.len(),
    ensures
        HoldingModel::empty().subsume_all(assets).checked_sub_all(assets.take(k)).is_some(),
        HoldingModel::empty().subsume_all(assets).checked_sub_all(assets.take(k)).unwrap().wf(),
        forall|id: AssetIdModel|
            (#[trigger] HoldingModel::empty().subsume_all(assets).checked_sub_all(
                assets.take(k),
            ).unwrap().balance(id)) == total_of(assets, id) - total_of(assets.take(k), id),
        forall|id: AssetIdModel, instance: AssetInstance|
            (#[trigger] HoldingModel::empty().subsume_all(assets).checked_sub_all(
                assets.take(k),
            ).unwrap().has_instance(id, instance)) <==> names_instance(assets, id, instance)
                && !names_instance(assets.take(k), id, instance),
    decreases k,
{
    let h0 = HoldingModel::empty().subsume_all(assets);
    if k == 0 {
        assert(assets.take(0) =~= Seq::empty());
        assert(h0.checked_sub_all(assets.take(0)) == Some(h0));
        assert forall|id: AssetIdModel|
            (#[trigger] h0.balance(id)) == total_of(assets, id) - total_of(assets.take(0), id) by {
            law_subsume_conserves(HoldingModel::empty(), assets, id, AssetInstance::Undefined);
            assert(total_of(assets, id) <= u128::MAX);
            assert(HoldingModel::empty().position(id).is_none());
        }
        assert forall|id: AssetIdModel, instance: AssetInstance|
            (#[trigger] h0.has_instance(id, instance)) <==> names_instance(assets, id, instance)
                && !names_instance(assets.take(0), id, instance) by {
            law_subsume_conserves(HoldingModel::empty(), assets, id, instance);
        }
        law_subsume_conserves(
            HoldingModel::empty(),
            assets,
            AssetIdModel::Abstract(Seq::empty()),
            AssetInstance::Undefined,
        );
    } else {
        lemma_take_back(assets, k - 1);
        let front = assets.take(k - 1);
        let next = assets.take(k);
        let a = assets[k - 1];
        assert(next.drop_last() =~= front);
        assert(next.last() == a);
        let r0 = h0.checked_sub_all(front).unwrap();
        assert(r0.contains(a)) by {
            match a.fun {
                Fungibility::Fungible(amount) => {
                    lemma_total_of_prefix(assets, k - 1, a.id);
                    lemma_total_of_prefix(assets, k, a.id);
                    assert(r0.balance(a.id) == total_of(assets, a.id) - total_of(front, a.id));
                },
                Fungibility::NonFungible(held) => {
                    assert(names_instance(assets, a.id, held)) by {
                        assert(assets[k - 1] == a);
                    }
                    if names_instance(front, a.id, held) {
                        let i = choose|i: int| 0 <= i < front.len() && #[trigger] front[i] == a;
                        assert(assets[i] == front[i]);
                        assert(assets[i] != assets[k - 1]);
                    }
                    assert(r0.has_instance(a.id, held));
                },
            }
        }
        lemma_checked_sub_effect(r0, a, a.id, AssetInstance::Undefined);
        let r1 = r0.checked_sub(a).unwrap();
        assert(h0.checked_sub_all(next) == Some(r1));
        assert forall|id: AssetIdModel|
            (#[trigger] r1.balance(id)) == total_of(assets, id) - total_of(next, id) by {
            lemma_checked_sub_effect(r0, a, id, AssetInstance::Undefined);
            lemma_total_of_prefix(assets, k - 1, id);
            assert(r0.balance(id) == total_of(assets, id) - total_of(front, id));
        }
        assert forall|id: AssetIdModel, instance: AssetInstance|
            (#[trigger] r1.has_instance(id, instance)) <==> names_instance(assets, id, instance)
                && !names_instance(next, id, instance) by {
            lemma_checked_sub_effect(r0, a, id, instance);
            let x = AssetModel { id, fun: Fungibility::NonFungible(instance) };
            assert(r0.has_instance(id, instance) <==> names_instance(assets, id, instance)
                && !names_instance(front, id, instance));
            if names_instance(front, id, instance) {
                let i = choose|i: int| 0 <= i < front.len() && #[trigger] front[i] == x;
                assert(next[i] == x);
            }
            if a == x {
                assert(next[k - 1] == x);
            }
            if names_instance(next, id, instance) {
                let i = choose|i: int| 0 <= i < next.len() && #[trigger] next[i] == x;
                if i < k - 1 {
                    assert(front[i] == x);
                }
            }
        }
    }
}

/// A register that holds exactly the assets of a list gives up exactly that
/// list and is empty afterwards. The list must name no instance twice, and
/// the amounts it names of one class must fit the largest amount: a
/// register cannot hold more than that.
pub proof fn law_withdraw_what_is_held(assets: Seq<AssetModel>)
    requires
        instances_once(assets),
        totals_fit(assets),
    ensures
        HoldingModel::empty().subsume_all(assets).try_take(FilterModel::Definite(assets)) == Some(
            (HoldingModel::empty(), HoldingModel::empty().subsume_all(assets)),
        ),
{
    let h0 = HoldingModel::empty().subsume_all(assets);
    lemma_take_back(assets, assets.len() as int);
    assert(assets.take(assets.len() as int) =~= assets);
    let r = h0.checked_sub_all(assets).unwrap();
    assert forall|id: AssetIdModel| #[trigger] r.balance(id) == 0 by {
        assert(r.balance(id) == total_of(assets, id) - total_of(assets, id));
    }
    assert forall|id: AssetIdModel, instance: AssetInstance| !#[trigger] r.has_instance(
        id,
        instance,
    ) by {
        assert(r.has_instance(id, instance) <==> names_instance(assets, id, instance)
            && !names_instance(assets, id, instance));
    }
    lemma_nothing_held(r);
}

/// The wildcard that selects everything takes the whole of a register and
/// leaves it empty.
pub proof fn law_withdraw_everything(h: HoldingModel)
    ensures
        h.try_take(FilterModel::Wild(WildModel::All)) == Some((HoldingModel::empty(), h)),
{
    let (rest, taken) = h.take_first(h.len());
    assert(rest.fungible =~= Seq::empty());
    assert(rest.non_fungible =~= Seq::empty());
    assert(taken.fungible =~= h.fungible);
    assert(taken.non_fungible =~= h.non_fungible);
}

/// Whether `rest` and `taken` together hold exactly what `whole` holds:
/// of every class the two balances add up to the balance in `whole`, and
/// every instance of `whole` is in one of them and in one only.
pub open spec fn splits(whole: HoldingModel, rest: HoldingModel, taken: HoldingModel) -> bool {
    &&& rest.wf()
    &&& taken.wf()
    &&& forall|id: AssetIdModel|
        #![trigger rest.balance(id)]
        #![trigger taken.balance(id)]
        rest.balance(id) + taken.balance(id) == whole.balance(id)
    &&& forall|id: AssetIdModel, instance: AssetInstance|
        #![trigger rest.has_instance(id, instance)]
        #![trigger taken.has_instance(id, instance)]
        {
            &&& whole.has_instance(id, instance) <==> rest.has_instance(id, instance)
                || taken.has_instance(id, instance)
            &&& !(rest.has_instance(id, instance) && taken.has_instance(id, instance))
        }
}

/// A register gives up only what it holds.
pub proof fn lemma_checked_sub_contains(h: HoldingModel, asset: AssetModel)
    requires
        h.wf(),
        h.checked_sub(asset).is_some(),
    ensures
        h.contains(asset),
{
    lemma_absent(h, asset.id);
    match asset.fun {
        Fungibility::Fungible(amount) => {
            if amount != 0 {
                let i = h.position(asset.id).unwrap();
                lemma_position_unique(h, i);
            }
        },
        Fungibility::NonFungible(_) => {},
    }
}

/// Moving an asset from one part of a split to the other leaves a split.
pub proof fn lemma_move_splits(
    whole: HoldingModel,
    rest: HoldingModel,
    taken: HoldingModel,
    part: AssetModel,
)
    requires
        splits(whole, rest, taken),
        rest.checked_sub(part).is_some(),
    ensures
        splits(whole, rest.checked_sub(part).unwrap(), taken.subsume(part)),
{
    let r = rest.checked_sub(part).unwrap();
    let t = taken.subsume(part);
    lemma_checked_sub_contains(rest, part);
    lemma_checked_sub_wf(rest, part);
    lemma_subsume_wf(taken, part);
    assert forall|id: AssetIdModel| r.balance(id) + t.balance(id) == whole.balance(id) by {
        lemma_checked_sub_effect(rest, part, id, AssetInstance::Undefined);
        lemma_subsume_effect(taken, part, id, AssetInstance::Undefined);
        assert(rest.balance(id) + taken.balance(id) == whole.balance(id));
    }
    assert forall|id: AssetIdModel, instance: AssetInstance|
        (whole.has_instance(id, instance) <==> r.has_instance(id, instance) || t.has_instance(
            id,
            instance,
        )) && !(r.has_instance(id, instance) && t.has_instance(id, instance)) by {
        lemma_checked_sub_effect(rest, part, id, instance);
        lemma_subsume_effect(taken, part, id, instance);
        assert(whole.has_instance(id, instance) <==> rest.has_instance(id, instance)
            || taken.has_instance(id, instance));
        assert(!(rest.has_instance(id, instance) && taken.has_instance(id, instance)));
    }
}

/// A register and the empty register are a split of the register.
pub proof fn lemma_nothing_taken_splits(h: HoldingModel)
    requires
        h.wf(),
    ensures
        splits(h, h, HoldingModel::empty()),
        splits(h, HoldingModel::empty(), h),
{
    let e = HoldingModel::empty();
    assert forall|id: AssetIdModel| e.balance(id) == 0 by {
        assert(e.position(id).is_none());
    }
}

proof fn lemma_take_one_splits(
    whole: HoldingModel,
    rest: HoldingModel,
    taken: HoldingModel,
    asset: AssetModel,
)
    requires
        splits(whole, rest, taken),
    ensures
        splits(
            whole,
            HoldingModel::take_one(rest, taken, asset).0,
            HoldingModel::take_one(rest, taken, asset).1,
        ),
{
    let part = match asset.fun {
        Fungibility::Fungible(amount) => AssetModel {
            id: asset.id,
            fun: Fungibility::Fungible(
                if amount <= rest.balance(asset.id) {
                    amount
                } else {
                    rest.balance(asset.id)
                },
            ),
        },
        Fungibility::NonFungible(_) => asset,
    };
    if rest.checked_sub(part).is_some() {
        lemma_move_splits(whole, rest, taken, part);
    }
}

proof fn lemma_take_listed_splits(h: HoldingModel, assets: Seq<AssetModel>, limit: nat)
    requires
        h.wf(),
    ensures
        splits(h, h.take_listed(assets, limit).0, h.take_listed(assets, limit).1),
    decreases assets.len(),
{
    if assets.len() == 0 {
        lemma_nothing_taken_splits(h);
    } else {
        lemma_take_listed_splits(h, assets.drop_last(), limit);
        let (rest, taken) = h.take_listed(assets.drop_last(), limit);
        if taken.len() < limit {
            lemma_take_one_splits(h, rest, taken, assets.last());
        }
    }
}

proof fn lemma_checked_sub_all_splits(h: HoldingModel, assets: Seq<AssetModel>)
    requires
        h.wf(),
        h.checked_sub_all(assets).is_some(),
    ensures
        splits(h, h.checked_sub_all(assets).unwrap(), HoldingModel::empty().subsume_all(assets)),
    decreases assets.len(),
{
    if assets.len() == 0 {
        lemma_nothing_taken_splits(h);
    } else {
        lemma_checked_sub_all_splits(h, assets.drop_last());
        lemma_move_splits(
            h,
            h.checked_sub_all(assets.drop_last()).unwrap(),
            HoldingModel::empty().subsume_all(assets.drop_last()),
            assets.last(),
        );
    }
}

proof fn lemma_take_first_splits(h: HoldingModel, limit: nat)
    requires
        h.wf(),
    ensures
        splits(h, h.take_first(limit).0, h.take_first(limit).1),
{
    let (rest, taken) = h.take_first(limit);
    lemma_take_first_wf(h, limit);
    let k = taken.fungible.len() as int;
    let m = taken.non_fungible.len() as int;
    assert forall|id: AssetIdModel| rest.balance(id) + taken.balance(id) == h.balance(id) by {
        lemma_absent(h, id);
        lemma_absent(rest, id);
        lemma_absent(taken, id);
        match h.position(id) {
            Some(i) => {
                lemma_position_unique(h, i);
                if i < k {
                    assert(taken.fungible[i] == h.fungible[i]);
                    lemma_position_unique(taken, i);
                    assert forall|j: int| 0 <= j < rest.fungible.len() implies (
                    #[trigger] rest.fungible[j]).0 != id by {
                        assert(rest.fungible[j] == h.fungible[j + k]);
                        assert(h.fungible[i].0 != h.fungible[j + k].0);
                    }
                } else {
                    assert(rest.fungible[i - k] == h.fungible[i]);
                    lemma_position_unique(rest, i - k);
                    assert forall|j: int| 0 <= j < taken.fungible.len() implies (
                    #[trigger] taken.fungible[j]).0 != id by {
                        assert(taken.fungible[j] == h.fungible[j]);
                        assert(h.fungible[j].0 != h.fungible[i].0);
                    }
                }
            },
            None => {
                assert forall|j: int| 0 <= j < rest.fungible.len() implies (
                #[trigger] rest.fungible[j]).0 != id by {
                    assert(rest.fungible[j] == h.fungible[j + k]);
                }
                assert forall|j: int| 0 <= j < taken.fungible.len() implies (
                #[trigger] taken.fungible[j]).0 != id by {
                    assert(taken.fungible[j] == h.fungible[j]);
                }
            },
        }
    }
    assert forall|id: AssetIdModel, instance: AssetInstance|
        (h.has_instance(id, instance) <==> rest.has_instance(id, instance) || taken.has_instance(
            id,
            instance,
        )) && !(rest.has_instance(id, instance) && taken.has_instance(id, instance)) by {
        let x = (id, instance);
        if h.non_fungible.contains(x) {
            let j = choose|j: int| 0 <= j < h.non_fungible.len() && h.non_fungible[j] == x;
            if j < m {
                assert(taken.non_fungible[j] == x);
            } else {
                assert(rest.non_fungible[j - m] == x);
            }
        }
        if rest.non_fungible.contains(x) {
            let j = choose|j: int| 0 <= j < rest.non_fungible.len() && rest.non_fungible[j] == x;
            assert(h.non_fungible[j + m] == x);
            if taken.non_fungible.contains(x) {
                let i = choose|i: int|
                    0 <= i < taken.non_fungible.len() && taken.non_fungible[i] == x;
                assert(h.non_fungible[i] == x);
                assert(h.non_fungible[i] != h.non_fungible[j + m]);
            }
        }
        if taken.non_fungible.contains(x) {
            let i = choose|i: int| 0 <= i < taken.non_fungible.len() && taken.non_fungible[i] == x;
            assert(h.non_fungible[i] == x);
        }
    }
}

/// Both parts of a split of a list of instances together hold every
/// instance of the list, and none is in both if none is in the list twice.
proof fn lemma_split_instances_covers(
    instances: Seq<(AssetIdModel, AssetInstance)>,
    id: AssetIdModel,
    limit: nat,
    x: (AssetIdModel, AssetInstance),
)
    ensures
        instances.contains(x) <==> split_instances(instances, id, limit).0.contains(x)
            || split_instances(instances, id, limit).1.contains(x),
        distinct(instances) ==> !(split_instances(instances, id, limit).0.contains(x)
            && split_instances(instances, id, limit).1.contains(x)),
    decreases instances.len(),
{
    let (r1, t1) = split_instances(instances, id, limit);
    if instances.len() > 0 {
        let front = instances.drop_last();
        let e = instances.last();
        let (r0, t0) = split_instances(front, id, limit);
        lemma_split_instances_covers(front, id, limit, x);
        lemma_split_instances(front, id, limit);
        if distinct(instances) {
            assert(distinct(front)) by {
                assert forall|i: int, j: int| 0 <= i < j < front.len() implies #[trigger] front[i]
                    != #[trigger] front[j] by {
                    assert(front[i] == instances[i]);
                    assert(front[j] == instances[j]);
                }
            }
            if front.contains(e) {
                let k = choose|k: int| 0 <= k < front.len() && front[k] == e;
                assert(instances[k] != instances[instances.len() - 1]);
            }
        }
        if instances.contains(x) {
            let k = choose|k: int| 0 <= k < instances.len() && instances[k] == x;
            if k < front.len() {
                assert(front[k] == x);
            }
        }
        if front.contains(x) {
            let k = choose|k: int| 0 <= k < front.len() && front[k] == x;
            assert(instances[k] == x);
        }
        assert(instances[instances.len() - 1] == e);
        if r0.contains(x) {
            let k = choose|k: int| 0 <= k < r0.len() && r0[k] == x;
            assert(r1[k] == x);
            assert(front.contains(r0[k]));
        }
        if t0.contains(x) {
            let k = choose|k: int| 0 <= k < t0.len() && t0[k] == x;
            assert(t1[k] == x);
            assert(front.contains(t0[k]));
        }
        if r1.contains(x) {
            let k = choose|k: int| 0 <= k < r1.len() && r1[k] == x;
            if k < r0.len() {
                assert(r0[k] == x);
            }
        }
        if t1.contains(x) {
            let k = choose|k: int| 0 <= k < t1.len() && t1[k] == x;
            if k < t0.len() {
                assert(t0[k] == x);
            }
        }
        if e == x {
            if e.0 == id && t0.len() < limit {
                assert(t1[t0.len() as int] == x);
            } else {
                assert(r1[r0.len() as int] == x);
            }
        }
    }
}

proof fn lemma_take_wild_splits(h: HoldingModel, wild: WildModel, limit: nat)
    requires
        h.wf(),
    ensures
        splits(h, h.take_wild(wild, limit).0, h.take_wild(wild, limit).1),
{
    let (rest, taken) = h.take_wild(wild, limit);
    match wild {
        WildModel::All => {
            lemma_take_first_splits(h, limit);
        },
        WildModel::AllOf { id, fun: WildFungibility::Fungible } => {
            lemma_nothing_taken_splits(h);
            match h.position(id) {
                Some(i) => {
                    if limit != 0 {
                        lemma_absent(h, id);
                        let whole = AssetModel {
                            id,
                            fun: Fungibility::Fungible(h.fungible[i].1),
                        };
                        lemma_position_unique(h, i);
                        assert(h.checked_sub(whole) == Some(rest));
                        lemma_move_splits(h, h, HoldingModel::empty(), whole);
                        assert(HoldingModel::empty().position(id).is_none());
                        assert(HoldingModel::empty().subsume(whole).fungible =~= taken.fungible);
                    }
                },
                None => {},
            }
        },
        WildModel::AllOf { id, fun: WildFungibility::NonFungible } => {
            lemma_split_instances(h.non_fungible, id, limit);
            assert(rest.fungible == h.fungible);
            assert forall|other: AssetIdModel| rest.balance(other) + taken.balance(other)
                == h.balance(other) by {
                assert(rest.position(other) == h.position(other));
                assert(taken.position(other).is_none());
            }
            assert forall|other: AssetIdModel, instance: AssetInstance|
                (h.has_instance(other, instance) <==> rest.has_instance(other, instance)
                    || taken.has_instance(other, instance)) && !(rest.has_instance(other, instance)
                    && taken.has_instance(other, instance)) by {
                lemma_split_instances_covers(h.non_fungible, id, limit, (other, instance));
            }
        },
    }
}

/// Nothing is lost and nothing is made when assets are taken out of a
/// register with a cap: what is left and what was taken are a split of what
/// was held.
pub proof fn law_capped_take_conserves(h: HoldingModel, filter: FilterModel, limit: nat)
    requires
        h.wf(),
    ensures
        splits(h, h.saturating_take(filter, limit).0, h.saturating_take(filter, limit).1),
{
    match filter {
        FilterModel::Definite(assets) => lemma_take_listed_splits(h, assets, limit),
        FilterModel::Wild(wild) => lemma_take_wild_splits(h, wild, limit),
    }
}

/// Nothing is lost and nothing is made when a withdrawal succeeds: what is
/// left and what was withdrawn are a split of what was held.
pub proof fn law_withdraw_conserves(h: HoldingModel, filter: FilterModel)
    requires
        h.wf(),
        h.try_take(filter).is_some(),
    ensures
        splits(h, h.try_take(filter).unwrap().0, h.try_take(filter).unwrap().1),
{
    match filter {
        FilterModel::Definite(assets) => lemma_checked_sub_all_splits(h, assets),
        FilterModel::Wild(wild) => lemma_take_wild_splits(h, wild, h.len()),
    }
}

/// The least of a filter and a register is part of the register: of no
/// class does it hold more than the register, and it holds no instance that
/// the register does not hold.
pub proof fn law_min_is_within(
    h: HoldingModel,
    filter: FilterModel,
    id: AssetIdModel,
    instance: AssetInstance,
)
    requires
        h.wf(),
    ensures
        h.min(filter).wf(),
        h.min(filter).balance(id) <= h.balance(id),
        h.min(filter).has_instance(id, instance) ==> h.has_instance(id, instance),
{
    law_capped_take_conserves(h, filter, h.len());
    let (rest, taken) = h.saturating_take(filter, h.len());
    assert(rest.balance(id) + taken.balance(id) == h.balance(id));
    assert(h.has_instance(id, instance) <==> rest.has_instance(id, instance)
        || taken.has_instance(id, instance));
}

} // verus!
