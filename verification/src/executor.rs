//! The executor: the interpreter of messages.

use crate::assets::{Assets, HoldingModel};
use crate::encoding::decoded_xcm;
use crate::error::{Outcome, Weight, XcmError};
use crate::location::{LocationModel, MultiLocation};
use crate::message::{order_models, Response, ResponseModel, Xcm, XcmModel};
use crate::multiasset::{
    reanchor_assets, reanchored_all, views, AssetModel, FilterModel, MultiAsset,
    MultiAssetFilter,
};
use crate::order::{xcm_models, Order, OrderModel};
use crate::traits::{
    AssetExchange, ConvertOrigin, DispatchCall, FilterAssetLocation, OnResponse, SendXcm,
    ShouldExecute, TransactAsset, WeightBounds, WeightTrader,
};
use vstd::prelude::*;

verus! {

/// How deeply programs may be nested inside the message that is executed.
/// The message itself is at depth zero; a program carried by a
/// `BuyExecution` order is one level deeper than the program that holds the
/// order.
pub const MAX_RECURSION_LIMIT: u32 = 8;

/// The capabilities that one deployment of the executor is built from.
pub trait Config {
    /// The calls that `Transact` carries.
    type Call;

    /// The origins of the host ledger.
    type Origin: View;

    /// Delivers onward messages.
    type XcmSender: SendXcm;

    /// Moves assets in and out of accounts.
    type AssetTransactor: TransactAsset;

    /// Turns locations into origins of the host ledger.
    type OriginConverter: ConvertOrigin<Self::Origin>;

    /// Dispatches calls.
    type CallDispatcher: DispatchCall<Self::Origin>;

    /// Which origins are trusted as reserves for which assets.
    type IsReserve: FilterAssetLocation;

    /// Which origins are trusted to teleport which assets.
    type IsTeleporter: FilterAssetLocation;

    /// Which messages are admitted.
    type Barrier: ShouldExecute;

    /// What messages cost.
    type Weigher: WeightBounds;

    /// Who sells the weight.
    type Trader: WeightTrader;

    /// Who receives answers to queries.
    type ResponseHandler: OnResponse;

    /// Who exchanges assets.
    type AssetExchanger: AssetExchange;
}

/// An executor: a set of capabilities and the place of this system in the
/// hierarchy of consensus systems.
pub struct XcmExecutor<C: Config> {
    /// Where this system is found from the root of the hierarchy.
    pub ancestry: MultiLocation,
    pub sender: C::XcmSender,
    pub transactor: C::AssetTransactor,
    pub origin_converter: C::OriginConverter,
    pub dispatcher: C::CallDispatcher,
    pub is_reserve: C::IsReserve,
    pub is_teleporter: C::IsTeleporter,
    pub barrier: C::Barrier,
    pub weigher: C::Weigher,
    pub trader: C::Trader,
    pub response_handler: C::ResponseHandler,
    pub exchanger: C::AssetExchanger,
}

/// The difference of two weights, or zero if it would be negative.
pub open spec fn weight_sub(a: Weight, b: Weight) -> Weight {
    if a >= b {
        (a - b) as Weight
    } else {
        0
    }
}

/// The sum of two weights, or the largest weight if the sum exceeds it.
pub open spec fn weight_add(a: Weight, b: Weight) -> Weight {
    if a + b > Weight::MAX {
        Weight::MAX
    } else {
        (a + b) as Weight
    }
}

/// The lesser of two weights.
pub open spec fn lesser_weight(a: Weight, b: Weight) -> Weight {
    if a <= b {
        a
    } else {
        b
    }
}

/// The result of an instruction that frees no weight.
pub open spec fn no_surplus(r: Result<(), XcmError>) -> Result<Weight, XcmError> {
    match r {
        Ok(_) => Ok(0),
        Err(e) => Err(e),
    }
}

/// Whether `filter` trusts `origin` with every one of `assets`.
pub open spec fn all_trusted<F: FilterAssetLocation>(
    filter: F,
    assets: Seq<AssetModel>,
    origin: LocationModel,
) -> bool {
    forall|i: int| 0 <= i < assets.len() ==> filter.trusts(#[trigger] assets[i], origin)
}

impl<C: Config> XcmExecutor<C> {
    /// Withdrawing `assets[i..]` from the account of `origin`, one after the
    /// other, into `holding`. Stops at the first failure.
    pub open spec fn withdraw_from(
        self,
        origin: LocationModel,
        assets: Seq<AssetModel>,
        i: int,
        holding: HoldingModel,
    ) -> (Self, Result<HoldingModel, XcmError>)
        decreases assets.len() - i,
    {
        if i < 0 || i >= assets.len() {
            (self, Ok(holding))
        } else {
            let (transactor, r) = self.transactor.withdrawn(assets[i], origin);
            let next = XcmExecutor { transactor, ..self };
            match r {
                Ok(w) => next.withdraw_from(origin, assets, i + 1, holding.subsume_all(w.assets())),
                Err(e) => (next, Err(e)),
            }
        }
    }

    /// Moving `assets[i..]` from the account of `origin` to that of `dest`,
    /// one after the other. Stops at the first failure.
    pub open spec fn transfer_from(
        self,
        origin: LocationModel,
        dest: LocationModel,
        assets: Seq<AssetModel>,
        i: int,
    ) -> (Self, Result<(), XcmError>)
        decreases assets.len() - i,
    {
        if i < 0 || i >= assets.len() {
            (self, Ok(()))
        } else {
            let (t1, r1) = self.transactor.withdrawn(assets[i], origin);
            match r1 {
                Ok(_) => {
                    let (t2, r2) = t1.deposited(assets[i], dest);
                    let next = XcmExecutor { transactor: t2, ..self };
                    match r2 {
                        Ok(_) => next.transfer_from(origin, dest, assets, i + 1),
                        Err(e) => (next, Err(e)),
                    }
                },
                Err(e) => (XcmExecutor { transactor: t1, ..self }, Err(e)),
            }
        }
    }

    /// Depositing `assets[i..]` into the account of `who`, one after the
    /// other. Stops at the first failure.
    pub open spec fn deposit_from(self, who: LocationModel, assets: Seq<AssetModel>, i: int) -> (
        Self,
        Result<(), XcmError>,
    )
        decreases assets.len() - i,
    {
        if i < 0 || i >= assets.len() {
            (self, Ok(()))
        } else {
            let (transactor, r) = self.transactor.deposited(assets[i], who);
            let next = XcmExecutor { transactor, ..self };
            match r {
                Ok(_) => next.deposit_from(who, assets, i + 1),
                Err(e) => (next, Err(e)),
            }
        }
    }

    /// `assets` as `dest` will name them: re-expressed relative to the way
    /// back from `dest` to this system.
    pub open spec fn onward_assets(self, assets: Seq<AssetModel>, dest: LocationModel) -> Option<
        Seq<AssetModel>,
    > {
        match dest.inverted(self.ancestry@) {
            Some(back) => reanchored_all(assets, back),
            None => None,
        }
    }

    /// What the weigher makes of `messages[i..]`, added to `sum`, or `None`
    /// if it cannot weigh one of them.
    pub open spec fn programs_weighed(self, messages: Seq<XcmModel>, i: int, sum: Weight) -> Option<
        Weight,
    >
        decreases messages.len() - i,
    {
        if i < 0 || i >= messages.len() {
            Some(sum)
        } else {
            match self.weigher.weighed(messages[i]) {
                Some(w) => self.programs_weighed(messages, i + 1, weight_add(sum, w)),
                None => None,
            }
        }
    }

    /// Sending `message` to `dest`. A refusal by the router is reported as
    /// `SendFailed`.
    pub open spec fn send_onward(self, dest: LocationModel, message: XcmModel) -> (
        Self,
        Result<Weight, XcmError>,
    ) {
        let (sender, r) = self.sender.sent(dest, message);
        (
            XcmExecutor { sender, ..self },
            match r {
                Ok(_) => Ok(0),
                Err(_) => Err(XcmError::SendFailed),
            },
        )
    }

    /// Executing `message` at nesting depth `depth`: the executor
    /// afterwards, and the weight that turned out not to be needed, or the
    /// error that stopped the execution.
    ///
    /// Beyond the recursion limit nothing is done. Otherwise:
    /// - `WithdrawAsset` withdraws the assets from the origin's account,
    ///   one after the other, into a fresh holding register and carries out
    ///   the orders on it.
    /// - `ReserveAssetDeposited` and `ReceiveTeleportedAsset` put the assets
    ///   into a fresh holding register and carry out the orders on it,
    ///   provided that the origin is trusted, as a reserve or as a
    ///   teleporter, with every one of the assets.
    /// - `QueryResponse` hands the answer to the response handler.
    /// - `TransferAsset` withdraws each asset from the origin's account and
    ///   deposits it into the beneficiary's.
    /// - `TransferReserveAsset` does the same towards the account of `dest`
    ///   and then tells `dest` of the deposit, naming the assets as `dest`
    ///   sees them.
    /// - `Transact` has the call dispatched from the native origin that the
    ///   origin converts to; the weight that the call leaves unused is
    ///   freed.
    ///
    /// The first step that fails stops the execution; what was done until
    /// then stays done.
    pub open spec fn run_xcm(self, origin: LocationModel, message: XcmModel, depth: nat) -> (
        Self,
        Result<Weight, XcmError>,
    )
        decreases message, 0nat,
    {
        if depth > MAX_RECURSION_LIMIT {
            (self, Err(XcmError::RecursionLimitReached))
        } else {
            match message {
                XcmModel::WithdrawAsset { assets, effects } => {
                    let (s1, r) = self.withdraw_from(origin, assets, 0, HoldingModel::empty());
                    match r {
                        Ok(holding) => {
                            let (s2, h2, r2) = s1.run_orders(origin, holding, effects, 0, 0, depth);
                            (s2, r2)
                        },
                        Err(e) => (s1, Err(e)),
                    }
                },
                XcmModel::ReserveAssetDeposited { assets, effects } => {
                    if all_trusted(self.is_reserve, assets, origin) {
                        let holding = HoldingModel::empty().subsume_all(assets);
                        let (s2, h2, r2) = self.run_orders(origin, holding, effects, 0, 0, depth);
                        (s2, r2)
                    } else {
                        (self, Err(XcmError::UntrustedReserveLocation))
                    }
                },
                XcmModel::ReceiveTeleportedAsset { assets, effects } => {
                    if all_trusted(self.is_teleporter, assets, origin) {
                        let holding = HoldingModel::empty().subsume_all(assets);
                        let (s2, h2, r2) = self.run_orders(origin, holding, effects, 0, 0, depth);
                        (s2, r2)
                    } else {
                        (self, Err(XcmError::UntrustedTeleportLocation))
                    }
                },
                XcmModel::QueryResponse { query_id, response } => {
                    let response_handler = self.response_handler.answered(origin, query_id, response);
                    (XcmExecutor { response_handler, ..self }, Ok(0))
                },
                XcmModel::TransferAsset { assets, beneficiary } => {
                    let (s1, r) = self.transfer_from(origin, beneficiary, assets, 0);
                    (s1, no_surplus(r))
                },
                XcmModel::TransferReserveAsset { assets, dest, effects } => {
                    let (s1, r) = self.transfer_from(origin, dest, assets, 0);
                    match r {
                        Ok(_) => match s1.onward_assets(assets, dest) {
                            Some(named) => s1.send_onward(
                                dest,
                                XcmModel::ReserveAssetDeposited { assets: named, effects },
                            ),
                            None => (s1, Err(XcmError::MultiLocationFull)),
                        },
                        Err(e) => (s1, Err(e)),
                    }
                },
                XcmModel::Transact { origin_type, require_weight_at_most, call } => {
                    match self.origin_converter.converted(origin, origin_type) {
                        Some(native) => {
                            let (dispatcher, r) = self.dispatcher.dispatched(
                                native,
                                call,
                                require_weight_at_most,
                            );
                            (
                                XcmExecutor { dispatcher, ..self },
                                match r {
                                    Ok(used) => Ok(weight_sub(require_weight_at_most, used)),
                                    Err(e) => Err(e),
                                },
                            )
                        },
                        None => (self, Err(XcmError::BadOrigin)),
                    }
                },
            }
        }
    }

    /// Executing `effects[i..]` on `holding`, one after the other, stopping
    /// at the first failure. `surplus` is the weight freed so far.
    pub open spec fn run_orders(
        self,
        origin: LocationModel,
        holding: HoldingModel,
        effects: Seq<OrderModel>,
        i: int,
        surplus: Weight,
        depth: nat,
    ) -> (Self, HoldingModel, Result<Weight, XcmError>)
        decreases effects, effects.len() - i,
    {
        if i < 0 || i >= effects.len() {
            (self, holding, Ok(surplus))
        } else {
            let (s1, h1, r) = self.run_order(origin, holding, effects[i], depth);
            match r {
                Ok(w) => s1.run_orders(origin, h1, effects, i + 1, weight_add(surplus, w), depth),
                Err(e) => (s1, h1, Err(e)),
            }
        }
    }

    /// Executing the programs `messages[i..]` of a `BuyExecution` order, one
    /// after the other. A failing program ends the run if `halt` is set and
    /// is passed over otherwise. `surplus` is the weight freed so far.
    pub open spec fn run_nested(
        self,
        origin: LocationModel,
        messages: Seq<XcmModel>,
        i: int,
        surplus: Weight,
        halt: bool,
        depth: nat,
    ) -> (Self, Result<Weight, XcmError>)
        decreases messages, messages.len() - i,
    {
        if i < 0 || i >= messages.len() {
            (self, Ok(surplus))
        } else {
            let (s1, r) = self.run_xcm(origin, messages[i], depth);
            match r {
                Ok(w) => s1.run_nested(origin, messages, i + 1, weight_add(surplus, w), halt, depth),
                Err(e) => if halt {
                    (s1, Err(e))
                } else {
                    s1.run_nested(origin, messages, i + 1, surplus, halt, depth)
                },
            }
        }
    }

    /// Executing `order` on `holding` at nesting depth `depth`: the
    /// executor and the register afterwards, and the weight that turned out
    /// not to be needed, or the error that stopped the execution.
    ///
    /// Beyond the recursion limit nothing is done. Otherwise:
    /// - `DepositAsset` takes what the filter selects out of holding,
    ///   capped at what is held and at `max_assets` assets, and deposits it
    ///   into the beneficiary's account, asset by asset. What was taken
    ///   does not return to holding if a deposit fails.
    /// - `DepositReserveAsset` does the same towards the account of `dest`
    ///   and then tells `dest` of the deposit.
    /// - `ExchangeAsset` withdraws exactly `give`, offers it to the
    ///   exchange and merges whatever the exchange hands back into
    ///   holding. The order fails with `ExchangeFailed` unless what was
    ///   handed back holds all of `receive`.
    /// - `InitiateReserveWithdraw` and `InitiateTeleport` take what the
    ///   filter selects out of holding, capped at what is held, and send
    ///   the reserve or the destination a message that names it.
    /// - `QueryHolding` sends `dest` the least of the filter and holding,
    ///   and leaves holding as it is.
    /// - `BuyExecution` has the programs weighed, withdraws exactly `fees`
    ///   and buys with it, from the trader, the weight of the programs, but
    ///   no more than `weight`, and `debt` on top. What the trader hands
    ///   back is merged into holding. Then the programs are executed one
    ///   level deeper, whether or not the weight bought covers them: to
    ///   refuse unpaid work is the barrier's part. Whether a failing
    ///   program ends the order is up to `halt_on_error`.
    ///
    /// Assets are named in onward messages as the receiver sees them.
    pub open spec fn run_order(
        self,
        origin: LocationModel,
        holding: HoldingModel,
        order: OrderModel,
        depth: nat,
    ) -> (Self, HoldingModel, Result<Weight, XcmError>)
        decreases order, 0nat,
    {
        if depth > MAX_RECURSION_LIMIT {
            (self, holding, Err(XcmError::RecursionLimitReached))
        } else {
            match order {
                OrderModel::Noop => (self, holding, Ok(0)),
                OrderModel::DepositAsset { assets, max_assets, beneficiary } => {
                    let (rest, taken) = holding.saturating_take(assets, max_assets as nat);
                    let (s1, r) = self.deposit_from(beneficiary, taken.assets(), 0);
                    (s1, rest, no_surplus(r))
                },
                OrderModel::DepositReserveAsset { assets, max_assets, dest, effects } => {
                    let (rest, taken) = holding.saturating_take(assets, max_assets as nat);
                    let (s1, r) = self.deposit_from(dest, taken.assets(), 0);
                    match r {
                        Ok(_) => match s1.onward_assets(taken.assets(), dest) {
                            Some(named) => {
                                let (s2, r2) = s1.send_onward(
                                    dest,
                                    XcmModel::ReserveAssetDeposited { assets: named, effects },
                                );
                                (s2, rest, r2)
                            },
                            None => (s1, rest, Err(XcmError::MultiLocationFull)),
                        },
                        Err(e) => (s1, rest, Err(e)),
                    }
                },
                OrderModel::ExchangeAsset { give, receive } => match holding.try_take(give) {
                    Some((rest, given)) => {
                        let (exchanger, got) = self.exchanger.exchanged(origin, given, receive);
                        (
                            XcmExecutor { exchanger, ..self },
                            rest.subsume_all(got.assets()),
                            if got.checked_sub_all(receive).is_some() {
                                Ok(0)
                            } else {
                                Err(XcmError::ExchangeFailed)
                            },
                        )
                    },
                    None => (self, holding, Err(XcmError::NotWithdrawable)),
                },
                OrderModel::InitiateReserveWithdraw { assets, reserve, effects } => {
                    let (rest, taken) = holding.saturating_take(assets, u32::MAX as nat);
                    match self.onward_assets(taken.assets(), reserve) {
                        Some(named) => {
                            let (s1, r) = self.send_onward(
                                reserve,
                                XcmModel::WithdrawAsset { assets: named, effects },
                            );
                            (s1, rest, r)
                        },
                        None => (self, rest, Err(XcmError::MultiLocationFull)),
                    }
                },
                OrderModel::InitiateTeleport { assets, dest, effects } => {
                    let (rest, taken) = holding.saturating_take(assets, u32::MAX as nat);
                    match self.onward_assets(taken.assets(), dest) {
                        Some(named) => {
                            let (s1, r) = self.send_onward(
                                dest,
                                XcmModel::ReceiveTeleportedAsset { assets: named, effects },
                            );
                            (s1, rest, r)
                        },
                        None => (self, rest, Err(XcmError::MultiLocationFull)),
                    }
                },
                OrderModel::QueryHolding { query_id, dest, assets } => {
                    match self.onward_assets(holding.min(assets).assets(), dest) {
                        Some(named) => {
                            let (s1, r) = self.send_onward(
                                dest,
                                XcmModel::QueryResponse {
                                    query_id,
                                    response: ResponseModel::Assets(named),
                                },
                            );
                            (s1, holding, r)
                        },
                        None => (self, holding, Err(XcmError::MultiLocationFull)),
                    }
                },
                OrderModel::BuyExecution { fees, weight, debt, halt_on_error, xcm } => {
                    match self.programs_weighed(xcm, 0, 0) {
                        Some(needed) => {
                            let owed = lesser_weight(needed, weight) + debt;
                            if owed > Weight::MAX {
                                (self, holding, Err(XcmError::Overflow))
                            } else {
                                match holding.try_take(FilterModel::Definite(seq![fees])) {
                                    Some((rest, payment)) => {
                                        let (trader, unspent, r) = self.trader.bought(
                                            owed as Weight,
                                            payment,
                                        );
                                        let s1 = XcmExecutor { trader, ..self };
                                        let h1 = rest.subsume_all(unspent.assets());
                                        match r {
                                            Ok(_) => {
                                                let (s2, r2) = s1.run_nested(
                                                    origin,
                                                    xcm,
                                                    0,
                                                    0,
                                                    halt_on_error,
                                                    depth + 1,
                                                );
                                                (s2, h1, r2)
                                            },
                                            Err(e) => (s1, h1, Err(e)),
                                        }
                                    },
                                    None => (self, holding, Err(XcmError::NotWithdrawable)),
                                }
                            }
                        },
                        None => (self, holding, Err(XcmError::WeightNotComputable)),
                    }
                },
            }
        }
    }

    /// Executing the message that `input` decodes to: if `input` does not
    /// decode to a message, nothing is done.
    pub open spec fn executed_encoded(
        self,
        origin: LocationModel,
        input: Seq<u8>,
        weight_limit: Weight,
    ) -> (
        Self,
        Outcome,
    ) {
        match decoded_xcm(input) {
            Ok(message) => self.executed(origin, message, weight_limit),
            Err(_) => (self, Outcome::Error(XcmError::UnhandledXcmMessage)),
        }
    }

    /// Executing `message` as a whole: the executor afterwards, and the
    /// outcome.
    pub open spec fn executed(self, origin: LocationModel, message: XcmModel, weight_limit: Weight) -> (
        Self,
        Outcome,
    ) {
        match self.weigher.weighed(message) {
            Some(max_weight) => if max_weight > weight_limit {
                (self, Outcome::Error(XcmError::WeightLimitReached(max_weight)))
            } else if !self.barrier.admits(origin, message) {
                (self, Outcome::Error(XcmError::Barrier))
            } else {
                let (s1, r) = self.run_xcm(origin, message, 0);
                (
                    s1,
                    match r {
                        Ok(surplus) => Outcome::Complete(weight_sub(max_weight, surplus)),
                        Err(e) => Outcome::Incomplete(max_weight, e),
                    },
                )
            },
            None => (self, Outcome::Error(XcmError::WeightNotComputable)),
        }
    }
}

/// Whether `filter` trusts `origin` with every one of `assets`.
fn check_trusted<F: FilterAssetLocation>(
    filter: &F,
    assets: &Vec<MultiAsset>,
    origin: &MultiLocation,
) -> (r: bool)
    ensures
        r == all_trusted(*filter, views(assets@), origin@),
{
    let mut i: usize = 0;
    while i < assets.len()
        invariant
            i <= assets@.len(),
            forall|j: int| 0 <= j < i ==> filter.trusts(#[trigger] views(assets@)[j], origin@),
        decreases assets.len() - i,
    {
        if !filter.filter_asset_location(&assets[i], origin) {
            assert(!filter.trusts(views(assets@)[i as int], origin@));
            return false;
        }
        i += 1;
    }
    true
}

impl<C: Config> XcmExecutor<C> {
    fn withdraw_all(&mut self, origin: &MultiLocation, assets: &Vec<MultiAsset>) -> (r: Result<
        Assets,
        XcmError,
    >)
        ensures
            (*final(self), crate::traits::holding_result(r)) == old(self).withdraw_from(
                origin@,
                views(assets@),
                0,
                HoldingModel::empty(),
            ),
    {
        let mut holding = Assets::new();
        let mut i: usize = 0;
        while i < assets.len()
            invariant
                i <= assets@.len(),
                self.withdraw_from(origin@, views(assets@), i as int, holding@) == old(
                    self,
                ).withdraw_from(origin@, views(assets@), 0, HoldingModel::empty()),
            decreases assets.len() - i,
        {
            match self.transactor.withdraw_asset(&assets[i], origin) {
                Ok(w) => {
                    holding.saturating_subsume_all(w);
                },
                Err(e) => {
                    return Err(e);
                },
            }
            i += 1;
        }
        Ok(holding)
    }

    fn transfer_all(
        &mut self,
        origin: &MultiLocation,
        dest: &MultiLocation,
        assets: &Vec<MultiAsset>,
    ) -> (r: Result<(), XcmError>)
        ensures
            (*final(self), r) == old(self).transfer_from(origin@, dest@, views(assets@), 0),
    {
        let mut i: usize = 0;
        while i < assets.len()
            invariant
                i <= assets@.len(),
                self.transfer_from(origin@, dest@, views(assets@), i as int) == old(
                    self,
                ).transfer_from(origin@, dest@, views(assets@), 0),
            decreases assets.len() - i,
        {
            match self.transactor.withdraw_asset(&assets[i], origin) {
                Ok(_) => {},
                Err(e) => {
                    return Err(e);
                },
            }
            match self.transactor.deposit_asset(&assets[i], dest) {
                Ok(_) => {},
                Err(e) => {
                    return Err(e);
                },
            }
            i += 1;
        }
        Ok(())
    }

    fn deposit_all(&mut self, who: &MultiLocation, assets: &Vec<MultiAsset>) -> (r: Result<
        (),
        XcmError,
    >)
        ensures
            (*final(self), r) == old(self).deposit_from(who@, views(assets@), 0),
    {
        let mut i: usize = 0;
        while i < assets.len()
            invariant
                i <= assets@.len(),
                self.deposit_from(who@, views(assets@), i as int) == old(self).deposit_from(
                    who@,
                    views(assets@),
                    0,
                ),
            decreases assets.len() - i,
        {
            match self.transactor.deposit_asset(&assets[i], who) {
                Ok(_) => {},
                Err(e) => {
                    return Err(e);
                },
            }
            i += 1;
        }
        Ok(())
    }

    fn onward(&self, assets: &Vec<MultiAsset>, dest: &MultiLocation) -> (r: Option<Vec<MultiAsset>>)
        ensures
            match r {
                Some(named) => self.onward_assets(views(assets@), dest@) == Some(views(named@)),
                None => self.onward_assets(views(assets@), dest@).is_none(),
            },
    {
        match dest.inverted(&self.ancestry) {
            Some(back) => reanchor_assets(assets, &back),
            None => None,
        }
    }

    fn weigh_programs(&self, messages: &Vec<Xcm<C::Call>>) -> (r: Option<Weight>)
        ensures
            r == self.programs_weighed(xcm_models(messages@), 0, 0),
    {
        let mut sum: Weight = 0;
        let mut i: usize = 0;
        while i < messages.len()
            invariant
                i <= messages@.len(),
                self.programs_weighed(xcm_models(messages@), i as int, sum)
                    == self.programs_weighed(xcm_models(messages@), 0, 0),
            decreases messages.len() - i,
        {
            assert(xcm_models(messages@)[i as int] == messages@[i as int]@);
            match self.weigher.weight(&messages[i]) {
                Some(w) => {
                    sum = sum.saturating_add(w);
                },
                None => {
                    return None;
                },
            }
            i += 1;
        }
        Some(sum)
    }

    fn send(&mut self, dest: MultiLocation, message: Xcm<()>) -> (r: Result<Weight, XcmError>)
        ensures
            (*final(self), r) == old(self).send_onward(dest@, message@),
    {
        match self.sender.send_xcm(dest, message) {
            Ok(_) => Ok(0),
            Err(_) => Err(XcmError::SendFailed),
        }
    }

    fn do_execute_xcm(&mut self, origin: &MultiLocation, message: Xcm<C::Call>, depth: u32) -> (r:
        Result<Weight, XcmError>)
        ensures
            (*final(self), r) == old(self).run_xcm(origin@, message@, depth as nat),
        decreases message, 0nat,
    {
        if depth > MAX_RECURSION_LIMIT {
            return Err(XcmError::RecursionLimitReached);
        }
        match message {
            Xcm::WithdrawAsset { assets, effects } => {
                match self.withdraw_all(origin, &assets) {
                    Ok(holding) => {
                        let mut holding = holding;
                        self.execute_orders(origin, &mut holding, effects, depth)
                    },
                    Err(e) => Err(e),
                }
            },
            Xcm::ReserveAssetDeposited { assets, effects } => {
                if check_trusted(&self.is_reserve, &assets, origin) {
                    let mut holding = Assets::from_assets(assets);
                    self.execute_orders(origin, &mut holding, effects, depth)
                } else {
                    Err(XcmError::UntrustedReserveLocation)
                }
            },
            Xcm::ReceiveTeleportedAsset { assets, effects } => {
                if check_trusted(&self.is_teleporter, &assets, origin) {
                    let mut holding = Assets::from_assets(assets);
                    self.execute_orders(origin, &mut holding, effects, depth)
                } else {
                    Err(XcmError::UntrustedTeleportLocation)
                }
            },
            Xcm::QueryResponse { query_id, response } => {
                self.response_handler.on_response(origin, query_id, response);
                Ok(0)
            },
            Xcm::TransferAsset { assets, beneficiary } => {
                match self.transfer_all(origin, &beneficiary, &assets) {
                    Ok(_) => Ok(0),
                    Err(e) => Err(e),
                }
            },
            Xcm::TransferReserveAsset { assets, dest, effects } => {
                match self.transfer_all(origin, &dest, &assets) {
                    Ok(_) => match self.onward(&assets, &dest) {
                        Some(named) => self.send(
                            dest,
                            Xcm::ReserveAssetDeposited { assets: named, effects },
                        ),
                        None => Err(XcmError::MultiLocationFull),
                    },
                    Err(e) => Err(e),
                }
            },
            Xcm::Transact { origin_type, require_weight_at_most, call } => {
                match self.origin_converter.convert_origin(origin, origin_type) {
                    Some(native) => {
                        match self.dispatcher.dispatch(native, &call.encoded, require_weight_at_most) {
                            Ok(used) => Ok(require_weight_at_most.saturating_sub(used)),
                            Err(e) => Err(e),
                        }
                    },
                    None => Err(XcmError::BadOrigin),
                }
            },
        }
    }

    fn execute_orders(
        &mut self,
        origin: &MultiLocation,
        holding: &mut Assets,
        effects: Vec<Order<C::Call>>,
        depth: u32,
    ) -> (r: Result<Weight, XcmError>)
        ensures
            (*final(self), final(holding)@, r) == old(self).run_orders(
                origin@,
                old(holding)@,
                order_models(effects@),
                0,
                0,
                depth as nat,
            ),
        decreases effects, 0nat,
    {
        let mut surplus: Weight = 0;
        let ghost src = effects@;
        for order in it: effects
            invariant
                it.seq() == src,
                src == effects@,
                self.run_orders(
                    origin@,
                    holding@,
                    order_models(src),
                    it.index() as int,
                    surplus,
                    depth as nat,
                ) == old(self).run_orders(
                    origin@,
                    old(holding)@,
                    order_models(src),
                    0,
                    0,
                    depth as nat,
                ),
        {
            assert(order == src[it.index() as int]);
            assert(decreases_to!(effects => effects@[it.index() as int]));
            assert(order_models(src)[it.index() as int] == order@);
            match self.execute_order(origin, holding, order, depth) {
                Ok(w) => {
                    surplus = surplus.saturating_add(w);
                },
                Err(e) => {
                    return Err(e);
                },
            }
        }
        Ok(surplus)
    }

    fn execute_nested(
        &mut self,
        origin: &MultiLocation,
        messages: Vec<Xcm<C::Call>>,
        halt: bool,
        depth: u32,
    ) -> (r: Result<Weight, XcmError>)
        ensures
            (*final(self), r) == old(self).run_nested(
                origin@,
                xcm_models(messages@),
                0,
                0,
                halt,
                depth as nat,
            ),
        decreases messages, 0nat,
    {
        let mut surplus: Weight = 0;
        let ghost src = messages@;
        for message in it: messages
            invariant
                it.seq() == src,
                src == messages@,
                self.run_nested(
                    origin@,
                    xcm_models(src),
                    it.index() as int,
                    surplus,
                    halt,
                    depth as nat,
                ) == old(self).run_nested(origin@, xcm_models(src), 0, 0, halt, depth as nat),
        {
            assert(message == src[it.index() as int]);
            assert(decreases_to!(messages => messages@[it.index() as int]));
            assert(xcm_models(src)[it.index() as int] == message@);
            match self.do_execute_xcm(origin, message, depth) {
                Ok(w) => {
                    surplus = surplus.saturating_add(w);
                },
                Err(e) => {
                    if halt {
                        return Err(e);
                    }
                },
            }
        }
        Ok(surplus)
    }

    fn execute_order(
        &mut self,
        origin: &MultiLocation,
        holding: &mut Assets,
        order: Order<C::Call>,
        depth: u32,
    ) -> (r: Result<Weight, XcmError>)
        ensures
            (*final(self), final(holding)@, r) == old(self).run_order(
                origin@,
                old(holding)@,
                order@,
                depth as nat,
            ),
        decreases order, 0nat,
    {
        if depth > MAX_RECURSION_LIMIT {
            return Err(XcmError::RecursionLimitReached);
        }
        match order {
            Order::Noop => Ok(0),
            Order::DepositAsset { assets, max_assets, beneficiary } => {
                self.deposit_asset(origin, holding, assets, max_assets, beneficiary)
            },
            Order::DepositReserveAsset { assets, max_assets, dest, effects } => {
                self.deposit_reserve_asset(origin, holding, assets, max_assets, dest, effects)
            },
            Order::ExchangeAsset { give, receive } => {
                self.exchange_asset(origin, holding, give, receive)
            },
            Order::InitiateReserveWithdraw { assets, reserve, effects } => {
                self.initiate_reserve_withdraw(origin, holding, assets, reserve, effects)
            },
            Order::InitiateTeleport { assets, dest, effects } => {
                self.initiate_teleport(origin, holding, assets, dest, effects)
            },
            Order::QueryHolding { query_id, dest, assets } => {
                self.query_holding(origin, holding, query_id, dest, assets)
            },
            Order::BuyExecution { fees, weight, debt, halt_on_error, xcm } => {
                self.buy_execution(origin, holding, fees, weight, debt, halt_on_error, xcm, depth)
            },
        }
    }

    fn deposit_asset(
        &mut self,
        origin: &MultiLocation,
        holding: &mut Assets,
        assets: MultiAssetFilter,
        max_assets: u32,
        beneficiary: MultiLocation,
    ) -> (r: Result<Weight, XcmError>)
        ensures
            (*final(self), final(holding)@, r) == old(self).run_order(
                origin@,
                old(holding)@,
                OrderModel::DepositAsset { assets: assets@, max_assets, beneficiary: beneficiary@ },
                0,
            ),
    {
        let taken = holding.saturating_take(&assets, max_assets);
        let list = taken.into_assets();
        match self.deposit_all(&beneficiary, &list) {
            Ok(_) => Ok(0),
            Err(e) => Err(e),
        }
    }

    fn deposit_reserve_asset(
        &mut self,
        origin: &MultiLocation,
        holding: &mut Assets,
        assets: MultiAssetFilter,
        max_assets: u32,
        dest: MultiLocation,
        effects: Vec<Order<()>>,
    ) -> (r: Result<Weight, XcmError>)
        ensures
            (*final(self), final(holding)@, r) == old(self).run_order(
                origin@,
                old(holding)@,
                OrderModel::DepositReserveAsset {
                    assets: assets@,
                    max_assets,
                    dest: dest@,
                    effects: order_models(effects@),
                },
                0,
            ),
    {
        let taken = holding.saturating_take(&assets, max_assets);
        let list = taken.into_assets();
        match self.deposit_all(&dest, &list) {
            Ok(_) => match self.onward(&list, &dest) {
                Some(named) => self.send(
                    dest,
                    Xcm::ReserveAssetDeposited { assets: named, effects },
                ),
                None => Err(XcmError::MultiLocationFull),
            },
            Err(e) => Err(e),
        }
    }

    fn exchange_asset(
        &mut self,
        origin: &MultiLocation,
        holding: &mut Assets,
        give: MultiAssetFilter,
        receive: Vec<MultiAsset>,
    ) -> (r: Result<Weight, XcmError>)
        ensures
            (*final(self), final(holding)@, r) == old(self).run_order(
                origin@,
                old(holding)@,
                OrderModel::ExchangeAsset { give: give@, receive: views(receive@) },
                0,
            ),
    {
        match holding.withdraw(&give) {
            Ok(given) => {
                let got = self.exchanger.exchange_asset(origin, given, &receive);
                let wanted = MultiAssetFilter::Definite(receive);
                let mut probe = got.clone();
                let enough = probe.withdraw(&wanted).is_ok();
                holding.saturating_subsume_all(got);
                if enough {
                    Ok(0)
                } else {
                    Err(XcmError::ExchangeFailed)
                }
            },
            Err(e) => Err(e),
        }
    }

    fn initiate_reserve_withdraw(
        &mut self,
        origin: &MultiLocation,
        holding: &mut Assets,
        assets: MultiAssetFilter,
        reserve: MultiLocation,
        effects: Vec<Order<()>>,
    ) -> (r: Result<Weight, XcmError>)
        ensures
            (*final(self), final(holding)@, r) == old(self).run_order(
                origin@,
                old(holding)@,
                OrderModel::InitiateReserveWithdraw {
                    assets: assets@,
                    reserve: reserve@,
                    effects: order_models(effects@),
                },
                0,
            ),
    {
        let taken = holding.saturating_take(&assets, u32::MAX);
        let list = taken.into_assets();
        match self.onward(&list, &reserve) {
            Some(named) => self.send(reserve, Xcm::WithdrawAsset { assets: named, effects }),
            None => Err(XcmError::MultiLocationFull),
        }
    }

    fn initiate_teleport(
        &mut self,
        origin: &MultiLocation,
        holding: &mut Assets,
        assets: MultiAssetFilter,
        dest: MultiLocation,
        effects: Vec<Order<()>>,
    ) -> (r: Result<Weight, XcmError>)
        ensures
            (*final(self), final(holding)@, r) == old(self).run_order(
                origin@,
                old(holding)@,
                OrderModel::InitiateTeleport {
                    assets: assets@,
                    dest: dest@,
                    effects: order_models(effects@),
                },
                0,
            ),
    {
        let taken = holding.saturating_take(&assets, u32::MAX);
        let list = taken.into_assets();
        match self.onward(&list, &dest) {
            Some(named) => self.send(
                dest,
                Xcm::ReceiveTeleportedAsset { assets: named, effects },
            ),
            None => Err(XcmError::MultiLocationFull),
        }
    }

    fn query_holding(
        &mut self,
        origin: &MultiLocation,
        holding: &mut Assets,
        query_id: u64,
        dest: MultiLocation,
        assets: MultiAssetFilter,
    ) -> (r: Result<Weight, XcmError>)
        ensures
            (*final(self), final(holding)@, r) == old(self).run_order(
                origin@,
                old(holding)@,
                OrderModel::QueryHolding { query_id, dest: dest@, assets: assets@ },
                0,
            ),
    {
        let list = holding.min(&assets).into_assets();
        match self.onward(&list, &dest) {
            Some(named) => self.send(
                dest,
                Xcm::QueryResponse { query_id, response: Response::Assets(named) },
            ),
            None => Err(XcmError::MultiLocationFull),
        }
    }

    fn buy_execution(
        &mut self,
        origin: &MultiLocation,
        holding: &mut Assets,
        fees: MultiAsset,
        weight: Weight,
        debt: Weight,
        halt_on_error: bool,
        xcm: Vec<Xcm<C::Call>>,
        depth: u32,
    ) -> (r: Result<Weight, XcmError>)
        requires
            depth <= MAX_RECURSION_LIMIT,
        ensures
            (*final(self), final(holding)@, r) == old(self).run_order(
                origin@,
                old(holding)@,
                OrderModel::BuyExecution {
                    fees: fees@,
                    weight,
                    debt,
                    halt_on_error,
                    xcm: xcm_models(xcm@),
                },
                depth as nat,
            ),
        decreases xcm, 1nat,
    {
        let needed = match self.weigh_programs(&xcm) {
            Some(w) => w,
            None => {
                return Err(XcmError::WeightNotComputable);
            },
        };
        let covered = if needed <= weight {
            needed
        } else {
            weight
        };
        let owed = match covered.checked_add(debt) {
            Some(w) => w,
            None => {
                return Err(XcmError::Overflow);
            },
        };
        let mut fee_list: Vec<MultiAsset> = Vec::new();
        fee_list.push(fees);
        let filter = MultiAssetFilter::Definite(fee_list);
        assert(views(fee_list@) =~= seq![fees@]);
        match holding.withdraw(&filter) {
            Ok(payment) => {
                let bought = self.trader.buy_weight(owed, payment);
                holding.saturating_subsume_all(bought.0);
                match bought.1 {
                    Ok(_) => self.execute_nested(origin, xcm, halt_on_error, depth + 1),
                    Err(e) => Err(e),
                }
            },
            Err(e) => Err(e),
        }
    }

    /// Executes `order` on `holding` on behalf of `origin`, as a message
    /// that holds it would. Returns the weight that turned out not to be
    /// needed, or the error that stopped the execution; what was done until
    /// then stays done.
    pub fn execute_effect(
        &mut self,
        origin: &MultiLocation,
        holding: &mut Assets,
        order: Order<C::Call>,
    ) -> (r: Result<Weight, XcmError>)
        ensures
            (*final(self), final(holding)@, r) == old(self).run_order(
                origin@,
                old(holding)@,
                order@,
                0,
            ),
    {
        self.execute_order(origin, holding, order, 0)
    }

    /// Executes `message`, which came from `origin`.
    ///
    /// The message is refused, with no effect at all, if its weight cannot
    /// be estimated, if the estimate exceeds `weight_limit`, or if the
    /// barrier does not admit it. Otherwise its instructions are carried
    /// out in order. An instruction that fails ends the execution with
    /// `Outcome::Incomplete`; what was done until then stays done.
    pub fn execute_xcm(
        &mut self,
        origin: MultiLocation,
        message: Xcm<C::Call>,
        weight_limit: Weight,
    ) -> (outcome: Outcome)
        ensures
            (*final(self), outcome) == old(self).executed(origin@, message@, weight_limit),
    {
        let max_weight = match self.weigher.weight(&message) {
            Some(w) => w,
            None => {
                return Outcome::Error(XcmError::WeightNotComputable);
            },
        };
        if max_weight > weight_limit {
            return Outcome::Error(XcmError::WeightLimitReached(max_weight));
        }
        if !self.barrier.should_execute(&origin, &message) {
            return Outcome::Error(XcmError::Barrier);
        }
        match self.do_execute_xcm(&origin, message, 0) {
            Ok(surplus) => Outcome::Complete(max_weight.saturating_sub(surplus)),
            Err(e) => Outcome::Incomplete(max_weight, e),
        }
    }

    /// Executes the message that `input` decodes to, which came from
    /// `origin`. Bytes that do not decode to a message are refused with
    /// `UnhandledXcmMessage`, with no effect at all.
    pub fn execute_encoded(
        &mut self,
        origin: MultiLocation,
        input: &[u8],
        weight_limit: Weight,
    ) -> (outcome: Outcome)
        ensures
            (*final(self), outcome) == old(self).executed_encoded(origin@, input@, weight_limit),
    {
        match Xcm::<C::Call>::decode(input) {
            Ok(message) => self.execute_xcm(origin, message, weight_limit),
            Err(_) => Outcome::Error(XcmError::UnhandledXcmMessage),
        }
    }
}

} // verus!
