//! Ready-made capabilities from which an executor can be put together.

use crate::assets::{Assets, HoldingModel};
use crate::error::{Weight, XcmError};
use crate::executor::weight_add;
use crate::location::{LocationModel, MultiLocation};
use crate::message::{OriginKind, Response, ResponseModel, Xcm, XcmModel};
use crate::multiasset::{
    AssetId, AssetIdModel, AssetModel, Fungibility, MultiAsset,
};
use crate::order::{Order, OrderModel};
use crate::traits::{
    AssetExchange, ConvertOrigin, DispatchCall, FilterAssetLocation, OnResponse, ShouldExecute,
    WeightBounds, WeightTrader,
};
use vstd::prelude::*;

verus! {

/// The weight that one second of execution amounts to.
pub const WEIGHT_PER_SECOND: Weight = 1_000_000_000_000;

/// A set of locations.
pub trait ContainsLocation {
    /// Whether `location` belongs to the set.
    open spec fn holds(&self, location: LocationModel) -> bool {
        arbitrary()
    }

    /// Whether `location` belongs to the set.
    fn contains(&self, location: &MultiLocation) -> (r: bool)
        ensures
            r == self.holds(location@),
    ;
}

/// The set of all locations.
#[derive(Clone, Copy, Debug, PartialEq, Eq, Structural)]
pub struct All;

impl ContainsLocation for All {
    open spec fn holds(&self, location: LocationModel) -> bool {
        true
    }

    fn contains(&self, location: &MultiLocation) -> (r: bool) {
        true
    }
}

/// The barrier that admits, free of charge, every message whose origin
/// belongs to the set `T`, and no other.
#[derive(Clone, Copy, Debug, PartialEq, Eq)]
pub struct AllowUnpaidExecutionFrom<T>(pub T);

impl<T: ContainsLocation> ShouldExecute for AllowUnpaidExecutionFrom<T> {
    open spec fn admits(&self, origin: LocationModel, message: XcmModel) -> bool {
        self.0.holds(origin)
    }

    fn should_execute<Call>(&self, origin: &MultiLocation, message: &Xcm<Call>) -> (r: bool) {
        self.0.contains(origin)
    }
}

/// The weight of `message` when every instruction that is carried out here
/// weighs `base`, and a call in addition as much as the message allows it.
/// Sums saturate.
pub open spec fn xcm_weight(base: Weight, message: XcmModel) -> Weight
    decreases message, 0nat,
{
    match message {
        XcmModel::WithdrawAsset { assets, effects } => orders_weight(base, effects, 0, base),
        XcmModel::ReserveAssetDeposited { assets, effects } => orders_weight(base, effects, 0, base),
        XcmModel::ReceiveTeleportedAsset { assets, effects } => orders_weight(
            base,
            effects,
            0,
            base,
        ),
        XcmModel::Transact { origin_type, require_weight_at_most, call } => weight_add(
            base,
            require_weight_at_most,
        ),
        _ => base,
    }
}

/// `sum` and the weights of `effects[i..]`.
pub open spec fn orders_weight(base: Weight, effects: Seq<OrderModel>, i: int, sum: Weight) -> Weight
    decreases effects, effects.len() - i,
{
    if i < 0 || i >= effects.len() {
        sum
    } else {
        orders_weight(base, effects, i + 1, weight_add(sum, order_weight(base, effects[i])))
    }
}

/// The weight of `order`: `base`, and the weights of the programs that it
/// carries for execution.
pub open spec fn order_weight(base: Weight, order: OrderModel) -> Weight
    decreases order, 0nat,
{
    match order {
        OrderModel::BuyExecution { fees, weight, debt, halt_on_error, xcm } => programs_weight(
            base,
            xcm,
            0,
            base,
        ),
        _ => base,
    }
}

/// `sum` and the weights of `messages[i..]`.
pub open spec fn programs_weight(base: Weight, messages: Seq<XcmModel>, i: int, sum: Weight) -> Weight
    decreases messages, messages.len() - i,
{
    if i < 0 || i >= messages.len() {
        sum
    } else {
        programs_weight(base, messages, i + 1, weight_add(sum, xcm_weight(base, messages[i])))
    }
}

/// The weigher that charges the same weight for every instruction.
#[derive(Clone, Copy, Debug, PartialEq, Eq, Structural)]
pub struct FixedWeightBounds {
    /// The weight of one instruction.
    pub base: Weight,
}

impl FixedWeightBounds {
    fn orders<Call>(&self, effects: &Vec<Order<Call>>) -> (r: Weight)
        ensures
            r == orders_weight(self.base, crate::message::order_models(effects@), 0, self.base),
        decreases effects,
    {
        let mut sum: Weight = self.base;
        let mut i: usize = 0;
        let ghost models = crate::message::order_models(effects@);
        while i < effects.len()
            invariant
                i <= effects@.len(),
                models == crate::message::order_models(effects@),
                orders_weight(self.base, models, i as int, sum) == orders_weight(
                    self.base,
                    models,
                    0,
                    self.base,
                ),
            decreases effects.len() - i,
        {
            assert(decreases_to!(effects => effects@[i as int]));
            assert(models[i as int] == effects@[i as int]@);
            let w = self.order(&effects[i]);
            sum = sum.saturating_add(w);
            i += 1;
        }
        sum
    }

    fn order<Call>(&self, order: &Order<Call>) -> (r: Weight)
        ensures
            r == order_weight(self.base, order@),
        decreases order,
    {
        match order {
            Order::BuyExecution { fees, weight, debt, halt_on_error, xcm } => {
                let mut sum: Weight = self.base;
                let mut i: usize = 0;
                let ghost models = crate::order::xcm_models(xcm@);
                while i < xcm.len()
                    invariant
                        i <= xcm@.len(),
                        models == crate::order::xcm_models(xcm@),
                        decreases_to!(order => xcm),
                        programs_weight(self.base, models, i as int, sum) == programs_weight(
                            self.base,
                            models,
                            0,
                            self.base,
                        ),
                    decreases xcm.len() - i,
                {
                    assert(decreases_to!(xcm => xcm@[i as int]));
                    assert(models[i as int] == xcm@[i as int]@);
                    let w = self.message(&xcm[i]);
                    sum = sum.saturating_add(w);
                    i += 1;
                }
                sum
            },
            _ => self.base,
        }
    }

    fn message<Call>(&self, message: &Xcm<Call>) -> (r: Weight)
        ensures
            r == xcm_weight(self.base, message@),
        decreases message,
    {
        match message {
            Xcm::WithdrawAsset { assets, effects } => self.orders(effects),
            Xcm::ReserveAssetDeposited { assets, effects } => self.orders(effects),
            Xcm::ReceiveTeleportedAsset { assets, effects } => self.orders(effects),
            Xcm::Transact { origin_type, require_weight_at_most, call } => {
                self.base.saturating_add(*require_weight_at_most)
            },
            _ => self.base,
        }
    }
}

impl WeightBounds for FixedWeightBounds {
    open spec fn weighed(&self, message: XcmModel) -> Option<Weight> {
        Some(xcm_weight(self.base, message))
    }

    fn weight<Call>(&self, message: &Xcm<Call>) -> (r: Option<Weight>) {
        Some(self.message(message))
    }
}

/// What `weight` costs at `units_per_second`, rounded down, or `None` if
/// the product does not fit an amount.
pub open spec fn fee_for(units_per_second: u128, weight: Weight) -> Option<u128> {
    if units_per_second * weight > u128::MAX {
        None
    } else {
        Some(((units_per_second * weight) / (WEIGHT_PER_SECOND as int)) as u128)
    }
}

/// The trader that sells weight at a fixed rate for one fungible asset.
///
/// A purchase takes its price out of the payment and hands back the rest.
/// A payment that does not cover the price is forfeited: nothing of it is
/// handed back, and the purchase fails with `Underpaid`. A price that
/// cannot be computed fails the purchase with `Overflow` and hands the
/// payment back whole.
#[derive(Debug, PartialEq, Eq)]
pub struct FixedRateOfConcreteFungible {
    /// The asset that is accepted in payment.
    pub id: MultiLocation,
    /// How many units one second of weight costs.
    pub units_per_second: u128,
    /// The weight sold so far; it saturates.
    pub weight_sold: Weight,
    /// The units taken in payment so far; they saturate.
    pub units_taken: u128,
}

impl FixedRateOfConcreteFungible {
    /// A trader that accepts the asset `id` at `units_per_second` and has
    /// sold nothing yet.
    pub fn new(id: MultiLocation, units_per_second: u128) -> (r: Self)
        ensures
            r.id@ == id@,
            r.units_per_second == units_per_second,
            r.weight_sold == 0,
            r.units_taken == 0,
    {
        FixedRateOfConcreteFungible { id, units_per_second, weight_sold: 0, units_taken: 0 }
    }

    /// The price of `weight`.
    pub fn price(&self, weight: Weight) -> (r: Option<u128>)
        ensures
            r == fee_for(self.units_per_second, weight),
    {
        match self.units_per_second.checked_mul(weight as u128) {
            Some(product) => Some(product / (WEIGHT_PER_SECOND as u128)),
            None => None,
        }
    }
}

impl WeightTrader for FixedRateOfConcreteFungible {
    open spec fn bought(self, weight: Weight, payment: HoldingModel) -> (
        Self,
        HoldingModel,
        Result<(), XcmError>,
    ) {
        match fee_for(self.units_per_second, weight) {
            Some(price) => {
                let cost = AssetModel {
                    id: AssetIdModel::Concrete(self.id@),
                    fun: Fungibility::Fungible(price),
                };
                match payment.checked_sub(cost) {
                    Some(unspent) => (
                        FixedRateOfConcreteFungible {
                            weight_sold: weight_add(self.weight_sold, weight),
                            units_taken: crate::assets::saturating_sum(self.units_taken, price),
                            ..self
                        },
                        unspent,
                        Ok(()),
                    ),
                    None => (self, HoldingModel::empty(), Err(XcmError::Underpaid)),
                }
            },
            None => (self, payment, Err(XcmError::Overflow)),
        }
    }

    fn buy_weight(&mut self, weight: Weight, payment: Assets) -> (r: (Assets, Result<(), XcmError>)) {
        match self.price(weight) {
            Some(price) => {
                let cost = MultiAsset {
                    id: AssetId::Concrete(self.id.clone()),
                    fun: Fungibility::Fungible(price),
                };
                let mut payment = payment;
                match payment.checked_sub(&cost) {
                    Ok(_) => {
                        self.weight_sold = self.weight_sold.saturating_add(weight);
                        self.units_taken = self.units_taken.saturating_add(price);
                        (payment, Ok(()))
                    },
                    Err(_) => (Assets::new(), Err(XcmError::Underpaid)),
                }
            },
            None => (payment, Err(XcmError::Overflow)),
        }
    }
}

/// The converter that lets a location act as itself, and in no other
/// capacity: the native origin of a location is the location.
#[derive(Clone, Copy, Debug, PartialEq, Eq, Structural)]
pub struct LocationAsOrigin;

impl ConvertOrigin<MultiLocation> for LocationAsOrigin {
    open spec fn converted(&self, origin: LocationModel, kind: OriginKind) -> Option<LocationModel> {
        if kind == OriginKind::Xcm {
            Some(origin)
        } else {
            None
        }
    }

    fn convert_origin(&self, origin: &MultiLocation, kind: OriginKind) -> (r: Option<MultiLocation>) {
        match kind {
            OriginKind::Xcm => Some(origin.clone()),
            _ => None,
        }
    }
}

/// The filter that trusts nobody.
impl FilterAssetLocation for () {
    open spec fn trusts(&self, asset: AssetModel, origin: LocationModel) -> bool {
        false
    }

    fn filter_asset_location(&self, asset: &MultiAsset, origin: &MultiLocation) -> (r: bool) {
        false
    }
}

/// The handler that takes no note of answers.
impl OnResponse for () {
    open spec fn answered(self, origin: LocationModel, query_id: u64, response: ResponseModel) -> Self {
        self
    }

    fn on_response(&mut self, origin: &MultiLocation, query_id: u64, response: Response) {
    }
}

/// The exchange that makes no exchange: it hands back what it was given.
impl AssetExchange for () {
    open spec fn exchanged(self, origin: LocationModel, give: HoldingModel, want: Seq<AssetModel>) -> (
        Self,
        HoldingModel,
    ) {
        (self, give)
    }

    fn exchange_asset(&mut self, origin: &MultiLocation, give: Assets, want: &Vec<MultiAsset>) -> (r:
        Assets) {
        give
    }
}

/// The dispatcher of a system that has no calls: it refuses every call.
impl<Origin: View> DispatchCall<Origin> for () {
    open spec fn dispatched(self, origin: Origin::V, call: Seq<u8>, weight_limit: Weight) -> (
        Self,
        Result<Weight, XcmError>,
    ) {
        (self, Err(XcmError::UnhandledXcmMessage))
    }

    fn dispatch(&mut self, origin: Origin, call: &Vec<u8>, weight_limit: Weight) -> (r: Result<
        Weight,
        XcmError,
    >) {
        Err(XcmError::UnhandledXcmMessage)
    }
}

} // verus!
