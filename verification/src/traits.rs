//! The capabilities that a host supplies to the executor.
//!
//! Each capability is a trait. Beside every method stands a specification
//! function that says, as a function of the capability's value and the
//! arguments, what the method returns and what value it leaves behind. The
//! executor's own contract is stated over these functions, so it holds of
//! a host whose capabilities do what their specification functions say.
//! An implementation that is to be verified defines the specification
//! functions; one that is not may leave them out.

use crate::assets::{Assets, HoldingModel};
use crate::error::{Weight, XcmError};
use crate::location::{LocationModel, MultiLocation};
use crate::message::{OriginKind, Response, ResponseModel, Xcm, XcmModel};
use crate::multiasset::{views, AssetModel, MultiAsset};
use vstd::prelude::*;

verus! {

/// The value of a result that carries a register.
pub open spec fn holding_result(r: Result<Assets, XcmError>) -> Result<HoldingModel, XcmError> {
    match r {
        Ok(assets) => Ok(assets@),
        Err(e) => Err(e),
    }
}

/// Moves assets between the holding register and the accounts of the host
/// ledger.
pub trait TransactAsset: Sized {
    /// What `deposit_asset` returns, and the ledger after it.
    open spec fn deposited(self, what: AssetModel, who: LocationModel) -> (Self, Result<(), XcmError>) {
        arbitrary()
    }

    /// What `withdraw_asset` returns, and the ledger after it.
    open spec fn withdrawn(self, what: AssetModel, who: LocationModel) -> (
        Self,
        Result<HoldingModel, XcmError>,
    ) {
        arbitrary()
    }

    /// Credits `what` to the account of `who`.
    fn deposit_asset(&mut self, what: &MultiAsset, who: &MultiLocation) -> (r: Result<(), XcmError>)
        ensures
            (*final(self), r) == old(self).deposited(what@, who@),
    ;

    /// Debits `what` from the account of `who` and returns it as the
    /// contents of a holding register.
    fn withdraw_asset(&mut self, what: &MultiAsset, who: &MultiLocation) -> (r: Result<
        Assets,
        XcmError,
    >)
        ensures
            (*final(self), holding_result(r)) == old(self).withdrawn(what@, who@),
    ;
}

/// Forwards messages to other consensus systems.
pub trait SendXcm: Sized {
    /// What `send_xcm` returns, and the router after it.
    open spec fn sent(self, dest: LocationModel, message: XcmModel) -> (Self, Result<(), XcmError>) {
        arbitrary()
    }

    /// Hands `message` over for delivery to `dest`.
    fn send_xcm(&mut self, dest: MultiLocation, message: Xcm<()>) -> (r: Result<(), XcmError>)
        ensures
            (*final(self), r) == old(self).sent(dest@, message@),
    ;
}

/// Turns the location that a message came from into an origin of the host
/// ledger.
pub trait ConvertOrigin<Origin: View> {
    /// The value of the origin that `convert_origin` returns, if any.
    open spec fn converted(&self, origin: LocationModel, kind: OriginKind) -> Option<Origin::V> {
        arbitrary()
    }

    /// The native origin for `origin` acting in the capacity `kind`, or
    /// `None` if `origin` may not act so.
    fn convert_origin(&self, origin: &MultiLocation, kind: OriginKind) -> (r: Option<Origin>)
        ensures
            match r {
                Some(native) => self.converted(origin@, kind) == Some(native@),
                None => self.converted(origin@, kind).is_none(),
            },
    ;
}

/// Dispatches the calls that messages carry.
pub trait DispatchCall<Origin: View>: Sized {
    /// What `dispatch` returns, and the dispatcher after it.
    open spec fn dispatched(self, origin: Origin::V, call: Seq<u8>, weight_limit: Weight) -> (
        Self,
        Result<Weight, XcmError>,
    ) {
        arbitrary()
    }

    /// Dispatches the encoded `call` from `origin`, allowing it at most
    /// `weight_limit`. Returns the weight that the call used.
    fn dispatch(&mut self, origin: Origin, call: &Vec<u8>, weight_limit: Weight) -> (r: Result<
        Weight,
        XcmError,
    >)
        ensures
            (*final(self), r) == old(self).dispatched(origin@, call@, weight_limit),
    ;
}

/// Decides which messages may be executed at all.
pub trait ShouldExecute {
    /// Whether `should_execute` admits the message.
    open spec fn admits(&self, origin: LocationModel, message: XcmModel) -> bool {
        arbitrary()
    }

    /// Whether `message`, coming from `origin`, may be executed.
    fn should_execute<Call>(&self, origin: &MultiLocation, message: &Xcm<Call>) -> (r: bool)
        ensures
            r == self.admits(origin@, message@),
    ;
}

/// Estimates what the execution of a message costs.
pub trait WeightBounds {
    /// The weight that `weight` returns, if any.
    open spec fn weighed(&self, message: XcmModel) -> Option<Weight> {
        arbitrary()
    }

    /// An upper bound on the weight of executing `message`, nested programs
    /// included, or `None` if it cannot be estimated.
    fn weight<Call>(&self, message: &Xcm<Call>) -> (r: Option<Weight>)
        ensures
            r == self.weighed(message@),
    ;
}

/// Sells weight for assets.
pub trait WeightTrader: Sized {
    /// What `buy_weight` returns, and the trader after it.
    open spec fn bought(self, weight: Weight, payment: HoldingModel) -> (
        Self,
        HoldingModel,
        Result<(), XcmError>,
    ) {
        arbitrary()
    }

    /// Buys `weight` with assets out of `payment`. Returns what of the
    /// payment the trader did not keep, and whether the purchase succeeded.
    fn buy_weight(&mut self, weight: Weight, payment: Assets) -> (r: (Assets, Result<(), XcmError>))
        ensures
            (*final(self), r.0@, r.1) == old(self).bought(weight, payment@),
    ;
}

/// Says which origins are trusted to vouch for which assets.
pub trait FilterAssetLocation {
    /// Whether `filter_asset_location` accepts the pair.
    open spec fn trusts(&self, asset: AssetModel, origin: LocationModel) -> bool {
        arbitrary()
    }

    /// Whether `origin` is trusted with respect to `asset`.
    fn filter_asset_location(&self, asset: &MultiAsset, origin: &MultiLocation) -> (r: bool)
        ensures
            r == self.trusts(asset@, origin@),
    ;
}

/// Receives the answers to queries.
pub trait OnResponse: Sized {
    /// The handler after `on_response`.
    open spec fn answered(self, origin: LocationModel, query_id: u64, response: ResponseModel) -> Self {
        arbitrary()
    }

    /// Takes note of `response`, the answer of `origin` to `query_id`.
    fn on_response(&mut self, origin: &MultiLocation, query_id: u64, response: Response)
        ensures
            *final(self) == old(self).answered(origin@, query_id, response@),
    ;
}

/// Exchanges assets for other assets.
pub trait AssetExchange: Sized {
    /// What `exchange_asset` returns, and the exchange after it.
    open spec fn exchanged(self, origin: LocationModel, give: HoldingModel, want: Seq<AssetModel>) -> (
        Self,
        HoldingModel,
    ) {
        arbitrary()
    }

    /// Offers `give` on behalf of `origin`, asking for at least `want`.
    /// Returns what the exchange hands back: the proceeds, or `give` itself
    /// if it made no exchange.
    fn exchange_asset(&mut self, origin: &MultiLocation, give: Assets, want: &Vec<MultiAsset>) -> (r:
        Assets)
        ensures
            (*final(self), r@) == old(self).exchanged(origin@, give@, views(want@)),
    ;
}

} // verus!
