//! Messages: the instructions that one consensus system sends to another.

use crate::location::{LocationModel, MultiLocation};
use crate::multiasset::{views, AssetModel, MultiAsset};
use crate::order::{order_model, Order, OrderModel};
use vstd::prelude::*;

verus! {

/// In what capacity the origin of a message asks for a call to be dispatched.
#[derive(Clone, Copy, Debug, PartialEq, Eq, Structural)]
pub enum OriginKind {
    /// As the origin's own native self.
    Native,
    /// As the account that the origin controls on this system.
    SovereignAccount,
    /// As the administrator of this system.
    Superuser,
    /// As a location, to be interpreted by the callee.
    Xcm,
}

/// The answer to a query.
#[derive(Debug, PartialEq, Eq)]
pub enum Response {
    /// The assets asked about.
    Assets(Vec<MultiAsset>),
}

/// The mathematical value of a `Response`.
pub ghost enum ResponseModel {
    Assets(Seq<AssetModel>),
}

impl View for Response {
    type V = ResponseModel;

    open spec fn view(&self) -> ResponseModel {
        match self {
            Response::Assets(assets) => ResponseModel::Assets(views(assets@)),
        }
    }
}

/// A call that travels in its encoded form, together with the decoded call
/// where the holder has it. Only the encoded form is part of a message.
#[derive(Debug, PartialEq, Eq)]
pub struct DoubleEncoded<Call> {
    /// The bytes of the call.
    pub encoded: Vec<u8>,
    /// The call itself, if it has been decoded.
    pub decoded: Option<Call>,
}

impl<Call> DoubleEncoded<Call> {
    /// The call given by its bytes.
    pub fn from_encoded(encoded: Vec<u8>) -> (r: DoubleEncoded<Call>)
        ensures
            r.encoded@ == encoded@,
            r.decoded.is_none(),
    {
        DoubleEncoded { encoded, decoded: None }
    }

    /// The same bytes, as a call of another type. The decoded call, which
    /// has the old type, is left behind.
    pub fn from<C>(other: DoubleEncoded<C>) -> (r: DoubleEncoded<Call>)
        ensures
            r.encoded@ == other.encoded@,
            r.decoded.is_none(),
    {
        DoubleEncoded { encoded: other.encoded, decoded: None }
    }

    /// The bytes of the call.
    pub fn into_encoded(self) -> (r: Vec<u8>)
        ensures
            r@ == self.encoded@,
    {
        self.encoded
    }
}

/// A message. `Call` is the type of the calls that `Transact` carries; only
/// their encoded bytes are part of the message.
#[derive(Debug, PartialEq, Eq)]
#[allow(inconsistent_fields)]
pub enum Xcm<Call> {
    /// Take `assets` from the origin's account into the holding register,
    /// then carry out `effects` on the register.
    WithdrawAsset { assets: Vec<MultiAsset>, effects: Vec<Order<Call>> },
    /// The origin, as a reserve, reports that `assets` were deposited for the
    /// recipient; they enter the holding register and `effects` are carried
    /// out on it.
    ReserveAssetDeposited { assets: Vec<MultiAsset>, effects: Vec<Order<Call>> },
    /// The origin reports that `assets` were destroyed on its side to be
    /// created here; they enter the holding register and `effects` are
    /// carried out on it.
    ReceiveTeleportedAsset { assets: Vec<MultiAsset>, effects: Vec<Order<Call>> },
    /// The answer to the query `query_id`.
    QueryResponse { query_id: u64, response: Response },
    /// Move `assets` from the origin's account to `beneficiary`.
    TransferAsset { assets: Vec<MultiAsset>, beneficiary: MultiLocation },
    /// Move `assets` from the origin's account to the account of `dest` on
    /// this system, and tell `dest` of the deposit, with `effects` for it to
    /// carry out.
    TransferReserveAsset { assets: Vec<MultiAsset>, dest: MultiLocation, effects: Vec<Order<()>> },
    /// Dispatch `call` on behalf of the origin, in the capacity
    /// `origin_type`, using at most `require_weight_at_most`.
    Transact { origin_type: OriginKind, require_weight_at_most: u64, call: DoubleEncoded<Call> },
}

/// The mathematical value of an `Xcm`. It is the same for every `Call` type.
pub ghost enum XcmModel {
    WithdrawAsset { assets: Seq<AssetModel>, effects: Seq<OrderModel> },
    ReserveAssetDeposited { assets: Seq<AssetModel>, effects: Seq<OrderModel> },
    ReceiveTeleportedAsset { assets: Seq<AssetModel>, effects: Seq<OrderModel> },
    QueryResponse { query_id: u64, response: ResponseModel },
    TransferAsset { assets: Seq<AssetModel>, beneficiary: LocationModel },
    TransferReserveAsset { assets: Seq<AssetModel>, dest: LocationModel, effects: Seq<OrderModel> },
    Transact { origin_type: OriginKind, require_weight_at_most: u64, call: Seq<u8> },
}

/// The values of a list of orders.
pub open spec fn order_models<Call>(orders: Seq<Order<Call>>) -> Seq<OrderModel>
    decreases orders,
{
    Seq::new(
        orders.len(),
        |i: int|
            if 0 <= i < orders.len() {
                order_model(orders[i])
            } else {
                OrderModel::Noop
            },
    )
}

/// The value of a message.
pub open spec fn xcm_model<Call>(message: Xcm<Call>) -> XcmModel
    decreases message,
{
    match message {
        Xcm::WithdrawAsset { assets, effects } => XcmModel::WithdrawAsset {
            assets: views(assets@),
            effects: order_models(effects@),
        },
        Xcm::ReserveAssetDeposited { assets, effects } => XcmModel::ReserveAssetDeposited {
            assets: views(assets@),
            effects: order_models(effects@),
        },
        Xcm::ReceiveTeleportedAsset { assets, effects } => XcmModel::ReceiveTeleportedAsset {
            assets: views(assets@),
            effects: order_models(effects@),
        },
        Xcm::QueryResponse { query_id, response } => XcmModel::QueryResponse {
            query_id,
            response: response@,
        },
        Xcm::TransferAsset { assets, beneficiary } => XcmModel::TransferAsset {
            assets: views(assets@),
            beneficiary: beneficiary@,
        },
        Xcm::TransferReserveAsset { assets, dest, effects } => XcmModel::TransferReserveAsset {
            assets: views(assets@),
            dest: dest@,
            effects: order_models(effects@),
        },
        Xcm::Transact { origin_type, require_weight_at_most, call } => XcmModel::Transact {
            origin_type,
            require_weight_at_most,
            call: call.encoded@,
        },
    }
}

impl<Call> View for Xcm<Call> {
    type V = XcmModel;

    open spec fn view(&self) -> XcmModel {
        xcm_model(*self)
    }
}

/// Converts a list of orders to another `Call` type.
pub fn orders_from<C, Call>(orders: Vec<Order<C>>) -> (r: Vec<Order<Call>>)
    ensures
        order_models(r@) == order_models(orders@),
    decreases orders,
{
    let mut out: Vec<Order<Call>> = Vec::new();
    let ghost src = orders@;
    for order in it: orders
        invariant
            it.seq() == src,
            src == orders@,
            out@.len() == it.index(),
            forall|j: int|
                0 <= j < out@.len() ==> order_model(#[trigger] out@[j]) == order_model(src[j]),
    {
        assert(order == src[it.index() as int]);
        assert(decreases_to!(orders => orders@[it.index() as int]));
        let converted = Order::<Call>::from(order);
        out.push(converted);
    }
    assert(order_models(out@) =~= order_models(orders@));
    out
}

impl<Call> Xcm<Call> {
    /// The same message, for a system whose calls have the type `C`.
    pub fn into<C>(self) -> (r: Xcm<C>)
        ensures
            r@ == self@,
    {
        Xcm::from(self)
    }

    /// The same message as `message`, which was made for a system whose
    /// calls have the type `C`. Calls keep their encoded form.
    pub fn from<C>(message: Xcm<C>) -> (r: Self)
        ensures
            r@ == message@,
        decreases message,
    {
        match message {
            Xcm::WithdrawAsset { assets, effects } => {
                let effects = orders_from(effects);
                Xcm::WithdrawAsset { assets, effects }
            },
            Xcm::ReserveAssetDeposited { assets, effects } => {
                let effects = orders_from(effects);
                Xcm::ReserveAssetDeposited { assets, effects }
            },
            Xcm::ReceiveTeleportedAsset { assets, effects } => {
                let effects = orders_from(effects);
                Xcm::ReceiveTeleportedAsset { assets, effects }
            },
            Xcm::QueryResponse { query_id, response } => Xcm::QueryResponse { query_id, response },
            Xcm::TransferAsset { assets, beneficiary } => Xcm::TransferAsset { assets, beneficiary },
            Xcm::TransferReserveAsset { assets, dest, effects } => Xcm::TransferReserveAsset {
                assets,
                dest,
                effects,
            },
            Xcm::Transact { origin_type, require_weight_at_most, call } => Xcm::Transact {
                origin_type,
                require_weight_at_most,
                call: DoubleEncoded::from(call),
            },
        }
    }
}

} // verus!
