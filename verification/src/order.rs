//! Orders: the instructions that act on the assets in the holding register.

use crate::location::{LocationModel, MultiLocation};
use crate::message::{order_models, xcm_model, Xcm, XcmModel};
use crate::multiasset::{views, AssetModel, FilterModel, MultiAsset, MultiAssetFilter};
use vstd::prelude::*;

verus! {

/// An instruction to be executed on some or all of the assets in holding.
#[derive(Debug, PartialEq, Eq)]
pub enum Order<Call> {
    /// Do nothing.
    Noop,
    /// Remove the asset(s) (`assets`) from holding, `max_assets` of them at
    /// most, and place equivalent assets under the ownership of
    /// `beneficiary` within this consensus system.
    DepositAsset { assets: MultiAssetFilter, max_assets: u32, beneficiary: MultiLocation },
    /// Remove the asset(s) (`assets`) from holding, `max_assets` of them at
    /// most, and place equivalent assets under the ownership of `dest`
    /// within this consensus system (i.e. its sovereign account). Then send
    /// an onward message to `dest`, reporting the deposit, with `effects`
    /// for it to carry out.
    DepositReserveAsset {
        assets: MultiAssetFilter,
        max_assets: u32,
        dest: MultiLocation,
        effects: Vec<Order<()>>,
    },
    /// Remove the asset(s) (`give`) from holding and replace them with
    /// alternative assets, which must be at least `receive`.
    ExchangeAsset { give: MultiAssetFilter, receive: Vec<MultiAsset> },
    /// Remove the asset(s) (`assets`) from holding and ask `reserve`, which
    /// holds them on this system's behalf, to withdraw them and carry out
    /// `effects` on them.
    InitiateReserveWithdraw {
        assets: MultiAssetFilter,
        reserve: MultiLocation,
        effects: Vec<Order<()>>,
    },
    /// Remove the asset(s) (`assets`) from holding and tell `dest` to create
    /// them on its side and carry out `effects` on them.
    InitiateTeleport { assets: MultiAssetFilter, dest: MultiLocation, effects: Vec<Order<()>> },
    /// Report to `dest` the lesser, asset by asset, of `assets` and the
    /// holding contents, as the answer to `query_id`.
    QueryHolding { query_id: u64, dest: MultiLocation, assets: MultiAssetFilter },
    /// Pay for the execution of `xcm` with up to `weight` of execution
    /// time, paying for this with up to `fees` from the holding register.
    BuyExecution { fees: MultiAsset, weight: u64, debt: u64, halt_on_error: bool, xcm: Vec<Xcm<Call>> },
}

/// The mathematical value of an `Order`. It is the same for every `Call`
/// type.
pub ghost enum OrderModel {
    Noop,
    DepositAsset { assets: FilterModel, max_assets: u32, beneficiary: LocationModel },
    DepositReserveAsset {
        assets: FilterModel,
        max_assets: u32,
        dest: LocationModel,
        effects: Seq<OrderModel>,
    },
    ExchangeAsset { give: FilterModel, receive: Seq<AssetModel> },
    InitiateReserveWithdraw { assets: FilterModel, reserve: LocationModel, effects: Seq<OrderModel> },
    InitiateTeleport { assets: FilterModel, dest: LocationModel, effects: Seq<OrderModel> },
    QueryHolding { query_id: u64, dest: LocationModel, assets: FilterModel },
    BuyExecution { fees: AssetModel, weight: u64, debt: u64, halt_on_error: bool, xcm: Seq<XcmModel> },
}

/// The values of a list of messages.
pub open spec fn xcm_models<Call>(messages: Seq<Xcm<Call>>) -> Seq<XcmModel>
    decreases messages,
{
    Seq::new(
        messages.len(),
        |i: int|
            if 0 <= i < messages.len() {
                xcm_model(messages[i])
            } else {
                XcmModel::WithdrawAsset { assets: Seq::empty(), effects: Seq::empty() }
            },
    )
}

/// The value of an order.
pub open spec fn order_model<Call>(order: Order<Call>) -> OrderModel
    decreases order,
{
    match order {
        Order::Noop => OrderModel::Noop,
        Order::DepositAsset { assets, max_assets, beneficiary } => OrderModel::DepositAsset {
            assets: assets@,
            max_assets,
            beneficiary: beneficiary@,
        },
        Order::DepositReserveAsset { assets, max_assets, dest, effects } => {
            OrderModel::DepositReserveAsset {
                assets: assets@,
                max_assets,
                dest: dest@,
                effects: order_models(effects@),
            }
        },
        Order::ExchangeAsset { give, receive } => OrderModel::ExchangeAsset {
            give: give@,
            receive: views(receive@),
        },
        Order::InitiateReserveWithdraw { assets, reserve, effects } => {
            OrderModel::InitiateReserveWithdraw {
                assets: assets@,
                reserve: reserve@,
                effects: order_models(effects@),
            }
        },
        Order::InitiateTeleport { assets, dest, effects } => OrderModel::InitiateTeleport {
            assets: assets@,
            dest: dest@,
            effects: order_models(effects@),
        },
        Order::QueryHolding { query_id, dest, assets } => OrderModel::QueryHolding {
            query_id,
            dest: dest@,
            assets: assets@,
        },
        Order::BuyExecution { fees, weight, debt, halt_on_error, xcm } => OrderModel::BuyExecution {
            fees: fees@,
            weight,
            debt,
            halt_on_error,
            xcm: xcm_models(xcm@),
        },
    }
}

impl<Call> View for Order<Call> {
    type V = OrderModel;

    open spec fn view(&self) -> OrderModel {
        order_model(*self)
    }
}

impl<Call> Order<Call> {
    /// The same order, for a system whose calls have the type `C`.
    pub fn into<C>(self) -> (r: Order<C>)
        ensures
            r@ == self@,
    {
        Order::from(self)
    }

    /// The same order as `order`, which was made for a system whose calls
    /// have the type `C`. Nested messages are converted likewise.
    pub fn from<C>(order: Order<C>) -> (r: Self)
        ensures
            r@ == order@,
        decreases order,
    {
        match order {
            Order::Noop => Order::Noop,
            Order::DepositAsset { assets, max_assets, beneficiary } => Order::DepositAsset {
                assets,
                max_assets,
                beneficiary,
            },
            Order::DepositReserveAsset { assets, max_assets, dest, effects } => {
                Order::DepositReserveAsset { assets, max_assets, dest, effects }
            },
            Order::ExchangeAsset { give, receive } => Order::ExchangeAsset { give, receive },
            Order::InitiateReserveWithdraw { assets, reserve, effects } => {
                Order::InitiateReserveWithdraw { assets, reserve, effects }
            },
            Order::InitiateTeleport { assets, dest, effects } => Order::InitiateTeleport {
                assets,
                dest,
                effects,
            },
            Order::QueryHolding { query_id, dest, assets } => Order::QueryHolding {
                query_id,
                dest,
                assets,
            },
            Order::BuyExecution { fees, weight, debt, halt_on_error, xcm } => {
                let mut out: Vec<Xcm<Call>> = Vec::new();
                let ghost src = xcm@;
                for message in it: xcm
                    invariant
                        it.seq() == src,
                        src == xcm@,
                        decreases_to!(order => xcm),
                        out@.len() == it.index(),
                        forall|j: int|
                            0 <= j < out@.len() ==> xcm_model(#[trigger] out@[j]) == xcm_model(
                                src[j],
                            ),
                {
                    assert(message == src[it.index() as int]);
                    assert(decreases_to!(xcm => xcm@[it.index() as int]));
                    let converted = Xcm::<Call>::from(message);
                    out.push(converted);
                }
                let r = Order::BuyExecution { fees, weight, debt, halt_on_error, xcm: out };
                assert(r@->BuyExecution_xcm =~= order@->BuyExecution_xcm);
                r
            },
        }
    }
}

} // verus!
