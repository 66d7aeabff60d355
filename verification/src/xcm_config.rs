//! A configuration for trying the executor out: it moves no assets and
//! sends no messages.

use crate::assets::{Assets, HoldingModel};
use crate::builder::{
    All, AllowUnpaidExecutionFrom, FixedRateOfConcreteFungible, FixedWeightBounds,
    LocationAsOrigin,
};
use crate::error::{Weight, XcmError};
use crate::executor::{Config, XcmExecutor};
use crate::location::{LocationModel, MultiLocation};
use crate::message::{Xcm, XcmModel};
use crate::multiasset::{AssetModel, MultiAsset};
use crate::traits::{SendXcm, TransactAsset};
use vstd::prelude::*;

verus! {

/// The weight that `XcmConfig` charges for one instruction.
pub const BASE_XCM_WEIGHT: Weight = 1_000;

/// How many units of the native asset `XcmConfig` charges for one second of
/// weight.
pub const UNITS_PER_SECOND: u128 = 1;

/// The router that accepts every message and delivers none.
#[derive(Clone, Copy, Debug, PartialEq, Eq, Structural)]
pub struct DoNothingRouter;

impl SendXcm for DoNothingRouter {
    open spec fn sent(self, dest: LocationModel, message: XcmModel) -> (Self, Result<(), XcmError>) {
        (self, Ok(()))
    }

    fn send_xcm(&mut self, _dest: MultiLocation, _msg: Xcm<()>) -> (r: Result<(), XcmError>) {
        Ok(())
    }
}

/// The admission policy of `XcmConfig`: every origin, free of charge.
pub type Barrier = AllowUnpaidExecutionFrom<All>;

/// The transactor that keeps no accounts: every deposit succeeds and is
/// forgotten, and every withdrawal succeeds and yields nothing.
#[derive(Clone, Copy, Debug, PartialEq, Eq, Structural)]
pub struct DummyAssetTransactor;

impl TransactAsset for DummyAssetTransactor {
    open spec fn deposited(self, what: AssetModel, who: LocationModel) -> (
        Self,
        Result<(), XcmError>,
    ) {
        (self, Ok(()))
    }

    open spec fn withdrawn(self, what: AssetModel, who: LocationModel) -> (
        Self,
        Result<HoldingModel, XcmError>,
    ) {
        (self, Ok(HoldingModel::empty()))
    }

    fn deposit_asset(&mut self, _what: &MultiAsset, _who: &MultiLocation) -> (r: Result<
        (),
        XcmError,
    >) {
        Ok(())
    }

    fn withdraw_asset(&mut self, _what: &MultiAsset, _who: &MultiLocation) -> (r: Result<
        Assets,
        XcmError,
    >) {
        Ok(Assets::new())
    }
}

/// The configuration itself: which capability fills which place.
#[derive(Clone, Copy, Debug, PartialEq, Eq, Structural)]
pub struct XcmConfig;

impl Config for XcmConfig {
    type Call = ();

    type Origin = MultiLocation;

    type XcmSender = DoNothingRouter;

    type AssetTransactor = DummyAssetTransactor;

    type OriginConverter = LocationAsOrigin;

    type CallDispatcher = ();

    type IsReserve = ();

    type IsTeleporter = ();

    type Barrier = Barrier;

    type Weigher = FixedWeightBounds;

    type Trader = FixedRateOfConcreteFungible;

    type ResponseHandler = ();

    type AssetExchanger = ();
}

impl XcmConfig {
    /// An executor with this configuration, for a system at the root of the
    /// hierarchy that charges `BASE_XCM_WEIGHT` for an instruction and
    /// sells weight for its own asset at `UNITS_PER_SECOND`.
    pub fn executor() -> (r: XcmExecutor<XcmConfig>)
        ensures
            r.ancestry@ == LocationModel::here(),
            r.weigher.base == BASE_XCM_WEIGHT,
            r.trader.id@ == LocationModel::here(),
            r.trader.units_per_second == UNITS_PER_SECOND,
            r.trader.weight_sold == 0,
            r.trader.units_taken == 0,
    {
        XcmExecutor {
            ancestry: MultiLocation::here(),
            sender: DoNothingRouter,
            transactor: DummyAssetTransactor,
            origin_converter: LocationAsOrigin,
            dispatcher: (),
            is_reserve: (),
            is_teleporter: (),
            barrier: AllowUnpaidExecutionFrom(All),
            weigher: FixedWeightBounds { base: BASE_XCM_WEIGHT },
            trader: FixedRateOfConcreteFungible::new(MultiLocation::here(), UNITS_PER_SECOND),
            response_handler: (),
            exchanger: (),
        }
    }
}

} // verus!
