//! A cross-consensus message format and its interpreter.
//!
//! One consensus system tells another what to do with assets by sending it
//! a message: a small program. This crate defines the messages (`Xcm`) and
//! the orders that they carry (`Order`), their encoding on the wire, the
//! algebra of the holding register in which an execution keeps the assets
//! that it works on (`Assets`), and the executor (`XcmExecutor`), which
//! interprets a message on behalf of a host that supplies the ledger, the
//! router and the policies.
//!
//! Every function is verified against a contract stated over mathematical
//! models of the data: a message is modelled by an `XcmModel`, a holding
//! register by a `HoldingModel`, and so on. What the executor does is given
//! as a function of the message and of what the host's capabilities do.
//! Laws that relate several functions are stated and proved as proof
//! functions: that merging and taking conserve assets (`laws`), that
//! decoding inverts encoding (`encoding`), and what the recursion limit
//! stops and spares (`nesting`).

pub mod assets;
pub mod builder;
pub mod codec;
pub mod encoding;
pub mod error;
pub mod executor;
pub mod laws;
pub mod location;
pub mod message;
pub mod multiasset;
pub mod nesting;
pub mod order;
pub mod traits;
pub mod wire;
pub mod xcm_config;

pub use assets::{Assets, HoldingModel};
pub use builder::{
    All, AllowUnpaidExecutionFrom, ContainsLocation, FixedRateOfConcreteFungible,
    FixedWeightBounds, LocationAsOrigin, WEIGHT_PER_SECOND,
};
pub use encoding::{DecodeError, MAX_XCM_DECODE_DEPTH};
pub use error::{Outcome, Weight, XcmError};
pub use executor::{Config, XcmExecutor, MAX_RECURSION_LIMIT};
pub use location::{Junction, LocationModel, MultiLocation};
pub use message::{DoubleEncoded, OriginKind, Response, ResponseModel, Xcm, XcmModel};
pub use multiasset::{
    AssetId, AssetIdModel, AssetInstance, AssetModel, FilterModel, Fungibility, MultiAsset,
    MultiAssetFilter, WildFungibility, WildModel, WildMultiAsset,
};
pub use order::{Order, OrderModel};
pub use traits::{
    AssetExchange, ConvertOrigin, DispatchCall, FilterAssetLocation, OnResponse, SendXcm,
    ShouldExecute, TransactAsset, WeightBounds, WeightTrader,
};
pub use xcm_config::{DoNothingRouter, DummyAssetTransactor, XcmConfig};
