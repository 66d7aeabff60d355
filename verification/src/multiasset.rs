//! Assets, and the filters that select them.

use crate::location::{LocationModel, MultiLocation};
use vstd::prelude::*;

verus! {

/// The element-wise view of a sequence.
pub open spec fn views<T: View>(s: Seq<T>) -> Seq<T::V> {
    Seq::new(s.len(), |i: int| s[i]@)
}

/// Tells one non-fungible instance of an asset class from another.
#[derive(Clone, Copy, Debug, PartialEq, Eq, Structural)]
pub enum AssetInstance {
    /// The class has a single, unnamed instance.
    Undefined,
    /// A numbered instance.
    Index(u128),
}

/// Identifies a class of asset.
#[derive(Debug, PartialEq, Eq)]
pub enum AssetId {
    /// The asset whose home is the given location.
    Concrete(MultiLocation),
    /// An asset known by a globally agreed name.
    Abstract(Vec<u8>),
}

/// The mathematical value of an `AssetId`.
pub ghost enum AssetIdModel {
    Concrete(LocationModel),
    Abstract(Seq<u8>),
}

impl View for AssetId {
    type V = AssetIdModel;

    open spec fn view(&self) -> AssetIdModel {
        match self {
            AssetId::Concrete(l) => AssetIdModel::Concrete(l@),
            AssetId::Abstract(n) => AssetIdModel::Abstract(n@),
        }
    }
}

impl AssetIdModel {
    /// The identifier as seen from the context that `prefix` is relative to.
    /// Abstract names are the same everywhere.
    pub open spec fn reanchored(self, prefix: LocationModel) -> Option<AssetIdModel> {
        match self {
            AssetIdModel::Concrete(l) => match l.prepended(prefix) {
                Some(p) => Some(AssetIdModel::Concrete(p)),
                None => None,
            },
            AssetIdModel::Abstract(n) => Some(self),
        }
    }
}

/// How much of an asset class: an amount, or one particular instance.
#[derive(Clone, Copy, Debug, PartialEq, Eq, Structural)]
pub enum Fungibility {
    /// An interchangeable quantity.
    Fungible(u128),
    /// One unique instance.
    NonFungible(AssetInstance),
}

/// Either an amount of a fungible asset or one non-fungible instance.
#[derive(Debug, PartialEq, Eq)]
pub struct MultiAsset {
    /// The class of the asset.
    pub id: AssetId,
    /// The amount or the instance.
    pub fun: Fungibility,
}

/// The mathematical value of a `MultiAsset`.
pub ghost struct AssetModel {
    pub id: AssetIdModel,
    pub fun: Fungibility,
}

impl View for MultiAsset {
    type V = AssetModel;

    open spec fn view(&self) -> AssetModel {
        AssetModel { id: self.id@, fun: self.fun }
    }
}

impl AssetModel {
    /// The asset as seen from the context that `prefix` is relative to.
    pub open spec fn reanchored(self, prefix: LocationModel) -> Option<AssetModel> {
        match self.id.reanchored(prefix) {
            Some(id) => Some(AssetModel { id, fun: self.fun }),
            None => None,
        }
    }
}

/// Every asset of `assets` re-expressed relative to `prefix`, or `None` if
/// one of them cannot be.
pub open spec fn reanchored_all(assets: Seq<AssetModel>, prefix: LocationModel) -> Option<
    Seq<AssetModel>,
> {
    if forall|i: int| 0 <= i < assets.len() ==> (#[trigger] assets[i]).reanchored(prefix).is_some() {
        Some(Seq::new(assets.len(), |i: int| assets[i].reanchored(prefix).unwrap()))
    } else {
        None
    }
}

/// Selects the fungible or the non-fungible part of an asset class.
#[derive(Clone, Copy, Debug, PartialEq, Eq, Structural)]
pub enum WildFungibility {
    Fungible,
    NonFungible,
}

/// A selection of assets that does not name amounts or instances.
#[derive(Debug, PartialEq, Eq)]
pub enum WildMultiAsset {
    /// Everything.
    All,
    /// Everything of one class and kind.
    AllOf { id: AssetId, fun: WildFungibility },
}

/// The mathematical value of a `WildMultiAsset`.
pub ghost enum WildModel {
    All,
    AllOf { id: AssetIdModel, fun: WildFungibility },
}

impl View for WildMultiAsset {
    type V = WildModel;

    open spec fn view(&self) -> WildModel {
        match self {
            WildMultiAsset::All => WildModel::All,
            WildMultiAsset::AllOf { id, fun } => WildModel::AllOf { id: id@, fun: *fun },
        }
    }
}

/// Selects assets either by listing them or by a wildcard.
#[derive(Debug, PartialEq, Eq)]
pub enum MultiAssetFilter {
    /// Exactly the listed assets.
    Definite(Vec<MultiAsset>),
    /// Whatever the wildcard matches.
    Wild(WildMultiAsset),
}

/// The mathematical value of a `MultiAssetFilter`.
pub ghost enum FilterModel {
    Definite(Seq<AssetModel>),
    Wild(WildModel),
}

impl View for MultiAssetFilter {
    type V = FilterModel;

    open spec fn view(&self) -> FilterModel {
        match self {
            MultiAssetFilter::Definite(assets) => FilterModel::Definite(views(assets@)),
            MultiAssetFilter::Wild(w) => FilterModel::Wild(w@),
        }
    }
}

/// A copy of a byte string.
pub fn clone_bytes(bytes: &Vec<u8>) -> (r: Vec<u8>)
    ensures
        r@ == bytes@,
{
    let mut r: Vec<u8> = Vec::new();
    let mut i: usize = 0;
    while i < bytes.len()
        invariant
            i <= bytes.len(),
            r@ == bytes@.take(i as int),
        decreases bytes.len() - i,
    {
        r.push(bytes[i]);
        assert(bytes@.take(i as int).push(bytes@[i as int]) =~= bytes@.take(i + 1));
        i += 1;
    }
    assert(bytes@.take(bytes@.len() as int) =~= bytes@);
    r
}

/// Whether two byte strings are equal.
pub fn same_bytes(a: &Vec<u8>, b: &Vec<u8>) -> (r: bool)
    ensures
        r == (a@ == b@),
{
    if a.len() != b.len() {
        return false;
    }
    let mut i: usize = 0;
    while i < a.len()
        invariant
            i <= a.len(),
            a.len() == b.len(),
            forall|j: int| 0 <= j < i ==> a@[j] == b@[j],
        decreases a.len() - i,
    {
        if a[i] != b[i] {
            return false;
        }
        i += 1;
    }
    assert(a@ =~= b@);
    true
}

impl Clone for AssetId {
    fn clone(&self) -> (r: Self)
        ensures
            r@ == self@,
    {
        match self {
            AssetId::Concrete(l) => AssetId::Concrete(l.clone()),
            AssetId::Abstract(n) => AssetId::Abstract(clone_bytes(n)),
        }
    }
}

impl AssetId {
    /// Whether two identifiers name the same class of asset.
    pub fn same(&self, other: &AssetId) -> (r: bool)
        ensures
            r == (self@ == other@),
    {
        match (self, other) {
            (AssetId::Concrete(a), AssetId::Concrete(b)) => a.same(b),
            (AssetId::Abstract(a), AssetId::Abstract(b)) => same_bytes(a, b),
            _ => false,
        }
    }

    /// The identifier as seen from the context that `prefix` is relative to.
    pub fn reanchored(&self, prefix: &MultiLocation) -> (r: Option<AssetId>)
        ensures
            match r {
                Some(id) => self@.reanchored(prefix@) == Some(id@),
                None => self@.reanchored(prefix@).is_none(),
            },
    {
        match self {
            AssetId::Concrete(l) => match l.prepended(prefix) {
                Some(p) => Some(AssetId::Concrete(p)),
                None => None,
            },
            AssetId::Abstract(n) => Some(AssetId::Abstract(clone_bytes(n))),
        }
    }
}

impl Clone for MultiAsset {
    fn clone(&self) -> (r: Self)
        ensures
            r@ == self@,
    {
        MultiAsset { id: self.id.clone(), fun: self.fun }
    }
}

impl MultiAsset {
    /// `amount` units of the fungible asset `id`.
    pub fn fungible(id: AssetId, amount: u128) -> (r: MultiAsset)
        ensures
            r@ == (AssetModel { id: id@, fun: Fungibility::Fungible(amount) }),
    {
        MultiAsset { id, fun: Fungibility::Fungible(amount) }
    }

    /// The instance `instance` of the non-fungible asset `id`.
    pub fn non_fungible(id: AssetId, instance: AssetInstance) -> (r: MultiAsset)
        ensures
            r@ == (AssetModel { id: id@, fun: Fungibility::NonFungible(instance) }),
    {
        MultiAsset { id, fun: Fungibility::NonFungible(instance) }
    }

    /// Whether the asset is an amount rather than an instance.
    pub fn is_fungible(&self) -> (r: bool)
        ensures
            r == (self@.fun is Fungible),
    {
        match self.fun {
            Fungibility::Fungible(_) => true,
            Fungibility::NonFungible(_) => false,
        }
    }

    /// Whether two assets are the same class and the same amount or instance.
    pub fn same(&self, other: &MultiAsset) -> (r: bool)
        ensures
            r == (self@ == other@),
    {
        self.id.same(&other.id) && self.fun == other.fun
    }

    /// The asset as seen from the context that `prefix` is relative to.
    pub fn reanchored(&self, prefix: &MultiLocation) -> (r: Option<MultiAsset>)
        ensures
            match r {
                Some(a) => self@.reanchored(prefix@) == Some(a@),
                None => self@.reanchored(prefix@).is_none(),
            },
    {
        match self.id.reanchored(prefix) {
            Some(id) => Some(MultiAsset { id, fun: self.fun }),
            None => None,
        }
    }
}

/// A copy of a list of assets.
pub fn clone_assets(assets: &Vec<MultiAsset>) -> (r: Vec<MultiAsset>)
    ensures
        views(r@) == views(assets@),
{
    let mut r: Vec<MultiAsset> = Vec::new();
    let mut i: usize = 0;
    while i < assets.len()
        invariant
            i <= assets.len(),
            r@.len() == i,
            forall|j: int| 0 <= j < i ==> (#[trigger] r@[j])@ == assets@[j]@,
        decreases assets.len() - i,
    {
        r.push(assets[i].clone());
        i += 1;
    }
    assert(views(r@) =~= views(assets@));
    r
}

/// Every asset of the list re-expressed relative to `prefix`, or `None` if
/// one of them cannot be.
pub fn reanchor_assets(assets: &Vec<MultiAsset>, prefix: &MultiLocation) -> (r: Option<
    Vec<MultiAsset>,
>)
    ensures
        match r {
            Some(v) => reanchored_all(views(assets@), prefix@) == Some(views(v@)),
            None => reanchored_all(views(assets@), prefix@).is_none(),
        },
{
    let mut out: Vec<MultiAsset> = Vec::new();
    let mut i: usize = 0;
    while i < assets.len()
        invariant
            i <= assets.len(),
            out@.len() == i,
            forall|j: int|
                0 <= j < i ==> (#[trigger] views(assets@)[j]).reanchored(prefix@) == Some(out@[j]@),
        decreases assets.len() - i,
    {
        match assets[i].reanchored(prefix) {
            Some(a) => out.push(a),
            None => {
                assert(views(assets@)[i as int].reanchored(prefix@).is_none());
                return None;
            },
        }
        i += 1;
    }
    assert(reanchored_all(views(assets@), prefix@).unwrap() =~= views(out@));
    Some(out)
}

impl Clone for WildMultiAsset {
    fn clone(&self) -> (r: Self)
        ensures
            r@ == self@,
    {
        match self {
            WildMultiAsset::All => WildMultiAsset::All,
            WildMultiAsset::AllOf { id, fun } => WildMultiAsset::AllOf { id: id.clone(), fun: *fun },
        }
    }
}

impl Clone for MultiAssetFilter {
    fn clone(&self) -> (r: Self)
        ensures
            r@ == self@,
    {
        match self {
            MultiAssetFilter::Definite(assets) => MultiAssetFilter::Definite(clone_assets(assets)),
            MultiAssetFilter::Wild(w) => MultiAssetFilter::Wild(w.clone()),
        }
    }
}

} // verus!
