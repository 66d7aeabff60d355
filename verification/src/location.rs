//! Hierarchical addresses within the global consensus namespace.

use vstd::prelude::*;

verus! {

/// One step downwards in the hierarchy of consensus systems.
#[derive(Clone, Copy, Debug, PartialEq, Eq, Structural)]
pub enum Junction {
    /// A parallel chain, by its index.
    Parachain(u32),
    /// An account, by a 64-bit index.
    AccountIndex64(u64),
    /// A module instance within a chain.
    PalletInstance(u8),
    /// A general-purpose numbered child.
    GeneralIndex(u128),
    /// The only child of the parent context.
    OnlyChild,
}

/// A relative address: a number of steps upwards, then a path of junctions
/// downwards.
#[derive(Debug, PartialEq, Eq)]
pub struct MultiLocation {
    /// How many levels to ascend before descending.
    pub parents: u8,
    /// The path to descend after ascending.
    pub interior: Vec<Junction>,
}

/// The mathematical value of a `MultiLocation`.
pub ghost struct LocationModel {
    pub parents: u8,
    pub interior: Seq<Junction>,
}

impl View for MultiLocation {
    type V = LocationModel;

    open spec fn view(&self) -> LocationModel {
        LocationModel { parents: self.parents, interior: self.interior@ }
    }
}

impl LocationModel {
    /// The location that refers to the current context itself.
    pub open spec fn here() -> LocationModel {
        LocationModel { parents: 0, interior: Seq::empty() }
    }

    /// How many of `self`'s upward steps are undone by the tail of `prefix`
    /// when `self` is interpreted relative to `prefix`.
    pub open spec fn cancelled(self, prefix: LocationModel) -> int {
        if self.parents <= prefix.interior.len() {
            self.parents as int
        } else {
            prefix.interior.len() as int
        }
    }

    /// `self`, understood relative to `prefix`, re-expressed in the context
    /// that `prefix` is relative to. `None` when the result would ascend more
    /// than 255 levels.
    pub open spec fn prepended(self, prefix: LocationModel) -> Option<LocationModel> {
        let cancel = self.cancelled(prefix);
        let parents = prefix.parents + self.parents - cancel;
        if parents > 255 {
            None
        } else {
            Some(
                LocationModel {
                    parents: parents as u8,
                    interior: prefix.interior.take(prefix.interior.len() - cancel) + self.interior,
                },
            )
        }
    }

    /// The way back from `self` to the context it is relative to, when that
    /// context is itself found at `ancestry` from the root. `None` when
    /// `self` descends more than 255 levels.
    pub open spec fn inverted(self, ancestry: LocationModel) -> Option<LocationModel> {
        if self.interior.len() > 255 {
            None
        } else {
            Some(
                LocationModel {
                    parents: self.interior.len() as u8,
                    interior: Seq::new(
                        self.parents as nat,
                        |i: int|
                            if i < ancestry.interior.len() {
                                ancestry.interior[i]
                            } else {
                                Junction::OnlyChild
                            },
                    ),
                },
            )
        }
    }
}

impl Clone for MultiLocation {
    fn clone(&self) -> (r: Self)
        ensures
            r@ == self@,
    {
        MultiLocation { parents: self.parents, interior: self.interior.clone() }
    }
}

impl MultiLocation {
    /// The location of the current context.
    pub fn here() -> (r: MultiLocation)
        ensures
            r@ == LocationModel::here(),
    {
        MultiLocation { parents: 0, interior: Vec::new() }
    }

    /// A location that ascends `parents` levels and then follows `interior`.
    pub fn new(parents: u8, interior: Vec<Junction>) -> (r: MultiLocation)
        ensures
            r@ == (LocationModel { parents, interior: interior@ }),
    {
        MultiLocation { parents, interior }
    }

    /// Whether the location refers to the current context.
    pub fn is_here(&self) -> (r: bool)
        ensures
            r == (self@ == LocationModel::here()),
    {
        let r = self.parents == 0 && self.interior.len() == 0;
        proof {
            if r {
                assert(self@.interior =~= Seq::empty());
            }
        }
        r
    }

    /// Whether two locations are the same address.
    pub fn same(&self, other: &MultiLocation) -> (r: bool)
        ensures
            r == (self@ == other@),
    {
        if self.parents != other.parents || self.interior.len() != other.interior.len() {
            return false;
        }
        let mut i: usize = 0;
        while i < self.interior.len()
            invariant
                i <= self.interior.len(),
                self.interior.len() == other.interior.len(),
                forall|j: int| 0 <= j < i ==> self.interior@[j] == other.interior@[j],
            decreases self.interior.len() - i,
        {
            if self.interior[i] != other.interior[i] {
                return false;
            }
            i += 1;
        }
        assert(self@.interior =~= other@.interior);
        true
    }

    /// Re-expresses `self`, which is relative to `prefix`, in the context
    /// that `prefix` is relative to.
    pub fn prepended(&self, prefix: &MultiLocation) -> (r: Option<MultiLocation>)
        ensures
            match r {
                Some(l) => self@.prepended(prefix@) == Some(l@),
                None => self@.prepended(prefix@).is_none(),
            },
    {
        let cancel: usize = if (self.parents as usize) <= prefix.interior.len() {
            self.parents as usize
        } else {
            prefix.interior.len()
        };
        let up: u8 = self.parents - (cancel as u8);
        if up > 255 - prefix.parents {
            return None;
        }
        let keep: usize = prefix.interior.len() - cancel;
        let mut interior: Vec<Junction> = Vec::new();
        let mut i: usize = 0;
        while i < keep
            invariant
                i <= keep <= prefix.interior.len(),
                interior@ == prefix.interior@.take(i as int),
            decreases keep - i,
        {
            interior.push(prefix.interior[i]);
            assert(prefix.interior@.take(i as int).push(prefix.interior@[i as int])
                =~= prefix.interior@.take(i + 1));
            i += 1;
        }
        let mut k: usize = 0;
        while k < self.interior.len()
            invariant
                k <= self.interior.len(),
                interior@ == prefix.interior@.take(keep as int) + self.interior@.take(k as int),
            decreases self.interior.len() - k,
        {
            interior.push(self.interior[k]);
            assert((prefix.interior@.take(keep as int) + self.interior@.take(k as int)).push(
                self.interior@[k as int],
            ) =~= prefix.interior@.take(keep as int) + self.interior@.take(k + 1));
            k += 1;
        }
        assert(self.interior@.take(self.interior@.len() as int) =~= self.interior@);
        Some(MultiLocation { parents: prefix.parents + up, interior })
    }

    /// The way back from `self` to the context it is relative to, given the
    /// `ancestry` of that context.
    pub fn inverted(&self, ancestry: &MultiLocation) -> (r: Option<MultiLocation>)
        ensures
            match r {
                Some(l) => self@.inverted(ancestry@) == Some(l@),
                None => self@.inverted(ancestry@).is_none(),
            },
    {
        if self.interior.len() > 255 {
            return None;
        }
        let mut interior: Vec<Junction> = Vec::new();
        let mut i: u8 = 0;
        while i < self.parents
            invariant
                i <= self.parents,
                interior@.len() == i,
                forall|j: int|
                    0 <= j < i ==> interior@[j] == if j < ancestry.interior@.len() {
                        ancestry.interior@[j]
                    } else {
                        Junction::OnlyChild
                    },
            decreases self.parents - i,
        {
            if (i as usize) < ancestry.interior.len() {
                interior.push(ancestry.interior[i as usize]);
            } else {
                interior.push(Junction::OnlyChild);
            }
            i += 1;
        }
        let r = MultiLocation { parents: self.interior.len() as u8, interior };
        assert(r@.interior =~= self@.inverted(ancestry@).unwrap().interior);
        Some(r)
    }
}

} // verus!
