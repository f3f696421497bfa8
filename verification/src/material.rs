//! The material of a model: three bitmaps, each named by its identity.

use vstd::prelude::*;
use core::cmp::Ordering;

verus! {

/// The bitmaps a model is shaded with.
#[derive(Clone, Copy, Debug, PartialEq, Eq, Hash, Structural)]
pub struct Material {
    pub albedo: u64,
    pub metal_rough: u64,
    pub normal: u64,
}

/// How two bitmap identities stand to each other.
pub open spec fn identity_order(a: u64, b: u64) -> Ordering {
    if a < b {
        Ordering::Less
    } else if a == b {
        Ordering::Equal
    } else {
        Ordering::Greater
    }
}

/// Computes [`identity_order`].
fn order_identities(a: u64, b: u64) -> (r: Ordering)
    ensures
        r == identity_order(a, b),
{
    if a < b {
        Ordering::Less
    } else if a == b {
        Ordering::Equal
    } else {
        Ordering::Greater
    }
}

impl Material {
    /// How this material stands to `other`.
    ///
    /// The first of the three bitmaps, in the order albedo, metal-rough,
    /// normal, which does not come before its counterpart decides; where each
    /// of the first two comes before its counterpart, the normal bitmaps
    /// decide. So materials with the same albedo bitmap stand as equal, and a
    /// material stands before another only if its albedo bitmap comes first.
    pub open spec fn order(&self, other: &Material) -> Ordering {
        if identity_order(self.albedo, other.albedo) != Ordering::Less {
            identity_order(self.albedo, other.albedo)
        } else if identity_order(self.metal_rough, other.metal_rough) != Ordering::Less {
            identity_order(self.metal_rough, other.metal_rough)
        } else {
            identity_order(self.normal, other.normal)
        }
    }

    /// A material of the three bitmaps.
    pub fn new(albedo: u64, metal_rough: u64, normal: u64) -> (m: Material)
        ensures
            m == (Material { albedo, metal_rough, normal }),
    {
        Material { albedo, metal_rough, normal }
    }

    /// Tells how this material stands to `other`.
    pub fn cmp(&self, other: &Material) -> (r: Ordering)
        ensures
            r == self.order(other),
    {
        let mut res = order_identities(self.albedo, other.albedo);
        match res {
            Ordering::Less => {},
            _ => {
                return res;
            },
        }
        res = order_identities(self.metal_rough, other.metal_rough);
        match res {
            Ordering::Less => {},
            _ => {
                return res;
            },
        }
        order_identities(self.normal, other.normal)
    }

    /// Tells how this material stands to `other`; there is always an answer.
    pub fn partial_cmp(&self, other: &Material) -> (r: Option<Ordering>)
        ensures
            r == Some(self.order(other)),
    {
        Some(self.cmp(other))
    }

    /// A material never stands before one with an albedo bitmap of a lower
    /// or the same identity, and materials with the same albedo bitmap stand
    /// as equal.
    pub proof fn lemma_order_by_albedo(a: Material, b: Material)
        ensures
            a.order(&b) == Ordering::Less ==> a.albedo < b.albedo,
            a.albedo == b.albedo ==> a.order(&b) == Ordering::Equal,
            a.albedo > b.albedo ==> a.order(&b) == Ordering::Greater,
    {
    }
}

} // verus!
