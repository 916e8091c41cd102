//! The rate that is parsed and formatted.

use vstd::prelude::*;

verus! {

/// The number of bits per second in one gigabit per second.
pub const BPS_PER_GBPS: u32 = 1_000_000_000;

/// The smallest number of bits per second that no [`Bandwidth`] can hold:
/// 2<sup>64</sup> gigabits per second.
pub open spec fn capacity() -> nat {
    18_446_744_073_709_551_616_000_000_000
}

/// A rate in bits per second: a whole number of gigabits per second and the
/// bits per second left over, which are always fewer than one billion.
///
/// Its view is the whole rate in bits per second.
#[derive(Clone, Copy, Debug, PartialEq, Eq, Hash)]
pub struct Bandwidth {
    gbps: u64,
    bps: u32,
}

impl View for Bandwidth {
    type V = nat;

    closed spec fn view(&self) -> nat {
        self.gbps as nat * 1_000_000_000 + self.bps as nat
    }
}

/// `Bandwidth::checked_add` of the crate `bandwidth`, on the two parts of each operand
/// (`Bandwidth::new`) and of the sum (`as_gbps`, `subgbps_bps`).
///
/// The sum is handed back exactly, with fewer than a billion bits per second left over,
/// whenever its whole gigabits fit in a `u64`; otherwise there is none.
#[verifier::external_body]
fn checked_add_parts(a_gbps: u64, a_bps: u32, b_gbps: u64, b_bps: u32) -> (sum: Option<(u64, u32)>)
    requires
        a_bps < BPS_PER_GBPS,
        b_bps < BPS_PER_GBPS,
    ensures
        match sum {
            Some((gbps, bps)) => bps < BPS_PER_GBPS && gbps * 1_000_000_000 + bps == a_gbps
                * 1_000_000_000 + a_bps + b_gbps * 1_000_000_000 + b_bps,
            None => a_gbps * 1_000_000_000 + a_bps + b_gbps * 1_000_000_000 + b_bps >= capacity(),
        },
{
    let a = bandwidth::Bandwidth::new(a_gbps, a_bps);
    let b = bandwidth::Bandwidth::new(b_gbps, b_bps);
    match a.checked_add(b) {
        Some(s) => Some((s.as_gbps(), s.subgbps_bps())),
        None => None,
    }
}

impl Bandwidth {
    #[verifier::type_invariant]
    spec fn well_formed(self) -> bool {
        self.bps < BPS_PER_GBPS
    }

    /// The rate of `gbps` gigabits per second and `bps` bits per second.
    pub fn new(gbps: u64, bps: u32) -> (rate: Bandwidth)
        requires
            bps < BPS_PER_GBPS,
        ensures
            rate@ == gbps as nat * 1_000_000_000 + bps as nat,
    {
        Bandwidth { gbps, bps }
    }

    /// The rate of `bps` bits per second.
    pub fn from_bps(bps: u64) -> (rate: Bandwidth)
        ensures
            rate@ == bps as nat,
    {
        Bandwidth { gbps: bps / 1_000_000_000, bps: (bps % 1_000_000_000) as u32 }
    }

    /// The whole gigabits per second in this rate.
    pub fn as_gbps(&self) -> (gbps: u64)
        ensures
            gbps as nat == self@ / 1_000_000_000,
            self@ < capacity(),
    {
        proof {
            use_type_invariant(self);
        }
        self.gbps
    }

    /// The bits per second beyond the whole gigabits per second.
    pub fn subgbps_bps(&self) -> (bps: u32)
        ensures
            bps as nat == self@ % 1_000_000_000,
    {
        proof {
            use_type_invariant(self);
        }
        self.bps
    }

    /// The whole rate in bits per second.
    pub fn as_bps(&self) -> (bps: u128)
        ensures
            bps as nat == self@,
            bps < capacity(),
    {
        proof {
            use_type_invariant(self);
        }
        self.gbps as u128 * 1_000_000_000 + self.bps as u128
    }

    /// The sum of two rates, or `None` where it is too large to hold.
    pub fn checked_add(self, rhs: Bandwidth) -> (sum: Option<Bandwidth>)
        ensures
            match sum {
                Some(s) => s@ == self@ + rhs@ && s@ < capacity(),
                None => self@ + rhs@ >= capacity(),
            },
    {
        proof {
            use_type_invariant(self);
            use_type_invariant(rhs);
        }
        match checked_add_parts(self.gbps, self.bps, rhs.gbps, rhs.bps) {
            Some((gbps, bps)) => Some(Bandwidth { gbps, bps }),
            None => None,
        }
    }
}

} // verus!
