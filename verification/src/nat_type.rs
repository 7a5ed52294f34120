//! NAT classification that a peer advertises in its descriptor.

use vstd::prelude::*;

verus! {

/// What kind of NAT stands between a peer and the internet, as seen by UDP.
#[derive(Debug, Clone, Copy, PartialEq, Eq, Structural)]
pub enum NatType {
    Unknown,
    OpenInternet,
    NoPat,
    FullCone,
    Restricted,
    PortRestricted,
    Symmetric,
    SymUdpFirewall,
}

/// The NAT type that a wire code stands for, if it stands for one.
pub open spec fn nat_type_of_code(code: int) -> Option<NatType> {
    if code == 0 {
        Some(NatType::Unknown)
    } else if code == 1 {
        Some(NatType::OpenInternet)
    } else if code == 2 {
        Some(NatType::NoPat)
    } else if code == 3 {
        Some(NatType::FullCone)
    } else if code == 4 {
        Some(NatType::Restricted)
    } else if code == 5 {
        Some(NatType::PortRestricted)
    } else if code == 6 {
        Some(NatType::Symmetric)
    } else if code == 7 {
        Some(NatType::SymUdpFirewall)
    } else {
        None
    }
}

/// The wire code of a NAT type.
pub open spec fn code_of_nat_type(t: NatType) -> int {
    match t {
        NatType::Unknown => 0,
        NatType::OpenInternet => 1,
        NatType::NoPat => 2,
        NatType::FullCone => 3,
        NatType::Restricted => 4,
        NatType::PortRestricted => 5,
        NatType::Symmetric => 6,
        NatType::SymUdpFirewall => 7,
    }
}

impl NatType {
    /// Decodes a wire code.
    pub fn try_from_code(code: i32) -> (r: Option<NatType>)
        ensures
            r == nat_type_of_code(code as int),
    {
        if code == 0 {
            Some(NatType::Unknown)
        } else if code == 1 {
            Some(NatType::OpenInternet)
        } else if code == 2 {
            Some(NatType::NoPat)
        } else if code == 3 {
            Some(NatType::FullCone)
        } else if code == 4 {
            Some(NatType::Restricted)
        } else if code == 5 {
            Some(NatType::PortRestricted)
        } else if code == 6 {
            Some(NatType::Symmetric)
        } else if code == 7 {
            Some(NatType::SymUdpFirewall)
        } else {
            None
        }
    }

    /// Encodes as a wire code.
    pub fn code(&self) -> (c: i32)
        ensures
            c == code_of_nat_type(*self),
            nat_type_of_code(c as int) == Some(*self),
    {
        match self {
            NatType::Unknown => 0,
            NatType::OpenInternet => 1,
            NatType::NoPat => 2,
            NatType::FullCone => 3,
            NatType::Restricted => 4,
            NatType::PortRestricted => 5,
            NatType::Symmetric => 6,
            NatType::SymUdpFirewall => 7,
        }
    }

    /// Whether a peer behind this NAT can be reached without hole punching.
    pub fn is_connectivity_friendly(&self) -> (b: bool)
        ensures
            b == (*self == NatType::NoPat || *self == NatType::OpenInternet),
    {
        match self {
            NatType::NoPat => true,
            NatType::OpenInternet => true,
            _ => false,
        }
    }
}

} // verus!
