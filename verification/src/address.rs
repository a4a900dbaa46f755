//! Network addresses as the allow-list compares them.

use vstd::prelude::*;

verus! {

/// A peer's network address, held as the integer its octets spell in
/// network order. Two addresses are equal when they are of the same family
/// and their integers agree; an IPv4 address never equals an IPv6 one.
#[derive(Clone, Copy, Debug, PartialEq, Eq, Structural)]
pub enum Address {
    V4(u32),
    V6(u128),
}

} // verus!
