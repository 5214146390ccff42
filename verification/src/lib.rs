//! Aggregation of Stripe fee exports: localized-decimal amount parsing into
//! integer minor units, RFC 4180 row scanning, per-account accumulation, and
//! summary emission. All text is handled as UTF-8 bytes.

use vstd::prelude::*;

pub mod amount;
pub mod errors;
pub mod fees;
pub mod outpath;
pub mod pipeline;
pub mod records;
pub mod render;

pub use amount::parse_amount;
pub use errors::Error;
pub use fees::AccountFees;
pub use pipeline::process;

verus! {

/// Byte value of `,`.
pub const COMMA: u8 = 44;

/// Byte value of `"`.
pub const QUOTE: u8 = 34;

/// Byte value of `\n`.
pub const LF: u8 = 10;

/// Byte value of `\r`.
pub const CR: u8 = 13;

/// Compares two byte slices for equality of contents.
pub fn bytes_eq(a: &[u8], b: &[u8]) -> (r: bool)
    ensures
        r == (a@ == b@),
{
    if a.len() != b.len() {
        proof {
            assert(a@.len() != b@.len());
        }
        return false;
    }
    let mut i: usize = 0;
    while i < a.len()
        invariant
            0 <= i <= a.len(),
            a@.len() == b@.len(),
            forall|j: int| 0 <= j < i ==> a@[j] == b@[j],
        decreases a.len() - i,
    {
        if a[i] != b[i] {
            return false;
        }
        i += 1;
    }
    proof {
        assert(a@ =~= b@);
    }
    true
}

} // verus!
