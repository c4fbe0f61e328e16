//! The two clock readings the presence tracker needs, taken through chrono.
//!
//! Everything computed from these readings is verified in functions that take
//! the reading as an argument; the wrappers themselves only state what holds
//! of every outcome.
use vstd::prelude::*;

verus! {

use crate::codec::comma_free;

/// True when `s` holds no line terminator.
pub open spec fn newline_free(s: Seq<u8>) -> bool {
    forall|i: int| 0 <= i < s.len() ==> #[trigger] s[i] != crate::bytes::NEWLINE
}

/// Relies on chrono's `Local::now` formatted with `%Y-%m-%d %H:%M:%S %z`:
/// the output is digits, spaces, `-`, `:` and a `+`/`-` sign, so it never
/// holds a comma or a newline.  The value itself depends on the wall clock
/// and is not specified.
#[verifier::external_body]
pub fn now_line_timestamp() -> (r: Vec<u8>)
    ensures
        comma_free(r@),
        newline_free(r@),
{
    chrono::Local::now().format("%Y-%m-%d %H:%M:%S %z").to_string().into_bytes()
}

/// Relies on chrono's `Utc::now().timestamp()`: seconds since the Unix
/// epoch.  The value depends on the wall clock; nothing is promised of it.
#[verifier::external_body]
pub fn wall_unix_secs() -> (r: i64) {
    chrono::Utc::now().timestamp()
}

/// The wall clock clamped to an unsigned reading.
pub fn wall_secs() -> (r: u64) {
    let t = wall_unix_secs();
    if t < 0 {
        0
    } else {
        t as u64
    }
}

} // verus!
