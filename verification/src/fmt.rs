//! Human-readable rendering of durations, uptime and resource figures.
use vstd::prelude::*;

verus! {

use crate::codec::comma_free;
use crate::num::dec_rep;
use crate::num::lemma_dec_rep_digits;
use crate::num::u64_to_dec;
use crate::num::u32_to_dec;
use vstd::string::StringSliceAdditionalSpecFns;

/// A session duration: `Ns` under a minute, `Nm Ss` under an hour, else
/// `Nh Nm`.
pub open spec fn duration_rep(secs: u64) -> Seq<u8> {
    if secs < 60 {
        dec_rep(secs as nat) + "s".spec_bytes()
    } else if secs < 3600 {
        dec_rep((secs / 60) as nat) + "m ".spec_bytes() + dec_rep((secs % 60) as nat)
            + "s".spec_bytes()
    } else {
        dec_rep((secs / 3600) as nat) + "h ".spec_bytes() + dec_rep(((secs % 3600) / 60) as nat)
            + "m".spec_bytes()
    }
}

/// Process uptime: `Hh Mm Ss`.
pub open spec fn uptime_rep(secs: u64) -> Seq<u8> {
    dec_rep((secs / 3600) as nat) + "h ".spec_bytes() + dec_rep(((secs % 3600) / 60) as nat)
        + "m ".spec_bytes() + dec_rep((secs % 60) as nat) + "s".spec_bytes()
}

/// CPU usage with one decimal place, from tenths of a percent.
pub open spec fn cpu_rep(tenths: u32) -> Seq<u8> {
    dec_rep((tenths / 10) as nat) + ".".spec_bytes() + dec_rep((tenths % 10) as nat)
}

/// Memory usage: `XMB / YMB`.
pub open spec fn ram_rep(used_mb: u64, total_mb: u64) -> Seq<u8> {
    dec_rep(used_mb as nat) + "MB / ".spec_bytes() + dec_rep(total_mb as nat) + "MB".spec_bytes()
}

/// Append a string's bytes to a byte vector.
fn push_str(out: &mut Vec<u8>, s: &str)
    ensures
        final(out)@ == old(out)@ + s.spec_bytes(),
{
    let bs = crate::bytes::bytes_of(s);
    let mut i: usize = 0;
    while i < bs.len()
        invariant
            i <= bs.len(),
            bs@ == s.spec_bytes(),
            out@ == old(out)@ + bs@.subrange(0, i as int),
        decreases bs.len() - i,
    {
        out.push(bs[i]);
        assert(out@ =~= old(out)@ + bs@.subrange(0, i + 1 as int));
        i += 1;
    }
    assert(out@ =~= old(out)@ + bs@);
}

/// Append a number's decimal digits to a byte vector.
fn push_dec(out: &mut Vec<u8>, n: u64)
    ensures
        final(out)@ == old(out)@ + dec_rep(n as nat),
{
    let digits = u64_to_dec(n);
    let mut i: usize = 0;
    while i < digits.len()
        invariant
            i <= digits.len(),
            digits@ == dec_rep(n as nat),
            out@ == old(out)@ + digits@.subrange(0, i as int),
        decreases digits.len() - i,
    {
        out.push(digits[i]);
        assert(out@ =~= old(out)@ + digits@.subrange(0, i + 1 as int));
        i += 1;
    }
    assert(out@ =~= old(out)@ + digits@);
}

/// Render a session duration.
pub fn format_duration(secs: u64) -> (r: Vec<u8>)
    ensures
        r@ == duration_rep(secs),
{
    let mut out: Vec<u8> = Vec::new();
    if secs < 60 {
        push_dec(&mut out, secs);
        push_str(&mut out, "s");
    } else if secs < 3600 {
        push_dec(&mut out, secs / 60);
        push_str(&mut out, "m ");
        push_dec(&mut out, secs % 60);
        push_str(&mut out, "s");
    } else {
        push_dec(&mut out, secs / 3600);
        push_str(&mut out, "h ");
        push_dec(&mut out, (secs % 3600) / 60);
        push_str(&mut out, "m");
    }
    assert(out@ =~= duration_rep(secs));
    out
}

/// Render process uptime.
pub fn format_uptime(secs: u64) -> (r: Vec<u8>)
    ensures
        r@ == uptime_rep(secs),
{
    let mut out: Vec<u8> = Vec::new();
    push_dec(&mut out, secs / 3600);
    push_str(&mut out, "h ");
    push_dec(&mut out, (secs % 3600) / 60);
    push_str(&mut out, "m ");
    push_dec(&mut out, secs % 60);
    push_str(&mut out, "s");
    assert(out@ =~= uptime_rep(secs));
    out
}

/// Render CPU usage from tenths of a percent.
pub fn format_cpu(tenths: u32) -> (r: Vec<u8>)
    ensures
        r@ == cpu_rep(tenths),
{
    let mut out: Vec<u8> = Vec::new();
    let whole = u32_to_dec(tenths / 10);
    let mut i: usize = 0;
    while i < whole.len()
        invariant
            i <= whole.len(),
            whole@ == dec_rep((tenths / 10) as nat),
            out@ == whole@.subrange(0, i as int),
        decreases whole.len() - i,
    {
        out.push(whole[i]);
        assert(out@ =~= whole@.subrange(0, i + 1 as int));
        i += 1;
    }
    assert(out@ =~= whole@);
    push_str(&mut out, ".");
    push_dec(&mut out, (tenths % 10) as u64);
    assert(out@ =~= cpu_rep(tenths));
    out
}

/// Render memory usage.
pub fn format_ram(used_mb: u64, total_mb: u64) -> (r: Vec<u8>)
    ensures
        r@ == ram_rep(used_mb, total_mb),
{
    let mut out: Vec<u8> = Vec::new();
    push_dec(&mut out, used_mb);
    push_str(&mut out, "MB / ");
    push_dec(&mut out, total_mb);
    push_str(&mut out, "MB");
    assert(out@ =~= ram_rep(used_mb, total_mb));
    out
}

/// Joining two delimiter-free pieces stays delimiter-free.
pub proof fn lemma_comma_free_concat(a: Seq<u8>, b: Seq<u8>)
    requires
        comma_free(a),
        comma_free(b),
    ensures
        comma_free(a + b),
{
    assert forall|i: int| 0 <= i < (a + b).len() implies (a + b)[i] != crate::bytes::COMMA by {
        if i < a.len() {
            assert((a + b)[i] == a[i]);
        } else {
            assert((a + b)[i] == b[i - a.len()]);
        }
    }
}

/// Decimal digits never hold a field delimiter.
pub proof fn lemma_digits_comma_free(n: nat)
    ensures
        comma_free(dec_rep(n)),
        dec_rep(n).len() > 0,
{
    lemma_dec_rep_digits(n);
    assert forall|i: int|
        0 <= i < dec_rep(n).len() implies dec_rep(n)[i] != crate::bytes::COMMA by {
        assert(crate::num::is_digit(dec_rep(n)[i]));
    }
}

proof fn lemma_unit_lits_comma_free()
    ensures
        comma_free("s".spec_bytes()),
        comma_free("m ".spec_bytes()),
        comma_free("h ".spec_bytes()),
{
    reveal_strlit("s");
    reveal_strlit("m ");
    reveal_strlit("h ");
    vstd::string::is_ascii_spec_bytes("s");
    vstd::string::is_ascii_spec_bytes("m ");
    vstd::string::is_ascii_spec_bytes("h ");
    assert(vstd::string::is_ascii("s"));
    assert(vstd::string::is_ascii("m "));
    assert(vstd::string::is_ascii("h "));
    assert forall|i: int|
        0 <= i < "s".spec_bytes().len() implies "s".spec_bytes()[i] != crate::bytes::COMMA by {
        assert("s".spec_bytes()[i] == "s"@[i] as u8);
    }
    assert forall|i: int|
        0 <= i < "m ".spec_bytes().len() implies "m ".spec_bytes()[i] != crate::bytes::COMMA by {
        assert("m ".spec_bytes()[i] == "m "@[i] as u8);
    }
    assert forall|i: int|
        0 <= i < "h ".spec_bytes().len() implies "h ".spec_bytes()[i] != crate::bytes::COMMA by {
        assert("h ".spec_bytes()[i] == "h "@[i] as u8);
    }
}

/// A rendered duration never holds a field delimiter, and is never empty.
pub proof fn lemma_duration_comma_free(secs: u64)
    ensures
        comma_free(duration_rep(secs)),
        duration_rep(secs).len() > 0,
{
    lemma_unit_lits_comma_free();
    if secs < 60 {
        lemma_digits_comma_free(secs as nat);
        lemma_comma_free_concat(dec_rep(secs as nat), "s".spec_bytes());
    } else if secs < 3600 {
        lemma_digits_comma_free((secs / 60) as nat);
        lemma_digits_comma_free((secs % 60) as nat);
        lemma_comma_free_concat(dec_rep((secs / 60) as nat), "m ".spec_bytes());
        lemma_comma_free_concat(
            dec_rep((secs / 60) as nat) + "m ".spec_bytes(),
            dec_rep((secs % 60) as nat),
        );
        lemma_comma_free_concat(
            dec_rep((secs / 60) as nat) + "m ".spec_bytes() + dec_rep((secs % 60) as nat),
            "s".spec_bytes(),
        );
    } else {
        lemma_digits_comma_free((secs / 3600) as nat);
        lemma_digits_comma_free(((secs % 3600) / 60) as nat);
        lemma_comma_free_concat(dec_rep((secs / 3600) as nat), "h ".spec_bytes());
        lemma_comma_free_concat(
            dec_rep((secs / 3600) as nat) + "h ".spec_bytes(),
            dec_rep(((secs % 3600) / 60) as nat),
        );
        assert(comma_free("m".spec_bytes())) by {
            reveal_strlit("m");
            vstd::string::is_ascii_spec_bytes("m");
            assert(vstd::string::is_ascii("m"));
            assert forall|i: int|
                0 <= i < "m".spec_bytes().len() implies "m".spec_bytes()[i]
                != crate::bytes::COMMA by {
                assert("m".spec_bytes()[i] == "m"@[i] as u8);
            }
        }
        lemma_comma_free_concat(
            dec_rep((secs / 3600) as nat) + "h ".spec_bytes() + dec_rep(
                ((secs % 3600) / 60) as nat,
            ),
            "m".spec_bytes(),
        );
    }
}

} // verus!
