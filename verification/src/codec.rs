//! The record codec: one event record to and from one comma-delimited line.
//!
//! The read path tolerates two on-disk generations: the current 6/7-field
//! format and a legacy 5-field format without identity token and duration.
use vstd::prelude::*;

verus! {

use crate::bytes::COMMA;
use crate::bytes::bytes_of;
use crate::bytes::copy_bytes;
use crate::bytes::lemma_split_append_clean;
use crate::bytes::lemma_split_append_sep;
use crate::bytes::split_bytes;
use crate::bytes::split_seq;
use crate::domain::LogEntry;
use crate::domain::LogEntryV;
use crate::num::all_digits;
use crate::num::dec_rep;
use crate::num::lemma_dec_rep_digits;
use crate::num::lemma_parse_dec_rep;
use crate::num::parse_u32;
use crate::num::parse_u32_or_zero;
use crate::num::u32_to_dec;
use vstd::string::StringSliceAdditionalSpecFns;

/// True when `s` contains no field delimiter.
pub open spec fn comma_free(s: Seq<u8>) -> bool {
    forall|i: int| 0 <= i < s.len() ==> #[trigger] s[i] != COMMA
}

/// Field delimiters replaced by spaces, as applied to the device label.
pub open spec fn sanitize_spec(s: Seq<u8>) -> Seq<u8> {
    s.map_values(
        |b: u8|
            if b == COMMA {
                32u8
            } else {
                b
            },
    )
}

/// The encoded duration field: the duration itself, or empty when absent.
pub open spec fn duration_field(d: Option<Seq<u8>>) -> Seq<u8> {
    match d {
        Option::Some(s) => s,
        Option::None => Seq::<u8>::empty(),
    }
}

/// The line a record encodes to: seven fields joined by commas, with the
/// device label sanitized and an empty last field for an absent duration.
pub open spec fn encode_spec(e: LogEntryV) -> Seq<u8> {
    e.timestamp + seq![COMMA] + e.ip + seq![COMMA] + sanitize_spec(e.device) + seq![COMMA]
        + e.device_id + seq![COMMA] + e.action + seq![COMMA] + dec_rep(e.count as nat)
        + seq![COMMA] + duration_field(e.duration)
}

/// The record a line decodes to, if any.  Six or more fields is the current
/// format (duration present exactly when a non-empty seventh field exists),
/// exactly five is the legacy format, anything else is discarded.
pub open spec fn decode_spec(line: Seq<u8>) -> Option<LogEntryV> {
    let parts = split_seq(line, COMMA);
    if parts.len() >= 6 {
        Option::Some(
            LogEntryV {
                timestamp: parts[0],
                ip: parts[1],
                device: parts[2],
                device_id: parts[3],
                action: parts[4],
                count: parse_u32_or_zero(parts[5]),
                duration: if parts.len() >= 7 && parts[6].len() > 0 {
                    Option::Some(parts[6])
                } else {
                    Option::None
                },
                raw: line,
            },
        )
    } else if parts.len() == 5 {
        Option::Some(
            LogEntryV {
                timestamp: parts[0],
                ip: parts[1],
                device: parts[2],
                device_id: "N/A".spec_bytes(),
                action: parts[3],
                count: parse_u32_or_zero(parts[4]),
                duration: Option::None,
                raw: line,
            },
        )
    } else {
        Option::None
    }
}

/// A record the presence tracker would produce: delimiter-free fields and a
/// non-empty, delimiter-free duration when one is present.
pub open spec fn wf_entry(e: LogEntryV) -> bool {
    &&& comma_free(e.timestamp)
    &&& comma_free(e.ip)
    &&& comma_free(e.device)
    &&& comma_free(e.device_id)
    &&& comma_free(e.action)
    &&& match e.duration {
        Option::Some(d) => d.len() > 0 && comma_free(d),
        Option::None => true,
    }
}

/// Append `s` to `out`.
fn append_bytes(out: &mut Vec<u8>, s: &Vec<u8>)
    ensures
        final(out)@ == old(out)@ + s@,
{
    let mut i: usize = 0;
    while i < s.len()
        invariant
            i <= s.len(),
            out@ == old(out)@ + s@.subrange(0, i as int),
        decreases s.len() - i,
    {
        out.push(s[i]);
        assert(out@ =~= old(out)@ + s@.subrange(0, i + 1 as int));
        i += 1;
    }
    assert(out@ =~= old(out)@ + s@);
}

/// Replace field delimiters by spaces.
pub fn sanitize_field(s: &Vec<u8>) -> (r: Vec<u8>)
    ensures
        r@ == sanitize_spec(s@),
{
    let mut out: Vec<u8> = Vec::new();
    let mut i: usize = 0;
    while i < s.len()
        invariant
            i <= s.len(),
            out@ == sanitize_spec(s@.subrange(0, i as int)),
        decreases s.len() - i,
    {
        let b = s[i];
        out.push(
            if b == COMMA {
                32
            } else {
                b
            },
        );
        assert(s@.subrange(0, i + 1 as int).drop_last() =~= s@.subrange(0, i as int));
        assert(out@ =~= sanitize_spec(s@.subrange(0, i + 1 as int)));
        i += 1;
    }
    assert(s@.subrange(0, s@.len() as int) =~= s@);
    out
}

/// Encode one record as a line.
pub fn encode(e: &LogEntry) -> (r: Vec<u8>)
    ensures
        r@ == encode_spec(e@),
{
    let mut out: Vec<u8> = Vec::new();
    append_bytes(&mut out, &e.timestamp);
    out.push(COMMA);
    append_bytes(&mut out, &e.ip);
    out.push(COMMA);
    let dev = sanitize_field(&e.device);
    append_bytes(&mut out, &dev);
    out.push(COMMA);
    append_bytes(&mut out, &e.device_id);
    out.push(COMMA);
    append_bytes(&mut out, &e.action);
    out.push(COMMA);
    let cnt = u32_to_dec(e.count);
    append_bytes(&mut out, &cnt);
    out.push(COMMA);
    match &e.duration {
        Option::Some(d) => {
            append_bytes(&mut out, d);
        },
        Option::None => {},
    }
    assert(out@ =~= encode_spec(e@));
    out
}

/// Decode one line, skipping malformed ones.
pub fn decode(line: &Vec<u8>) -> (r: Option<LogEntry>)
    ensures
        match r {
            Option::Some(e) => decode_spec(line@) == Option::Some(e@),
            Option::None => decode_spec(line@) is None,
        },
{
    let mut parts = split_bytes(line, COMMA);
    let ghost parts0 = crate::bytes::seq_views(parts@);
    let n = parts.len();
    if n >= 6 {
        let timestamp = parts.remove(0);
        let ip = parts.remove(0);
        let device = parts.remove(0);
        let device_id = parts.remove(0);
        let action = parts.remove(0);
        let count_field = parts.remove(0);
        let count = parse_u32(&count_field);
        let duration: Option<Vec<u8>> = if n >= 7 {
            let d = parts.remove(0);
            if d.len() > 0 {
                Option::Some(d)
            } else {
                Option::None
            }
        } else {
            Option::None
        };
        let e = LogEntry {
            timestamp,
            ip,
            device,
            device_id,
            action,
            count,
            duration,
            raw: copy_bytes(line),
        };
        assert(e@.timestamp == parts0[0]);
        assert(e@.ip == parts0[1]);
        assert(e@.device == parts0[2]);
        assert(e@.device_id == parts0[3]);
        assert(e@.action == parts0[4]);
        assert(e@.count == parse_u32_or_zero(parts0[5]));
        Option::Some(e)
    } else if n == 5 {
        let timestamp = parts.remove(0);
        let ip = parts.remove(0);
        let device = parts.remove(0);
        let action = parts.remove(0);
        let count_field = parts.remove(0);
        let count = parse_u32(&count_field);
        let e = LogEntry {
            timestamp,
            ip,
            device,
            device_id: bytes_of("N/A"),
            action,
            count,
            duration: Option::None,
            raw: copy_bytes(line),
        };
        assert(e@.timestamp == parts0[0]);
        assert(e@.action == parts0[3]);
        assert(e@.count == parse_u32_or_zero(parts0[4]));
        Option::Some(e)
    } else {
        Option::None
    }
}

/// Splitting the encoded line recovers exactly the seven encoded fields.
proof fn lemma_encode_fields(e: LogEntryV)
    requires
        wf_entry(e),
    ensures
        split_seq(encode_spec(e), COMMA) == seq![
            e.timestamp,
            e.ip,
            sanitize_spec(e.device),
            e.device_id,
            e.action,
            dec_rep(e.count as nat),
            duration_field(e.duration),
        ],
{
    let ts = e.timestamp;
    let ip = e.ip;
    let dev = sanitize_spec(e.device);
    let id = e.device_id;
    let act = e.action;
    let cnt = dec_rep(e.count as nat);
    let dur = duration_field(e.duration);
    assert(forall|j: int| 0 <= j < dev.len() ==> #[trigger] dev[j] != COMMA) by {
        assert(forall|j: int|
            0 <= j < e.device.len() ==> #[trigger] dev[j] == if e.device[j] == COMMA {
                32u8
            } else {
                e.device[j]
            });
    }
    assert(forall|j: int| 0 <= j < cnt.len() ==> #[trigger] cnt[j] != COMMA) by {
        lemma_dec_rep_digits(e.count as nat);
    }
    assert(forall|j: int| 0 <= j < dur.len() ==> #[trigger] dur[j] != COMMA);
    let s1 = ts;
    let s2 = s1 + seq![COMMA];
    let s3 = s2 + ip;
    let s4 = s3 + seq![COMMA];
    let s5 = s4 + dev;
    let s6 = s5 + seq![COMMA];
    let s7 = s6 + id;
    let s8 = s7 + seq![COMMA];
    let s9 = s8 + act;
    let s10 = s9 + seq![COMMA];
    let s11 = s10 + cnt;
    let s12 = s11 + seq![COMMA];
    let s13 = s12 + dur;
    lemma_split_append_clean(Seq::<u8>::empty(), ts, COMMA);
    assert(Seq::<u8>::empty() + ts =~= s1);
    assert(split_seq(s1, COMMA) =~~= seq![ts]);
    lemma_split_append_sep(s1, COMMA);
    assert(split_seq(s2, COMMA) =~~= seq![ts, Seq::<u8>::empty()]);
    lemma_split_append_clean(s2, ip, COMMA);
    assert(split_seq(s3, COMMA) =~~= seq![ts, ip]);
    lemma_split_append_sep(s3, COMMA);
    assert(split_seq(s4, COMMA) =~~= seq![ts, ip, Seq::<u8>::empty()]);
    lemma_split_append_clean(s4, dev, COMMA);
    assert(split_seq(s5, COMMA) =~~= seq![ts, ip, dev]);
    lemma_split_append_sep(s5, COMMA);
    assert(split_seq(s6, COMMA) =~~= seq![ts, ip, dev, Seq::<u8>::empty()]);
    lemma_split_append_clean(s6, id, COMMA);
    assert(split_seq(s7, COMMA) =~~= seq![ts, ip, dev, id]);
    lemma_split_append_sep(s7, COMMA);
    assert(split_seq(s8, COMMA) =~~= seq![ts, ip, dev, id, Seq::<u8>::empty()]);
    lemma_split_append_clean(s8, act, COMMA);
    assert(split_seq(s9, COMMA) =~~= seq![ts, ip, dev, id, act]);
    lemma_split_append_sep(s9, COMMA);
    assert(split_seq(s10, COMMA) =~~= seq![ts, ip, dev, id, act, Seq::<u8>::empty()]);
    lemma_split_append_clean(s10, cnt, COMMA);
    assert(split_seq(s11, COMMA) =~~= seq![ts, ip, dev, id, act, cnt]);
    lemma_split_append_sep(s11, COMMA);
    assert(split_seq(s12, COMMA) =~~= seq![ts, ip, dev, id, act, cnt, Seq::<u8>::empty()]);
    lemma_split_append_clean(s12, dur, COMMA);
    assert(split_seq(s13, COMMA) =~~= seq![ts, ip, dev, id, act, cnt, dur]);
    assert(s13 =~= encode_spec(e));
}

/// Round trip: decoding an encoded well-formed record gives the record back,
/// with the `raw` bookkeeping field holding the encoded line.
pub proof fn lemma_decode_encode(e: LogEntryV)
    requires
        wf_entry(e),
    ensures
        decode_spec(encode_spec(e)) == Option::Some(LogEntryV { raw: encode_spec(e), ..e }),
{
    lemma_encode_fields(e);
    let line = encode_spec(e);
    let parts = split_seq(line, COMMA);
    assert(parts.len() == 7);
    lemma_parse_dec_rep(e.count);
    assert(sanitize_spec(e.device) =~= e.device);
    match e.duration {
        Option::Some(d) => {
            assert(parts[6] == d);
            assert(d.len() > 0);
            assert(decode_spec(line) =~~= Option::Some(LogEntryV { raw: line, ..e }));
        },
        Option::None => {
            assert(parts[6].len() == 0);
            assert(decode_spec(line) =~~= Option::Some(LogEntryV { raw: line, ..e }));
        },
    }
}

} // verus!
