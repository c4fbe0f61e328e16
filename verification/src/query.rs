//! The read path of the event log store: decode every stored line, apply the
//! exclude-list and search filters, compute statistics over the filtered set,
//! sort stably, and paginate.
use vstd::prelude::*;

verus! {

use crate::bytes::COMMA;
use crate::bytes::contains_bytes;
use crate::bytes::contains_seq;
use crate::bytes::lower_seq;
use crate::bytes::seq_views;
use crate::bytes::split_bytes;
use crate::bytes::split_seq;
use crate::bytes::to_lower;
use crate::bytes::trim_bytes;
use crate::bytes::trim_seq;
use crate::codec::decode;
use crate::codec::decode_spec;
use crate::bytes::eq_str_bytes;
use crate::domain::LogEntry;
use crate::domain::LogEntryV;
use crate::domain::LogMetadata;
use crate::domain::LogQuery;
use crate::domain::LogQueryV;
use crate::domain::LogStats;
use crate::sort::PairOrd;
use crate::sort::SortKey;
use crate::sort::sort_entries;
use crate::sort::sort_entries_spec;
use crate::sort::sort_pairs;
use crate::sort::sort_pairs_spec;
use crate::domain::lemma_pair_views_index;
use crate::domain::lemma_views_of_index;
use crate::domain::pair_views;
use crate::domain::views_of;
use vstd::string::StringSliceAdditionalSpecFns;

/// The records a stored byte-line sequence decodes to, malformed lines
/// skipped.
pub open spec fn decoded_spec(lines: Seq<Seq<u8>>) -> Seq<LogEntryV>
    decreases lines.len(),
{
    if lines.len() == 0 {
        Seq::<LogEntryV>::empty()
    } else {
        let prev = decoded_spec(lines.drop_last());
        match decode_spec(lines.last()) {
            Option::Some(e) => prev.push(e),
            Option::None => prev,
        }
    }
}

/// Decode every line, skipping malformed ones.
pub fn decode_lines(lines: &Vec<Vec<u8>>) -> (r: Vec<LogEntry>)
    ensures
        views_of(r@) == decoded_spec(seq_views(lines@)),
{
    let mut out: Vec<LogEntry> = Vec::new();
    let mut i: usize = 0;
    while i < lines.len()
        invariant
            i <= lines.len(),
            views_of(out@) == decoded_spec(seq_views(lines@).take(i as int)),
        decreases lines.len() - i,
    {
        proof {
            assert(seq_views(lines@).take(i + 1 as int).drop_last() =~= seq_views(
                lines@,
            ).take(i as int));
            assert(seq_views(lines@).take(i + 1 as int).last() == lines@[i as int]@);
        }
        let ghost out_before = out@;
        match decode(&lines[i]) {
            Option::Some(e) => {
                out.push(e);
                proof {
                    lemma_views_of_index(out_before);
                    lemma_views_of_index(out@);
                    assert(views_of(out@) =~= views_of(out_before).push(e@));
                }
            },
            Option::None => {},
        }
        i += 1;
    }
    proof {
        assert(seq_views(lines@).take(seq_views(lines@).len() as int) =~= seq_views(lines@));
    }
    out
}

/// The exclude terms drawn from one comma-separated parameter: each piece
/// trimmed and lowercased, empty pieces dropped.
pub open spec fn clean_terms(parts: Seq<Seq<u8>>) -> Seq<Seq<u8>>
    decreases parts.len(),
{
    if parts.len() == 0 {
        Seq::<Seq<u8>>::empty()
    } else {
        let prev = clean_terms(parts.drop_last());
        let t = lower_seq(trim_seq(parts.last()));
        if t.len() > 0 {
            prev.push(t)
        } else {
            prev
        }
    }
}

/// The exclude terms of a query: none when the parameter is absent.
pub open spec fn exclude_terms(x: Option<Seq<u8>>) -> Seq<Seq<u8>> {
    match x {
        Option::Some(s) => clean_terms(split_seq(s, COMMA)),
        Option::None => Seq::<Seq<u8>>::empty(),
    }
}

/// Build the exclude-term list of a query parameter.
pub fn parse_exclude(x: &Option<Vec<u8>>) -> (r: Vec<Vec<u8>>)
    ensures
        seq_views(r@) == exclude_terms(
            match x {
                Option::Some(s) => Option::Some(s@),
                Option::None => Option::None,
            },
        ),
{
    match x {
        Option::None => {
            let r: Vec<Vec<u8>> = Vec::new();
            assert(seq_views(r@) =~= Seq::<Seq<u8>>::empty());
            r
        },
        Option::Some(s) => {
            let parts = split_bytes(s, COMMA);
            let ghost partsv = seq_views(parts@);
            let mut out: Vec<Vec<u8>> = Vec::new();
            let mut i: usize = 0;
            while i < parts.len()
                invariant
                    i <= parts.len(),
                    partsv == seq_views(parts@),
                    seq_views(out@) == clean_terms(partsv.take(i as int)),
                decreases parts.len() - i,
            {
                proof {
                    assert(partsv.take(i + 1 as int).drop_last() =~= partsv.take(i as int));
                    assert(partsv.take(i + 1 as int).last() == parts@[i as int]@);
                }
                let trimmed = trim_bytes(&parts[i]);
                let term = to_lower(&trimmed);
                let ghost out_before = out@;
                if term.len() > 0 {
                    out.push(term);
                    proof {
                        assert(seq_views(out@) =~= seq_views(out_before).push(
                            lower_seq(trim_seq(parts@[i as int]@)),
                        ));
                    }
                }
                i += 1;
            }
            proof {
                assert(partsv.take(partsv.len() as int) =~= partsv);
            }
            out
        },
    }
}

/// True when a record's origin matches one of the exclude terms.
pub open spec fn excluded_spec(e: LogEntryV, terms: Seq<Seq<u8>>) -> bool {
    exists|k: int|
        0 <= k < terms.len() && contains_seq(lower_seq(e.ip), #[trigger] terms[k])
}

/// True when every searched field is checked against the lowercased search
/// text and at least one contains it.
pub open spec fn matches_lowered(e: LogEntryV, ql: Seq<u8>) -> bool {
    ||| contains_seq(lower_seq(e.timestamp), ql)
    ||| contains_seq(lower_seq(e.ip), ql)
    ||| contains_seq(lower_seq(e.device), ql)
    ||| contains_seq(lower_seq(e.device_id), ql)
    ||| contains_seq(lower_seq(e.action), ql)
}

/// True when the record matches the (optional) search text.
pub open spec fn matches_query(e: LogEntryV, q: Option<Seq<u8>>) -> bool {
    match q {
        Option::Some(s) => matches_lowered(e, lower_seq(s)),
        Option::None => true,
    }
}

/// The filter the read path applies: not excluded, and matching the search.
pub open spec fn keep_spec(e: LogEntryV, params: LogQueryV) -> bool {
    !excluded_spec(e, exclude_terms(params.exclude_ip)) && matches_query(e, params.q)
}

/// The filtered record sequence, in stored order.
pub open spec fn filtered_spec(s: Seq<LogEntryV>, params: LogQueryV) -> Seq<LogEntryV>
    decreases s.len(),
{
    if s.len() == 0 {
        Seq::<LogEntryV>::empty()
    } else {
        let prev = filtered_spec(s.drop_last(), params);
        if keep_spec(s.last(), params) {
            prev.push(s.last())
        } else {
            prev
        }
    }
}

/// Evaluate the filter on one record, against a prepared term list and a
/// pre-lowercased search text.
fn keep_entry(e: &LogEntry, terms: &Vec<Vec<u8>>, ql: &Option<Vec<u8>>) -> (r: bool)
    ensures
        r == (!excluded_spec(e@, seq_views(terms@)) && match ql {
            Option::Some(s) => matches_lowered(e@, s@),
            Option::None => true,
        }),
{
    let ip_lower = to_lower(&e.ip);
    let mut k: usize = 0;
    while k < terms.len()
        invariant
            k <= terms.len(),
            ip_lower@ == lower_seq(e@.ip),
            forall|j: int|
                0 <= j < k ==> !contains_seq(lower_seq(e@.ip), #[trigger] seq_views(terms@)[j]),
        decreases terms.len() - k,
    {
        if contains_bytes(&ip_lower, &terms[k]) {
            assert(seq_views(terms@)[k as int] == terms@[k as int]@);
            assert(excluded_spec(e@, seq_views(terms@)));
            return false;
        }
        assert(seq_views(terms@)[k as int] == terms@[k as int]@);
        k += 1;
    }
    assert(!excluded_spec(e@, seq_views(terms@)));
    match ql {
        Option::None => true,
        Option::Some(s) => {
            let ts = to_lower(&e.timestamp);
            if contains_bytes(&ts, s) {
                return true;
            }
            if contains_bytes(&ip_lower, s) {
                return true;
            }
            let dev = to_lower(&e.device);
            if contains_bytes(&dev, s) {
                return true;
            }
            let id = to_lower(&e.device_id);
            if contains_bytes(&id, s) {
                return true;
            }
            let act = to_lower(&e.action);
            if contains_bytes(&act, s) {
                return true;
            }
            false
        },
    }
}

/// Apply the exclude-list and search filters, keeping stored order.
pub fn filter_entries(v: Vec<LogEntry>, params: &LogQuery) -> (r: Vec<LogEntry>)
    ensures
        views_of(r@) == filtered_spec(views_of(v@), params@),
{
    let terms = parse_exclude(&params.exclude_ip);
    let ql: Option<Vec<u8>> = match &params.q {
        Option::Some(s) => Option::Some(to_lower(s)),
        Option::None => Option::None,
    };
    let ghost orig = views_of(v@);
    let mut rest = v;
    let mut out: Vec<LogEntry> = Vec::new();
    let ghost mut seen: int = 0;
    while rest.len() > 0
        invariant
            0 <= seen <= orig.len(),
            views_of(rest@) =~= orig.skip(seen),
            views_of(out@) == filtered_spec(orig.take(seen), params@),
            seq_views(terms@) == exclude_terms(params@.exclude_ip),
            match (ql, params@.q) {
                (Option::Some(l), Option::Some(q)) => l@ == lower_seq(q),
                (Option::None, Option::None) => true,
                _ => false,
            },
        decreases rest.len(),
    {
        let ghost rest_before = rest@;
        let x = rest.remove(0);
        proof {
            lemma_views_of_index(rest_before);
            lemma_views_of_index(rest@);
            assert(seen < orig.len()) by {
                assert(views_of(rest_before).len() == orig.skip(seen).len());
            }
            assert(x@ == views_of(rest_before)[0]);
            assert(orig.skip(seen)[0] == orig[seen]);
            assert(views_of(rest@) =~= orig.skip(seen + 1)) by {
                assert forall|j: int| 0 <= j < views_of(rest@).len() implies views_of(rest@)[j]
                    == orig.skip(seen + 1)[j] by {
                    assert(views_of(rest@)[j] == rest@[j]@);
                    assert(rest@[j] == rest_before[j + 1]);
                    assert(views_of(rest_before)[j + 1] == rest_before[j + 1]@);
                    assert(orig.skip(seen)[j + 1] == orig[seen + 1 + j]);
                    assert(orig.skip(seen + 1)[j] == orig[seen + 1 + j]);
                }
            }
            assert(orig.take(seen + 1).drop_last() =~= orig.take(seen));
            assert(orig.take(seen + 1).last() == orig[seen]);
        }
        let ghost out_before = out@;
        if keep_entry(&x, &terms, &ql) {
            assert(keep_spec(x@, params@));
            out.push(x);
            proof {
                lemma_views_of_index(out_before);
                lemma_views_of_index(out@);
                assert(views_of(out@) =~= views_of(out_before).push(orig[seen]));
            }
        } else {
            assert(!keep_spec(x@, params@));
        }
        proof {
            seen = seen + 1;
        }
    }
    proof {
        assert(orig.take(seen) =~= orig);
    }
    out
}

/// The first occurrence of each key, in order of first appearance.
pub open spec fn firsts(keys: Seq<Seq<u8>>) -> Seq<Seq<u8>>
    decreases keys.len(),
{
    if keys.len() == 0 {
        Seq::<Seq<u8>>::empty()
    } else {
        let prev = firsts(keys.drop_last());
        if keys.drop_last().contains(keys.last()) {
            prev
        } else {
            prev.push(keys.last())
        }
    }
}

pub proof fn lemma_firsts_contains(keys: Seq<Seq<u8>>, x: Seq<u8>)
    ensures
        firsts(keys).contains(x) == keys.contains(x),
    decreases keys.len(),
{
    if keys.len() > 0 {
        lemma_firsts_contains(keys.drop_last(), x);
        let prev = firsts(keys.drop_last());
        if keys.drop_last().contains(keys.last()) {
            if keys.contains(x) {
                let i = choose|i: int| 0 <= i < keys.len() && keys[i] == x;
                if i == keys.len() - 1 {
                    assert(keys.drop_last().contains(x));
                } else {
                    assert(keys.drop_last()[i] == x);
                }
            }
            if keys.drop_last().contains(x) {
                let i = choose|i: int| 0 <= i < keys.drop_last().len() && keys.drop_last()[i] == x;
                assert(keys[i] == x);
            }
        } else {
            if keys.contains(x) {
                let i = choose|i: int| 0 <= i < keys.len() && keys[i] == x;
                if i == keys.len() - 1 {
                    assert(prev.push(keys.last()).last() == x);
                } else {
                    assert(keys.drop_last()[i] == x);
                    assert(prev.contains(x));
                    let j = choose|j: int| 0 <= j < prev.len() && prev[j] == x;
                    assert(prev.push(keys.last())[j] == x);
                }
            }
            if firsts(keys).contains(x) {
                let i = choose|i: int| 0 <= i < firsts(keys).len() && firsts(keys)[i] == x;
                if i == firsts(keys).len() - 1 {
                    assert(keys.last() == x);
                } else {
                    assert(prev[i] == x);
                    let j = choose|j: int|
                        0 <= j < keys.drop_last().len() && keys.drop_last()[j] == x;
                    assert(keys[j] == x);
                }
            }
        }
    }
}

/// True when `seen` holds `key`.
fn holds_key(seen: &Vec<Vec<u8>>, key: &Vec<u8>) -> (r: bool)
    ensures
        r == seq_views(seen@).contains(key@),
{
    let mut j: usize = 0;
    while j < seen.len()
        invariant
            j <= seen.len(),
            forall|i: int| 0 <= i < j ==> seq_views(seen@)[i] != key@,
        decreases seen.len() - j,
    {
        assert(seq_views(seen@)[j as int] == seen@[j as int]@);
        if crate::bytes::bytes_eq(&seen[j], key) {
            return true;
        }
        j += 1;
    }
    assert(!seq_views(seen@).contains(key@));
    false
}

/// Number of distinct keys.
pub fn count_distinct(keys: &Vec<Vec<u8>>) -> (r: usize)
    ensures
        r == firsts(seq_views(keys@)).len(),
{
    let ghost kv = seq_views(keys@);
    let mut seen: Vec<Vec<u8>> = Vec::new();
    let mut i: usize = 0;
    while i < keys.len()
        invariant
            i <= keys.len(),
            kv == seq_views(keys@),
            seq_views(seen@) == firsts(kv.take(i as int)),
        decreases keys.len() - i,
    {
        proof {
            assert(kv.take(i + 1 as int).drop_last() =~= kv.take(i as int));
            assert(kv.take(i + 1 as int).last() == keys@[i as int]@);
            lemma_firsts_contains(kv.take(i as int), kv[i as int]);
        }
        let ghost seen_before = seen@;
        if !holds_key(&seen, &keys[i]) {
            let k = crate::bytes::copy_bytes(&keys[i]);
            seen.push(k);
            proof {
                assert(seq_views(seen@) =~= seq_views(seen_before).push(keys@[i as int]@));
            }
        }
        i += 1;
    }
    proof {
        assert(kv.take(kv.len() as int) =~= kv);
    }
    seen.len()
}

/// Saturating increment, used for occurrence counts.
pub open spec fn sat_inc(c: u32) -> u32 {
    if c == u32::MAX {
        c
    } else {
        (c + 1) as u32
    }
}

/// Index of the pair holding `k`, or -1.
pub open spec fn pair_idx(p: Seq<(Seq<u8>, u32)>, k: Seq<u8>) -> int
    decreases p.len(),
{
    if p.len() == 0 {
        -1
    } else if p[0].0 == k {
        0
    } else {
        let r = pair_idx(p.drop_first(), k);
        if r < 0 {
            -1
        } else {
            1 + r
        }
    }
}

pub proof fn lemma_pair_idx_props(p: Seq<(Seq<u8>, u32)>, k: Seq<u8>)
    ensures
        -1 <= pair_idx(p, k) < p.len(),
        pair_idx(p, k) >= 0 ==> p[pair_idx(p, k)].0 == k,
        pair_idx(p, k) >= 0 ==> forall|j: int| 0 <= j < pair_idx(p, k) ==> (#[trigger] p[j]).0 != k,
        pair_idx(p, k) < 0 ==> forall|j: int| 0 <= j < p.len() ==> (#[trigger] p[j]).0 != k,
    decreases p.len(),
{
    if p.len() > 0 && p[0].0 != k {
        lemma_pair_idx_props(p.drop_first(), k);
        let r = pair_idx(p.drop_first(), k);
        if r >= 0 {
            assert forall|j: int| 0 <= j < pair_idx(p, k) implies (#[trigger] p[j]).0 != k by {
                if j > 0 {
                    assert(p.drop_first()[j - 1] == p[j]);
                }
            }
        } else {
            assert forall|j: int| 0 <= j < p.len() implies (#[trigger] p[j]).0 != k by {
                if j > 0 {
                    assert(p.drop_first()[j - 1] == p[j]);
                }
            }
        }
    }
}

pub proof fn lemma_pair_idx_unique(p: Seq<(Seq<u8>, u32)>, k: Seq<u8>, i: int)
    requires
        0 <= i < p.len(),
        p[i].0 == k,
        forall|j: int| 0 <= j < i ==> (#[trigger] p[j]).0 != k,
    ensures
        pair_idx(p, k) == i,
    decreases p.len(),
{
    if i > 0 {
        lemma_pair_idx_unique(p.drop_first(), k, i - 1);
        assert(forall|j: int|
            0 <= j < p.drop_first().len() ==> #[trigger] p.drop_first()[j] == p[j + 1]);
    }
}

/// Occurrence counts per key, in order of first appearance, counts
/// saturating at `u32::MAX`.
pub open spec fn tally_spec(keys: Seq<Seq<u8>>) -> Seq<(Seq<u8>, u32)>
    decreases keys.len(),
{
    if keys.len() == 0 {
        Seq::<(Seq<u8>, u32)>::empty()
    } else {
        let prev = tally_spec(keys.drop_last());
        let k = keys.last();
        let i = pair_idx(prev, k);
        if i >= 0 {
            prev.update(i, (k, sat_inc(prev[i].1)))
        } else {
            prev.push((k, 1u32))
        }
    }
}

/// Find the pair holding `key`.
fn find_pair(out: &Vec<(Vec<u8>, u32)>, key: &Vec<u8>) -> (r: Option<usize>)
    ensures
        match r {
            Option::Some(i) => i < out@.len() && pair_idx(pair_views(out@), key@) == i,
            Option::None => pair_idx(pair_views(out@), key@) == -1,
        },
{
    proof {
        lemma_pair_views_index(out@);
    }
    let mut j: usize = 0;
    while j < out.len()
        invariant
            j <= out.len(),
            forall|i: int| 0 <= i < j ==> (#[trigger] pair_views(out@)[i]).0 != key@,
        decreases out.len() - j,
    {
        proof {
            lemma_pair_views_index(out@);
            assert(pair_views(out@)[j as int] == (out@[j as int].0@, out@[j as int].1));
        }
        if crate::bytes::bytes_eq(&out[j].0, key) {
            proof {
                lemma_pair_idx_unique(pair_views(out@), key@, j as int);
            }
            return Option::Some(j);
        }
        j += 1;
    }
    proof {
        lemma_pair_idx_props(pair_views(out@), key@);
    }
    Option::None
}

/// Tally occurrence counts per key.
pub fn tally_keys(keys: &Vec<Vec<u8>>) -> (r: Vec<(Vec<u8>, u32)>)
    ensures
        pair_views(r@) == tally_spec(seq_views(keys@)),
{
    let ghost kv = seq_views(keys@);
    let mut out: Vec<(Vec<u8>, u32)> = Vec::new();
    let mut i: usize = 0;
    while i < keys.len()
        invariant
            i <= keys.len(),
            kv == seq_views(keys@),
            pair_views(out@) == tally_spec(kv.take(i as int)),
        decreases keys.len() - i,
    {
        proof {
            assert(kv.take(i + 1 as int).drop_last() =~= kv.take(i as int));
            assert(kv.take(i + 1 as int).last() == keys@[i as int]@);
        }
        let ghost out_before = out@;
        let ghost prev = pair_views(out@);
        match find_pair(&out, &keys[i]) {
            Option::Some(idx) => {
                let c = out[idx].1;
                let key_copy = crate::bytes::copy_bytes(&out[idx].0);
                let c2: u32 = if c == 0xffff_ffff {
                    c
                } else {
                    c + 1
                };
                out.set(idx, (key_copy, c2));
                proof {
                    lemma_pair_views_index(out_before);
                    lemma_pair_views_index(out@);
                    assert(prev[idx as int].0 == kv[i as int]) by {
                        lemma_pair_idx_props(prev, kv[i as int]);
                    }
                    assert(pair_views(out@) =~= prev.update(
                        idx as int,
                        (kv[i as int], sat_inc(prev[idx as int].1)),
                    )) by {
                        assert forall|j: int| 0 <= j < pair_views(out@).len() implies pair_views(
                            out@,
                        )[j] == prev.update(
                            idx as int,
                            (kv[i as int], sat_inc(prev[idx as int].1)),
                        )[j] by {
                            assert(pair_views(out@)[j] == (out@[j].0@, out@[j].1));
                            if j != idx {
                                assert(out@[j] == out_before[j]);
                            }
                        }
                    }
                }
            },
            Option::None => {
                let key_copy = crate::bytes::copy_bytes(&keys[i]);
                out.push((key_copy, 1));
                proof {
                    lemma_pair_views_index(out_before);
                    lemma_pair_views_index(out@);
                    assert(pair_views(out@) =~= prev.push((kv[i as int], 1u32)));
                }
            },
        }
        i += 1;
    }
    proof {
        assert(kv.take(kv.len() as int) =~= kv);
    }
    out
}

/// The keys of the first occurrences never repeat.
pub proof fn lemma_firsts_distinct(keys: Seq<Seq<u8>>)
    ensures
        forall|i: int, j: int|
            0 <= i < j < firsts(keys).len() ==> firsts(keys)[i] != firsts(keys)[j],
    decreases keys.len(),
{
    if keys.len() > 0 {
        lemma_firsts_distinct(keys.drop_last());
        let prev = firsts(keys.drop_last());
        if !keys.drop_last().contains(keys.last()) {
            lemma_firsts_contains(keys.drop_last(), keys.last());
            assert forall|i: int, j: int|
                0 <= i < j < firsts(keys).len() implies firsts(keys)[i] != firsts(keys)[j] by {
                if j < firsts(keys).len() - 1 {
                    assert(firsts(keys)[i] == prev[i] && firsts(keys)[j] == prev[j]);
                } else {
                    assert(firsts(keys)[j] == keys.last());
                    assert(firsts(keys)[i] == prev[i]);
                    assert(prev.contains(prev[i]));
                }
            }
        }
    }
}

/// Number of occurrences of `x`.
pub open spec fn occ_count(keys: Seq<Seq<u8>>, x: Seq<u8>) -> int
    decreases keys.len(),
{
    if keys.len() == 0 {
        0
    } else {
        occ_count(keys.drop_last(), x) + if keys.last() == x {
            1int
        } else {
            0int
        }
    }
}

pub proof fn lemma_occ_zero(keys: Seq<Seq<u8>>, x: Seq<u8>)
    ensures
        occ_count(keys, x) >= 0,
        (occ_count(keys, x) == 0) == !keys.contains(x),
    decreases keys.len(),
{
    if keys.len() > 0 {
        lemma_occ_zero(keys.drop_last(), x);
        if keys.contains(x) {
            let w = choose|w: int| 0 <= w < keys.len() && keys[w] == x;
            if w < keys.len() - 1 {
                assert(keys.drop_last()[w] == x);
            }
        }
        if keys.drop_last().contains(x) {
            let w = choose|w: int|
                0 <= w < keys.drop_last().len() && keys.drop_last()[w] == x;
            assert(keys[w] == x);
        }
        if keys.last() == x {
            assert(keys[keys.len() - 1] == x);
        }
    }
}

/// The tally is the first-occurrence key list, each key with its true
/// occurrence count (saturated at `u32::MAX`).
pub proof fn lemma_tally_counts(keys: Seq<Seq<u8>>)
    ensures
        tally_spec(keys).len() == firsts(keys).len(),
        forall|i: int|
            0 <= i < tally_spec(keys).len() ==> (#[trigger] tally_spec(keys)[i]).0
                == firsts(keys)[i],
        forall|i: int|
            0 <= i < tally_spec(keys).len() ==> (#[trigger] tally_spec(keys)[i]).1 as int == (
            if occ_count(keys, firsts(keys)[i]) <= u32::MAX {
                occ_count(keys, firsts(keys)[i])
            } else {
                u32::MAX as int
            }),
    decreases keys.len(),
{
    if keys.len() > 0 {
        let rest = keys.drop_last();
        let k = keys.last();
        lemma_tally_counts(rest);
        lemma_firsts_distinct(rest);
        lemma_firsts_contains(rest, k);
        lemma_occ_zero(rest, k);
        let prev = tally_spec(rest);
        let idx = pair_idx(prev, k);
        lemma_pair_idx_props(prev, k);
        // occurrence counts of the other keys are unchanged by this key
        assert forall|x: Seq<u8>| x != k implies occ_count(keys, x) == occ_count(rest, x) by {}
        assert(occ_count(keys, k) == occ_count(rest, k) + 1);
        if idx >= 0 {
            assert(prev[idx].0 == k);
            assert(firsts(rest)[idx] == k);
            assert(firsts(rest).contains(k)) by {
                assert(firsts(rest)[idx] == k);
            }
            assert(rest.contains(k));
            assert(firsts(keys) == firsts(rest));
            assert forall|i: int|
                0 <= i < tally_spec(keys).len() implies (#[trigger] tally_spec(keys)[i]).1 as int
                == (if occ_count(keys, firsts(keys)[i]) <= u32::MAX {
                occ_count(keys, firsts(keys)[i])
            } else {
                u32::MAX as int
            }) by {
                lemma_occ_zero(rest, firsts(rest)[i]);
                if i == idx {
                    assert(tally_spec(keys)[i] == (k, sat_inc(prev[idx].1)));
                } else {
                    assert(tally_spec(keys)[i] == prev[i]);
                    assert(firsts(rest)[i] != k);
                }
            }
        } else {
            assert(forall|j: int| 0 <= j < prev.len() ==> (#[trigger] prev[j]).0 != k);
            assert(!firsts(rest).contains(k)) by {
                if firsts(rest).contains(k) {
                    let w = choose|w: int|
                        0 <= w < firsts(rest).len() && firsts(rest)[w] == k;
                    assert(prev[w].0 == k);
                }
            }
            assert(!rest.contains(k));
            assert(occ_count(rest, k) == 0);
            assert(firsts(keys) == firsts(rest).push(k));
            assert forall|i: int|
                0 <= i < tally_spec(keys).len() implies (#[trigger] tally_spec(keys)[i]).1 as int
                == (if occ_count(keys, firsts(keys)[i]) <= u32::MAX {
                occ_count(keys, firsts(keys)[i])
            } else {
                u32::MAX as int
            }) by {
                if i == tally_spec(keys).len() - 1 {
                    assert(tally_spec(keys)[i] == (k, 1u32));
                    assert(firsts(keys)[i] == k);
                } else {
                    assert(tally_spec(keys)[i] == prev[i]);
                    assert(firsts(keys)[i] == firsts(rest)[i]);
                    assert(firsts(rest)[i] != k) by {
                        assert(firsts(rest).contains(firsts(rest)[i]));
                    }
                }
            }
        }
    }
}

/// The origin field of every record.
pub open spec fn ips_spec(s: Seq<LogEntryV>) -> Seq<Seq<u8>> {
    s.map_values(|e: LogEntryV| e.ip)
}

/// The identity token of every record.
pub open spec fn ids_spec(s: Seq<LogEntryV>) -> Seq<Seq<u8>> {
    s.map_values(|e: LogEntryV| e.device_id)
}

/// Collect the origin field of every record.
pub fn ips_of(v: &Vec<LogEntry>) -> (r: Vec<Vec<u8>>)
    ensures
        seq_views(r@) == ips_spec(views_of(v@)),
{
    let mut out: Vec<Vec<u8>> = Vec::new();
    let mut i: usize = 0;
    while i < v.len()
        invariant
            i <= v.len(),
            out@.len() == i,
            forall|j: int| 0 <= j < i ==> #[trigger] seq_views(out@)[j] == v@[j]@.ip,
        decreases v.len() - i,
    {
        let ghost out_before = out@;
        out.push(crate::bytes::copy_bytes(&v[i].ip));
        proof {
            assert(forall|j: int|
                0 <= j < i ==> #[trigger] seq_views(out@)[j] == seq_views(out_before)[j]);
            assert(seq_views(out@)[i as int] == v@[i as int]@.ip);
        }
        i += 1;
    }
    proof {
        lemma_views_of_index(v@);
        assert(seq_views(out@) =~= ips_spec(views_of(v@)));
    }
    out
}

/// Collect the identity token of every record.
pub fn ids_of(v: &Vec<LogEntry>) -> (r: Vec<Vec<u8>>)
    ensures
        seq_views(r@) == ids_spec(views_of(v@)),
{
    let mut out: Vec<Vec<u8>> = Vec::new();
    let mut i: usize = 0;
    while i < v.len()
        invariant
            i <= v.len(),
            out@.len() == i,
            forall|j: int| 0 <= j < i ==> #[trigger] seq_views(out@)[j] == v@[j]@.device_id,
        decreases v.len() - i,
    {
        let ghost out_before = out@;
        out.push(crate::bytes::copy_bytes(&v[i].device_id));
        proof {
            assert(forall|j: int|
                0 <= j < i ==> #[trigger] seq_views(out@)[j] == seq_views(out_before)[j]);
            assert(seq_views(out@)[i as int] == v@[i as int]@.device_id);
        }
        i += 1;
    }
    proof {
        lemma_views_of_index(v@);
        assert(seq_views(out@) =~= ids_spec(views_of(v@)));
    }
    out
}

/// The hourly bucket of a timestamp: its first thirteen bytes
/// (`YYYY-MM-DD HH`) with `:00` appended.
pub open spec fn hour_key(ts: Seq<u8>) -> Seq<u8> {
    ts.subrange(0, 13) + ":00".spec_bytes()
}

/// Hour keys of the records whose timestamps are long enough to bucket.
pub open spec fn hour_keys_spec(s: Seq<LogEntryV>) -> Seq<Seq<u8>>
    decreases s.len(),
{
    if s.len() == 0 {
        Seq::<Seq<u8>>::empty()
    } else {
        let prev = hour_keys_spec(s.drop_last());
        if s.last().timestamp.len() >= 13 {
            prev.push(hour_key(s.last().timestamp))
        } else {
            prev
        }
    }
}

/// Collect the hourly bucket keys of the records.
pub fn hour_keys_of(v: &Vec<LogEntry>) -> (r: Vec<Vec<u8>>)
    ensures
        seq_views(r@) == hour_keys_spec(views_of(v@)),
{
    let ghost sv = views_of(v@);
    let mut out: Vec<Vec<u8>> = Vec::new();
    let mut i: usize = 0;
    while i < v.len()
        invariant
            i <= v.len(),
            sv == views_of(v@),
            seq_views(out@) == hour_keys_spec(sv.take(i as int)),
        decreases v.len() - i,
    {
        proof {
            lemma_views_of_index(v@);
            assert(sv.take(i + 1 as int).drop_last() =~= sv.take(i as int));
            assert(sv.take(i + 1 as int).last() == sv[i as int]);
        }
        let ghost out_before = out@;
        let ts = &v[i].timestamp;
        if ts.len() >= 13 {
            let mut key: Vec<u8> = Vec::new();
            let mut j: usize = 0;
            while j < 13
                invariant
                    j <= 13,
                    ts@.len() >= 13,
                    key@ == ts@.subrange(0, j as int),
                decreases 13 - j,
            {
                key.push(ts[j]);
                assert(key@ =~= ts@.subrange(0, j + 1 as int));
                j += 1;
            }
            let suffix = crate::bytes::bytes_of(":00");
            let mut m: usize = 0;
            while m < suffix.len()
                invariant
                    m <= suffix.len(),
                    suffix@ == ":00".spec_bytes(),
                    ts@.len() >= 13,
                    key@ == ts@.subrange(0, 13) + suffix@.subrange(0, m as int),
                decreases suffix.len() - m,
            {
                key.push(suffix[m]);
                assert(key@ =~= ts@.subrange(0, 13) + suffix@.subrange(0, m + 1 as int));
                m += 1;
            }
            proof {
                assert(suffix@.subrange(0, suffix@.len() as int) =~= suffix@);
                assert(key@ == hour_key(ts@));
            }
            out.push(key);
            proof {
                assert(seq_views(out@) =~= seq_views(out_before).push(hour_key(sv[i as int].timestamp)));
            }
        }
        i += 1;
    }
    proof {
        assert(sv.take(sv.len() as int) =~= sv);
    }
    out
}

/// Index of the record with the latest timestamp, later records winning
/// ties; this is the last record once the set is stably sorted by time.
pub open spec fn latest_idx(s: Seq<LogEntryV>) -> int
    decreases s.len(),
{
    if s.len() <= 1 {
        0
    } else {
        let p = latest_idx(s.drop_last());
        if crate::bytes::lex_le(s[p].timestamp, s.last().timestamp) {
            s.len() - 1
        } else {
            p
        }
    }
}

pub proof fn lemma_latest_idx_bounds(s: Seq<LogEntryV>)
    requires
        s.len() > 0,
    ensures
        0 <= latest_idx(s) < s.len(),
    decreases s.len(),
{
    if s.len() > 1 {
        lemma_latest_idx_bounds(s.drop_last());
    }
}

/// The record at `latest_idx` is the last record of the set stably sorted
/// by timestamp, ascending — the reading behind `activeUsers` and
/// `lastActivity`.
pub proof fn lemma_latest_is_last_by_time(s: Seq<LogEntryV>)
    requires
        s.len() > 0,
    ensures
        sort_entries_spec(s, SortKey::Timestamp, true).last() == s[latest_idx(s)],
    decreases s.len(),
{
    crate::sort::lemma_sort_entries_len(s, SortKey::Timestamp, true);
    let x = s.last();
    let sp = sort_entries_spec(s.drop_last(), SortKey::Timestamp, true);
    crate::sort::lemma_sort_entries_len(s.drop_last(), SortKey::Timestamp, true);
    if s.len() == 1 {
        assert(sort_entries_spec(s, SortKey::Timestamp, true) == crate::sort::insert_entry(
            sp,
            x,
            SortKey::Timestamp,
            true,
        ));
        assert(sp.len() == 0);
    } else {
        lemma_latest_is_last_by_time(s.drop_last());
        lemma_latest_idx_bounds(s.drop_last());
        let p = latest_idx(s.drop_last());
        assert(s.drop_last()[p] == s[p]);
        assert(sp.last() == s[p]);
        if crate::sort::entry_le(sp.last(), x, SortKey::Timestamp, true) {
            assert(latest_idx(s) == s.len() - 1);
            assert(crate::sort::insert_entry(sp, x, SortKey::Timestamp, true) == sp.push(x));
        } else {
            assert(latest_idx(s) == p);
            assert(crate::sort::insert_entry(sp, x, SortKey::Timestamp, true)
                == crate::sort::insert_entry(
                sp.drop_last(),
                x,
                SortKey::Timestamp,
                true,
            ).push(sp.last()));
        }
    }
}

/// The `activeUsers` and `lastActivity` statistics: the concurrent count
/// and timestamp of the latest record, or 0 and `-` for an empty set.
pub fn latest_info(v: &Vec<LogEntry>) -> (r: (u32, Vec<u8>))
    ensures
        v@.len() == 0 ==> r.0 == 0 && r.1@ == "-".spec_bytes(),
        v@.len() > 0 ==> {
            &&& 0 <= latest_idx(views_of(v@)) < v@.len()
            &&& r.0 == views_of(v@)[latest_idx(views_of(v@))].count
            &&& r.1@ == views_of(v@)[latest_idx(views_of(v@))].timestamp
        },
{
    if v.len() == 0 {
        return (0, crate::bytes::bytes_of("-"));
    }
    let ghost sv = views_of(v@);
    proof {
        lemma_views_of_index(v@);
        lemma_latest_idx_bounds(sv);
    }
    let mut best: usize = 0;
    let mut i: usize = 1;
    while i < v.len()
        invariant
            1 <= i <= v.len(),
            v@.len() > 0,
            sv == views_of(v@),
            best < i,
            best == latest_idx(sv.take(i as int)),
        decreases v.len() - i,
    {
        proof {
            lemma_views_of_index(v@);
            assert(sv.take(i + 1 as int).drop_last() =~= sv.take(i as int));
            assert(sv.take(i + 1 as int).last() == sv[i as int]);
            lemma_latest_idx_bounds(sv.take(i as int));
            assert(sv.take(i as int)[best as int] == sv[best as int]);
            assert(sv.take(i + 1 as int)[best as int] == sv[best as int]);
        }
        if crate::bytes::lex_le_bytes(&v[best].timestamp, &v[i].timestamp) {
            best = i;
        }
        i += 1;
    }
    proof {
        assert(sv.take(sv.len() as int) =~= sv);
        lemma_views_of_index(v@);
    }
    (v[best].count, crate::bytes::copy_bytes(&v[best].timestamp))
}

/// The sort key a query names; anything unrecognised sorts by timestamp.
pub open spec fn sort_key_of(s: Seq<u8>) -> SortKey {
    if s == "count".spec_bytes() {
        SortKey::Count
    } else if s == "ip".spec_bytes() {
        SortKey::Ip
    } else if s == "device".spec_bytes() {
        SortKey::Device
    } else if s == "device_id".spec_bytes() {
        SortKey::DeviceId
    } else if s == "action".spec_bytes() {
        SortKey::Action
    } else {
        SortKey::Timestamp
    }
}

/// Ascending exactly when the order parameter is `asc`.
pub open spec fn asc_of(s: Seq<u8>) -> bool {
    s == "asc".spec_bytes()
}

/// Parse the sort key parameter.
pub fn parse_sort_key(s: &Vec<u8>) -> (r: SortKey)
    ensures
        r == sort_key_of(s@),
{
    if eq_str_bytes(s, "count") {
        SortKey::Count
    } else if eq_str_bytes(s, "ip") {
        SortKey::Ip
    } else if eq_str_bytes(s, "device") {
        SortKey::Device
    } else if eq_str_bytes(s, "device_id") {
        SortKey::DeviceId
    } else if eq_str_bytes(s, "action") {
        SortKey::Action
    } else {
        SortKey::Timestamp
    }
}

/// `ceil(total / page_size)`, zero pages for a non-positive page size.
pub open spec fn total_pages_spec(total: int, page_size: int) -> int {
    if page_size > 0 {
        total / page_size + if total % page_size > 0 {
            1int
        } else {
            0int
        }
    } else {
        0
    }
}

/// First record index of the requested page.
pub open spec fn page_start(params: LogQueryV) -> int {
    if params.page >= 1 {
        (params.page - 1) * params.page_size
    } else {
        0
    }
}

/// The page slice: `page_size` records from `page_start`, or an empty page
/// when the start lies beyond the record set.
pub open spec fn page_slice(sorted: Seq<LogEntryV>, params: LogQueryV) -> Seq<LogEntryV> {
    let start = page_start(params);
    if start < sorted.len() {
        sorted.subrange(
            start,
            if start + params.page_size <= sorted.len() {
                start + params.page_size
            } else {
                sorted.len() as int
            },
        )
    } else {
        Seq::<LogEntryV>::empty()
    }
}

/// The sorted top-IP listing truncated to ten entries.
pub open spec fn top_ten(pairs: Seq<(Seq<u8>, u32)>) -> Seq<(Seq<u8>, u32)> {
    if pairs.len() <= 10 {
        pairs
    } else {
        pairs.subrange(0, 10)
    }
}

/// Everything one query returns, as one mathematical value.
#[verifier::ext_equal]
pub ghost struct QueryOutcome {
    pub page_data: Seq<LogEntryV>,
    pub total: int,
    pub page: int,
    pub page_size: int,
    pub total_pages: int,
    pub unique_ips: int,
    pub unique_device_ids: int,
    pub active_users: u32,
    pub last_activity: Seq<u8>,
    pub top_ips: Seq<(Seq<u8>, u32)>,
    pub requests_over_time: Seq<(Seq<u8>, u32)>,
}

/// The full read path over stored lines: decode, filter, compute statistics
/// over the filtered set, stable-sort, paginate.
pub open spec fn query_spec(lines: Seq<Seq<u8>>, params: LogQueryV) -> QueryOutcome {
    let flt = filtered_spec(decoded_spec(lines), params);
    let sorted = sort_entries_spec(flt, sort_key_of(params.sort_by), asc_of(params.order));
    QueryOutcome {
        page_data: page_slice(sorted, params),
        total: flt.len() as int,
        page: params.page,
        page_size: params.page_size,
        total_pages: total_pages_spec(flt.len() as int, params.page_size),
        unique_ips: firsts(ips_spec(flt)).len() as int,
        unique_device_ids: firsts(ids_spec(flt)).len() as int,
        active_users: if flt.len() == 0 {
            0
        } else {
            flt[latest_idx(flt)].count
        },
        last_activity: if flt.len() == 0 {
            "-".spec_bytes()
        } else {
            flt[latest_idx(flt)].timestamp
        },
        top_ips: top_ten(sort_pairs_spec(tally_spec(ips_spec(flt)), PairOrd::CountDesc)),
        requests_over_time: sort_pairs_spec(tally_spec(hour_keys_spec(flt)), PairOrd::KeyAsc),
    }
}

/// Queries are idempotent: over the same stored lines, two queries with
/// identical parameters and no intervening writes yield identical outcomes
/// — every component of the result is a function of the lines and the
/// parameters alone.
pub proof fn lemma_query_idempotent(lines: Seq<Seq<u8>>, first: LogQueryV, second: LogQueryV)
    requires
        first == second,
    ensures
        query_spec(lines, first) == query_spec(lines, second),
{
}

/// Pagination beyond the end: for every page past the last one, the page
/// data is empty while the reported total is still the size of the whole
/// filtered set.
pub proof fn lemma_page_beyond_end(lines: Seq<Seq<u8>>, params: LogQueryV)
    requires
        params.page >= 1,
        params.page_size >= 0,
        params.page > query_spec(lines, params).total_pages,
    ensures
        query_spec(lines, params).page_data.len() == 0,
        query_spec(lines, params).total == filtered_spec(decoded_spec(lines), params).len(),
{
    let flt = filtered_spec(decoded_spec(lines), params);
    let sorted = sort_entries_spec(flt, sort_key_of(params.sort_by), asc_of(params.order));
    crate::sort::lemma_sort_entries_len(flt, sort_key_of(params.sort_by), asc_of(params.order));
    let total = flt.len() as int;
    let ps = params.page_size;
    let start = page_start(params);
    if ps == 0 {
        assert(start == 0) by (nonlinear_arith)
            requires
                start == (params.page - 1) * 0,
        ;
        if start < sorted.len() {
            assert(page_slice(sorted, params) =~= sorted.subrange(0, 0));
        }
    } else {
        vstd::arithmetic::div_mod::lemma_fundamental_div_mod(total, ps);
        let q = total / ps;
        let r = total % ps;
        let pages = total_pages_spec(total, ps);
        assert(start >= total) by (nonlinear_arith)
            requires
                total == ps * q + r,
                0 <= r < ps,
                pages == q + if r > 0 {
                    1int
                } else {
                    0int
                },
                start == (params.page - 1) * ps,
                params.page - 1 >= pages,
                ps >= 1,
                total >= 0,
        ;
    }
}

/// Run one query over stored lines.
pub fn run_query(lines: &Vec<Vec<u8>>, params: &LogQuery) -> (r: (
    Vec<LogEntry>,
    LogMetadata,
    LogStats,
))
    ensures
        ({
            let out = query_spec(seq_views(lines@), params@);
            &&& views_of(r.0@) == out.page_data
            &&& r.1.total == out.total
            &&& r.1.page == out.page
            &&& r.1.page_size == out.page_size
            &&& r.1.total_pages == out.total_pages
            &&& r.2.unique_ips == out.unique_ips
            &&& r.2.unique_device_ids == out.unique_device_ids
            &&& r.2.active_users == out.active_users
            &&& r.2.last_activity@ == out.last_activity
            &&& pair_views(r.2.top_ips@) == out.top_ips
            &&& pair_views(r.2.requests_over_time@) == out.requests_over_time
        }),
{
    let decoded = decode_lines(lines);
    let flt = filter_entries(decoded, params);
    let ghost fltv = views_of(flt@);
    let ips = ips_of(&flt);
    let unique_ips = count_distinct(&ips);
    let ids = ids_of(&flt);
    let unique_device_ids = count_distinct(&ids);
    let latest = latest_info(&flt);
    let active_users = latest.0;
    let last_activity = latest.1;
    let ip_tally = tally_keys(&ips);
    let mut top_ips = sort_pairs(ip_tally, PairOrd::CountDesc);
    let ghost top_sorted = pair_views(top_ips@);
    if top_ips.len() > 10 {
        top_ips.truncate(10);
        proof {
            assert(pair_views(top_ips@) =~= top_ten(top_sorted)) by {
                lemma_pair_views_index(top_ips@);
                assert forall|j: int| 0 <= j < pair_views(top_ips@).len() implies pair_views(
                    top_ips@,
                )[j] == top_ten(top_sorted)[j] by {
                    assert(pair_views(top_ips@)[j] == (top_ips@[j].0@, top_ips@[j].1));
                }
            }
        }
    }
    let hours = hour_keys_of(&flt);
    let hour_tally = tally_keys(&hours);
    let requests_over_time = sort_pairs(hour_tally, PairOrd::KeyAsc);
    let total = flt.len();
    let key = parse_sort_key(&params.sort_by);
    let asc = eq_str_bytes(&params.order, "asc");
    let mut sorted = sort_entries(flt, key, asc);
    let ghost sortedv = views_of(sorted@);
    proof {
        crate::sort::lemma_sort_entries_len(fltv, key, asc);
        lemma_views_of_index(sorted@);
        assert(sorted@.len() == total);
    }
    // pagination
    let page_size = params.page_size;
    let total_pages: usize = if page_size > 0 {
        let quot = total / page_size;
        if total % page_size > 0 {
            proof {
                vstd::arithmetic::div_mod::lemma_fundamental_div_mod(
                    total as int,
                    page_size as int,
                );
                assert(quot < usize::MAX) by (nonlinear_arith)
                    requires
                        total == page_size * (total as int / page_size as int) + (
                        total as int % page_size as int),
                        quot == total as int / page_size as int,
                        total as int % page_size as int > 0,
                        page_size >= 1,
                        quot >= 0,
                        total <= usize::MAX,
                ;
            }
            quot + 1
        } else {
            quot
        }
    } else {
        0
    };
    let pm1: usize = if params.page >= 1 {
        params.page - 1
    } else {
        0
    };
    let page_data: Vec<LogEntry> = match pm1.checked_mul(page_size) {
        Option::Some(start) => {
            if start < total {
                let mut tail = sorted.split_off(start);
                let ghost tailv = views_of(tail@);
                proof {
                    lemma_views_of_index(tail@);
                    assert(tailv =~= sortedv.subrange(start as int, sortedv.len() as int)) by {
                        lemma_views_of_index(sorted@);
                        assert forall|j: int| 0 <= j < tailv.len() implies tailv[j] == sortedv
                            .subrange(start as int, sortedv.len() as int)[j] by {
                            assert(tailv[j] == tail@[j]@);
                        }
                    }
                }
                if tail.len() > page_size {
                    let ghost tail_before = tail@;
                    tail.truncate(page_size);
                    proof {
                        lemma_views_of_index(tail_before);
                        lemma_views_of_index(tail@);
                        assert(views_of(tail@) =~= tailv.subrange(0, page_size as int)) by {
                            assert forall|j: int|
                                0 <= j < views_of(tail@).len() implies views_of(tail@)[j] == tailv
                                .subrange(0, page_size as int)[j] by {
                                assert(views_of(tail@)[j] == tail@[j]@);
                                assert(tail@[j] == tail_before[j]);
                            }
                        }
                        assert(views_of(tail@) =~= page_slice(sortedv, params@));
                    }
                } else {
                    proof {
                        assert(views_of(tail@) =~= page_slice(sortedv, params@));
                    }
                }
                tail
            } else {
                let empty: Vec<LogEntry> = Vec::new();
                proof {
                    assert(views_of(empty@) =~= page_slice(sortedv, params@));
                }
                empty
            }
        },
        Option::None => {
            let empty: Vec<LogEntry> = Vec::new();
            proof {
                assert(page_start(params@) > usize::MAX);
                assert(views_of(empty@) =~= page_slice(sortedv, params@));
            }
            empty
        },
    };
    let meta = LogMetadata { total, page: params.page, page_size, total_pages };
    let stats = LogStats {
        unique_ips,
        unique_device_ids,
        active_users,
        last_activity,
        top_ips,
        requests_over_time,
    };
    (page_data, meta, stats)
}

} // verus!
