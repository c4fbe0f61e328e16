//! Stable sorting for the query read path.
//!
//! The sort is specified as recursive stable insertion: each element is
//! inserted after every element that compares less-or-equal to it, so equal
//! keys keep their original relative order, which the pagination contract
//! depends on.
use vstd::prelude::*;

verus! {

use crate::bytes::lex_le;
use crate::bytes::lex_le_bytes;
use crate::domain::LogEntry;
use crate::domain::LogEntryV;
use crate::domain::lemma_pair_views_index;
use crate::domain::lemma_views_of_index;
use crate::domain::pair_views;
use crate::domain::views_of;

/// The six record orderings the read path offers.
#[derive(Debug, Clone, Copy, PartialEq, Eq, Structural)]
pub enum SortKey {
    Timestamp,
    Count,
    Ip,
    Device,
    DeviceId,
    Action,
}

/// Key order on records: lexicographic on textual fields, numeric on the
/// concurrent count.
pub open spec fn key_le(a: LogEntryV, b: LogEntryV, k: SortKey) -> bool {
    match k {
        SortKey::Timestamp => lex_le(a.timestamp, b.timestamp),
        SortKey::Count => a.count <= b.count,
        SortKey::Ip => lex_le(a.ip, b.ip),
        SortKey::Device => lex_le(a.device, b.device),
        SortKey::DeviceId => lex_le(a.device_id, b.device_id),
        SortKey::Action => lex_le(a.action, b.action),
    }
}

/// The comparator actually used: the key order, reversed for descending.
pub open spec fn entry_le(a: LogEntryV, b: LogEntryV, k: SortKey, asc: bool) -> bool {
    if asc {
        key_le(a, b, k)
    } else {
        key_le(b, a, k)
    }
}

/// Stable insertion of `x` into `s`: after every element less-or-equal to it.
pub open spec fn insert_entry(s: Seq<LogEntryV>, x: LogEntryV, k: SortKey, asc: bool) -> Seq<
    LogEntryV,
>
    decreases s.len(),
{
    if s.len() > 0 && !entry_le(s.last(), x, k, asc) {
        insert_entry(s.drop_last(), x, k, asc).push(s.last())
    } else {
        s.push(x)
    }
}

/// Stable insertion sort of a record sequence.
pub open spec fn sort_entries_spec(s: Seq<LogEntryV>, k: SortKey, asc: bool) -> Seq<LogEntryV>
    decreases s.len(),
{
    if s.len() == 0 {
        Seq::<LogEntryV>::empty()
    } else {
        insert_entry(sort_entries_spec(s.drop_last(), k, asc), s.last(), k, asc)
    }
}

/// The byte order is total.
pub proof fn lemma_lex_le_total(a: Seq<u8>, b: Seq<u8>)
    ensures
        lex_le(a, b) || lex_le(b, a),
    decreases a.len(),
{
    if a.len() > 0 && b.len() > 0 && a[0] == b[0] {
        lemma_lex_le_total(a.drop_first(), b.drop_first());
    }
}

/// The byte order is transitive.
pub proof fn lemma_lex_le_trans(a: Seq<u8>, b: Seq<u8>, c: Seq<u8>)
    requires
        lex_le(a, b),
        lex_le(b, c),
    ensures
        lex_le(a, c),
    decreases a.len(),
{
    if a.len() > 0 {
        if a[0] == b[0] && b[0] == c[0] {
            lemma_lex_le_trans(a.drop_first(), b.drop_first(), c.drop_first());
        }
    }
}

/// The record comparator is total.
pub proof fn lemma_entry_le_total(a: LogEntryV, b: LogEntryV, k: SortKey, asc: bool)
    ensures
        entry_le(a, b, k, asc) || entry_le(b, a, k, asc),
{
    match k {
        SortKey::Timestamp => lemma_lex_le_total(a.timestamp, b.timestamp),
        SortKey::Count => {},
        SortKey::Ip => lemma_lex_le_total(a.ip, b.ip),
        SortKey::Device => lemma_lex_le_total(a.device, b.device),
        SortKey::DeviceId => lemma_lex_le_total(a.device_id, b.device_id),
        SortKey::Action => lemma_lex_le_total(a.action, b.action),
    }
}

/// The record comparator is transitive.
pub proof fn lemma_entry_le_trans(a: LogEntryV, b: LogEntryV, c: LogEntryV, k: SortKey, asc: bool)
    requires
        entry_le(a, b, k, asc),
        entry_le(b, c, k, asc),
    ensures
        entry_le(a, c, k, asc),
{
    let (x, y, z) = if asc {
        (a, b, c)
    } else {
        (c, b, a)
    };
    match k {
        SortKey::Timestamp => lemma_lex_le_trans(x.timestamp, y.timestamp, z.timestamp),
        SortKey::Count => {},
        SortKey::Ip => lemma_lex_le_trans(x.ip, y.ip, z.ip),
        SortKey::Device => lemma_lex_le_trans(x.device, y.device, z.device),
        SortKey::DeviceId => lemma_lex_le_trans(x.device_id, y.device_id, z.device_id),
        SortKey::Action => lemma_lex_le_trans(x.action, y.action, z.action),
    }
}

/// Pairwise order of a record sequence under the requested comparator.
pub open spec fn sorted_by(s: Seq<LogEntryV>, k: SortKey, asc: bool) -> bool {
    forall|i: int, j: int|
        0 <= i < j < s.len() ==> entry_le(#[trigger] s[i], #[trigger] s[j], k, asc)
}

/// Every element of an insertion is the inserted record or one of the
/// originals.
proof fn lemma_insert_entry_elems(s: Seq<LogEntryV>, x: LogEntryV, k: SortKey, asc: bool)
    ensures
        forall|i: int|
            0 <= i < insert_entry(s, x, k, asc).len() ==> #[trigger] insert_entry(
                s,
                x,
                k,
                asc,
            )[i] == x || s.contains(insert_entry(s, x, k, asc)[i]),
    decreases s.len(),
{
    let out = insert_entry(s, x, k, asc);
    lemma_insert_entry_len(s, x, k, asc);
    if s.len() > 0 && !entry_le(s.last(), x, k, asc) {
        lemma_insert_entry_elems(s.drop_last(), x, k, asc);
        lemma_insert_entry_len(s.drop_last(), x, k, asc);
        let inner = insert_entry(s.drop_last(), x, k, asc);
        assert forall|i: int| 0 <= i < out.len() implies #[trigger] out[i] == x || s.contains(
            out[i],
        ) by {
            if i < out.len() - 1 {
                assert(out[i] == inner[i]);
                if inner[i] != x {
                    let w = choose|w: int|
                        0 <= w < s.drop_last().len() && s.drop_last()[w] == inner[i];
                    assert(s[w] == inner[i]);
                }
            } else {
                assert(out[i] == s.last());
                assert(s[s.len() - 1] == s.last());
            }
        }
    } else {
        assert forall|i: int| 0 <= i < out.len() implies #[trigger] out[i] == x || s.contains(
            out[i],
        ) by {
            if i < s.len() {
                assert(out[i] == s[i]);
            }
        }
    }
}

/// Inserting into a sorted sequence keeps it sorted.
proof fn lemma_insert_entry_sorted(s: Seq<LogEntryV>, x: LogEntryV, k: SortKey, asc: bool)
    requires
        sorted_by(s, k, asc),
    ensures
        sorted_by(insert_entry(s, x, k, asc), k, asc),
    decreases s.len(),
{
    let out = insert_entry(s, x, k, asc);
    lemma_insert_entry_len(s, x, k, asc);
    if s.len() > 0 && !entry_le(s.last(), x, k, asc) {
        assert(sorted_by(s.drop_last(), k, asc)) by {
            assert(forall|i: int, j: int|
                0 <= i < j < s.drop_last().len() ==> entry_le(
                    #[trigger] s.drop_last()[i],
                    #[trigger] s.drop_last()[j],
                    k,
                    asc,
                ));
        }
        lemma_insert_entry_sorted(s.drop_last(), x, k, asc);
        lemma_insert_entry_elems(s.drop_last(), x, k, asc);
        lemma_insert_entry_len(s.drop_last(), x, k, asc);
        let inner = insert_entry(s.drop_last(), x, k, asc);
        // everything in the inner insertion comes no later than the last
        // element being pushed back on
        assert forall|i: int, j: int| 0 <= i < j < out.len() implies entry_le(
            #[trigger] out[i],
            #[trigger] out[j],
            k,
            asc,
        ) by {
            if j < out.len() - 1 {
                assert(out[i] == inner[i] && out[j] == inner[j]);
            } else {
                assert(out[j] == s.last());
                assert(out[i] == inner[i]);
                if inner[i] == x {
                    lemma_entry_le_total(s.last(), x, k, asc);
                } else {
                    let w = choose|w: int|
                        0 <= w < s.drop_last().len() && s.drop_last()[w] == inner[i];
                    assert(s[w] == inner[i]);
                    assert(entry_le(s[w], s.last(), k, asc));
                }
            }
        }
    } else {
        assert forall|i: int, j: int| 0 <= i < j < out.len() implies entry_le(
            #[trigger] out[i],
            #[trigger] out[j],
            k,
            asc,
        ) by {
            if j < s.len() {
                assert(out[i] == s[i] && out[j] == s[j]);
            } else {
                assert(out[j] == x);
                assert(out[i] == s[i]);
                if s.len() > 0 {
                    assert(entry_le(s.last(), x, k, asc));
                    if i < s.len() - 1 {
                        assert(entry_le(s[i], s.last(), k, asc));
                        lemma_entry_le_trans(s[i], s.last(), x, k, asc);
                    }
                }
            }
        }
    }
}

/// The stable sort really sorts: its result is ordered by the comparator.
pub proof fn lemma_sort_entries_sorted(s: Seq<LogEntryV>, k: SortKey, asc: bool)
    ensures
        sorted_by(sort_entries_spec(s, k, asc), k, asc),
    decreases s.len(),
{
    if s.len() > 0 {
        lemma_sort_entries_sorted(s.drop_last(), k, asc);
        lemma_insert_entry_sorted(sort_entries_spec(s.drop_last(), k, asc), s.last(), k, asc);
    }
}

/// Insertion only repositions: the contents are the originals plus the
/// inserted record.
proof fn lemma_insert_entry_multiset(s: Seq<LogEntryV>, x: LogEntryV, k: SortKey, asc: bool)
    ensures
        insert_entry(s, x, k, asc).to_multiset() == s.to_multiset().insert(x),
    decreases s.len(),
{
    broadcast use vstd::seq_lib::group_to_multiset_ensures;

    if s.len() > 0 && !entry_le(s.last(), x, k, asc) {
        lemma_insert_entry_multiset(s.drop_last(), x, k, asc);
        let inner = insert_entry(s.drop_last(), x, k, asc);
        assert(inner.push(s.last()).to_multiset() =~= inner.to_multiset().insert(s.last()));
        assert(s.drop_last().push(s.last()) =~= s);
        assert(s.to_multiset() =~= s.drop_last().to_multiset().insert(s.last()));
        assert(inner.to_multiset().insert(s.last()) =~= s.drop_last().to_multiset().insert(
            x,
        ).insert(s.last()));
        assert(s.drop_last().to_multiset().insert(x).insert(s.last())
            =~= s.drop_last().to_multiset().insert(s.last()).insert(x));
    } else {
        assert(s.push(x).to_multiset() =~= s.to_multiset().insert(x));
    }
}

/// The stable sort is a permutation: no record appears or disappears.
pub proof fn lemma_sort_entries_multiset(s: Seq<LogEntryV>, k: SortKey, asc: bool)
    ensures
        sort_entries_spec(s, k, asc).to_multiset() == s.to_multiset(),
    decreases s.len(),
{
    broadcast use vstd::seq_lib::group_to_multiset_ensures;

    if s.len() > 0 {
        lemma_sort_entries_multiset(s.drop_last(), k, asc);
        lemma_insert_entry_multiset(sort_entries_spec(s.drop_last(), k, asc), s.last(), k, asc);
        assert(s.drop_last().push(s.last()) =~= s);
        assert(s.to_multiset() =~= s.drop_last().to_multiset().insert(s.last()));
    }
}

pub proof fn lemma_insert_entry_len(s: Seq<LogEntryV>, x: LogEntryV, k: SortKey, asc: bool)
    ensures
        insert_entry(s, x, k, asc).len() == s.len() + 1,
    decreases s.len(),
{
    if s.len() > 0 && !entry_le(s.last(), x, k, asc) {
        lemma_insert_entry_len(s.drop_last(), x, k, asc);
    }
}

pub proof fn lemma_sort_entries_len(s: Seq<LogEntryV>, k: SortKey, asc: bool)
    ensures
        sort_entries_spec(s, k, asc).len() == s.len(),
    decreases s.len(),
{
    if s.len() > 0 {
        lemma_sort_entries_len(s.drop_last(), k, asc);
        lemma_insert_entry_len(sort_entries_spec(s.drop_last(), k, asc), s.last(), k, asc);
    }
}

proof fn lemma_insert_entry_pos(s: Seq<LogEntryV>, x: LogEntryV, k: SortKey, asc: bool, pos: int)
    requires
        0 <= pos <= s.len(),
        forall|j: int| pos <= j < s.len() ==> !entry_le(#[trigger] s[j], x, k, asc),
        pos > 0 ==> entry_le(s[pos - 1], x, k, asc),
    ensures
        insert_entry(s, x, k, asc) == s.subrange(0, pos) + seq![x] + s.subrange(
            pos,
            s.len() as int,
        ),
    decreases s.len(),
{
    if pos == s.len() {
        assert(insert_entry(s, x, k, asc) == s.push(x));
        assert(s.push(x) =~= s.subrange(0, pos) + seq![x] + s.subrange(pos, s.len() as int));
    } else {
        assert(!entry_le(s.last(), x, k, asc));
        lemma_insert_entry_pos(s.drop_last(), x, k, asc, pos);
        assert(s.drop_last().subrange(0, pos) =~= s.subrange(0, pos));
        assert(s.drop_last().subrange(pos, s.drop_last().len() as int) =~= s.subrange(
            pos,
            s.len() - 1,
        ));
        assert((s.subrange(0, pos) + seq![x] + s.subrange(pos, s.len() - 1)).push(s.last()) =~= s
            .subrange(0, pos) + seq![x] + s.subrange(pos, s.len() as int));
    }
}

/// Exec comparator matching `entry_le`.
fn entry_le_exec(a: &LogEntry, b: &LogEntry, k: SortKey, asc: bool) -> (r: bool)
    ensures
        r == entry_le(a@, b@, k, asc),
{
    let (x, y) = if asc {
        (a, b)
    } else {
        (b, a)
    };
    match k {
        SortKey::Timestamp => lex_le_bytes(&x.timestamp, &y.timestamp),
        SortKey::Count => x.count <= y.count,
        SortKey::Ip => lex_le_bytes(&x.ip, &y.ip),
        SortKey::Device => lex_le_bytes(&x.device, &y.device),
        SortKey::DeviceId => lex_le_bytes(&x.device_id, &y.device_id),
        SortKey::Action => lex_le_bytes(&x.action, &y.action),
    }
}

/// Stable sort of records by the requested key and direction.
pub fn sort_entries(v: Vec<LogEntry>, k: SortKey, asc: bool) -> (r: Vec<LogEntry>)
    ensures
        views_of(r@) == sort_entries_spec(views_of(v@), k, asc),
{
    let ghost orig = views_of(v@);
    let mut rest = v;
    let mut out: Vec<LogEntry> = Vec::new();
    let ghost mut seen: int = 0;
    while rest.len() > 0
        invariant
            0 <= seen <= orig.len(),
            views_of(rest@) =~= orig.skip(seen),
            views_of(out@) == sort_entries_spec(orig.take(seen), k, asc),
        decreases rest.len(),
    {
        let ghost rest_before = rest@;
        let x = rest.remove(0);
        proof {
            lemma_views_of_index(rest_before);
            lemma_views_of_index(rest@);
            assert(seen < orig.len()) by {
                assert(views_of(rest_before).len() == orig.skip(seen).len());
            }
            assert(x@ == views_of(rest_before)[0]);
            assert(orig.skip(seen)[0] == orig[seen]);
            assert(x@ == orig[seen]);
            assert(views_of(rest@) =~= orig.skip(seen + 1)) by {
                assert forall|j: int| 0 <= j < views_of(rest@).len() implies views_of(rest@)[j]
                    == orig.skip(seen + 1)[j] by {
                    assert(views_of(rest@)[j] == rest@[j]@);
                    assert(rest@[j] == rest_before[j + 1]);
                    assert(views_of(rest_before)[j + 1] == rest_before[j + 1]@);
                    assert(orig.skip(seen)[j + 1] == orig[seen + 1 + j]);
                    assert(orig.skip(seen + 1)[j] == orig[seen + 1 + j]);
                }
            }
            assert(orig.take(seen + 1).drop_last() =~= orig.take(seen));
            assert(orig.take(seen + 1).last() == orig[seen]);
        }
        // find the stable insertion position from the right
        let ghost before = views_of(out@);
        let mut pos: usize = out.len();
        while pos > 0 && !entry_le_exec(&out[pos - 1], &x, k, asc)
            invariant
                pos <= out.len(),
                before == views_of(out@),
                forall|j: int| pos <= j < before.len() ==> !entry_le(#[trigger] before[j], x@, k, asc),
            decreases pos,
        {
            proof {
                assert(before[pos - 1] == out@[pos - 1]@);
            }
            pos -= 1;
        }
        proof {
            assert(pos > 0 ==> before[pos - 1] == out@[pos - 1]@);
            lemma_insert_entry_pos(before, x@, k, asc, pos as int);
        }
        let ghost out_before = out@;
        out.insert(pos, x);
        proof {
            lemma_views_of_index(out_before);
            lemma_views_of_index(out@);
            assert(views_of(out@) =~= before.insert(pos as int, x@)) by {
                assert(out@ == out_before.insert(pos as int, x));
                assert forall|j: int| 0 <= j < views_of(out@).len() implies views_of(out@)[j]
                    == before.insert(pos as int, x@)[j] by {
                    assert(views_of(out@)[j] == out@[j]@);
                    if j < pos {
                        assert(out@[j] == out_before[j]);
                        assert(before.insert(pos as int, x@)[j] == before[j]);
                    } else if j == pos {
                        assert(out@[j] == x);
                        assert(before.insert(pos as int, x@)[j] == x@);
                    } else {
                        assert(out@[j] == out_before[j - 1]);
                        assert(before.insert(pos as int, x@)[j] == before[j - 1]);
                    }
                }
            }
            assert(before.insert(pos as int, x@) =~= before.subrange(0, pos as int) + seq![x@]
                + before.subrange(pos as int, before.len() as int));
            assert(views_of(out@) == insert_entry(before, x@, k, asc));
            assert(views_of(out@) == sort_entries_spec(orig.take(seen + 1), k, asc));
            seen = seen + 1;
        }
    }
    proof {
        assert(orig.take(seen) =~= orig);
    }
    out
}

/// The two orderings used for statistic pairs: by count, most frequent
/// first (top IPs), or by key, ascending (hourly buckets).
#[derive(Debug, Clone, Copy, PartialEq, Eq, Structural)]
pub enum PairOrd {
    CountDesc,
    KeyAsc,
}

/// Comparator on key/count pairs.
pub open spec fn pair_le(a: (Seq<u8>, u32), b: (Seq<u8>, u32), m: PairOrd) -> bool {
    match m {
        PairOrd::CountDesc => a.1 >= b.1,
        PairOrd::KeyAsc => lex_le(a.0, b.0),
    }
}

/// Stable insertion of a pair: after every pair less-or-equal to it.
pub open spec fn insert_pair(s: Seq<(Seq<u8>, u32)>, x: (Seq<u8>, u32), m: PairOrd) -> Seq<
    (Seq<u8>, u32),
>
    decreases s.len(),
{
    if s.len() > 0 && !pair_le(s.last(), x, m) {
        insert_pair(s.drop_last(), x, m).push(s.last())
    } else {
        s.push(x)
    }
}

/// Stable insertion sort of a pair sequence.
pub open spec fn sort_pairs_spec(s: Seq<(Seq<u8>, u32)>, m: PairOrd) -> Seq<(Seq<u8>, u32)>
    decreases s.len(),
{
    if s.len() == 0 {
        Seq::<(Seq<u8>, u32)>::empty()
    } else {
        insert_pair(sort_pairs_spec(s.drop_last(), m), s.last(), m)
    }
}

/// The pair comparator is total.
pub proof fn lemma_pair_le_total(a: (Seq<u8>, u32), b: (Seq<u8>, u32), m: PairOrd)
    ensures
        pair_le(a, b, m) || pair_le(b, a, m),
{
    match m {
        PairOrd::CountDesc => {},
        PairOrd::KeyAsc => lemma_lex_le_total(a.0, b.0),
    }
}

/// The pair comparator is transitive.
pub proof fn lemma_pair_le_trans(a: (Seq<u8>, u32), b: (Seq<u8>, u32), c: (Seq<u8>, u32), m: PairOrd)
    requires
        pair_le(a, b, m),
        pair_le(b, c, m),
    ensures
        pair_le(a, c, m),
{
    match m {
        PairOrd::CountDesc => {},
        PairOrd::KeyAsc => lemma_lex_le_trans(a.0, b.0, c.0),
    }
}

/// Pairwise order of a pair sequence under the requested comparator.
pub open spec fn pairs_sorted_by(s: Seq<(Seq<u8>, u32)>, m: PairOrd) -> bool {
    forall|i: int, j: int| 0 <= i < j < s.len() ==> pair_le(#[trigger] s[i], #[trigger] s[j], m)
}

proof fn lemma_insert_pair_elems(s: Seq<(Seq<u8>, u32)>, x: (Seq<u8>, u32), m: PairOrd)
    ensures
        forall|i: int|
            0 <= i < insert_pair(s, x, m).len() ==> #[trigger] insert_pair(s, x, m)[i] == x
                || s.contains(insert_pair(s, x, m)[i]),
    decreases s.len(),
{
    let out = insert_pair(s, x, m);
    lemma_insert_pair_len(s, x, m);
    if s.len() > 0 && !pair_le(s.last(), x, m) {
        lemma_insert_pair_elems(s.drop_last(), x, m);
        lemma_insert_pair_len(s.drop_last(), x, m);
        let inner = insert_pair(s.drop_last(), x, m);
        assert forall|i: int| 0 <= i < out.len() implies #[trigger] out[i] == x || s.contains(
            out[i],
        ) by {
            if i < out.len() - 1 {
                assert(out[i] == inner[i]);
                if inner[i] != x {
                    let w = choose|w: int|
                        0 <= w < s.drop_last().len() && s.drop_last()[w] == inner[i];
                    assert(s[w] == inner[i]);
                }
            } else {
                assert(out[i] == s.last());
                assert(s[s.len() - 1] == s.last());
            }
        }
    } else {
        assert forall|i: int| 0 <= i < out.len() implies #[trigger] out[i] == x || s.contains(
            out[i],
        ) by {
            if i < s.len() {
                assert(out[i] == s[i]);
            }
        }
    }
}

proof fn lemma_insert_pair_sorted(s: Seq<(Seq<u8>, u32)>, x: (Seq<u8>, u32), m: PairOrd)
    requires
        pairs_sorted_by(s, m),
    ensures
        pairs_sorted_by(insert_pair(s, x, m), m),
    decreases s.len(),
{
    let out = insert_pair(s, x, m);
    lemma_insert_pair_len(s, x, m);
    if s.len() > 0 && !pair_le(s.last(), x, m) {
        assert(pairs_sorted_by(s.drop_last(), m)) by {
            assert(forall|i: int, j: int|
                0 <= i < j < s.drop_last().len() ==> pair_le(
                    #[trigger] s.drop_last()[i],
                    #[trigger] s.drop_last()[j],
                    m,
                ));
        }
        lemma_insert_pair_sorted(s.drop_last(), x, m);
        lemma_insert_pair_elems(s.drop_last(), x, m);
        lemma_insert_pair_len(s.drop_last(), x, m);
        let inner = insert_pair(s.drop_last(), x, m);
        assert forall|i: int, j: int| 0 <= i < j < out.len() implies pair_le(
            #[trigger] out[i],
            #[trigger] out[j],
            m,
        ) by {
            if j < out.len() - 1 {
                assert(out[i] == inner[i] && out[j] == inner[j]);
            } else {
                assert(out[j] == s.last());
                assert(out[i] == inner[i]);
                if inner[i] == x {
                    lemma_pair_le_total(s.last(), x, m);
                } else {
                    let w = choose|w: int|
                        0 <= w < s.drop_last().len() && s.drop_last()[w] == inner[i];
                    assert(s[w] == inner[i]);
                    assert(pair_le(s[w], s.last(), m));
                }
            }
        }
    } else {
        assert forall|i: int, j: int| 0 <= i < j < out.len() implies pair_le(
            #[trigger] out[i],
            #[trigger] out[j],
            m,
        ) by {
            if j < s.len() {
                assert(out[i] == s[i] && out[j] == s[j]);
            } else {
                assert(out[j] == x);
                assert(out[i] == s[i]);
                if s.len() > 0 {
                    assert(pair_le(s.last(), x, m));
                    if i < s.len() - 1 {
                        assert(pair_le(s[i], s.last(), m));
                        lemma_pair_le_trans(s[i], s.last(), x, m);
                    }
                }
            }
        }
    }
}

/// The pair sort really sorts: its result is ordered by the comparator.
pub proof fn lemma_sort_pairs_sorted(s: Seq<(Seq<u8>, u32)>, m: PairOrd)
    ensures
        pairs_sorted_by(sort_pairs_spec(s, m), m),
    decreases s.len(),
{
    if s.len() > 0 {
        lemma_sort_pairs_sorted(s.drop_last(), m);
        lemma_insert_pair_sorted(sort_pairs_spec(s.drop_last(), m), s.last(), m);
    }
}

proof fn lemma_insert_pair_multiset(s: Seq<(Seq<u8>, u32)>, x: (Seq<u8>, u32), m: PairOrd)
    ensures
        insert_pair(s, x, m).to_multiset() == s.to_multiset().insert(x),
    decreases s.len(),
{
    broadcast use vstd::seq_lib::group_to_multiset_ensures;

    if s.len() > 0 && !pair_le(s.last(), x, m) {
        lemma_insert_pair_multiset(s.drop_last(), x, m);
        let inner = insert_pair(s.drop_last(), x, m);
        assert(inner.push(s.last()).to_multiset() =~= inner.to_multiset().insert(s.last()));
        assert(s.drop_last().push(s.last()) =~= s);
        assert(s.to_multiset() =~= s.drop_last().to_multiset().insert(s.last()));
        assert(s.drop_last().to_multiset().insert(x).insert(s.last())
            =~= s.drop_last().to_multiset().insert(s.last()).insert(x));
    } else {
        assert(s.push(x).to_multiset() =~= s.to_multiset().insert(x));
    }
}

/// The pair sort is a permutation: no pair appears or disappears.
pub proof fn lemma_sort_pairs_multiset(s: Seq<(Seq<u8>, u32)>, m: PairOrd)
    ensures
        sort_pairs_spec(s, m).to_multiset() == s.to_multiset(),
    decreases s.len(),
{
    broadcast use vstd::seq_lib::group_to_multiset_ensures;

    if s.len() > 0 {
        lemma_sort_pairs_multiset(s.drop_last(), m);
        lemma_insert_pair_multiset(sort_pairs_spec(s.drop_last(), m), s.last(), m);
        assert(s.drop_last().push(s.last()) =~= s);
        assert(s.to_multiset() =~= s.drop_last().to_multiset().insert(s.last()));
    }
}

pub proof fn lemma_insert_pair_len(s: Seq<(Seq<u8>, u32)>, x: (Seq<u8>, u32), m: PairOrd)
    ensures
        insert_pair(s, x, m).len() == s.len() + 1,
    decreases s.len(),
{
    if s.len() > 0 && !pair_le(s.last(), x, m) {
        lemma_insert_pair_len(s.drop_last(), x, m);
    }
}

pub proof fn lemma_sort_pairs_len(s: Seq<(Seq<u8>, u32)>, m: PairOrd)
    ensures
        sort_pairs_spec(s, m).len() == s.len(),
    decreases s.len(),
{
    if s.len() > 0 {
        lemma_sort_pairs_len(s.drop_last(), m);
        lemma_insert_pair_len(sort_pairs_spec(s.drop_last(), m), s.last(), m);
    }
}

proof fn lemma_insert_pair_pos(s: Seq<(Seq<u8>, u32)>, x: (Seq<u8>, u32), m: PairOrd, pos: int)
    requires
        0 <= pos <= s.len(),
        forall|j: int| pos <= j < s.len() ==> !pair_le(#[trigger] s[j], x, m),
        pos > 0 ==> pair_le(s[pos - 1], x, m),
    ensures
        insert_pair(s, x, m) == s.subrange(0, pos) + seq![x] + s.subrange(pos, s.len() as int),
    decreases s.len(),
{
    if pos == s.len() {
        assert(insert_pair(s, x, m) == s.push(x));
        assert(s.push(x) =~= s.subrange(0, pos) + seq![x] + s.subrange(pos, s.len() as int));
    } else {
        assert(!pair_le(s.last(), x, m));
        lemma_insert_pair_pos(s.drop_last(), x, m, pos);
        assert(s.drop_last().subrange(0, pos) =~= s.subrange(0, pos));
        assert(s.drop_last().subrange(pos, s.drop_last().len() as int) =~= s.subrange(
            pos,
            s.len() - 1,
        ));
        assert((s.subrange(0, pos) + seq![x] + s.subrange(pos, s.len() - 1)).push(s.last()) =~= s
            .subrange(0, pos) + seq![x] + s.subrange(pos, s.len() as int));
    }
}

/// Exec comparator matching `pair_le`.
fn pair_le_exec(a: &(Vec<u8>, u32), b: &(Vec<u8>, u32), m: PairOrd) -> (r: bool)
    ensures
        r == pair_le((a.0@, a.1), (b.0@, b.1), m),
{
    match m {
        PairOrd::CountDesc => a.1 >= b.1,
        PairOrd::KeyAsc => lex_le_bytes(&a.0, &b.0),
    }
}

/// Stable sort of key/count pairs by the given ordering.
pub fn sort_pairs(v: Vec<(Vec<u8>, u32)>, m: PairOrd) -> (r: Vec<(Vec<u8>, u32)>)
    ensures
        pair_views(r@) == sort_pairs_spec(pair_views(v@), m),
{
    let ghost orig = pair_views(v@);
    let mut rest = v;
    let mut out: Vec<(Vec<u8>, u32)> = Vec::new();
    let ghost mut seen: int = 0;
    while rest.len() > 0
        invariant
            0 <= seen <= orig.len(),
            pair_views(rest@) =~= orig.skip(seen),
            pair_views(out@) == sort_pairs_spec(orig.take(seen), m),
        decreases rest.len(),
    {
        let ghost rest_before = rest@;
        let x = rest.remove(0);
        let ghost xv = (x.0@, x.1);
        proof {
            lemma_pair_views_index(rest_before);
            lemma_pair_views_index(rest@);
            assert(seen < orig.len()) by {
                assert(pair_views(rest_before).len() == orig.skip(seen).len());
            }
            assert(xv == pair_views(rest_before)[0]);
            assert(orig.skip(seen)[0] == orig[seen]);
            assert(xv == orig[seen]);
            assert(pair_views(rest@) =~= orig.skip(seen + 1)) by {
                assert forall|j: int| 0 <= j < pair_views(rest@).len() implies pair_views(rest@)[j]
                    == orig.skip(seen + 1)[j] by {
                    assert(pair_views(rest@)[j] == (rest@[j].0@, rest@[j].1));
                    assert(rest@[j] == rest_before[j + 1]);
                    assert(pair_views(rest_before)[j + 1] == (rest_before[j + 1].0@, rest_before[j
                        + 1].1));
                    assert(orig.skip(seen)[j + 1] == orig[seen + 1 + j]);
                    assert(orig.skip(seen + 1)[j] == orig[seen + 1 + j]);
                }
            }
            assert(orig.take(seen + 1).drop_last() =~= orig.take(seen));
            assert(orig.take(seen + 1).last() == orig[seen]);
        }
        let ghost before = pair_views(out@);
        let mut pos: usize = out.len();
        while pos > 0 && !pair_le_exec(&out[pos - 1], &x, m)
            invariant
                pos <= out.len(),
                before == pair_views(out@),
                xv == (x.0@, x.1),
                forall|j: int| pos <= j < before.len() ==> !pair_le(#[trigger] before[j], xv, m),
            decreases pos,
        {
            proof {
                lemma_pair_views_index(out@);
                assert(before[pos - 1] == (out@[pos - 1].0@, out@[pos - 1].1));
            }
            pos -= 1;
        }
        proof {
            lemma_pair_views_index(out@);
            assert(pos > 0 ==> before[pos - 1] == (out@[pos - 1].0@, out@[pos - 1].1));
            lemma_insert_pair_pos(before, xv, m, pos as int);
        }
        let ghost out_before = out@;
        out.insert(pos, x);
        proof {
            lemma_pair_views_index(out_before);
            lemma_pair_views_index(out@);
            assert(pair_views(out@) =~= before.insert(pos as int, xv)) by {
                assert(out@ == out_before.insert(pos as int, x));
                assert forall|j: int| 0 <= j < pair_views(out@).len() implies pair_views(out@)[j]
                    == before.insert(pos as int, xv)[j] by {
                    assert(pair_views(out@)[j] == (out@[j].0@, out@[j].1));
                    if j < pos {
                        assert(out@[j] == out_before[j]);
                        assert(before.insert(pos as int, xv)[j] == before[j]);
                    } else if j == pos {
                        assert(out@[j] == x);
                        assert(before.insert(pos as int, xv)[j] == xv);
                    } else {
                        assert(out@[j] == out_before[j - 1]);
                        assert(before.insert(pos as int, xv)[j] == before[j - 1]);
                    }
                }
            }
            assert(before.insert(pos as int, xv) =~= before.subrange(0, pos as int) + seq![xv]
                + before.subrange(pos as int, before.len() as int));
            assert(pair_views(out@) == insert_pair(before, xv, m));
            assert(pair_views(out@) == sort_pairs_spec(orig.take(seen + 1), m));
            seen = seen + 1;
        }
    }
    proof {
        assert(orig.take(seen) =~= orig);
    }
    out
}

} // verus!
