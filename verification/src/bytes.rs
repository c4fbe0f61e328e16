//! Byte-sequence utilities shared by the record codec and the query pipeline.
//!
//! Records travel as comma-delimited UTF-8 lines, so all text handling in this
//! crate is done on byte vectors, with `Seq<u8>` as the mathematical model.
use vstd::prelude::*;

verus! {

use vstd::string::StringSliceAdditionalSpecFns;

pub const COMMA: u8 = 44;

/// The views of a sequence of byte vectors.
pub open spec fn seq_views(s: Seq<Vec<u8>>) -> Seq<Seq<u8>> {
    s.map_values(|p: Vec<u8>| p@)
}
pub const NEWLINE: u8 = 10;
pub const CARRIAGE_RETURN: u8 = 13;

/// ASCII lowercase of one byte.
pub open spec fn lower_byte(b: u8) -> u8 {
    if 65 <= b && b <= 90 {
        (b + 32) as u8
    } else {
        b
    }
}

/// ASCII lowercase of a byte sequence.
pub open spec fn lower_seq(s: Seq<u8>) -> Seq<u8> {
    s.map_values(|b: u8| lower_byte(b))
}

/// True when `hay` contains `needle` as a contiguous subsequence.
pub open spec fn contains_seq(hay: Seq<u8>, needle: Seq<u8>) -> bool {
    exists|i: int|
        0 <= i && i + needle.len() <= hay.len() && #[trigger] hay.subrange(i, i + needle.len())
            == needle
}

/// ASCII lowercase of a byte vector.
pub fn to_lower(a: &Vec<u8>) -> (r: Vec<u8>)
    ensures
        r@ == lower_seq(a@),
{
    let mut out: Vec<u8> = Vec::new();
    let mut i: usize = 0;
    while i < a.len()
        invariant
            i <= a.len(),
            out@ == lower_seq(a@.subrange(0, i as int)),
        decreases a.len() - i,
    {
        let b = a[i];
        let l: u8 = if 65 <= b && b <= 90 {
            b + 32
        } else {
            b
        };
        out.push(l);
        assert(a@.subrange(0, i + 1 as int).drop_last() =~= a@.subrange(0, i as int));
        assert(lower_seq(a@.subrange(0, i + 1 as int)) =~= lower_seq(
            a@.subrange(0, i as int),
        ).push(lower_byte(a@[i as int])));
        i += 1;
    }
    assert(a@.subrange(0, a@.len() as int) =~= a@);
    out
}

/// Compare two byte vectors for equality.
pub fn bytes_eq(a: &Vec<u8>, b: &Vec<u8>) -> (r: bool)
    ensures
        r == (a@ == b@),
{
    if a.len() != b.len() {
        assert(a@ != b@);
        return false;
    }
    let mut i: usize = 0;
    while i < a.len()
        invariant
            i <= a.len(),
            a.len() == b.len(),
            forall|j: int| 0 <= j < i ==> a@[j] == b@[j],
        decreases a.len() - i,
    {
        if a[i] != b[i] {
            assert(a@ != b@);
            return false;
        }
        i += 1;
    }
    assert(a@ =~= b@);
    true
}

/// Owned copy of a byte vector.
pub fn copy_bytes(a: &Vec<u8>) -> (r: Vec<u8>)
    ensures
        r@ == a@,
{
    let mut out: Vec<u8> = Vec::new();
    let mut i: usize = 0;
    while i < a.len()
        invariant
            i <= a.len(),
            out@ == a@.subrange(0, i as int),
        decreases a.len() - i,
    {
        out.push(a[i]);
        assert(out@ =~= a@.subrange(0, i + 1 as int));
        i += 1;
    }
    assert(out@ =~= a@);
    out
}

/// Copy the UTF-8 bytes of a string slice into an owned byte vector.
pub fn bytes_of(s: &str) -> (r: Vec<u8>)
    ensures
        r@ == s.spec_bytes(),
{
    let bs = s.as_bytes();
    let mut v: Vec<u8> = Vec::new();
    let mut i: usize = 0;
    while i < bs.len()
        invariant
            i <= bs.len(),
            bs@ == s.spec_bytes(),
            v@ == bs@.subrange(0, i as int),
        decreases bs.len() - i,
    {
        v.push(bs[i]);
        assert(v@ =~= bs@.subrange(0, i + 1 as int));
        i += 1;
    }
    assert(v@ =~= bs@);
    v
}

/// Compare a byte vector against the UTF-8 bytes of a string slice.
pub fn eq_str_bytes(v: &Vec<u8>, s: &str) -> (r: bool)
    ensures
        r == (v@ == s.spec_bytes()),
{
    let bs = s.as_bytes();
    if v.len() != bs.len() {
        assert(v@ != bs@);
        return false;
    }
    let mut i: usize = 0;
    while i < v.len()
        invariant
            i <= v.len(),
            v.len() == bs.len(),
            bs@ == s.spec_bytes(),
            forall|j: int| 0 <= j < i ==> v@[j] == bs@[j],
        decreases v.len() - i,
    {
        if v[i] != bs[i] {
            assert(v@ != bs@);
            return false;
        }
        i += 1;
    }
    assert(v@ =~= bs@);
    true
}

/// True when `hay[pos .. pos + needle.len()]` equals `needle`.
fn matches_at(hay: &Vec<u8>, needle: &Vec<u8>, pos: usize) -> (r: bool)
    requires
        pos + needle@.len() <= hay@.len(),
    ensures
        r == (hay@.subrange(pos as int, pos + needle@.len()) == needle@),
{
    let hay_len = hay.len();
    let mut j: usize = 0;
    while j < needle.len()
        invariant
            j <= needle.len(),
            hay_len == hay@.len(),
            pos + needle@.len() <= hay@.len(),
            forall|k: int| 0 <= k < j ==> hay@[pos + k] == needle@[k],
        decreases needle.len() - j,
    {
        if hay[pos + j] != needle[j] {
            assert(hay@.subrange(pos as int, pos + needle@.len())[j as int] == hay@[pos + j]);
            return false;
        }
        j += 1;
    }
    assert(hay@.subrange(pos as int, pos + needle@.len()) =~= needle@);
    true
}

/// Substring search over byte vectors.
pub fn contains_bytes(hay: &Vec<u8>, needle: &Vec<u8>) -> (r: bool)
    ensures
        r == contains_seq(hay@, needle@),
{
    if needle.len() > hay.len() {
        assert(!contains_seq(hay@, needle@));
        return false;
    }
    if needle.len() == 0 {
        assert(contains_seq(hay@, needle@)) by {
            assert(hay@.subrange(0, 0 + needle@.len() as int) =~= needle@);
        }
        return true;
    }
    let bound: usize = hay.len() - needle.len() + 1;
    let mut i: usize = 0;
    while i < bound
        invariant
            0 < needle.len() <= hay.len(),
            bound == hay.len() - needle.len() + 1,
            i <= bound,
            forall|k: int|
                0 <= k < i ==> #[trigger] hay@.subrange(k, k + needle@.len()) != needle@,
        decreases bound - i,
    {
        if matches_at(hay, needle, i) {
            assert(contains_seq(hay@, needle@));
            return true;
        }
        i += 1;
    }
    assert(!contains_seq(hay@, needle@));
    false
}

/// ASCII whitespace, as trimmed from the ends of user-supplied filter terms.
pub open spec fn is_space(b: u8) -> bool {
    b == 32 || b == 9 || b == 10 || b == 13
}

/// `s` with leading whitespace removed.
pub open spec fn trim_front(s: Seq<u8>) -> Seq<u8>
    decreases s.len(),
{
    if s.len() > 0 && is_space(s[0]) {
        trim_front(s.drop_first())
    } else {
        s
    }
}

/// `s` with trailing whitespace removed.
pub open spec fn trim_back(s: Seq<u8>) -> Seq<u8>
    decreases s.len(),
{
    if s.len() > 0 && is_space(s.last()) {
        trim_back(s.drop_last())
    } else {
        s
    }
}

/// `s` with whitespace removed from both ends.
pub open spec fn trim_seq(s: Seq<u8>) -> Seq<u8> {
    trim_back(trim_front(s))
}

/// Remove ASCII whitespace from both ends of a byte vector.
pub fn trim_bytes(s: &Vec<u8>) -> (r: Vec<u8>)
    ensures
        r@ == trim_seq(s@),
{
    let len = s.len();
    assert(s@.subrange(0, len as int) =~= s@);
    let mut start: usize = 0;
    while start < len && (s[start] == 32 || s[start] == 9 || s[start] == 10 || s[start] == 13)
        invariant
            start <= len,
            len == s@.len(),
            trim_front(s@) == trim_front(s@.subrange(start as int, len as int)),
        decreases len - start,
    {
        assert(s@.subrange(start as int, len as int).drop_first() =~= s@.subrange(
            start + 1 as int,
            len as int,
        ));
        start += 1;
    }
    assert(trim_front(s@) == s@.subrange(start as int, len as int));
    let mut end: usize = len;
    while end > start && (s[end - 1] == 32 || s[end - 1] == 9 || s[end - 1] == 10 || s[end - 1]
        == 13)
        invariant
            start <= end <= len,
            len == s@.len(),
            trim_front(s@) == s@.subrange(start as int, len as int),
            trim_seq(s@) == trim_back(s@.subrange(start as int, end as int)),
        decreases end,
    {
        assert(s@.subrange(start as int, end as int).drop_last() =~= s@.subrange(
            start as int,
            end - 1 as int,
        ));
        end -= 1;
    }
    assert(trim_seq(s@) == s@.subrange(start as int, end as int));
    let mut out: Vec<u8> = Vec::new();
    let mut i: usize = start;
    while i < end
        invariant
            start <= i <= end <= len,
            len == s@.len(),
            out@ == s@.subrange(start as int, i as int),
        decreases end - i,
    {
        out.push(s[i]);
        assert(out@ =~= s@.subrange(start as int, i + 1 as int));
        i += 1;
    }
    out
}

/// Lexicographic (byte-wise) less-or-equal on byte sequences; this is the
/// order `Ord` on `str` and on `[u8]` uses.
pub open spec fn lex_le(a: Seq<u8>, b: Seq<u8>) -> bool
    decreases a.len(),
{
    if a.len() == 0 {
        true
    } else if b.len() == 0 {
        false
    } else if a[0] < b[0] {
        true
    } else if a[0] > b[0] {
        false
    } else {
        lex_le(a.drop_first(), b.drop_first())
    }
}

proof fn lemma_lex_le_skip(a: Seq<u8>, b: Seq<u8>, i: int)
    requires
        0 <= i <= a.len(),
        i <= b.len(),
        forall|j: int| 0 <= j < i ==> a[j] == b[j],
    ensures
        lex_le(a, b) == lex_le(a.skip(i), b.skip(i)),
    decreases i,
{
    if i > 0 {
        lemma_lex_le_skip(a.drop_first(), b.drop_first(), i - 1);
        assert(a.drop_first().skip(i - 1) =~= a.skip(i));
        assert(b.drop_first().skip(i - 1) =~= b.skip(i));
    } else {
        assert(a.skip(0) =~= a);
        assert(b.skip(0) =~= b);
    }
}

/// Lexicographic less-or-equal on byte vectors.
pub fn lex_le_bytes(a: &Vec<u8>, b: &Vec<u8>) -> (r: bool)
    ensures
        r == lex_le(a@, b@),
{
    let mut i: usize = 0;
    while i < a.len() && i < b.len()
        invariant
            i <= a.len(),
            i <= b.len(),
            forall|j: int| 0 <= j < i ==> a@[j] == b@[j],
        decreases a.len() - i,
    {
        if a[i] < b[i] {
            proof {
                lemma_lex_le_skip(a@, b@, i as int);
                assert(a@.skip(i as int)[0] == a@[i as int]);
                assert(b@.skip(i as int)[0] == b@[i as int]);
            }
            return true;
        }
        if a[i] > b[i] {
            proof {
                lemma_lex_le_skip(a@, b@, i as int);
                assert(a@.skip(i as int)[0] == a@[i as int]);
                assert(b@.skip(i as int)[0] == b@[i as int]);
            }
            return false;
        }
        i += 1;
    }
    proof {
        lemma_lex_le_skip(a@, b@, i as int);
    }
    if i == a.len() {
        assert(a@.skip(i as int).len() == 0);
        true
    } else {
        assert(b@.skip(i as int).len() == 0);
        assert(a@.skip(i as int).len() > 0);
        false
    }
}

/// Split `s` at every occurrence of `sep`.  Splitting the empty sequence
/// yields one empty piece, matching `str::split`.
pub open spec fn split_seq(s: Seq<u8>, sep: u8) -> Seq<Seq<u8>>
    decreases s.len(),
{
    if s.len() == 0 {
        seq![Seq::<u8>::empty()]
    } else {
        let prev = split_seq(s.drop_last(), sep);
        if s.last() == sep {
            prev + seq![Seq::<u8>::empty()]
        } else {
            prev.update(prev.len() - 1, prev.last().push(s.last()))
        }
    }
}

pub proof fn lemma_split_seq_len(s: Seq<u8>, sep: u8)
    ensures
        split_seq(s, sep).len() >= 1,
    decreases s.len(),
{
    if s.len() > 0 {
        lemma_split_seq_len(s.drop_last(), sep);
    }
}

/// Split a byte vector at every occurrence of `sep`.
pub fn split_bytes(s: &Vec<u8>, sep: u8) -> (r: Vec<Vec<u8>>)
    ensures
        seq_views(r@) == split_seq(s@, sep),
{
    let mut done: Vec<Vec<u8>> = Vec::new();
    let mut cur: Vec<u8> = Vec::new();
    let mut i: usize = 0;
    while i < s.len()
        invariant
            i <= s.len(),
            seq_views(done@).push(cur@) == split_seq(s@.subrange(0, i as int), sep),
        decreases s.len() - i,
    {
        proof {
            assert(s@.subrange(0, i + 1 as int).drop_last() =~= s@.subrange(0, i as int));
            lemma_split_seq_len(s@.subrange(0, i as int), sep);
        }
        let b = s[i];
        if b == sep {
            done.push(cur);
            cur = Vec::new();
            assert(seq_views(done@).push(cur@) =~= split_seq(s@.subrange(0, i + 1 as int), sep));
        } else {
            cur.push(b);
            assert(seq_views(done@).push(cur@) =~= split_seq(s@.subrange(0, i + 1 as int), sep));
        }
        i += 1;
    }
    assert(s@.subrange(0, s@.len() as int) =~= s@);
    done.push(cur);
    assert(seq_views(done@) =~= split_seq(s@, sep));
    done
}

/// The first comma-separated piece of a header value, trimmed.  A
/// forwarding header lists origins oldest first, so this is the client's
/// reported network origin.
pub fn first_list_item(header: &Vec<u8>) -> (r: Vec<u8>)
    ensures
        r@ == trim_seq(split_seq(header@, COMMA)[0]),
{
    let parts = split_bytes(header, COMMA);
    proof {
        lemma_split_seq_len(header@, COMMA);
        assert(seq_views(parts@)[0] == parts@[0]@);
    }
    trim_bytes(&parts[0])
}

/// Appending a separator-free tail extends the last piece of a split.
pub proof fn lemma_split_append_clean(p: Seq<u8>, t: Seq<u8>, sep: u8)
    requires
        forall|j: int| 0 <= j < t.len() ==> t[j] != sep,
    ensures
        split_seq(p + t, sep) == split_seq(p, sep).update(
            split_seq(p, sep).len() - 1,
            split_seq(p, sep).last() + t,
        ),
    decreases t.len(),
{
    lemma_split_seq_len(p, sep);
    if t.len() == 0 {
        assert(p + t =~= p);
        assert(split_seq(p, sep).last() + t =~= split_seq(p, sep).last());
        assert(split_seq(p, sep).update(
            split_seq(p, sep).len() - 1,
            split_seq(p, sep).last() + t,
        ) =~= split_seq(p, sep));
    } else {
        lemma_split_append_clean(p, t.drop_last(), sep);
        assert((p + t).drop_last() =~= p + t.drop_last());
        assert((p + t).last() == t.last());
        let prev = split_seq(p + t.drop_last(), sep);
        assert(split_seq(p + t, sep) == prev.update(prev.len() - 1, prev.last().push(t.last())));
        assert(split_seq(p, sep).last() + t =~= (split_seq(p, sep).last() + t.drop_last()).push(
            t.last(),
        ));
        assert(split_seq(p + t, sep) =~= split_seq(p, sep).update(
            split_seq(p, sep).len() - 1,
            split_seq(p, sep).last() + t,
        ));
    }
}

/// Appending the separator adds one fresh empty piece.
pub proof fn lemma_split_append_sep(p: Seq<u8>, sep: u8)
    ensures
        split_seq(p + seq![sep], sep) == split_seq(p, sep) + seq![Seq::<u8>::empty()],
{
    assert((p + seq![sep]).drop_last() =~= p);
    assert((p + seq![sep]).last() == sep);
}

} // verus!
