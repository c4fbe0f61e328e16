//! The event log store: an append-only collection of encoded record lines
//! with the full-scan read path of the query module.
//!
//! The store itself holds the lines in memory; persistence (one UTF-8 text
//! file, one record per line) is a thin shell around `load` and
//! `get_raw_content`.
use vstd::prelude::*;

verus! {

use crate::bytes::CARRIAGE_RETURN;
use crate::bytes::NEWLINE;
use crate::bytes::copy_bytes;
use crate::bytes::seq_views;
use crate::bytes::split_bytes;
use crate::bytes::split_seq;
use crate::codec::encode;
use crate::codec::encode_spec;
use crate::domain::LogEntry;
use crate::domain::LogEntryV;
use crate::domain::LogMetadata;
use crate::domain::LogQuery;
use crate::domain::LogStats;
use crate::domain::views_of;
use crate::query::query_spec;
use crate::query::run_query;

/// Index of the first occurrence of `b`, or -1.
pub open spec fn first_idx(s: Seq<u8>, b: u8) -> int
    decreases s.len(),
{
    if s.len() == 0 {
        -1
    } else if s[0] == b {
        0
    } else {
        let r = first_idx(s.drop_first(), b);
        if r < 0 {
            -1
        } else {
            1 + r
        }
    }
}

pub proof fn lemma_first_idx_props(s: Seq<u8>, b: u8)
    ensures
        -1 <= first_idx(s, b) < s.len(),
        first_idx(s, b) >= 0 ==> s[first_idx(s, b)] == b,
        first_idx(s, b) >= 0 ==> forall|j: int| 0 <= j < first_idx(s, b) ==> s[j] != b,
        first_idx(s, b) < 0 ==> forall|j: int| 0 <= j < s.len() ==> s[j] != b,
    decreases s.len(),
{
    if s.len() > 0 && s[0] != b {
        lemma_first_idx_props(s.drop_first(), b);
        let r = first_idx(s.drop_first(), b);
        if r >= 0 {
            assert forall|j: int| 0 <= j < first_idx(s, b) implies s[j] != b by {
                if j > 0 {
                    assert(s.drop_first()[j - 1] == s[j]);
                }
            }
        } else {
            assert forall|j: int| 0 <= j < s.len() implies s[j] != b by {
                if j > 0 {
                    assert(s.drop_first()[j - 1] == s[j]);
                }
            }
        }
    }
}

pub proof fn lemma_first_idx_unique(s: Seq<u8>, b: u8, i: int)
    requires
        0 <= i < s.len(),
        s[i] == b,
        forall|j: int| 0 <= j < i ==> s[j] != b,
    ensures
        first_idx(s, b) == i,
    decreases s.len(),
{
    if i > 0 {
        lemma_first_idx_unique(s.drop_first(), b, i - 1);
        assert(forall|j: int|
            0 <= j < s.drop_first().len() ==> #[trigger] s.drop_first()[j] == s[j + 1]);
    }
}

/// Find the first occurrence of `b` at or after `from`, as an offset from
/// `from`.
fn find_from(s: &Vec<u8>, b: u8, from: usize) -> (r: Option<usize>)
    requires
        from <= s@.len(),
    ensures
        match r {
            Option::Some(rel) => rel < s@.len() - from && first_idx(s@.skip(from as int), b)
                == rel,
            Option::None => first_idx(s@.skip(from as int), b) == -1,
        },
{
    let ghost t = s@.skip(from as int);
    let len = s.len();
    let mut i: usize = from;
    while i < len
        invariant
            from <= i <= len,
            len == s@.len(),
            t == s@.skip(from as int),
            forall|j: int| 0 <= j < i - from ==> t[j] != b,
        decreases len - i,
    {
        proof {
            assert(t[i - from] == s@[i as int]);
        }
        if s[i] == b {
            proof {
                lemma_first_idx_unique(t, b, i - from);
            }
            return Option::Some(i - from);
        }
        i += 1;
    }
    proof {
        lemma_first_idx_props(t, b);
    }
    Option::None
}

/// The device label truncated to at most thirty bytes.
pub open spec fn take_thirty(d: Seq<u8>) -> Seq<u8> {
    if d.len() <= 30 {
        d
    } else {
        d.subrange(0, 30)
    }
}

/// The shortened device label: the content of the first parenthesised group
/// (usually the OS segment of a user-agent string), else the first thirty
/// bytes.
pub open spec fn shorten_spec(d: Seq<u8>) -> Seq<u8> {
    let i = first_idx(d, 40);
    if i >= 0 {
        let j = first_idx(d.skip(i), 41);
        if j >= 0 {
            d.subrange(i + 1, i + j)
        } else {
            take_thirty(d)
        }
    } else {
        take_thirty(d)
    }
}

/// One stored line per appended record, each terminated by a newline.
pub open spec fn raw_spec(records: Seq<Seq<u8>>) -> Seq<u8>
    decreases records.len(),
{
    if records.len() == 0 {
        Seq::<u8>::empty()
    } else {
        raw_spec(records.drop_last()) + records.last() + seq![NEWLINE]
    }
}

/// A line as read back from storage: any trailing carriage return removed,
/// matching line-based text readers.
pub open spec fn strip_cr(s: Seq<u8>) -> Seq<u8> {
    if s.len() > 0 && s.last() == CARRIAGE_RETURN {
        s.drop_last()
    } else {
        s
    }
}

/// The cleaned lines of a split file body.
pub open spec fn cleaned_lines(parts: Seq<Seq<u8>>) -> Seq<Seq<u8>>
    decreases parts.len(),
{
    if parts.len() == 0 {
        Seq::<Seq<u8>>::empty()
    } else {
        cleaned_lines(parts.drop_last()).push(strip_cr(parts.last()))
    }
}

/// The record lines of a raw file body.
pub open spec fn lines_of(content: Seq<u8>) -> Seq<Seq<u8>> {
    cleaned_lines(split_seq(content, NEWLINE))
}

/// Split a raw file body into cleaned lines.
pub fn split_lines(content: &Vec<u8>) -> (r: Vec<Vec<u8>>)
    ensures
        seq_views(r@) == lines_of(content@),
{
    let parts = split_bytes(content, NEWLINE);
    let ghost partsv = seq_views(parts@);
    let mut out: Vec<Vec<u8>> = Vec::new();
    let mut i: usize = 0;
    while i < parts.len()
        invariant
            i <= parts.len(),
            partsv == seq_views(parts@),
            seq_views(out@) == cleaned_lines(partsv.take(i as int)),
        decreases parts.len() - i,
    {
        proof {
            assert(partsv.take(i + 1 as int).drop_last() =~= partsv.take(i as int));
            assert(partsv.take(i + 1 as int).last() == parts@[i as int]@);
        }
        let ghost out_before = out@;
        let p = &parts[i];
        let mut line = copy_bytes(p);
        if line.len() > 0 && line[line.len() - 1] == CARRIAGE_RETURN {
            line.pop();
            proof {
                assert(line@ =~= strip_cr(parts@[i as int]@));
            }
        }
        out.push(line);
        proof {
            assert(seq_views(out@) =~= seq_views(out_before).push(strip_cr(parts@[i as int]@)));
        }
        i += 1;
    }
    proof {
        assert(partsv.take(partsv.len() as int) =~= partsv);
    }
    out
}

/// Run one query over a raw file body: decode every cleaned line, then
/// filter, compute statistics, sort, and paginate.
pub fn fetch_logs(content: &Vec<u8>, params: &LogQuery) -> (r: (
    Vec<LogEntry>,
    LogMetadata,
    LogStats,
))
    ensures
        ({
            let out = query_spec(lines_of(content@), params@);
            &&& views_of(r.0@) == out.page_data
            &&& r.1.total == out.total
            &&& r.1.page == out.page
            &&& r.1.page_size == out.page_size
            &&& r.1.total_pages == out.total_pages
            &&& r.2.unique_ips == out.unique_ips
            &&& r.2.unique_device_ids == out.unique_device_ids
            &&& r.2.active_users == out.active_users
            &&& r.2.last_activity@ == out.last_activity
            &&& crate::domain::pair_views(r.2.top_ips@) == out.top_ips
            &&& crate::domain::pair_views(r.2.requests_over_time@) == out.requests_over_time
        }),
{
    let lines = split_lines(content);
    run_query(&lines, params)
}

/// Shorten a device label for storage.
pub fn shorten_device(device: &Vec<u8>) -> (r: Vec<u8>)
    ensures
        r@ == shorten_spec(device@),
{
    let dlen = device.len();
    match find_from(device, 40, 0) {
        Option::Some(start) => {
            proof {
                assert(device@.skip(0) =~= device@);
            }
            match find_from(device, 41, start) {
                Option::Some(rel) => {
                    proof {
                        lemma_first_idx_props(device@, 40);
                        lemma_first_idx_props(device@.skip(start as int), 41);
                        assert(device@.skip(start as int)[0] == device@[start as int]);
                        assert(rel >= 1);
                        assert(start + rel < dlen);
                    }
                    // content between the parentheses
                    let mut out: Vec<u8> = Vec::new();
                    let mut i: usize = start + 1;
                    while i < start + rel
                        invariant
                            start + 1 <= i <= start + rel,
                            dlen == device@.len(),
                            start + rel < dlen,
                            out@ == device@.subrange(start + 1, i as int),
                        decreases start + rel - i,
                    {
                        out.push(device[i]);
                        assert(out@ =~= device@.subrange(start + 1, i + 1 as int));
                        i += 1;
                    }
                    out
                },
                Option::None => take_thirty_exec(device),
            }
        },
        Option::None => {
            proof {
                assert(device@.skip(0) =~= device@);
            }
            take_thirty_exec(device)
        },
    }
}

/// The first thirty bytes of a device label.
fn take_thirty_exec(d: &Vec<u8>) -> (r: Vec<u8>)
    ensures
        r@ == take_thirty(d@),
{
    let n: usize = if d.len() <= 30 {
        d.len()
    } else {
        30
    };
    let mut out: Vec<u8> = Vec::new();
    let mut i: usize = 0;
    while i < n
        invariant
            i <= n <= d@.len(),
            out@ == d@.subrange(0, i as int),
        decreases n - i,
    {
        out.push(d[i]);
        assert(out@ =~= d@.subrange(0, i + 1 as int));
        i += 1;
    }
    proof {
        if d@.len() <= 30 {
            assert(out@ =~= d@);
        }
    }
    out
}

/// The record a store append writes: the entry with its device label
/// shortened; the codec then sanitizes any remaining delimiters.
pub open spec fn stored_entry(e: LogEntryV) -> LogEntryV {
    LogEntryV { device: shorten_spec(e.device), ..e }
}

/// The view of an optional byte vector.
pub open spec fn opt_bytes(d: Option<Vec<u8>>) -> Option<Seq<u8>> {
    match d {
        Option::Some(v) => Option::Some(v@),
        Option::None => Option::None,
    }
}

/// The record an event logger writes for one lifecycle transition.
pub open spec fn logged_record(
    ts: Seq<u8>,
    ip: Seq<u8>,
    device: Seq<u8>,
    device_id: Seq<u8>,
    action: Seq<u8>,
    count: u32,
    duration: Option<Seq<u8>>,
) -> LogEntryV {
    LogEntryV {
        timestamp: ts,
        ip,
        device,
        device_id,
        action,
        count,
        duration,
        raw: Seq::<u8>::empty(),
    }
}

/// A lifecycle-event sink: each call appends one record, stamped with the
/// current wall clock.
pub trait EventLogger {
    /// The lines logged so far, oldest first.
    spec fn logged(&self) -> Seq<Seq<u8>>;

    /// Log one lifecycle record.  The timestamp is drawn from the wall
    /// clock, so only its shape (no delimiter) is promised.
    fn log(
        &mut self,
        ip: &Vec<u8>,
        device: &Vec<u8>,
        device_id: &Vec<u8>,
        action: &Vec<u8>,
        count: u32,
        duration: Option<Vec<u8>>,
    )
        ensures
            exists|ts: Seq<u8>|
                crate::codec::comma_free(ts) && final(self).logged() == old(self).logged().push(
                    #[trigger] encode_spec(
                        stored_entry(
                            logged_record(
                                ts,
                                ip@,
                                device@,
                                device_id@,
                                action@,
                                count,
                                opt_bytes(duration),
                            ),
                        ),
                    ),
                ),
    ;
}

/// The append-only store interface of the read/write path.
pub trait LogRepository {
    /// The stored lines, oldest first.
    spec fn records(&self) -> Seq<Seq<u8>>;

    /// Append one record as an encoded line.
    fn append(&mut self, entry: &LogEntry)
        ensures
            final(self).records() == old(self).records().push(encode_spec(stored_entry(entry@))),
    ;

    /// Run one query over the stored records.
    fn find_all(&self, params: &LogQuery) -> (r: (Vec<LogEntry>, LogMetadata, LogStats))
        ensures
            ({
                let out = query_spec(self.records(), params@);
                &&& views_of(r.0@) == out.page_data
                &&& r.1.total == out.total
                &&& r.1.page == out.page
                &&& r.1.page_size == out.page_size
                &&& r.1.total_pages == out.total_pages
                &&& r.2.unique_ips == out.unique_ips
                &&& r.2.unique_device_ids == out.unique_device_ids
                &&& r.2.active_users == out.active_users
                &&& r.2.last_activity@ == out.last_activity
                &&& crate::domain::pair_views(r.2.top_ips@) == out.top_ips
                &&& crate::domain::pair_views(r.2.requests_over_time@) == out.requests_over_time
            }),
    ;

    /// Truncate the store to empty.
    fn clear(&mut self)
        ensures
            final(self).records() == Seq::<Seq<u8>>::empty(),
    ;

    /// The full store body for export.
    fn get_raw_content(&self) -> (r: Vec<u8>)
        ensures
            r@ == raw_spec(self.records()),
    ;
}

/// The concrete store: appended record lines held in memory; a file-backed
/// shell persists `get_raw_content` and reloads with `load`.
pub struct FileLogRepository {
    /// The stored lines, oldest first.
    pub lines: Vec<Vec<u8>>,
}

impl FileLogRepository {
    /// An empty store.
    pub fn new() -> (r: FileLogRepository)
        ensures
            r.records() == Seq::<Seq<u8>>::empty(),
    {
        let r = FileLogRepository { lines: Vec::new() };
        proof {
            assert(r.records() =~= Seq::<Seq<u8>>::empty());
        }
        r
    }

    /// A store holding the records of a raw file body.
    pub fn load(content: &Vec<u8>) -> (r: FileLogRepository)
        ensures
            r.records() == lines_of(content@),
    {
        FileLogRepository { lines: split_lines(content) }
    }

    /// Shorten a device label as `append` stores it.
    pub fn shorten_device(device: &Vec<u8>) -> (r: Vec<u8>)
        ensures
            r@ == shorten_spec(device@),
    {
        shorten_device(device)
    }
}

impl EventLogger for FileLogRepository {
    open spec fn logged(&self) -> Seq<Seq<u8>> {
        seq_views(self.lines@)
    }

    fn log(
        &mut self,
        ip: &Vec<u8>,
        device: &Vec<u8>,
        device_id: &Vec<u8>,
        action: &Vec<u8>,
        count: u32,
        duration: Option<Vec<u8>>,
    ) {
        let ghost durv = opt_bytes(duration);
        let ts = crate::clock::now_line_timestamp();
        let ghost tsv = ts@;
        let entry = LogEntry {
            timestamp: ts,
            ip: copy_bytes(ip),
            device: copy_bytes(device),
            device_id: copy_bytes(device_id),
            action: copy_bytes(action),
            count,
            duration,
            raw: Vec::new(),
        };
        proof {
            assert(entry@ =~= logged_record(tsv, ip@, device@, device_id@, action@, count, durv));
        }
        self.append(&entry);
        proof {
            assert(crate::codec::comma_free(tsv) && self.logged() == old(self).logged().push(
                encode_spec(
                    stored_entry(
                        logged_record(tsv, ip@, device@, device_id@, action@, count, durv),
                    ),
                ),
            ));
        }
    }
}

impl LogRepository for FileLogRepository {
    open spec fn records(&self) -> Seq<Seq<u8>> {
        seq_views(self.lines@)
    }

    fn append(&mut self, entry: &LogEntry) {
        let device = shorten_device(&entry.device);
        let stored = LogEntry {
            timestamp: copy_bytes(&entry.timestamp),
            ip: copy_bytes(&entry.ip),
            device,
            device_id: copy_bytes(&entry.device_id),
            action: copy_bytes(&entry.action),
            count: entry.count,
            duration: match &entry.duration {
                Option::Some(d) => Option::Some(copy_bytes(d)),
                Option::None => Option::None,
            },
            raw: copy_bytes(&entry.raw),
        };
        assert(stored@ =~= stored_entry(entry@));
        let line = encode(&stored);
        let ghost before = self.lines@;
        self.lines.push(line);
        proof {
            assert(seq_views(self.lines@) =~= seq_views(before).push(
                encode_spec(stored_entry(entry@)),
            ));
        }
    }

    fn find_all(&self, params: &LogQuery) -> (r: (Vec<LogEntry>, LogMetadata, LogStats)) {
        run_query(&self.lines, params)
    }

    fn clear(&mut self) {
        self.lines = Vec::new();
        proof {
            assert(seq_views(self.lines@) =~= Seq::<Seq<u8>>::empty());
        }
    }

    fn get_raw_content(&self) -> (r: Vec<u8>) {
        let mut out: Vec<u8> = Vec::new();
        let mut i: usize = 0;
        while i < self.lines.len()
            invariant
                i <= self.lines@.len(),
                out@ == raw_spec(seq_views(self.lines@).take(i as int)),
            decreases self.lines@.len() - i,
        {
            proof {
                assert(seq_views(self.lines@).take(i + 1 as int).drop_last() =~= seq_views(
                    self.lines@,
                ).take(i as int));
                assert(seq_views(self.lines@).take(i + 1 as int).last() == self.lines@[i as int]@);
            }
            let ghost out_before = out@;
            let line = &self.lines[i];
            let mut j: usize = 0;
            while j < line.len()
                invariant
                    j <= line@.len(),
                    out@ == out_before + line@.subrange(0, j as int),
                decreases line@.len() - j,
            {
                out.push(line[j]);
                assert(out@ =~= out_before + line@.subrange(0, j + 1 as int));
                j += 1;
            }
            out.push(NEWLINE);
            proof {
                assert(line@.subrange(0, line@.len() as int) =~= line@);
                assert(out@ =~= out_before + self.lines@[i as int]@ + seq![NEWLINE]);
            }
            i += 1;
        }
        proof {
            assert(seq_views(self.lines@).take(seq_views(self.lines@).len() as int) =~= seq_views(
                self.lines@,
            ));
        }
        out
    }
}

} // verus!
