//! Core data model: event records, query parameters, query results, and the
//! metric snapshot types pushed to subscribers.
//!
//! All textual fields are UTF-8 byte vectors; their mathematical model is
//! `Seq<u8>`.
use vstd::prelude::*;

verus! {

use crate::bytes::bytes_of;
use crate::bytes::eq_str_bytes;
use vstd::string::StringSliceAdditionalSpecFns;

/// One immutable fact about a connection lifecycle transition.
#[derive(Debug, Clone)]
pub struct LogEntry {
    /// `YYYY-MM-DD HH:MM:SS +ZZZZ`, sortable lexicographically.
    pub timestamp: Vec<u8>,
    /// Caller-reported or proxy-derived network origin.
    pub ip: Vec<u8>,
    /// Shortened human-readable client descriptor.
    pub device: Vec<u8>,
    /// Stable identity token for one logical connection.
    pub device_id: Vec<u8>,
    /// `CONNECTED` or `DISCONNECTED` for records this crate writes; read
    /// back verbatim from the store.
    pub action: Vec<u8>,
    /// Registry size immediately after this transition.
    pub count: u32,
    /// Session duration, present only on disconnect records that close a
    /// tracked session.
    pub duration: Option<Vec<u8>>,
    /// The stored line this record was decoded from (or encodes to).
    pub raw: Vec<u8>,
}

/// Mathematical model of a `LogEntry`.
#[verifier::ext_equal]
pub ghost struct LogEntryV {
    pub timestamp: Seq<u8>,
    pub ip: Seq<u8>,
    pub device: Seq<u8>,
    pub device_id: Seq<u8>,
    pub action: Seq<u8>,
    pub count: u32,
    pub duration: Option<Seq<u8>>,
    pub raw: Seq<u8>,
}

impl View for LogEntry {
    type V = LogEntryV;

    open spec fn view(&self) -> LogEntryV {
        LogEntryV {
            timestamp: self.timestamp@,
            ip: self.ip@,
            device: self.device@,
            device_id: self.device_id@,
            action: self.action@,
            count: self.count,
            duration: match self.duration {
                Option::Some(d) => Option::Some(d@),
                Option::None => Option::None,
            },
            raw: self.raw@,
        }
    }
}

/// The views of a sequence of records.
pub open spec fn views_of(s: Seq<LogEntry>) -> Seq<LogEntryV> {
    s.map_values(|e: LogEntry| e@)
}

/// The views of a sequence of key/count pairs.
pub open spec fn pair_views(s: Seq<(Vec<u8>, u32)>) -> Seq<(Seq<u8>, u32)> {
    s.map_values(|p: (Vec<u8>, u32)| (p.0@, p.1))
}

pub proof fn lemma_pair_views_index(s: Seq<(Vec<u8>, u32)>)
    ensures
        pair_views(s).len() == s.len(),
        forall|i: int|
            0 <= i < s.len() ==> #[trigger] pair_views(s)[i] == (s[i].0@, s[i].1),
{
}

pub proof fn lemma_views_of_index(s: Seq<LogEntry>)
    ensures
        views_of(s).len() == s.len(),
        forall|i: int| 0 <= i < s.len() ==> #[trigger] views_of(s)[i] == s[i]@,
{
}

/// One read request's shape.
#[derive(Debug)]
pub struct LogQuery {
    /// 1-based page number.
    pub page: usize,
    /// Records per page.
    pub page_size: usize,
    /// Optional case-insensitive search text.
    pub q: Option<Vec<u8>>,
    /// Optional comma-separated list of IP substrings to exclude.
    pub exclude_ip: Option<Vec<u8>>,
    /// One of `timestamp`, `count`, `ip`, `device`, `device_id`, `action`;
    /// anything else sorts by timestamp.
    pub sort_by: Vec<u8>,
    /// `asc` or anything else for descending.
    pub order: Vec<u8>,
}

/// Mathematical model of a `LogQuery`.
#[verifier::ext_equal]
pub ghost struct LogQueryV {
    pub page: int,
    pub page_size: int,
    pub q: Option<Seq<u8>>,
    pub exclude_ip: Option<Seq<u8>>,
    pub sort_by: Seq<u8>,
    pub order: Seq<u8>,
}

impl View for LogQuery {
    type V = LogQueryV;

    open spec fn view(&self) -> LogQueryV {
        LogQueryV {
            page: self.page as int,
            page_size: self.page_size as int,
            q: match self.q {
                Option::Some(q) => Option::Some(q@),
                Option::None => Option::None,
            },
            exclude_ip: match self.exclude_ip {
                Option::Some(x) => Option::Some(x@),
                Option::None => Option::None,
            },
            sort_by: self.sort_by@,
            order: self.order@,
        }
    }
}

/// Pagination metadata of one query result.
#[derive(Debug)]
pub struct LogMetadata {
    pub total: usize,
    pub page: usize,
    pub page_size: usize,
    pub total_pages: usize,
}

/// Summary statistics computed over the filtered record set.
#[derive(Debug)]
pub struct LogStats {
    pub unique_ips: usize,
    pub unique_device_ids: usize,
    pub active_users: u32,
    pub last_activity: Vec<u8>,
    /// IPs with their occurrence counts, most frequent first, at most ten.
    pub top_ips: Vec<(Vec<u8>, u32)>,
    /// Hourly buckets (`YYYY-MM-DD HH:00`) with counts, ascending by hour.
    pub requests_over_time: Vec<(Vec<u8>, u32)>,
}

/// A full query response: one page of records plus metadata and statistics.
#[derive(Debug)]
pub struct LogsResponse {
    pub data: Vec<LogEntry>,
    pub meta: LogMetadata,
    pub stats: LogStats,
}

/// Resource metric snapshot formatted for display.
#[derive(Debug, Clone)]
pub struct SystemMetrics {
    pub uptime: Vec<u8>,
    pub cpu: Vec<u8>,
    pub ram: Vec<u8>,
}

/// Presence metric snapshot pushed to subscribers on every join/leave.
#[derive(Debug, Clone, Copy, PartialEq, Eq, Structural)]
pub struct UserMetrics {
    pub active_users: u32,
    pub total_users: u32,
}

/// Combined snapshot used for the initial dashboard render.
#[derive(Debug, Clone)]
pub struct DashboardStats {
    pub active_users: u32,
    pub total_users: u32,
    pub uptime: Vec<u8>,
    pub cpu: Vec<u8>,
    pub ram: Vec<u8>,
}

/// One navigation menu entry.
#[derive(Debug, Clone)]
pub struct NavItem {
    pub label: Vec<u8>,
    pub href: Vec<u8>,
    pub active: bool,
}

/// One currently-active connection, keyed by its identity token.
#[derive(Debug)]
pub struct ActiveSession {
    pub device_id: Vec<u8>,
    pub ip: Vec<u8>,
    pub device: Vec<u8>,
    /// Monotonic clock reading (seconds) taken at join time.
    pub connected_at: u64,
}

/// Read-side snapshot of one active session.
#[derive(Debug)]
pub struct ActiveSessionView {
    pub device_id: Vec<u8>,
    pub ip: Vec<u8>,
    pub device: Vec<u8>,
    /// The join instant rendered as decimal seconds.
    pub connected_at: Vec<u8>,
    /// Elapsed session time rendered by the duration formatter.
    pub duration: Vec<u8>,
}

/// One row of the active-users listing.
#[derive(Debug, Clone)]
pub struct ActiveUserDisplay {
    pub device_id: Vec<u8>,
    pub ip: Vec<u8>,
    pub device: Vec<u8>,
    pub duration: Vec<u8>,
}

pub fn default_page() -> (r: usize)
    ensures
        r == 1,
{
    1
}

pub fn default_page_size() -> (r: usize)
    ensures
        r == 50,
{
    50
}

pub fn default_sort_by() -> (r: Vec<u8>)
    ensures
        r@ == "timestamp".spec_bytes(),
{
    bytes_of("timestamp")
}

pub fn default_order() -> (r: Vec<u8>)
    ensures
        r@ == "desc".spec_bytes(),
{
    bytes_of("desc")
}

impl LogQuery {
    /// The parameter set the dashboard uses when it only needs statistics.
    pub fn overview() -> (r: LogQuery)
        ensures
            r@.page == 1,
            r@.page_size == 1,
            r@.q is None,
            r@.exclude_ip is None,
            r@.sort_by == "timestamp".spec_bytes(),
            r@.order == "desc".spec_bytes(),
    {
        LogQuery {
            page: default_page(),
            page_size: 1,
            q: Option::None,
            exclude_ip: Option::None,
            sort_by: default_sort_by(),
            order: default_order(),
        }
    }
}

/// The navigation menu: a single overview entry, marked active when the
/// current path is the admin root.
pub fn get_nav_menu(current_path: &str) -> (r: Vec<NavItem>)
    ensures
        r@.len() == 1,
        r@[0].label@ == "Overview".spec_bytes(),
        r@[0].href@ == "/admin".spec_bytes(),
        r@[0].active == (current_path.spec_bytes() == "/admin".spec_bytes()),
{
    let path = bytes_of(current_path);
    let active = eq_str_bytes(&path, "/admin");
    let mut items: Vec<NavItem> = Vec::new();
    items.push(
        NavItem { label: bytes_of("Overview"), href: bytes_of("/admin"), active },
    );
    items
}

} // verus!
