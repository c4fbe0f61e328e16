use presence_log::domain::{default_order, default_page, default_page_size, default_sort_by, LogQuery};
use presence_log::store::fetch_logs;

fn b(s: &str) -> Vec<u8> {
    s.as_bytes().to_vec()
}

fn params(page: usize, page_size: usize, sort_by: &str, order: &str) -> LogQuery {
    LogQuery {
        page,
        page_size,
        q: None,
        exclude_ip: None,
        sort_by: b(sort_by),
        order: b(order),
    }
}

fn two_record_store() -> Vec<u8> {
    b("2024-01-01 10:00:00 +0000,1.2.3.4,Chrome,dev1,CONNECTED,1,\n\
       2024-01-01 10:05:00 +0000,1.2.3.4,Chrome,dev1,DISCONNECTED,0,5m 0s\n")
}

#[test]
fn two_records_sorted_ascending() {
    let content = two_record_store();
    let (page, meta, stats) = fetch_logs(&content, &params(1, 10, "timestamp", "asc"));
    assert_eq!(meta.total, 2);
    assert_eq!(page.len(), 2);
    assert_eq!(page[0].action, b("CONNECTED"));
    assert_eq!(page[1].action, b("DISCONNECTED"));
    assert_eq!(stats.unique_ips, 1);
    assert_eq!(stats.active_users, 0);
    assert_eq!(stats.last_activity, b("2024-01-01 10:05:00 +0000"));
}

#[test]
fn query_is_idempotent_on_unchanged_store() {
    let content = two_record_store();
    let p = params(1, 10, "timestamp", "asc");
    let (page1, meta1, stats1) = fetch_logs(&content, &p);
    let (page2, meta2, stats2) = fetch_logs(&content, &p);
    assert_eq!(page1.len(), page2.len());
    for (a, c) in page1.iter().zip(page2.iter()) {
        assert_eq!(a.raw, c.raw);
    }
    assert_eq!(meta1.total, meta2.total);
    assert_eq!(meta1.total_pages, meta2.total_pages);
    assert_eq!(stats1.unique_ips, stats2.unique_ips);
    assert_eq!(stats1.last_activity, stats2.last_activity);
    assert_eq!(stats1.top_ips, stats2.top_ips);
    assert_eq!(stats1.requests_over_time, stats2.requests_over_time);
}

#[test]
fn page_beyond_end_is_empty_with_total_unchanged() {
    let content = two_record_store();
    let (page, meta, _) = fetch_logs(&content, &params(5, 10, "timestamp", "asc"));
    assert_eq!(meta.total, 2);
    assert_eq!(meta.total_pages, 1);
    assert!(page.is_empty());
    assert_eq!(meta.page, 5);
}

#[test]
fn zero_page_size_yields_zero_pages_and_empty_page() {
    let content = two_record_store();
    let (page, meta, _) = fetch_logs(&content, &params(1, 0, "timestamp", "asc"));
    assert_eq!(meta.total, 2);
    assert_eq!(meta.total_pages, 0);
    assert!(page.is_empty());
}

#[test]
fn pagination_slices_stably() {
    let content = b("t1,a,d,i1,ACT,1,\nt2,b,d,i2,ACT,2,\nt3,c,d,i3,ACT,3,\n");
    let (page_one, meta, _) = fetch_logs(&content, &params(1, 2, "timestamp", "asc"));
    let (page_two, _, _) = fetch_logs(&content, &params(2, 2, "timestamp", "asc"));
    assert_eq!(meta.total, 3);
    assert_eq!(meta.total_pages, 2);
    assert_eq!(page_one.len(), 2);
    assert_eq!(page_two.len(), 1);
    assert_eq!(page_one[0].timestamp, b("t1"));
    assert_eq!(page_one[1].timestamp, b("t2"));
    assert_eq!(page_two[0].timestamp, b("t3"));
}

#[test]
fn search_filter_is_case_insensitive() {
    let content = two_record_store();
    let mut p = params(1, 10, "timestamp", "asc");
    p.q = Some(b("disconnected"));
    let (page, meta, _) = fetch_logs(&content, &p);
    assert_eq!(meta.total, 1);
    assert_eq!(page[0].action, b("DISCONNECTED"));
    let mut none = params(1, 10, "timestamp", "asc");
    none.q = Some(b("nosuchthing"));
    let (page, meta, stats) = fetch_logs(&content, &none);
    assert!(page.is_empty());
    assert_eq!(meta.total, 0);
    assert_eq!(stats.active_users, 0);
    assert_eq!(stats.last_activity, b("-"));
}

#[test]
fn exclude_filter_drops_matching_origins() {
    let content = b("t1,10.0.0.1,d,i1,ACT,1,\nt2,192.168.0.9,d,i2,ACT,2,\n");
    let mut p = params(1, 10, "timestamp", "asc");
    p.exclude_ip = Some(b(" 10.0 , nothing "));
    let (page, meta, stats) = fetch_logs(&content, &p);
    assert_eq!(meta.total, 1);
    assert_eq!(page[0].ip, b("192.168.0.9"));
    assert_eq!(stats.unique_ips, 1);
}

#[test]
fn sort_by_count_descending_is_stable() {
    let content = b("t1,a,d,i1,ACT,5,\nt2,b,d,i2,ACT,7,\nt3,c,d,i3,ACT,5,\n");
    let (page, _, _) = fetch_logs(&content, &params(1, 10, "count", "desc"));
    assert_eq!(page[0].count, 7);
    // the two equal keys keep their stored order
    assert_eq!(page[1].timestamp, b("t1"));
    assert_eq!(page[2].timestamp, b("t3"));
}

#[test]
fn unknown_sort_key_falls_back_to_timestamp() {
    let content = b("t2,a,d,i1,ACT,1,\nt1,b,d,i2,ACT,2,\n");
    let (page, _, _) = fetch_logs(&content, &params(1, 10, "bogus", "asc"));
    assert_eq!(page[0].timestamp, b("t1"));
    assert_eq!(page[1].timestamp, b("t2"));
}

#[test]
fn stats_count_unique_identities_and_top_ips() {
    let content = b(
        "t1,1.1.1.1,d,ida,ACT,1,\n\
         t2,2.2.2.2,d,idb,ACT,2,\n\
         t3,1.1.1.1,d,ida,ACT,3,\n\
         t4,1.1.1.1,d,idc,ACT,4,\n",
    );
    let (_, _, stats) = fetch_logs(&content, &params(1, 10, "timestamp", "asc"));
    assert_eq!(stats.unique_ips, 2);
    assert_eq!(stats.unique_device_ids, 3);
    assert_eq!(stats.top_ips.len(), 2);
    assert_eq!(stats.top_ips[0], (b("1.1.1.1"), 3));
    assert_eq!(stats.top_ips[1], (b("2.2.2.2"), 1));
}

#[test]
fn hourly_buckets_sorted_ascending() {
    let content = b(
        "2024-01-01 11:20:00 +0000,a,d,i1,ACT,1,\n\
         2024-01-01 10:05:00 +0000,b,d,i2,ACT,2,\n\
         2024-01-01 10:55:00 +0000,c,d,i3,ACT,3,\n",
    );
    let (_, _, stats) = fetch_logs(&content, &params(1, 10, "timestamp", "asc"));
    assert_eq!(stats.requests_over_time.len(), 2);
    assert_eq!(stats.requests_over_time[0], (b("2024-01-01 10:00"), 2));
    assert_eq!(stats.requests_over_time[1], (b("2024-01-01 11:00"), 1));
}

#[test]
fn malformed_lines_are_skipped_not_fatal() {
    let content = b("junk\nt1,a,d,i1,ACT,1,\n\na,b\n");
    let (page, meta, _) = fetch_logs(&content, &params(1, 10, "timestamp", "asc"));
    assert_eq!(meta.total, 1);
    assert_eq!(page[0].timestamp, b("t1"));
}

#[test]
fn carriage_returns_are_stripped() {
    let content = b("t1,a,d,i1,ACT,1,\r\nt2,b,d,i2,ACT,2,\r\n");
    let (page, meta, _) = fetch_logs(&content, &params(1, 10, "timestamp", "asc"));
    assert_eq!(meta.total, 2);
    assert_eq!(page[1].count, 2);
}

#[test]
fn defaults_match_the_request_shape() {
    assert_eq!(default_page(), 1);
    assert_eq!(default_page_size(), 50);
    assert_eq!(default_sort_by(), b("timestamp"));
    assert_eq!(default_order(), b("desc"));
}
