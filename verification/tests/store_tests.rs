use presence_log::domain::{get_nav_menu, LogEntry, LogQuery};
use presence_log::store::{EventLogger, FileLogRepository, LogRepository};

fn b(s: &str) -> Vec<u8> {
    s.as_bytes().to_vec()
}

fn all_records() -> LogQuery {
    LogQuery {
        page: 1,
        page_size: 100,
        q: None,
        exclude_ip: None,
        sort_by: b("timestamp"),
        order: b("asc"),
    }
}

fn entry(ts: &str, ip: &str, device: &str, id: &str, action: &str, count: u32) -> LogEntry {
    LogEntry {
        timestamp: b(ts),
        ip: b(ip),
        device: b(device),
        device_id: b(id),
        action: b(action),
        count,
        duration: None,
        raw: Vec::new(),
    }
}

#[test]
fn append_then_query_round_trips() {
    let mut repo = FileLogRepository::new();
    repo.append(&entry("t1", "1.1.1.1", "Chrome", "a", "CONNECTED", 1));
    repo.append(&entry("t2", "2.2.2.2", "Firefox", "b", "CONNECTED", 2));
    let (page, meta, stats) = repo.find_all(&all_records());
    assert_eq!(meta.total, 2);
    assert_eq!(page[0].ip, b("1.1.1.1"));
    assert_eq!(page[1].ip, b("2.2.2.2"));
    assert_eq!(stats.unique_ips, 2);
    assert_eq!(stats.active_users, 2);
}

#[test]
fn append_shortens_and_sanitizes_device() {
    let mut repo = FileLogRepository::new();
    repo.append(&entry(
        "t1",
        "1.1.1.1",
        "Mozilla/5.0 (Windows NT 10.0, Win64) Gecko",
        "a",
        "CONNECTED",
        1,
    ));
    let (page, _, _) = repo.find_all(&all_records());
    // the parenthesised group is kept and its comma becomes a space
    assert_eq!(page[0].device, b("Windows NT 10.0  Win64"));
}

#[test]
fn raw_content_is_one_line_per_record() {
    let mut repo = FileLogRepository::new();
    repo.append(&entry("t1", "1.1.1.1", "d", "a", "CONNECTED", 1));
    repo.append(&entry("t2", "2.2.2.2", "d", "b", "CONNECTED", 2));
    let raw = repo.get_raw_content();
    assert_eq!(
        raw,
        b("t1,1.1.1.1,d,a,CONNECTED,1,\nt2,2.2.2.2,d,b,CONNECTED,2,\n")
    );
}

#[test]
fn load_reads_back_exported_content() {
    let mut repo = FileLogRepository::new();
    repo.append(&entry("t1", "1.1.1.1", "d", "a", "CONNECTED", 1));
    let raw = repo.get_raw_content();
    let reloaded = FileLogRepository::load(&raw);
    let (page, meta, _) = reloaded.find_all(&all_records());
    assert_eq!(meta.total, 1);
    assert_eq!(page[0].ip, b("1.1.1.1"));
}

#[test]
fn clear_empties_the_store() {
    let mut repo = FileLogRepository::new();
    repo.append(&entry("t1", "1.1.1.1", "d", "a", "CONNECTED", 1));
    repo.clear();
    let (page, meta, stats) = repo.find_all(&all_records());
    assert!(page.is_empty());
    assert_eq!(meta.total, 0);
    assert_eq!(meta.total_pages, 0);
    assert_eq!(stats.unique_ips, 0);
    assert_eq!(stats.last_activity, b("-"));
}

#[test]
fn missing_store_reads_as_empty() {
    let empty = FileLogRepository::load(&Vec::new());
    let (page, meta, _) = empty.find_all(&all_records());
    assert!(page.is_empty());
    assert_eq!(meta.total, 0);
}

#[test]
fn event_logger_stamps_and_appends() {
    let mut repo = FileLogRepository::new();
    repo.log(&b("1.1.1.1"), &b("Chrome"), &b("a"), &b("CONNECTED"), 1, None);
    repo.log(
        &b("1.1.1.1"),
        &b("Chrome"),
        &b("a"),
        &b("DISCONNECTED"),
        0,
        Some(b("3s")),
    );
    let (page, meta, _) = repo.find_all(&all_records());
    assert_eq!(meta.total, 2);
    let disconnect = page.iter().find(|e| e.action == b("DISCONNECTED")).unwrap();
    assert_eq!(disconnect.duration, Some(b("3s")));
    // the wall-clock timestamp has the fixed `YYYY-MM-DD HH:MM:SS +ZZZZ` shape
    let connect = page.iter().find(|e| e.action == b("CONNECTED")).unwrap();
    assert!(connect.timestamp.len() >= 19);
    assert_eq!(connect.timestamp[4], b'-');
    assert_eq!(connect.timestamp[10], b' ');
}

#[test]
fn forwarded_header_yields_first_trimmed_origin() {
    let header = b(" 203.0.113.7 , 10.0.0.1, 172.16.0.1");
    assert_eq!(presence_log::bytes::first_list_item(&header), b("203.0.113.7"));
    assert_eq!(presence_log::bytes::first_list_item(&b("1.2.3.4")), b("1.2.3.4"));
}

#[test]
fn nav_menu_marks_the_admin_root_active() {
    let items = get_nav_menu("/admin");
    assert_eq!(items.len(), 1);
    assert_eq!(items[0].label, b("Overview"));
    assert_eq!(items[0].href, b("/admin"));
    assert!(items[0].active);
    let elsewhere = get_nav_menu("/other");
    assert!(!elsewhere[0].active);
}
