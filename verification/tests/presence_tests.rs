use presence_log::domain::LogQuery;
use presence_log::fmt::{format_cpu, format_duration, format_ram, format_uptime};
use presence_log::hub::BroadcastHub;
use presence_log::presence::{replay, AppState, PresenceEvent};
use presence_log::store::LogRepository;

fn b(s: &str) -> Vec<u8> {
    s.as_bytes().to_vec()
}

fn all_records() -> LogQuery {
    LogQuery {
        page: 1,
        page_size: 100,
        q: None,
        exclude_ip: None,
        sort_by: b("timestamp"),
        order: b("asc"),
    }
}

#[test]
fn joins_and_leave_report_registry_sizes() {
    let mut st = AppState::new(0);
    assert_eq!(st.join(&b("1.1.1.1"), &b("UA1"), &b("a")), 1);
    assert_eq!(st.join(&b("2.2.2.2"), &b("UA2"), &b("b")), 2);
    assert_eq!(st.leave(&b("1.1.1.1"), &b("UA1"), &b("a")), 1);
    assert_eq!(st.get_active_count(), 1);
}

#[test]
fn rejoin_keeps_one_entry_per_identity() {
    let mut st = AppState::new(0);
    assert_eq!(st.join_at(&b("1.1.1.1"), &b("UA1"), &b("a"), &b("t1"), 10), 1);
    assert_eq!(st.join_at(&b("1.1.1.1"), &b("UA1"), &b("a"), &b("t2"), 20), 1);
    assert_eq!(st.get_active_count(), 1);
    // both joins were logged as fresh CONNECTED records
    let (page, meta, _) = st.store.find_all(&all_records());
    assert_eq!(meta.total, 2);
    assert!(page.iter().all(|e| e.action == b("CONNECTED")));
}

#[test]
fn leave_after_join_computes_elapsed_duration() {
    let mut st = AppState::new(0);
    st.join_at(&b("1.1.1.1"), &b("UA1"), &b("a"), &b("t1"), 100);
    st.leave_at(&b("1.1.1.1"), &b("UA1"), &b("a"), &b("t2"), 400);
    let (page, _, _) = st.store.find_all(&all_records());
    let disconnect = page.iter().find(|e| e.action == b("DISCONNECTED")).unwrap();
    assert_eq!(disconnect.duration, Some(b("5m 0s")));
}

#[test]
fn leave_without_join_logs_no_duration() {
    let mut st = AppState::new(0);
    assert_eq!(st.leave_at(&b("9.9.9.9"), &b("UA"), &b("ghost"), &b("t"), 5), 0);
    let (page, meta, _) = st.store.find_all(&all_records());
    assert_eq!(meta.total, 1);
    assert_eq!(page[0].action, b("DISCONNECTED"));
    assert_eq!(page[0].duration, None);
}

#[test]
fn replay_counts_unmatched_joins_on_distinct_identities() {
    let events = vec![
        PresenceEvent::Join { ip: b("1"), device: b("d"), device_id: b("a") },
        PresenceEvent::Join { ip: b("2"), device: b("d"), device_id: b("b") },
        PresenceEvent::Join { ip: b("3"), device: b("d"), device_id: b("c") },
        PresenceEvent::Leave { ip: b("2"), device: b("d"), device_id: b("b") },
        PresenceEvent::Join { ip: b("3"), device: b("d"), device_id: b("c") },
        PresenceEvent::Leave { ip: b("9"), device: b("d"), device_id: b("nobody") },
    ];
    let st = replay(&events);
    // identities with an unmatched join: a and c
    assert_eq!(st.get_active_count(), 2);
}

#[test]
fn active_sessions_snapshot_reports_durations() {
    let mut st = AppState::new(0);
    st.join_at(&b("1.1.1.1"), &b("UA1"), &b("a"), &b("t1"), 100);
    let views = st.get_active_sessions(165);
    assert_eq!(views.len(), 1);
    assert_eq!(views[0].device_id, b("a"));
    assert_eq!(views[0].ip, b("1.1.1.1"));
    assert_eq!(views[0].duration, b("1m 5s"));
    assert_eq!(views[0].connected_at, b("100"));
}

#[test]
fn list_active_filters_the_reserved_identity() {
    let mut st = AppState::new(0);
    st.join_at(&b("1.1.1.1"), &b("UA1"), &b("a"), &b("t1"), 10);
    st.join_at(&b("2.2.2.2"), &b("UA2"), &b("dashboard-monitor"), &b("t2"), 20);
    let all = st.list_active(30, None);
    assert_eq!(all.len(), 2);
    let visible = st.list_active(30, Some(&b("dashboard-monitor")));
    assert_eq!(visible.len(), 1);
    assert_eq!(visible[0].device_id, b("a"));
}

#[test]
fn dashboard_stats_format_sampled_integers() {
    let mut st = AppState::new(50);
    st.join_at(&b("1.1.1.1"), &b("UA1"), &b("a"), &b("t1"), 60);
    let stats = st.get_dashboard_stats(50 + 3661, 123, 100, 200);
    assert_eq!(stats.active_users, 1);
    assert_eq!(stats.total_users, 1);
    assert_eq!(stats.uptime, b("1h 1m 1s"));
    assert_eq!(stats.cpu, b("12.3"));
    assert_eq!(stats.ram, b("100MB / 200MB"));
    let metrics = st.get_system_metrics(50 + 7200, 5, 1, 2);
    assert_eq!(metrics.uptime, b("2h 0m 0s"));
    assert_eq!(metrics.cpu, b("0.5"));
    assert_eq!(metrics.ram, b("1MB / 2MB"));
}

#[test]
fn duration_formatting_rules() {
    assert_eq!(format_duration(0), b("0s"));
    assert_eq!(format_duration(59), b("59s"));
    assert_eq!(format_duration(60), b("1m 0s"));
    assert_eq!(format_duration(65), b("1m 5s"));
    assert_eq!(format_duration(3599), b("59m 59s"));
    assert_eq!(format_duration(3600), b("1h 0m"));
    assert_eq!(format_duration(3700), b("1h 1m"));
    assert_eq!(format_uptime(3661), b("1h 1m 1s"));
    assert_eq!(format_cpu(0), b("0.0"));
    assert_eq!(format_ram(0, 8), b("0MB / 8MB"));
}

#[test]
fn hub_drops_oldest_when_backlog_full() {
    let mut hub: BroadcastHub<u32> = BroadcastHub::new(2);
    let id = hub.subscribe();
    hub.publish(1);
    hub.publish(2);
    hub.publish(3);
    // backlog bound 2: the oldest value was dropped, the latest kept
    assert_eq!(hub.recv(id), Some(2));
    assert_eq!(hub.recv(id), Some(3));
    assert_eq!(hub.recv(id), None);
}

#[test]
fn hub_delivers_to_every_subscriber() {
    let mut hub: BroadcastHub<u32> = BroadcastHub::new(4);
    let a = hub.subscribe();
    let b_id = hub.subscribe();
    hub.publish(7);
    assert_eq!(hub.recv(a), Some(7));
    assert_eq!(hub.recv(b_id), Some(7));
    assert_eq!(hub.recv(a), None);
}

#[test]
fn join_publishes_metrics_to_subscribers() {
    let mut st = AppState::new(0);
    let id = st.users_hub.subscribe();
    st.join_at(&b("1.1.1.1"), &b("UA1"), &b("a"), &b("t1"), 1);
    st.join_at(&b("2.2.2.2"), &b("UA2"), &b("b"), &b("t2"), 2);
    let first = st.users_hub.recv(id).unwrap();
    assert_eq!(first.active_users, 1);
    let second = st.users_hub.recv(id).unwrap();
    assert_eq!(second.active_users, 2);
    assert_eq!(second.total_users, 2);
}
