//! The presence tracker: a registry of currently-connected identities with
//! one entry per identity token, join/leave semantics, duration computation,
//! event logging and metric broadcast.
use vstd::prelude::*;

verus! {

use crate::bytes::bytes_eq;
use crate::bytes::bytes_of;
use crate::bytes::copy_bytes;
use crate::clock::newline_free;
use crate::clock::now_line_timestamp;
use crate::clock::wall_secs;
use crate::codec::comma_free;
use crate::codec::encode_spec;
use crate::domain::ActiveSession;
use crate::domain::ActiveSessionView;
use crate::domain::DashboardStats;
use crate::domain::LogEntry;
use crate::domain::LogEntryV;
use crate::domain::SystemMetrics;
use crate::domain::UserMetrics;
use crate::fmt::cpu_rep;
use crate::fmt::duration_rep;
use crate::fmt::format_cpu;
use crate::fmt::format_duration;
use crate::fmt::format_ram;
use crate::fmt::format_uptime;
use crate::fmt::ram_rep;
use crate::fmt::uptime_rep;
use crate::hub::BroadcastHub;
use crate::hub::backlog;
use crate::hub::pushed;
use crate::num::dec_rep;
use crate::num::u64_to_dec;
use crate::store::FileLogRepository;
use crate::store::LogRepository;
use crate::store::stored_entry;
use vstd::string::StringSliceAdditionalSpecFns;

/// First index of `x` in a key sequence, or -1.
pub open spec fn key_idx(s: Seq<Seq<u8>>, x: Seq<u8>) -> int
    decreases s.len(),
{
    if s.len() == 0 {
        -1
    } else if s[0] == x {
        0
    } else {
        let r = key_idx(s.drop_first(), x);
        if r < 0 {
            -1
        } else {
            1 + r
        }
    }
}

pub proof fn lemma_key_idx_props(s: Seq<Seq<u8>>, x: Seq<u8>)
    ensures
        -1 <= key_idx(s, x) < s.len(),
        key_idx(s, x) >= 0 ==> s[key_idx(s, x)] == x,
        key_idx(s, x) >= 0 ==> forall|j: int| 0 <= j < key_idx(s, x) ==> s[j] != x,
        key_idx(s, x) < 0 ==> forall|j: int| 0 <= j < s.len() ==> s[j] != x,
        (key_idx(s, x) >= 0) == s.contains(x),
    decreases s.len(),
{
    if s.len() > 0 && s[0] != x {
        lemma_key_idx_props(s.drop_first(), x);
        let r = key_idx(s.drop_first(), x);
        if r >= 0 {
            assert forall|j: int| 0 <= j < key_idx(s, x) implies s[j] != x by {
                if j > 0 {
                    assert(s.drop_first()[j - 1] == s[j]);
                }
            }
            assert(s[1 + r] == s.drop_first()[r]);
        } else {
            assert forall|j: int| 0 <= j < s.len() implies s[j] != x by {
                if j > 0 {
                    assert(s.drop_first()[j - 1] == s[j]);
                }
            }
        }
        if s.contains(x) {
            let w = choose|w: int| 0 <= w < s.len() && s[w] == x;
            assert(w > 0);
            assert(s.drop_first()[w - 1] == x);
            assert(s.drop_first().contains(x));
        }
        if s.drop_first().contains(x) {
            let w = choose|w: int| 0 <= w < s.drop_first().len() && s.drop_first()[w] == x;
            assert(s[w + 1] == x);
        }
    } else if s.len() > 0 {
        assert(s.contains(x)) by {
            assert(s[0] == x);
        }
    }
}

pub proof fn lemma_key_idx_unique(s: Seq<Seq<u8>>, x: Seq<u8>, i: int)
    requires
        0 <= i < s.len(),
        s[i] == x,
        forall|j: int| 0 <= j < i ==> s[j] != x,
    ensures
        key_idx(s, x) == i,
    decreases s.len(),
{
    if i > 0 {
        lemma_key_idx_unique(s.drop_first(), x, i - 1);
        assert(forall|j: int|
            0 <= j < s.drop_first().len() ==> #[trigger] s.drop_first()[j] == s[j + 1]);
    }
}

/// The identity tokens of a session list.
pub open spec fn session_ids(sessions: Seq<ActiveSession>) -> Seq<Seq<u8>> {
    sessions.map_values(|s: ActiveSession| s.device_id@)
}

pub proof fn lemma_session_ids_index(sessions: Seq<ActiveSession>)
    ensures
        session_ids(sessions).len() == sessions.len(),
        forall|i: int|
            0 <= i < sessions.len() ==> #[trigger] session_ids(sessions)[i]
                == sessions[i].device_id@,
{
}

/// The connect record the tracker logs on a join.
pub open spec fn connect_record(
    ts: Seq<u8>,
    ip: Seq<u8>,
    device: Seq<u8>,
    device_id: Seq<u8>,
    count: u32,
) -> LogEntryV {
    LogEntryV {
        timestamp: ts,
        ip,
        device,
        device_id,
        action: "CONNECTED".spec_bytes(),
        count,
        duration: Option::None,
        raw: Seq::<u8>::empty(),
    }
}

/// The disconnect record the tracker logs on a leave.
pub open spec fn disconnect_record(
    ts: Seq<u8>,
    ip: Seq<u8>,
    device: Seq<u8>,
    device_id: Seq<u8>,
    count: u32,
    duration: Option<Seq<u8>>,
) -> LogEntryV {
    LogEntryV {
        timestamp: ts,
        ip,
        device,
        device_id,
        action: "DISCONNECTED".spec_bytes(),
        count,
        duration,
        raw: Seq::<u8>::empty(),
    }
}

/// The explicitly owned application state: the session registry, the event
/// log store it appends to, the presence metrics hub it publishes on, and
/// the instant the process started.
pub struct AppState {
    /// Active sessions, one per identity token.
    pub sessions: Vec<ActiveSession>,
    /// The event log store lifecycle records are appended to.
    pub store: FileLogRepository,
    /// Presence metric snapshots are published here on every join/leave.
    pub users_hub: BroadcastHub<UserMetrics>,
    /// Monotonic reading (seconds) taken at construction, for uptime.
    pub start_secs: u64,
}

impl AppState {
    /// The identity tokens currently present, in insertion order.
    pub open spec fn ids(&self) -> Seq<Seq<u8>> {
        session_ids(self.sessions@)
    }

    /// One registry entry per identity token, a registry small enough to
    /// count in a `u32`, and a well-formed hub.
    pub open spec fn wf(&self) -> bool {
        &&& forall|i: int, j: int|
            0 <= i < j < self.ids().len() ==> self.ids()[i] != self.ids()[j]
        &&& self.sessions@.len() <= u32::MAX
        &&& self.users_hub.wf()
    }

    /// A fresh state: empty registry, empty store, a hub with a backlog
    /// bound of 100, and the given start instant.
    pub fn new(now_secs: u64) -> (r: AppState)
        ensures
            r.wf(),
            r.ids() == Seq::<Seq<u8>>::empty(),
            r.store.records() == Seq::<Seq<u8>>::empty(),
            backlog(r.users_hub.queues@) == Seq::<Seq<UserMetrics>>::empty(),
            r.start_secs == now_secs,
    {
        let r = AppState {
            sessions: Vec::new(),
            store: FileLogRepository::new(),
            users_hub: BroadcastHub::new(100),
            start_secs: now_secs,
        };
        proof {
            assert(r.ids() =~= Seq::<Seq<u8>>::empty());
        }
        r
    }

    /// Find the session of an identity token.
    fn find_session(&self, device_id: &Vec<u8>) -> (r: Option<usize>)
        ensures
            match r {
                Option::Some(i) => i < self.sessions@.len() && key_idx(self.ids(), device_id@)
                    == i,
                Option::None => key_idx(self.ids(), device_id@) == -1,
            },
    {
        proof {
            lemma_session_ids_index(self.sessions@);
        }
        let mut i: usize = 0;
        while i < self.sessions.len()
            invariant
                i <= self.sessions@.len(),
                forall|j: int| 0 <= j < i ==> #[trigger] self.ids()[j] != device_id@,
            decreases self.sessions@.len() - i,
        {
            proof {
                lemma_session_ids_index(self.sessions@);
                assert(self.ids()[i as int] == self.sessions@[i as int].device_id@);
            }
            if bytes_eq(&self.sessions[i].device_id, device_id) {
                proof {
                    lemma_key_idx_unique(self.ids(), device_id@, i as int);
                }
                return Option::Some(i);
            }
            i += 1;
        }
        proof {
            lemma_key_idx_props(self.ids(), device_id@);
        }
        Option::None
    }

    /// Record a join at an explicit timestamp and clock reading: insert or
    /// refresh the identity's session, log a connect record carrying the new
    /// registry size, publish the new metrics, and return that size.
    pub fn join_at(
        &mut self,
        ip: &Vec<u8>,
        device: &Vec<u8>,
        device_id: &Vec<u8>,
        timestamp: &Vec<u8>,
        now_secs: u64,
    ) -> (r: u32)
        requires
            old(self).wf(),
            old(self).sessions@.len() < u32::MAX,
        ensures
            final(self).wf(),
            final(self).start_secs == old(self).start_secs,
            final(self).ids() == if old(self).ids().contains(device_id@) {
                old(self).ids()
            } else {
                old(self).ids().push(device_id@)
            },
            r == final(self).sessions@.len(),
            ({
                let k = key_idx(final(self).ids(), device_id@);
                &&& 0 <= k < final(self).sessions@.len()
                &&& final(self).sessions@[k].connected_at == now_secs
                &&& final(self).sessions@[k].ip@ == ip@
                &&& final(self).sessions@[k].device@ == device@
                &&& final(self).sessions@[k].device_id@ == device_id@
            }),
            final(self).store.records() == old(self).store.records().push(
                encode_spec(stored_entry(connect_record(timestamp@, ip@, device@, device_id@, r))),
            ),
            final(self).users_hub.capacity == old(self).users_hub.capacity,
            backlog(final(self).users_hub.queues@).len() == backlog(
                old(self).users_hub.queues@,
            ).len(),
            forall|i: int|
                0 <= i < backlog(old(self).users_hub.queues@).len() ==> #[trigger] backlog(
                    final(self).users_hub.queues@,
                )[i] == pushed(
                    backlog(old(self).users_hub.queues@)[i],
                    UserMetrics { active_users: r, total_users: r },
                    old(self).users_hub.capacity as int,
                ),
    {
        let ghost old_ids = self.ids();
        let fresh = ActiveSession {
            device_id: copy_bytes(device_id),
            ip: copy_bytes(ip),
            device: copy_bytes(device),
            connected_at: now_secs,
        };
        match self.find_session(device_id) {
            Option::Some(i) => {
                let ghost sessions_before = self.sessions@;
                self.sessions.set(i, fresh);
                proof {
                    lemma_session_ids_index(sessions_before);
                    lemma_session_ids_index(self.sessions@);
                    lemma_key_idx_props(old_ids, device_id@);
                    assert(self.ids() =~= old_ids);
                    lemma_key_idx_unique(self.ids(), device_id@, i as int);
                }
            },
            Option::None => {
                let ghost sessions_before = self.sessions@;
                self.sessions.push(fresh);
                proof {
                    lemma_session_ids_index(sessions_before);
                    lemma_session_ids_index(self.sessions@);
                    lemma_key_idx_props(old_ids, device_id@);
                    assert(self.ids() =~= old_ids.push(device_id@));
                    assert(forall|j: int| 0 <= j < old_ids.len() ==> #[trigger] old_ids[j] != device_id@);
                    lemma_key_idx_unique(self.ids(), device_id@, old_ids.len() as int);
                }
            },
        }
        let count = self.sessions.len() as u32;
        let entry = LogEntry {
            timestamp: copy_bytes(timestamp),
            ip: copy_bytes(ip),
            device: copy_bytes(device),
            device_id: copy_bytes(device_id),
            action: bytes_of("CONNECTED"),
            count,
            duration: Option::None,
            raw: Vec::new(),
        };
        proof {
            assert(entry@ =~= connect_record(timestamp@, ip@, device@, device_id@, count));
        }
        self.store.append(&entry);
        self.users_hub.publish(UserMetrics { active_users: count, total_users: count });
        count
    }

    /// Record a leave at an explicit timestamp and clock reading: remove the
    /// identity's session if present, log a disconnect record carrying the
    /// formatted session duration (absent when no session matched), publish
    /// the new metrics, and return the new registry size.
    pub fn leave_at(
        &mut self,
        ip: &Vec<u8>,
        device: &Vec<u8>,
        device_id: &Vec<u8>,
        timestamp: &Vec<u8>,
        now_secs: u64,
    ) -> (r: u32)
        requires
            old(self).wf(),
        ensures
            final(self).wf(),
            final(self).start_secs == old(self).start_secs,
            final(self).ids() == if old(self).ids().contains(device_id@) {
                old(self).ids().remove(key_idx(old(self).ids(), device_id@))
            } else {
                old(self).ids()
            },
            r == final(self).sessions@.len(),
            ({
                let k = key_idx(old(self).ids(), device_id@);
                if old(self).ids().contains(device_id@) {
                    {
                        let joined = old(self).sessions@[k].connected_at;
                        let dsecs: u64 = if now_secs >= joined {
                            (now_secs - joined) as u64
                        } else {
                            0
                        };
                        final(self).store.records() == old(self).store.records().push(
                            encode_spec(
                                stored_entry(
                                    disconnect_record(
                                        timestamp@,
                                        ip@,
                                        device@,
                                        device_id@,
                                        r,
                                        Option::Some(duration_rep(dsecs)),
                                    ),
                                ),
                            ),
                        )
                    }
                } else {
                    final(self).store.records() == old(self).store.records().push(
                        encode_spec(
                            stored_entry(
                                disconnect_record(
                                    timestamp@,
                                    ip@,
                                    device@,
                                    device_id@,
                                    r,
                                    Option::None,
                                ),
                            ),
                        ),
                    )
                }
            }),
            final(self).users_hub.capacity == old(self).users_hub.capacity,
            backlog(final(self).users_hub.queues@).len() == backlog(
                old(self).users_hub.queues@,
            ).len(),
            forall|i: int|
                0 <= i < backlog(old(self).users_hub.queues@).len() ==> #[trigger] backlog(
                    final(self).users_hub.queues@,
                )[i] == pushed(
                    backlog(old(self).users_hub.queues@)[i],
                    UserMetrics { active_users: r, total_users: r },
                    old(self).users_hub.capacity as int,
                ),
    {
        let ghost old_ids = self.ids();
        let ghost old_sessions = self.sessions@;
        let found: Option<u64> = match self.find_session(device_id) {
            Option::Some(i) => {
                let joined = self.sessions[i].connected_at;
                let ghost sessions_before = self.sessions@;
                self.sessions.remove(i);
                proof {
                    lemma_session_ids_index(sessions_before);
                    lemma_session_ids_index(self.sessions@);
                    lemma_key_idx_props(old_ids, device_id@);
                    assert(self.ids() =~= old_ids.remove(i as int)) by {
                        assert forall|j: int| 0 <= j < self.ids().len() implies self.ids()[j]
                            == old_ids.remove(i as int)[j] by {
                            assert(self.ids()[j] == self.sessions@[j].device_id@);
                            if j < i {
                                assert(self.sessions@[j] == sessions_before[j]);
                            } else {
                                assert(self.sessions@[j] == sessions_before[j + 1]);
                            }
                        }
                    }
                    // distinctness is preserved by removal
                    assert forall|a: int, b: int|
                        0 <= a < b < self.ids().len() implies self.ids()[a] != self.ids()[b] by {
                        if a < i {
                            assert(self.ids()[a] == old_ids[a]);
                        } else {
                            assert(self.ids()[a] == old_ids[a + 1]);
                        }
                        if b < i {
                            assert(self.ids()[b] == old_ids[b]);
                        } else {
                            assert(self.ids()[b] == old_ids[b + 1]);
                        }
                    }
                }
                Option::Some(joined)
            },
            Option::None => {
                proof {
                    lemma_key_idx_props(old_ids, device_id@);
                }
                Option::None
            },
        };
        proof {
            assert(old_ids.contains(device_id@) ==> found == Option::Some(
                old_sessions[key_idx(old_ids, device_id@)].connected_at,
            ));
            assert(!old_ids.contains(device_id@) ==> found is None && self.sessions@
                == old_sessions);
        }
        let duration: Option<Vec<u8>> = match found {
            Option::Some(joined) => {
                let dsecs: u64 = if now_secs >= joined {
                    now_secs - joined
                } else {
                    0
                };
                Option::Some(format_duration(dsecs))
            },
            Option::None => Option::None,
        };
        let count = self.sessions.len() as u32;
        let entry = LogEntry {
            timestamp: copy_bytes(timestamp),
            ip: copy_bytes(ip),
            device: copy_bytes(device),
            device_id: copy_bytes(device_id),
            action: bytes_of("DISCONNECTED"),
            count,
            duration,
            raw: Vec::new(),
        };
        proof {
            if old_ids.contains(device_id@) {
                let joined = old_sessions[key_idx(old_ids, device_id@)].connected_at;
                let dsecs: u64 = if now_secs >= joined {
                    (now_secs - joined) as u64
                } else {
                    0
                };
                assert(entry@ =~= disconnect_record(
                    timestamp@,
                    ip@,
                    device@,
                    device_id@,
                    count,
                    Option::Some(duration_rep(dsecs)),
                ));
            } else {
                assert(entry@ =~= disconnect_record(
                    timestamp@,
                    ip@,
                    device@,
                    device_id@,
                    count,
                    Option::None,
                ));
            }
        }
        self.store.append(&entry);
        self.users_hub.publish(UserMetrics { active_users: count, total_users: count });
        count
    }

    /// Record a join stamped with the current wall clock.
    pub fn join(&mut self, ip: &Vec<u8>, device: &Vec<u8>, device_id: &Vec<u8>) -> (r: u32)
        requires
            old(self).wf(),
            old(self).sessions@.len() < u32::MAX,
        ensures
            final(self).wf(),
            final(self).start_secs == old(self).start_secs,
            final(self).ids() == if old(self).ids().contains(device_id@) {
                old(self).ids()
            } else {
                old(self).ids().push(device_id@)
            },
            r == final(self).sessions@.len(),
            exists|ts: Seq<u8>|
                comma_free(ts) && newline_free(ts) && final(self).store.records() == old(
                    self,
                ).store.records().push(
                    #[trigger] encode_spec(
                        stored_entry(connect_record(ts, ip@, device@, device_id@, r)),
                    ),
                ),
            final(self).users_hub.capacity == old(self).users_hub.capacity,
            backlog(final(self).users_hub.queues@).len() == backlog(
                old(self).users_hub.queues@,
            ).len(),
            forall|i: int|
                0 <= i < backlog(old(self).users_hub.queues@).len() ==> #[trigger] backlog(
                    final(self).users_hub.queues@,
                )[i] == pushed(
                    backlog(old(self).users_hub.queues@)[i],
                    UserMetrics { active_users: r, total_users: r },
                    old(self).users_hub.capacity as int,
                ),
    {
        let ts = now_line_timestamp();
        let now = wall_secs();
        let ghost tsv = ts@;
        let r = self.join_at(ip, device, device_id, &ts, now);
        proof {
            assert(comma_free(tsv) && newline_free(tsv) && self.store.records() == old(
                self,
            ).store.records().push(
                encode_spec(stored_entry(connect_record(tsv, ip@, device@, device_id@, r))),
            ));
        }
        r
    }

    /// Record a leave stamped with the current wall clock.
    pub fn leave(&mut self, ip: &Vec<u8>, device: &Vec<u8>, device_id: &Vec<u8>) -> (r: u32)
        requires
            old(self).wf(),
        ensures
            final(self).wf(),
            final(self).start_secs == old(self).start_secs,
            final(self).ids() == if old(self).ids().contains(device_id@) {
                old(self).ids().remove(key_idx(old(self).ids(), device_id@))
            } else {
                old(self).ids()
            },
            r == final(self).sessions@.len(),
            final(self).store.records().len() == old(self).store.records().len() + 1,
            old(self).ids().contains(device_id@) ==> exists|ts: Seq<u8>, d: u64|
                comma_free(ts) && newline_free(ts) && final(self).store.records() == old(
                    self,
                ).store.records().push(
                    #[trigger] encode_spec(
                        stored_entry(
                            disconnect_record(
                                ts,
                                ip@,
                                device@,
                                device_id@,
                                r,
                                Option::Some(duration_rep(d)),
                            ),
                        ),
                    ),
                ),
            !old(self).ids().contains(device_id@) ==> exists|ts: Seq<u8>|
                comma_free(ts) && newline_free(ts) && final(self).store.records() == old(
                    self,
                ).store.records().push(
                    #[trigger] encode_spec(
                        stored_entry(
                            disconnect_record(ts, ip@, device@, device_id@, r, Option::None),
                        ),
                    ),
                ),
            final(self).users_hub.capacity == old(self).users_hub.capacity,
            backlog(final(self).users_hub.queues@).len() == backlog(
                old(self).users_hub.queues@,
            ).len(),
            forall|i: int|
                0 <= i < backlog(old(self).users_hub.queues@).len() ==> #[trigger] backlog(
                    final(self).users_hub.queues@,
                )[i] == pushed(
                    backlog(old(self).users_hub.queues@)[i],
                    UserMetrics { active_users: r, total_users: r },
                    old(self).users_hub.capacity as int,
                ),
    {
        let ts = now_line_timestamp();
        let now = wall_secs();
        let ghost tsv = ts@;
        let r = self.leave_at(ip, device, device_id, &ts, now);
        proof {
            if old(self).ids().contains(device_id@) {
                let k = key_idx(old(self).ids(), device_id@);
                let joined = old(self).sessions@[k].connected_at;
                let d0: u64 = if now >= joined {
                    (now - joined) as u64
                } else {
                    0
                };
                assert(comma_free(tsv) && newline_free(tsv) && self.store.records() == old(
                    self,
                ).store.records().push(
                    encode_spec(
                        stored_entry(
                            disconnect_record(
                                tsv,
                                ip@,
                                device@,
                                device_id@,
                                r,
                                Option::Some(duration_rep(d0)),
                            ),
                        ),
                    ),
                ));
            } else {
                assert(comma_free(tsv) && newline_free(tsv) && self.store.records() == old(
                    self,
                ).store.records().push(
                    encode_spec(
                        stored_entry(
                            disconnect_record(tsv, ip@, device@, device_id@, r, Option::None),
                        ),
                    ),
                ));
            }
        }
        r
    }

    /// Current registry size.
    pub fn get_active_count(&self) -> (r: u32)
        requires
            self.wf(),
        ensures
            r == self.sessions@.len(),
    {
        self.sessions.len() as u32
    }

    /// The presence metric snapshot: the registry size twice over.
    pub fn get_user_metrics(&self) -> (r: UserMetrics)
        requires
            self.wf(),
        ensures
            r.active_users == self.sessions@.len(),
            r.total_users == self.sessions@.len(),
    {
        let count = self.sessions.len() as u32;
        UserMetrics { active_users: count, total_users: count }
    }

    /// The resource metric snapshot, formatted from sampled integers.
    pub fn get_system_metrics(
        &self,
        now_secs: u64,
        cpu_tenths: u32,
        used_mb: u64,
        total_mb: u64,
    ) -> (r: SystemMetrics)
        ensures
            r.uptime@ == uptime_rep(
                if now_secs >= self.start_secs {
                    (now_secs - self.start_secs) as u64
                } else {
                    0
                },
            ),
            r.cpu@ == cpu_rep(cpu_tenths),
            r.ram@ == ram_rep(used_mb, total_mb),
    {
        let elapsed: u64 = if now_secs >= self.start_secs {
            now_secs - self.start_secs
        } else {
            0
        };
        SystemMetrics {
            uptime: format_uptime(elapsed),
            cpu: format_cpu(cpu_tenths),
            ram: format_ram(used_mb, total_mb),
        }
    }

    /// The combined dashboard snapshot, formatted from sampled integers.
    pub fn get_dashboard_stats(
        &self,
        now_secs: u64,
        cpu_tenths: u32,
        used_mb: u64,
        total_mb: u64,
    ) -> (r: DashboardStats)
        requires
            self.wf(),
        ensures
            r.active_users == self.sessions@.len(),
            r.total_users == self.sessions@.len(),
            r.uptime@ == uptime_rep(
                if now_secs >= self.start_secs {
                    (now_secs - self.start_secs) as u64
                } else {
                    0
                },
            ),
            r.cpu@ == cpu_rep(cpu_tenths),
            r.ram@ == ram_rep(used_mb, total_mb),
    {
        let count = self.sessions.len() as u32;
        let m = self.get_system_metrics(now_secs, cpu_tenths, used_mb, total_mb);
        DashboardStats {
            active_users: count,
            total_users: count,
            uptime: m.uptime,
            cpu: m.cpu,
            ram: m.ram,
        }
    }

    /// Snapshot the active sessions for display, with session durations
    /// computed against the given clock reading.
    pub fn get_active_sessions(&self, now_secs: u64) -> (r: Vec<ActiveSessionView>)
        ensures
            r@.len() == self.sessions@.len(),
            forall|i: int|
                0 <= i < r@.len() ==> {
                    let s = self.sessions@[i];
                    let dsecs: u64 = if now_secs >= s.connected_at {
                        (now_secs - s.connected_at) as u64
                    } else {
                        0
                    };
                    &&& (#[trigger] r@[i]).device_id@ == s.device_id@
                    &&& r@[i].ip@ == s.ip@
                    &&& r@[i].device@ == s.device@
                    &&& r@[i].connected_at@ == dec_rep(s.connected_at as nat)
                    &&& r@[i].duration@ == duration_rep(dsecs)
                },
    {
        let mut out: Vec<ActiveSessionView> = Vec::new();
        let mut i: usize = 0;
        while i < self.sessions.len()
            invariant
                i <= self.sessions@.len(),
                out@.len() == i,
                forall|j: int|
                    0 <= j < i ==> {
                        let s = self.sessions@[j];
                        let dsecs: u64 = if now_secs >= s.connected_at {
                            (now_secs - s.connected_at) as u64
                        } else {
                            0
                        };
                        &&& (#[trigger] out@[j]).device_id@ == s.device_id@
                        &&& out@[j].ip@ == s.ip@
                        &&& out@[j].device@ == s.device@
                        &&& out@[j].connected_at@ == dec_rep(s.connected_at as nat)
                        &&& out@[j].duration@ == duration_rep(dsecs)
                    },
            decreases self.sessions@.len() - i,
        {
            let s = &self.sessions[i];
            let dsecs: u64 = if now_secs >= s.connected_at {
                now_secs - s.connected_at
            } else {
                0
            };
            out.push(
                ActiveSessionView {
                    device_id: copy_bytes(&s.device_id),
                    ip: copy_bytes(&s.ip),
                    device: copy_bytes(&s.device),
                    connected_at: u64_to_dec(s.connected_at),
                    duration: format_duration(dsecs),
                },
            );
            i += 1;
        }
        out
    }
}

/// The sessions kept by a listing: all of them, or all but one reserved
/// identity.
pub open spec fn sessions_except(s: Seq<ActiveSession>, ex: Option<Seq<u8>>) -> Seq<ActiveSession>
    decreases s.len(),
{
    if s.len() == 0 {
        Seq::<ActiveSession>::empty()
    } else {
        let prev = sessions_except(s.drop_last(), ex);
        let keep = match ex {
            Option::Some(e) => s.last().device_id@ != e,
            Option::None => true,
        };
        if keep {
            prev.push(s.last())
        } else {
            prev
        }
    }
}

impl AppState {
    /// Snapshot the active sessions, optionally leaving out one reserved
    /// synthetic identity (the dashboard's own monitoring connection), so
    /// the dashboard does not count itself as an active user.
    pub fn list_active(&self, now_secs: u64, exclude_id: Option<&Vec<u8>>) -> (r: Vec<
        ActiveSessionView,
    >)
        ensures
            ({
                let kept = sessions_except(
                    self.sessions@,
                    match exclude_id {
                        Option::Some(e) => Option::Some(e@),
                        Option::None => Option::None,
                    },
                );
                &&& r@.len() == kept.len()
                &&& forall|i: int|
                    0 <= i < r@.len() ==> {
                        let s = kept[i];
                        let dsecs: u64 = if now_secs >= s.connected_at {
                            (now_secs - s.connected_at) as u64
                        } else {
                            0
                        };
                        &&& (#[trigger] r@[i]).device_id@ == s.device_id@
                        &&& r@[i].ip@ == s.ip@
                        &&& r@[i].device@ == s.device@
                        &&& r@[i].connected_at@ == dec_rep(s.connected_at as nat)
                        &&& r@[i].duration@ == duration_rep(dsecs)
                    }
            }),
    {
        let ghost exv: Option<Seq<u8>> = match exclude_id {
            Option::Some(e) => Option::Some(e@),
            Option::None => Option::None,
        };
        let mut out: Vec<ActiveSessionView> = Vec::new();
        let mut i: usize = 0;
        while i < self.sessions.len()
            invariant
                i <= self.sessions@.len(),
                exv == match exclude_id {
                    Option::Some(e) => Option::Some(e@),
                    Option::None => Option::None,
                },
                out@.len() == sessions_except(self.sessions@.take(i as int), exv).len(),
                forall|j: int|
                    0 <= j < out@.len() ==> {
                        let s = sessions_except(self.sessions@.take(i as int), exv)[j];
                        let dsecs: u64 = if now_secs >= s.connected_at {
                            (now_secs - s.connected_at) as u64
                        } else {
                            0
                        };
                        &&& (#[trigger] out@[j]).device_id@ == s.device_id@
                        &&& out@[j].ip@ == s.ip@
                        &&& out@[j].device@ == s.device@
                        &&& out@[j].connected_at@ == dec_rep(s.connected_at as nat)
                        &&& out@[j].duration@ == duration_rep(dsecs)
                    },
            decreases self.sessions@.len() - i,
        {
            proof {
                assert(self.sessions@.take(i + 1 as int).drop_last() =~= self.sessions@.take(
                    i as int,
                ));
                assert(self.sessions@.take(i + 1 as int).last() == self.sessions@[i as int]);
            }
            let s = &self.sessions[i];
            let keep = match exclude_id {
                Option::Some(e) => !bytes_eq(&s.device_id, e),
                Option::None => true,
            };
            if keep {
                let dsecs: u64 = if now_secs >= s.connected_at {
                    now_secs - s.connected_at
                } else {
                    0
                };
                out.push(
                    ActiveSessionView {
                        device_id: copy_bytes(&s.device_id),
                        ip: copy_bytes(&s.ip),
                        device: copy_bytes(&s.device),
                        connected_at: u64_to_dec(s.connected_at),
                        duration: format_duration(dsecs),
                    },
                );
            }
            i += 1;
        }
        proof {
            assert(self.sessions@.take(self.sessions@.len() as int) =~= self.sessions@);
        }
        out
    }
}

/// One replayed lifecycle event: a join or a leave, each carrying the
/// reported origin, device label and identity token.
pub enum PresenceEvent {
    Join { ip: Vec<u8>, device: Vec<u8>, device_id: Vec<u8> },
    Leave { ip: Vec<u8>, device: Vec<u8>, device_id: Vec<u8> },
}

/// The identities left present after replaying a sequence of events on an
/// empty registry: a join inserts the identity once, a leave removes it.
/// These are exactly the distinct identities with an unmatched join.
pub open spec fn replay_ids(events: Seq<PresenceEvent>) -> Seq<Seq<u8>>
    decreases events.len(),
{
    if events.len() == 0 {
        Seq::<Seq<u8>>::empty()
    } else {
        let prev = replay_ids(events.drop_last());
        match events.last() {
            PresenceEvent::Join { device_id, .. } => if prev.contains(device_id@) {
                prev
            } else {
                prev.push(device_id@)
            },
            PresenceEvent::Leave { device_id, .. } => if prev.contains(device_id@) {
                prev.remove(key_idx(prev, device_id@))
            } else {
                prev
            },
        }
    }
}

/// Replay a sequence of joins and leaves on a fresh registry.  The final
/// registry holds exactly the identities with an unmatched join, each once,
/// and its size is the number of such identities.
pub fn replay(events: &Vec<PresenceEvent>) -> (r: AppState)
    requires
        events@.len() < u32::MAX,
    ensures
        r.wf(),
        r.ids() == replay_ids(events@),
        r.sessions@.len() == replay_ids(events@).len(),
{
    let mut st = AppState::new(0);
    let ts: Vec<u8> = Vec::new();
    let mut i: usize = 0;
    while i < events.len()
        invariant
            i <= events@.len(),
            events@.len() < u32::MAX,
            st.wf(),
            st.ids() == replay_ids(events@.take(i as int)),
            st.sessions@.len() == st.ids().len(),
            st.sessions@.len() <= i,
        decreases events@.len() - i,
    {
        proof {
            assert(events@.take(i + 1 as int).drop_last() =~= events@.take(i as int));
            assert(events@.take(i + 1 as int).last() == events@[i as int]);
            lemma_session_ids_index(st.sessions@);
        }
        match &events[i] {
            PresenceEvent::Join { ip, device, device_id } => {
                st.join_at(ip, device, device_id, &ts, 0);
            },
            PresenceEvent::Leave { ip, device, device_id } => {
                st.leave_at(ip, device, device_id, &ts, 0);
                proof {
                    lemma_key_idx_props(replay_ids(events@.take(i as int)), device_id@);
                }
            },
        }
        proof {
            lemma_session_ids_index(st.sessions@);
        }
        i += 1;
    }
    proof {
        assert(events@.take(events@.len() as int) =~= events@);
    }
    st
}

} // verus!

