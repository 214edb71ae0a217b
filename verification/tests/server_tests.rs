//! Session manager tests: registration, resume, presence, the sweep and
//! movement-validated updates. Fixed-point units: 1 m = 1_000_000
//! micrometers; times are milliseconds.

use std::time::{Duration, Instant};
use uuid::Uuid;
use world_sync::server::{RegisterOutcome, Server, UpdateFields, UpdateOutcome};
use world_sync::storage::UuidStorage;

const M: i64 = 1_000_000;
const TIMEOUT_MS: u128 = 60_000;

fn new_server() -> Server {
    // soft-offline timeout policy
    Server::new(TIMEOUT_MS, UuidStorage::new(), false)
}

fn addr(n: u32) -> String {
    format!("127.0.0.1:{}", 40000 + n)
}

fn no_fields() -> UpdateFields {
    UpdateFields {
        x: None,
        y: None,
        z: None,
        ts: None,
        rx: None,
        ry: None,
        rz: None,
        vx: None,
        vy: None,
        vz: None,
        action: None,
    }
}

fn register_fresh(srv: &mut Server, now: u128, name: &str) -> u128 {
    match srv.register(now, addr(0), None, Some(name.to_string())) {
        RegisterOutcome::Registered { uuid, resumed, .. } => {
            assert!(!resumed);
            uuid
        },
        other => panic!("expected a fresh registration, got {:?}", other),
    }
}

#[test]
fn test_normal_registration() {
    let mut srv = new_server();
    let r = srv.register(0, addr(1), None, Some("test_user_1".to_string()));
    match r {
        RegisterOutcome::Registered { username, resumed, from_storage, .. } => {
            assert_eq!(username, "test_user_1");
            assert!(!resumed);
            assert!(!from_storage);
        },
        other => panic!("expected registered, got {:?}", other),
    }
}

#[test]
fn test_username_required() {
    let mut srv = new_server();
    let r = srv.register(0, addr(1), None, None);
    assert!(matches!(r, RegisterOutcome::UsernameRequired));
}

#[test]
fn test_uuid_not_found() {
    let mut srv = new_server();
    let unknown = Uuid::parse_str("00000000-0000-0000-0000-000000000001")
        .unwrap()
        .as_u128();
    let r = srv.register(0, addr(1), Some(unknown), None);
    match r {
        RegisterOutcome::SessionNotFound { uuid } => assert_eq!(uuid, unknown),
        other => panic!("expected session-not-found, got {:?}", other),
    }
}

#[test]
fn test_uuid_with_username_invalid_uuid() {
    // an unresolvable requested id is refused even when a username is given
    let mut srv = new_server();
    let unknown = Uuid::parse_str("11111111-1111-1111-1111-111111111111")
        .unwrap()
        .as_u128();
    let r = srv.register(0, addr(1), Some(unknown), Some("should_not_be_used".to_string()));
    assert!(matches!(r, RegisterOutcome::SessionNotFound { .. }));
}

#[test]
fn test_valid_uuid_resume() {
    let mut srv = new_server();
    let uuid = register_fresh(&mut srv, 0, "resume_test_1");
    let r = srv.register(1000, addr(2), Some(uuid), None);
    match r {
        RegisterOutcome::Registered { uuid: u2, username, resumed, .. } => {
            assert_eq!(u2, uuid);
            assert_eq!(username, "resume_test_1");
            assert!(resumed);
        },
        other => panic!("expected resume, got {:?}", other),
    }
    // no second session was created
    let snap = srv.snapshot(1000);
    assert_eq!(snap.players.len(), 1);
}

#[test]
fn test_resume_keeps_last_known_state() {
    let mut srv = new_server();
    let uuid = register_fresh(&mut srv, 0, "traveler");
    let mut f = no_fields();
    f.x = Some(100 * M);
    f.y = Some(200 * M);
    f.z = Some(300 * M);
    f.ts = Some(500);
    let r = srv.update(500, addr(1), uuid, f);
    assert!(matches!(r, UpdateOutcome::Applied { .. }));
    let r2 = srv.register(1000, addr(3), Some(uuid), None);
    match r2 {
        RegisterOutcome::Registered { state, resumed, .. } => {
            assert!(resumed);
            assert_eq!(state.x, Some(100 * M));
            assert_eq!(state.y, Some(200 * M));
            assert_eq!(state.z, Some(300 * M));
        },
        other => panic!("expected resume, got {:?}", other),
    }
}

#[test]
fn test_name_conflict_suggests_first_gap() {
    let mut srv = new_server();
    register_fresh(&mut srv, 0, "bar");
    register_fresh(&mut srv, 0, "bar_1");
    register_fresh(&mut srv, 0, "bar_3");
    register_fresh(&mut srv, 0, "bar_5");
    let r = srv.register(0, addr(9), None, Some("bar".to_string()));
    match r {
        RegisterOutcome::NameConflict { suggested } => assert_eq!(suggested, "bar_2"),
        other => panic!("expected a name conflict, got {:?}", other),
    }
}

#[test]
fn test_offline_name_reusable() {
    // username uniqueness holds only against the online set
    let mut srv = new_server();
    register_fresh(&mut srv, 0, "ghost");
    // after the timeout the first session is offline, so the name is free
    let r = srv.register(TIMEOUT_MS + 1, addr(4), None, Some("ghost".to_string()));
    assert!(matches!(r, RegisterOutcome::Registered { .. }));
}

#[test]
fn test_distinct_registrations_distinct_ids() {
    // registering N distinct usernames yields N unique session ids and a
    // one-to-one online username-id mapping
    let mut srv = new_server();
    let names = ["ada", "grace", "edsger", "tony", "barbara"];
    let mut ids: Vec<u128> = Vec::new();
    for name in names.iter() {
        ids.push(register_fresh(&mut srv, 0, name));
    }
    for i in 0..ids.len() {
        for j in 0..ids.len() {
            if i != j {
                assert_ne!(ids[i], ids[j]);
            }
        }
    }
    let snap = srv.snapshot(0);
    assert_eq!(snap.players.len(), names.len());
    for (k, name) in names.iter().enumerate() {
        let p = snap.players.iter().find(|p| p.uuid == ids[k]).unwrap();
        assert_eq!(&p.username, name);
    }
}

#[test]
fn test_online_detection_by_last_seen() {
    let mut srv = new_server();
    let now: u128 = 100_000;
    // online player: active just now; offline player: last seen 61 s ago
    let uuid_online = register_fresh(&mut srv, now, "fresh");
    let uuid_offline = register_fresh(&mut srv, now - 61_000, "stale");
    let snap = srv.snapshot(now);
    assert!(snap.get_player(uuid_online).is_some());
    assert!(snap.get_player(uuid_offline).is_none());
}

#[test]
fn test_filter_online_players() {
    let mut srv = new_server();
    let now: u128 = 1_000_000;
    let uuid_online = register_fresh(&mut srv, now, "online_player");
    let uuid_offline = register_fresh(&mut srv, now - 61_000, "offline_player");
    let uuid_never_active = register_fresh(&mut srv, 0, "never_active");
    let snap = srv.snapshot(now);
    assert_eq!(snap.players.len(), 1);
    assert!(snap.get_player(uuid_online).is_some());
    assert!(snap.get_player(uuid_offline).is_none());
    assert!(snap.get_player(uuid_never_active).is_none());
}

#[test]
fn test_soft_offline_retained_and_restored() {
    // an idle session leaves the snapshot but stays in the store, and a
    // fresh update brings it back
    let mut srv = new_server();
    let uuid = register_fresh(&mut srv, 0, "sleeper");
    let later = TIMEOUT_MS;
    assert!(srv.snapshot(later).get_player(uuid).is_none());
    assert!(srv.get_state(uuid).is_some());
    let mut f = no_fields();
    f.ts = Some(later);
    srv.update(later, addr(5), uuid, f);
    assert!(srv.snapshot(later).get_player(uuid).is_some());
}

#[test]
fn test_sweep_marks_offline_and_persists() {
    let mut srv = new_server();
    let uuid = register_fresh(&mut srv, 0, "drifter");
    let notices = srv.sweep(TIMEOUT_MS + 1);
    assert_eq!(notices.len(), 1);
    assert_eq!(notices[0].uuid, uuid);
    assert_eq!(notices[0].username, "drifter");
    assert!(srv.storage.contains_uuid(uuid));
    assert_eq!(srv.storage.get_username(uuid).unwrap(), "drifter");
    // a second sweep does not report the same crossing again
    let notices2 = srv.sweep(TIMEOUT_MS + 2);
    assert_eq!(notices2.len(), 0);
}

#[test]
fn test_resume_from_identity_store() {
    // a restart survivor: the id is only in the identity store
    let mut storage = UuidStorage::new();
    let uuid = Uuid::new_v4().as_u128();
    storage.add_uuid(uuid, "phoenix".to_string());
    let mut srv = Server::new(TIMEOUT_MS, storage, false);
    let r = srv.register(0, addr(6), Some(uuid), None);
    match r {
        RegisterOutcome::Registered { uuid: u2, username, state, resumed, from_storage } => {
            assert_eq!(u2, uuid);
            assert_eq!(username, "phoenix");
            assert!(resumed);
            assert!(from_storage);
            assert_eq!(state.x, None);
            assert_eq!(state.ts, None);
        },
        other => panic!("expected resume from storage, got {:?}", other),
    }
    assert!(srv.snapshot(0).get_player(uuid).is_some());
}

#[test]
fn test_update_unknown_session_ignored() {
    let mut srv = new_server();
    let r = srv.update(0, addr(1), 12345, no_fields());
    assert!(matches!(r, UpdateOutcome::Ignored));
}

#[test]
fn test_update_rejects_teleport_with_correction() {
    let mut srv = new_server();
    let uuid = register_fresh(&mut srv, 0, "speedy");
    let mut f0 = no_fields();
    f0.x = Some(0);
    f0.y = Some(0);
    f0.z = Some(0);
    f0.ts = Some(0);
    srv.update(0, addr(1), uuid, f0);
    let mut f1 = no_fields();
    f1.x = Some(100 * M);
    f1.y = Some(0);
    f1.z = Some(0);
    f1.ts = Some(1000);
    f1.vx = Some(10 * M);
    f1.vy = Some(0);
    f1.vz = Some(0);
    match srv.update(1000, addr(1), uuid, f1) {
        UpdateOutcome::Applied { state, correction } => {
            let c = correction.expect("a correction notice is owed");
            assert_eq!(c.uuid, uuid);
            assert_eq!(c.username, "speedy");
            assert_eq!(c.x, 10 * M);
            assert_eq!(c.y, 0);
            assert_eq!(c.z, 0);
            assert_eq!(c.vx, 10 * M);
            assert_eq!(c.ts, 1000);
            // the stored position is the corrected one, not the sent one
            assert_eq!(state.x, Some(10 * M));
            assert_eq!(state.ts, Some(1000));
        },
        other => panic!("expected an applied update, got {:?}", other),
    }
    let stored = srv.get_state(uuid).unwrap();
    assert_eq!(stored.x, Some(10 * M));
}

#[test]
fn test_update_accepts_plausible_motion() {
    let mut srv = new_server();
    let uuid = register_fresh(&mut srv, 0, "walker");
    let mut f0 = no_fields();
    f0.x = Some(0);
    f0.y = Some(0);
    f0.z = Some(0);
    f0.ts = Some(1000);
    srv.update(1000, addr(1), uuid, f0);
    let mut f1 = no_fields();
    f1.x = Some(10 * M);
    f1.y = Some(0);
    f1.z = Some(0);
    f1.ts = Some(2000);
    f1.vx = Some(10 * M);
    f1.vy = Some(0);
    f1.vz = Some(0);
    match srv.update(2000, addr(1), uuid, f1) {
        UpdateOutcome::Applied { state, correction } => {
            assert!(correction.is_none());
            assert_eq!(state.x, Some(10 * M));
        },
        other => panic!("expected an applied update, got {:?}", other),
    }
}

#[test]
fn test_updates_to_distinct_sessions_are_independent() {
    // N updates to N distinct sessions leave exactly N entries, each equal
    // to that session's own last sent value
    let mut srv = new_server();
    let mut ids: Vec<u128> = Vec::new();
    for k in 0..5u32 {
        ids.push(register_fresh(&mut srv, 0, &format!("racer_{}", k)));
    }
    for (k, id) in ids.iter().enumerate() {
        let mut f = no_fields();
        f.x = Some((k as i64 + 1) * M);
        f.ts = Some(10);
        let r = srv.update(10, addr(k as u32), *id, f);
        assert!(matches!(r, UpdateOutcome::Applied { .. }));
    }
    let snap = srv.snapshot(10);
    assert_eq!(snap.players.len(), 5);
    for (k, id) in ids.iter().enumerate() {
        let p = snap.get_player(*id).unwrap();
        assert_eq!(p.x, Some((k as i64 + 1) * M));
    }
}

#[test]
fn test_heartbeat_refreshes_activity() {
    let mut srv = new_server();
    let uuid = register_fresh(&mut srv, 0, "pinger");
    srv.heartbeat(TIMEOUT_MS - 1, uuid);
    // without the heartbeat this session would be offline by now
    assert!(srv.snapshot(TIMEOUT_MS + 1).get_player(uuid).is_some());
    // heartbeats on unknown sessions are ignored
    srv.heartbeat(0, 999);
    assert_eq!(srv.snapshot(TIMEOUT_MS + 1).players.len(), 1);
}

#[test]
fn test_online_check_performance() {
    let mut srv = new_server();
    let now: u128 = 1_000_000;
    for k in 0..1000u32 {
        let name = format!("p{}", k);
        let r = srv.register(now, addr(k), None, Some(name));
        let uuid = match r {
            RegisterOutcome::Registered { uuid, .. } => uuid,
            other => panic!("expected registered, got {:?}", other),
        };
        // scatter last activity over the past 120 seconds
        let offset = (uuid % 120) as u128;
        srv.heartbeat(now - offset * 1000, uuid);
    }
    let start = Instant::now();
    let online_count = srv.snapshot(now).players.len();
    let elapsed = start.elapsed();
    println!("checking presence of 1000 players took {:?}", elapsed);
    assert!(elapsed < Duration::from_millis(10));
    assert!(online_count > 0 && online_count < 1000);
}

#[test]
fn test_sweep_evicts_when_configured() {
    // under the hard-evict policy a timed-out session is removed entirely
    let mut srv = Server::new(TIMEOUT_MS, UuidStorage::new(), true);
    let uuid = match srv.register(0, addr(7), None, Some("vanisher".to_string())) {
        RegisterOutcome::Registered { uuid, .. } => uuid,
        other => panic!("expected registered, got {:?}", other),
    };
    let keeper = match srv.register(TIMEOUT_MS, addr(8), None, Some("keeper".to_string())) {
        RegisterOutcome::Registered { uuid, .. } => uuid,
        other => panic!("expected registered, got {:?}", other),
    };
    let notices = srv.sweep(TIMEOUT_MS + 1);
    assert_eq!(notices.len(), 1);
    assert_eq!(notices[0].uuid, uuid);
    assert_eq!(notices[0].username, "vanisher");
    // the evicted session is gone from the store, the live one remains
    assert!(srv.get_state(uuid).is_none());
    assert!(srv.get_state(keeper).is_some());
    // the persisted identity survives eviction: the id resumes from the
    // identity store with an empty transform
    let r = srv.register(TIMEOUT_MS + 2, addr(7), Some(uuid), None);
    match r {
        RegisterOutcome::Registered { username, state, resumed, from_storage, .. } => {
            assert_eq!(username, "vanisher");
            assert!(resumed);
            assert!(from_storage);
            assert_eq!(state.x, None);
        },
        other => panic!("expected resume from storage, got {:?}", other),
    }
}
