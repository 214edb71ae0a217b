//! The authoritative session manager: registration and resume, movement
//! updates, presence, the inactivity sweep and snapshot building.
//!
//! All shared state lives in one [`Server`] aggregate, so every operation is
//! applied as a whole: a reader holding the aggregate can never observe a
//! session whose record is only partly written. The surrounding process
//! serializes access to the aggregate and performs network I/O only with
//! values obtained from it.

use vstd::prelude::*;

verus! {

use crate::player::{PlayerState, WorldState, state_bounded, empty_state_view, name_taken};
use crate::naming::{candidate_name, fallback_name};
use crate::storage::UuidStorage;

/// Relies on `uuid::Uuid::new_v4` and `Uuid::as_u128`: a freshly generated
/// random version-4 UUID as its 128-bit value. Nothing is assumed of the
/// value; callers check it against the sessions and identities they hold.
#[verifier::external_body]
fn fresh_session_id() -> (r: u128)
{
    uuid::Uuid::new_v4().as_u128()
}

/// One session: its authoritative player state, the address it is bound to,
/// when it was last heard from (server clock, milliseconds), and whether the
/// sweep still counts it as online.
#[derive(Debug)]
pub struct Session {
    pub state: PlayerState,
    pub addr: String,
    pub last_seen: u128,
    pub online: bool,
}

pub ghost struct SessionView {
    pub state: crate::player::PlayerStateView,
    pub addr: Seq<char>,
    pub last_seen: u128,
    pub online: bool,
}

impl View for Session {
    type V = SessionView;

    open spec fn view(&self) -> SessionView {
        SessionView {
            state: self.state@,
            addr: self.addr@,
            last_seen: self.last_seen,
            online: self.online,
        }
    }
}

/// A session counts as online while less than the timeout has elapsed since
/// its last activity.
pub open spec fn session_online(s: SessionView, now: u128, timeout_ms: u128) -> bool {
    (now as int) < s.last_seen + timeout_ms
}

/// The states of the online sessions, in session order: what a snapshot
/// holds.
pub open spec fn online_players(sessions: Seq<Session>, now: u128, timeout_ms: u128) -> Seq<PlayerState>
    decreases sessions.len(),
{
    if sessions.len() == 0 {
        Seq::empty()
    } else {
        let rest = online_players(sessions.drop_last(), now, timeout_ms);
        if session_online(sessions.last()@, now, timeout_ms) {
            rest.push(sessions.last().state)
        } else {
            rest
        }
    }
}

/// Snapshot membership: every snapshot entry is the state of some online
/// session, and every online session's state appears in the snapshot.
pub proof fn lemma_online_players_membership(sessions: Seq<Session>, now: u128, timeout_ms: u128)
    ensures
        forall|k: int| #![trigger online_players(sessions, now, timeout_ms)[k]]
            0 <= k < online_players(sessions, now, timeout_ms).len()
            ==> exists|i: int| 0 <= i < sessions.len()
                && session_online(#[trigger] sessions[i]@, now, timeout_ms)
                && online_players(sessions, now, timeout_ms)[k] == sessions[i].state,
        forall|i: int| 0 <= i < sessions.len() && session_online(#[trigger] sessions[i]@, now, timeout_ms)
            ==> exists|k: int| 0 <= k < online_players(sessions, now, timeout_ms).len()
                && online_players(sessions, now, timeout_ms)[k] == sessions[i].state,
    decreases sessions.len(),
{
    if sessions.len() > 0 {
        let pre = sessions.drop_last();
        let n = sessions.len() as int;
        lemma_online_players_membership(pre, now, timeout_ms);
        let op = online_players(sessions, now, timeout_ms);
        let opp = online_players(pre, now, timeout_ms);
        assert(sessions.last() == sessions[n - 1]);
        assert forall|k: int| #![trigger op[k]]
            0 <= k < op.len()
            implies exists|i: int| 0 <= i < sessions.len()
                && session_online(#[trigger] sessions[i]@, now, timeout_ms)
                && op[k] == sessions[i].state by {
            if session_online(sessions[n - 1]@, now, timeout_ms) && k == opp.len() {
                assert(session_online(sessions[n - 1]@, now, timeout_ms) && op[k] == sessions[n - 1].state);
            } else {
                assert(0 <= k < opp.len());
                assert(op[k] == opp[k]);
                let i0 = choose|i: int| 0 <= i < pre.len()
                    && session_online(#[trigger] pre[i]@, now, timeout_ms)
                    && opp[k] == pre[i].state;
                assert(pre[i0] == sessions[i0]);
                assert(session_online(sessions[i0]@, now, timeout_ms) && op[k] == sessions[i0].state);
            }
        }
        assert forall|i: int|
            0 <= i < sessions.len() && session_online(#[trigger] sessions[i]@, now, timeout_ms)
            implies exists|k: int| 0 <= k < op.len() && op[k] == sessions[i].state by {
            if i == n - 1 {
                let k0 = op.len() - 1;
                assert(0 <= k0 < op.len() && op[k0] == sessions[i].state);
            } else {
                assert(pre[i] == sessions[i]);
                assert(session_online(pre[i]@, now, timeout_ms));
                let k0 = choose|k: int| 0 <= k < opp.len() && opp[k] == pre[i].state;
                assert(op[k0] == opp[k0]);
                assert(0 <= k0 < op.len() && op[k0] == sessions[i].state);
            }
        }
    }
}

/// A name occurs in a snapshot exactly when some online session carries it.
#[verifier::rlimit(50)]
pub proof fn lemma_online_names(sessions: Seq<Session>, now: u128, timeout_ms: u128)
    ensures
        forall|nm: Seq<char>| #[trigger] name_taken(online_players(sessions, now, timeout_ms), nm)
            == exists|i: int| 0 <= i < sessions.len()
                && session_online(#[trigger] sessions[i]@, now, timeout_ms)
                && sessions[i].state.username@ == nm,
{
    lemma_online_players_membership(sessions, now, timeout_ms);
    let op = online_players(sessions, now, timeout_ms);
    assert forall|nm: Seq<char>| #[trigger] name_taken(op, nm)
        == exists|i: int| 0 <= i < sessions.len()
            && session_online(#[trigger] sessions[i]@, now, timeout_ms)
            && sessions[i].state.username@ == nm by {
        if name_taken(op, nm) {
            let k = choose|k: int| 0 <= k < op.len() && op[k].username@ == nm;
            let i = choose|i: int| 0 <= i < sessions.len()
                && session_online(#[trigger] sessions[i]@, now, timeout_ms) && op[k] == sessions[i].state;
            assert(0 <= i < sessions.len() && session_online(sessions[i]@, now, timeout_ms)
                && sessions[i].state.username@ == nm);
        }
        if exists|i: int| 0 <= i < sessions.len()
            && session_online(#[trigger] sessions[i]@, now, timeout_ms)
            && sessions[i].state.username@ == nm {
            let i = choose|i: int| 0 <= i < sessions.len()
                && session_online(#[trigger] sessions[i]@, now, timeout_ms)
                && sessions[i].state.username@ == nm;
            let k = choose|k: int| 0 <= k < op.len() && op[k] == sessions[i].state;
            assert(0 <= k < op.len() && op[k].username@ == nm);
        }
    }
}

/// The whole shared state, owned as one exclusively-accessed aggregate.
///
/// `evict_on_timeout` selects the timeout policy: soft-offline (retain the
/// record, hide it from snapshots) or hard-evict (remove it entirely).
#[derive(Debug)]
pub struct Server {
    pub sessions: Vec<Session>,
    pub storage: UuidStorage,
    pub timeout_ms: u128,
    pub evict_on_timeout: bool,
}

impl Server {
    pub open spec fn views(self) -> Seq<SessionView> {
        self.sessions@.map_values(|s: Session| s@)
    }

    /// Session ids are pairwise distinct, stored transforms lie within the
    /// coordinate model, usernames fit the persistence format, the identity
    /// store is well formed, and the timeout is positive.
    pub open spec fn wf(self) -> bool {
        &&& forall|i: int, j: int|
            0 <= i < self.views().len() && 0 <= j < self.views().len() && i != j
                ==> self.views()[i].state.uuid != self.views()[j].state.uuid
        &&& forall|i: int| 0 <= i < self.views().len()
                ==> state_bounded(#[trigger] self.views()[i].state)
        &&& forall|i: int| 0 <= i < self.views().len()
                ==> (#[trigger] self.views()[i].state.username).len() < 0x1_0000_0000
        &&& self.storage.wf()
        &&& 0 < self.timeout_ms
    }

    pub open spec fn has_session(self, id: u128) -> bool {
        exists|i: int| 0 <= i < self.views().len() && self.views()[i].state.uuid == id
    }

    /// Some online session carries this username.
    pub open spec fn online_name_taken(self, now: u128, nm: Seq<char>) -> bool {
        exists|i: int| 0 <= i < self.views().len()
            && session_online(#[trigger] self.views()[i], now, self.timeout_ms)
            && self.views()[i].state.username == nm
    }

    /// Among online sessions, usernames determine the session.
    pub open spec fn online_names_injective(self, now: u128) -> bool {
        forall|i: int, j: int|
            0 <= i < self.views().len() && 0 <= j < self.views().len() && i != j
                && session_online(#[trigger] self.views()[i], now, self.timeout_ms)
                && session_online(#[trigger] self.views()[j], now, self.timeout_ms)
                ==> self.views()[i].state.username != self.views()[j].state.username
    }

    pub fn new(timeout_ms: u128, storage: UuidStorage, evict_on_timeout: bool) -> (r: Server)
        requires
            0 < timeout_ms,
            storage.wf(),
        ensures
            r.wf(),
            r.views() == Seq::<SessionView>::empty(),
            r.storage@ == storage@,
            r.timeout_ms == timeout_ms,
            r.evict_on_timeout == evict_on_timeout,
    {
        let r = Server { sessions: Vec::new(), storage, timeout_ms, evict_on_timeout };
        proof {
            assert(r.views() =~= Seq::<SessionView>::empty());
        }
        r
    }

    fn find_session(&self, id: u128) -> (r: Option<usize>)
        ensures
            r matches Some(i) ==> i < self.views().len() && self.views()[i as int].state.uuid == id,
            r is None ==> !self.has_session(id),
    {
        let mut k: usize = 0;
        while k < self.sessions.len()
            invariant
                k <= self.sessions@.len(),
                self.views().len() == self.sessions@.len(),
                forall|i: int| 0 <= i < k ==> self.views()[i].state.uuid != id,
            decreases self.sessions@.len() - k,
        {
            if self.sessions[k].state.uuid == id {
                return Some(k);
            }
            k = k + 1;
        }
        None
    }

    fn is_online_at(&self, k: usize, now: u128) -> (r: bool)
        requires
            k < self.views().len(),
            0 < self.timeout_ms,
        ensures
            r == session_online(self.views()[k as int], now, self.timeout_ms),
    {
        let ls = self.sessions[k].last_seen;
        if ls >= now {
            true
        } else {
            now - ls < self.timeout_ms
        }
    }

    /// Refresh a session's activity clock; unknown ids are ignored.
    pub fn heartbeat(&mut self, now: u128, id: u128)
        requires
            old(self).wf(),
        ensures
            final(self).wf(),
            final(self).timeout_ms == old(self).timeout_ms,
            final(self).evict_on_timeout == old(self).evict_on_timeout,
            final(self).storage@ == old(self).storage@,
            !old(self).has_session(id) ==> final(self).views() == old(self).views(),
            old(self).has_session(id) ==> exists|i: int|
                0 <= i < old(self).views().len()
                && old(self).views()[i].state.uuid == id
                && final(self).views() == old(self).views().update(i, SessionView {
                    last_seen: now,
                    ..old(self).views()[i]
                }),
    {
        match self.find_session(id) {
            Some(k) => {
                let refreshed = Session {
                    state: self.sessions[k].state.duplicate(),
                    addr: self.sessions[k].addr.clone(),
                    last_seen: now,
                    online: self.sessions[k].online,
                };
                self.sessions.set(k, refreshed);
                proof {
                    let ghost w: int = k as int;
                    assert(final(self).views() =~= old(self).views().update(w, SessionView {
                        last_seen: now,
                        ..old(self).views()[w]
                    }));
                }
            },
            None => {
                proof {
                    assert(final(self).views() =~= old(self).views());
                }
            },
        }
    }

    /// The snapshot the broadcaster fans out: the states of exactly the
    /// online sessions.
    pub fn snapshot(&self, now: u128) -> (w: WorldState)
        requires
            self.wf(),
        ensures
            w.players@ == online_players(self.sessions@, now, self.timeout_ms),
    {
        let mut players: Vec<PlayerState> = Vec::new();
        let mut k: usize = 0;
        proof {
            assert(players@ =~= online_players(self.sessions@.take(0), now, self.timeout_ms));
        }
        while k < self.sessions.len()
            invariant
                k <= self.sessions@.len(),
                self.wf(),
                self.views().len() == self.sessions@.len(),
                players@ == online_players(self.sessions@.take(k as int), now, self.timeout_ms),
            decreases self.sessions@.len() - k,
        {
            proof {
                assert(self.sessions@.take((k + 1) as int).drop_last()
                    =~= self.sessions@.take(k as int));
                assert(self.sessions@.take((k + 1) as int).last() == self.sessions@[k as int]);
            }
            if self.is_online_at(k, now) {
                players.push(self.sessions[k].state.duplicate());
                proof {
                    assert(self.sessions@[k as int]@ == self.views()[k as int]);
                    assert(players@ =~= online_players(self.sessions@.take((k + 1) as int), now, self.timeout_ms));
                }
            } else {
                proof {
                    assert(players@ =~= online_players(self.sessions@.take((k + 1) as int), now, self.timeout_ms));
                }
            }
            k = k + 1;
        }
        proof {
            assert(self.sessions@.take(self.sessions@.len() as int) =~= self.sessions@);
        }
        WorldState { players }
    }
}


/// Client-facing outcome of a registration attempt.
#[derive(Debug)]
pub enum RegisterOutcome {
    Registered {
        uuid: u128,
        username: String,
        state: PlayerState,
        resumed: bool,
        from_storage: bool,
    },
    NameConflict { suggested: String },
    SessionNotFound { uuid: u128 },
    UsernameRequired,
}

impl Server {
    /// An id is in use when a live session or a persisted identity holds it.
    pub open spec fn id_used(self, id: u128) -> bool {
        self.has_session(id) || self.storage.spec_contains(id)
    }

    fn id_in_use(&self, id: u128) -> (r: bool)
        ensures
            r == self.id_used(id),
    {
        match self.find_session(id) {
            Some(i) => {
                proof {
                    let ghost w: int = i as int;
                    assert(0 <= w < self.views().len() && self.views()[w].state.uuid == id);
                }
                true
            },
            None => self.storage.contains_uuid(id),
        }
    }

    /// A session id no live session and no persisted identity holds.
    ///
    /// Among any `n` ids at most `n` of the candidates `0..=n` can be in
    /// use, so the scan below always finds a free one.
    fn find_free_id(&self) -> (r: u128)
        requires
            self.wf(),
        ensures
            !self.id_used(r),
    {
        let n: u128 = self.sessions.len() as u128 + self.storage.uuids.len() as u128;
        proof {
            assert(self.storage@.len() == self.storage.uuids@.len());
            assert(self.views().len() == self.sessions@.len());
        }
        let mut k: u128 = 0;
        while k <= n
            invariant
                self.wf(),
                n == self.views().len() + self.storage@.len(),
                n < 0x1_0000_0000_0000_0000_0000,
                k <= n + 1,
                forall|c: u128| c < k ==> #[trigger] self.id_used(c),
            decreases n + 1 - k,
        {
            if !self.id_in_use(k) {
                return k;
            }
            k = k + 1;
        }
        proof {
            broadcast use vstd::seq_lib::seq_to_set_is_finite;
            let sids = self.views().map_values(|sv: SessionView| sv.state.uuid as int);
            let tids = self.storage@.map_values(|e: (u128, Seq<char>)| e.0 as int);
            assert(sids.no_duplicates());
            assert(tids.no_duplicates());
            sids.unique_seq_to_set();
            tids.unique_seq_to_set();
            let used_set = sids.to_set().union(tids.to_set());
            let range = vstd::set_lib::set_int_range(0, n as int + 1);
            vstd::set_lib::lemma_int_range(0, n as int + 1);
            assert forall|x: int| range.contains(x) implies used_set.contains(x) by {
                let c: u128 = x as u128;
                assert(c < k);
                assert(self.id_used(c));
                if self.has_session(c) {
                    let i = choose|i: int| 0 <= i < self.views().len()
                        && self.views()[i].state.uuid == c;
                    assert(sids[i] == x);
                    assert(sids.contains(x));
                } else {
                    let i = choose|i: int| 0 <= i < self.storage@.len()
                        && self.storage@[i].0 == c;
                    assert(tids[i] == x);
                    assert(tids.contains(x));
                }
            }
            vstd::set_lib::lemma_len_union(sids.to_set(), tids.to_set());
            vstd::set_lib::lemma_len_subset(range, used_set);
            assert(false);
        }
        0
    }

    /// Handle a `register` request, as one atomic step on the aggregate.
    ///
    /// A known requested id resumes that session (reconstructing an
    /// empty-transform record when it comes from the identity store); an
    /// unknown requested id is refused; with no id, a username is required,
    /// must not be held by an online session, and otherwise founds a fresh
    /// session under a fresh collision-checked id whose identity is
    /// persisted at once.
    pub fn register(
        &mut self,
        now: u128,
        addr: String,
        requested: Option<u128>,
        username: Option<String>,
    ) -> (r: RegisterOutcome)
        requires
            old(self).wf(),
            username matches Some(u) ==> u@.len() < 0x1_0000_0000,
        ensures
            final(self).wf(),
            final(self).timeout_ms == old(self).timeout_ms,
            final(self).evict_on_timeout == old(self).evict_on_timeout,
            // exactly one outcome, decided by the request and the old state
            (r is UsernameRequired) == (requested is None && username is None),
            (r is SessionNotFound) == (requested is Some && !old(self).id_used(requested->Some_0)),
            (r is NameConflict) == (requested is None && username is Some
                && old(self).online_name_taken(now, (username->Some_0)@)),
            // refusals change nothing
            r is UsernameRequired || r is SessionNotFound || r is NameConflict ==> ({
                &&& final(self).views() == old(self).views()
                &&& final(self).storage@ == old(self).storage@
            }),
            r matches RegisterOutcome::SessionNotFound { uuid } ==> requested == Some(uuid),
            // the suggested alternative follows the naming rule over the online set
            r matches RegisterOutcome::NameConflict { suggested } ==> (username matches Some(u) ==> ({
                ||| exists|i: int|
                    1 <= i < 10000
                    && suggested@ == #[trigger] candidate_name(u@, i as nat)
                    && !old(self).online_name_taken(now, candidate_name(u@, i as nat))
                    && (forall|j: int| 1 <= j < i ==> old(self).online_name_taken(
                        now, #[trigger] candidate_name(u@, j as nat)))
                ||| (suggested@ == fallback_name(u@)
                    && forall|i: int| 1 <= i < 10000 ==> old(self).online_name_taken(
                        now, #[trigger] candidate_name(u@, i as nat)))
            })),
            // resume of a live session: rebind, refresh, mark online; no new session
            requested matches Some(id) ==> (old(self).has_session(id) ==> ({
                &&& final(self).storage@ == old(self).storage@
                &&& exists|i: int|
                    0 <= i < old(self).views().len()
                    && old(self).views()[i].state.uuid == id
                    && final(self).views() == old(self).views().update(i, SessionView {
                        addr: addr@,
                        last_seen: now,
                        online: true,
                        ..old(self).views()[i]
                    })
                    && (r matches RegisterOutcome::Registered {
                            uuid: ruuid, username: rname, state: rstate, resumed, from_storage }
                        && ruuid == id
                        && rname@ == old(self).views()[i].state.username
                        && rstate@ == old(self).views()[i].state
                        && resumed == true
                        && from_storage == false)
            })),
            // resume from the identity store: a reconstructed empty record
            requested matches Some(id) ==> (!old(self).has_session(id)
                && old(self).storage.spec_contains(id) ==> ({
                &&& final(self).storage@ == old(self).storage@
                &&& exists|j: int|
                    0 <= j < old(self).storage@.len()
                    && old(self).storage@[j].0 == id
                    && final(self).views() == old(self).views().push(SessionView {
                        state: empty_state_view(id, old(self).storage@[j].1),
                        addr: addr@,
                        last_seen: now,
                        online: true,
                    })
                    && (r matches RegisterOutcome::Registered {
                            uuid: ruuid, username: rname, state: rstate, resumed, from_storage }
                        && ruuid == id
                        && rname@ == old(self).storage@[j].1
                        && rstate@ == empty_state_view(id, old(self).storage@[j].1)
                        && resumed == true
                        && from_storage == true)
            })),
            // fresh registration: new session under a fresh id, identity persisted
            requested is None ==> (username matches Some(u) ==> (
                !old(self).online_name_taken(now, u@) ==> ({
                &&& r matches RegisterOutcome::Registered {
                        uuid: ruuid, username: rname, state: rstate, resumed, from_storage }
                    && !old(self).id_used(ruuid)
                    && rname@ == u@
                    && rstate@ == empty_state_view(ruuid, u@)
                    && resumed == false
                    && from_storage == false
                    && final(self).views() == old(self).views().push(SessionView {
                        state: empty_state_view(ruuid, u@),
                        addr: addr@,
                        last_seen: now,
                        online: true,
                    })
                    && final(self).storage@ == old(self).storage@.push((ruuid, u@))
            }))),
            // fresh registrations keep online usernames one-to-one
            requested is None ==> (username matches Some(u) ==> (
                !old(self).online_name_taken(now, u@)
                && old(self).online_names_injective(now)
                ==> final(self).online_names_injective(now))),
    {
        match requested {
            Some(id) => {
                match self.find_session(id) {
                    Some(i) => {
                        proof {
                            let ghost w: int = i as int;
                            assert(0 <= w < self.views().len() && self.views()[w].state.uuid == id);
                        }
                        let uname = self.sessions[i].state.username.clone();
                        let stc = self.sessions[i].state.duplicate();
                        let refreshed = Session {
                            state: self.sessions[i].state.duplicate(),
                            addr,
                            last_seen: now,
                            online: true,
                        };
                        self.sessions.set(i, refreshed);
                        proof {
                            let ghost w: int = i as int;
                            assert(final(self).views() =~= old(self).views().update(w, SessionView {
                                addr: final(self).views()[w].addr,
                                last_seen: now,
                                online: true,
                                ..old(self).views()[w]
                            }));
                        }
                        RegisterOutcome::Registered {
                            uuid: id,
                            username: uname,
                            state: stc,
                            resumed: true,
                            from_storage: false,
                        }
                    },
                    None => {
                        match self.storage.get_username(id) {
                            Some(uname) => {
                                let ps = PlayerState::empty(id, uname.clone());
                                let stc = ps.duplicate();
                                self.sessions.push(Session {
                                    state: ps,
                                    addr,
                                    last_seen: now,
                                    online: true,
                                });
                                proof {
                                    let ghost j = choose|j: int| 0 <= j < old(self).storage@.len()
                                        && old(self).storage@[j] == (id, uname@);
                                    assert(final(self).views() =~= old(self).views().push(SessionView {
                                        state: empty_state_view(id, old(self).storage@[j].1),
                                        addr: final(self).views().last().addr,
                                        last_seen: now,
                                        online: true,
                                    }));
                                }
                                RegisterOutcome::Registered {
                                    uuid: id,
                                    username: uname,
                                    state: stc,
                                    resumed: true,
                                    from_storage: true,
                                }
                            },
                            None => RegisterOutcome::SessionNotFound { uuid: id },
                        }
                    },
                }
            },
            None => {
                match username {
                    None => RegisterOutcome::UsernameRequired,
                    Some(u) => {
                        let online_world = self.snapshot(now);
                        proof {
                            lemma_online_names(self.sessions@, now, self.timeout_ms);
                            assert(forall|i: int| 0 <= i < self.sessions@.len()
                                ==> #[trigger] self.sessions@[i]@ == self.views()[i]);
                            let ghost op = online_players(self.sessions@, now, self.timeout_ms);
                            assert forall|nm: Seq<char>| #[trigger] name_taken(online_world.players@, nm)
                                == self.online_name_taken(now, nm) by {
                                assert(name_taken(online_world.players@, nm) == name_taken(op, nm));
                                if name_taken(op, nm) {
                                    let i = choose|i: int| 0 <= i < self.sessions@.len()
                                        && session_online(#[trigger] self.sessions@[i]@, now, self.timeout_ms)
                                        && self.sessions@[i].state.username@ == nm;
                                    assert(self.views()[i] == self.sessions@[i]@);
                                    assert(session_online(self.views()[i], now, self.timeout_ms)
                                        && self.views()[i].state.username == nm);
                                }
                                if self.online_name_taken(now, nm) {
                                    let i = choose|i: int| 0 <= i < self.views().len()
                                        && session_online(#[trigger] self.views()[i], now, self.timeout_ms)
                                        && self.views()[i].state.username == nm;
                                    assert(self.sessions@[i]@ == self.views()[i]);
                                    assert(0 <= i < self.sessions@.len()
                                        && session_online(self.sessions@[i]@, now, self.timeout_ms)
                                        && self.sessions@[i].state.username@ == nm);
                                }
                            }
                        }
                        if online_world.has_name(&u) {
                            let ustr = u.as_str();
                            let suggested = crate::naming::generate_unique_name(
                                &online_world, ustr);
                            proof {
                                let w = online_world.players@;
                                assert(ustr@ == u@);
                                if exists|i: int| 1 <= i < 10000
                                    && suggested@ == #[trigger] candidate_name(ustr@, i as nat)
                                    && !name_taken(w, candidate_name(ustr@, i as nat))
                                    && (forall|j: int| 1 <= j < i ==> #[trigger] name_taken(
                                        w, candidate_name(ustr@, j as nat))) {
                                    let i0 = choose|i: int| 1 <= i < 10000
                                        && suggested@ == #[trigger] candidate_name(ustr@, i as nat)
                                        && !name_taken(w, candidate_name(ustr@, i as nat))
                                        && (forall|j: int| 1 <= j < i ==> #[trigger] name_taken(
                                            w, candidate_name(ustr@, j as nat)));
                                    assert(suggested@ == candidate_name(u@, i0 as nat));
                                    assert(!self.online_name_taken(now, candidate_name(u@, i0 as nat)));
                                    assert forall|j: int| 1 <= j < i0
                                        implies self.online_name_taken(
                                            now, #[trigger] candidate_name(u@, j as nat)) by {
                                        assert(candidate_name(u@, j as nat)
                                            == candidate_name(ustr@, j as nat));
                                        assert(name_taken(w, candidate_name(ustr@, j as nat)));
                                    }
                                    assert(exists|i: int| 1 <= i < 10000
                                        && suggested@ == #[trigger] candidate_name(u@, i as nat)
                                        && !self.online_name_taken(now, candidate_name(u@, i as nat))
                                        && (forall|j: int| 1 <= j < i ==> self.online_name_taken(
                                            now, #[trigger] candidate_name(u@, j as nat))));
                                } else {
                                    assert(suggested@ == fallback_name(ustr@)
                                        && forall|i: int| 1 <= i < 10000 ==> #[trigger] name_taken(
                                            w, candidate_name(ustr@, i as nat)));
                                    assert(suggested@ == fallback_name(u@));
                                    assert forall|i: int| 1 <= i < 10000
                                        implies self.online_name_taken(
                                            now, #[trigger] candidate_name(u@, i as nat)) by {
                                        assert(candidate_name(u@, i as nat)
                                            == candidate_name(ustr@, i as nat));
                                        assert(name_taken(w, candidate_name(ustr@, i as nat)));
                                    }
                                }
                            }
                            RegisterOutcome::NameConflict { suggested }
                        } else {
                            let mut id = fresh_session_id();
                            if self.id_in_use(id) {
                                id = self.find_free_id();
                            }
                            let ps = PlayerState::empty(id, u.clone());
                            let stc = ps.duplicate();
                            self.sessions.push(Session {
                                state: ps,
                                addr,
                                last_seen: now,
                                online: true,
                            });
                            self.storage.add_uuid(id, u.clone());
                            proof {
                                assert(final(self).views() =~= old(self).views().push(SessionView {
                                    state: empty_state_view(id, u@),
                                    addr: final(self).views().last().addr,
                                    last_seen: now,
                                    online: true,
                                }));
                                let ghost n0 = old(self).views().len() as int;
                                if old(self).online_names_injective(now) {
                                    assert forall|i: int, j: int|
                                        0 <= i < final(self).views().len()
                                        && 0 <= j < final(self).views().len() && i != j
                                        && session_online(#[trigger] final(self).views()[i], now, final(self).timeout_ms)
                                        && session_online(#[trigger] final(self).views()[j], now, final(self).timeout_ms)
                                        implies final(self).views()[i].state.username
                                            != final(self).views()[j].state.username by {
                                        if i < n0 && j < n0 {
                                            assert(final(self).views()[i] == old(self).views()[i]);
                                            assert(final(self).views()[j] == old(self).views()[j]);
                                        } else if i == n0 {
                                            assert(final(self).views()[j] == old(self).views()[j]);
                                            assert(!old(self).online_name_taken(now, u@));
                                        } else {
                                            assert(final(self).views()[i] == old(self).views()[i]);
                                            assert(!old(self).online_name_taken(now, u@));
                                        }
                                    }
                                }
                            }
                            RegisterOutcome::Registered {
                                uuid: id,
                                username: u,
                                state: stc,
                                resumed: false,
                                from_storage: false,
                            }
                        }
                    },
                }
            },
        }
    }
}


/// Incoming transform fields of an `update` message; absent fields clear the
/// stored ones, exactly as sent.
pub struct UpdateFields {
    pub x: Option<i64>,
    pub y: Option<i64>,
    pub z: Option<i64>,
    pub ts: Option<u128>,
    pub rx: Option<i64>,
    pub ry: Option<i64>,
    pub rz: Option<i64>,
    pub vx: Option<i64>,
    pub vy: Option<i64>,
    pub vz: Option<i64>,
    pub action: Option<String>,
}

pub ghost struct UpdateFieldsView {
    pub x: Option<i64>,
    pub y: Option<i64>,
    pub z: Option<i64>,
    pub ts: Option<u128>,
    pub rx: Option<i64>,
    pub ry: Option<i64>,
    pub rz: Option<i64>,
    pub vx: Option<i64>,
    pub vy: Option<i64>,
    pub vz: Option<i64>,
    pub action: Option<Seq<char>>,
}

impl View for UpdateFields {
    type V = UpdateFieldsView;

    open spec fn view(&self) -> UpdateFieldsView {
        UpdateFieldsView {
            x: self.x,
            y: self.y,
            z: self.z,
            ts: self.ts,
            rx: self.rx,
            ry: self.ry,
            rz: self.rz,
            vx: self.vx,
            vy: self.vy,
            vz: self.vz,
            action: crate::player::opt_str_view(self.action),
        }
    }
}

pub open spec fn fields_bounded(f: UpdateFieldsView) -> bool {
    &&& (f.x matches Some(c) ==> crate::movement::coord_ok(c))
    &&& (f.y matches Some(c) ==> crate::movement::coord_ok(c))
    &&& (f.z matches Some(c) ==> crate::movement::coord_ok(c))
    &&& (f.vx matches Some(v) ==> crate::movement::vel_ok(v))
    &&& (f.vy matches Some(v) ==> crate::movement::vel_ok(v))
    &&& (f.vz matches Some(v) ==> crate::movement::vel_ok(v))
}

/// Movement is judged only when the previous sample has a full position and
/// timestamp and the incoming one has a timestamp.
pub open spec fn update_checked(prev: crate::player::PlayerStateView, f: UpdateFieldsView) -> bool {
    prev.x is Some && prev.y is Some && prev.z is Some && prev.ts is Some && f.ts is Some
}

/// A velocity the client did not report counts as zero.
pub open spec fn reported_vel(v: Option<i64>) -> i64 {
    match v {
        Some(x) => x,
        None => 0,
    }
}

/// The candidate position along one axis: the incoming coordinate, or the
/// previous one where none was sent.
pub open spec fn cand_coord(f: Option<i64>, prev: i64) -> i64 {
    match f {
        Some(c) => c,
        None => prev,
    }
}

/// Whether the validator rejects the incoming sample against the stored one.
pub open spec fn update_rejected(prev: crate::player::PlayerStateView, f: UpdateFieldsView) -> bool {
    update_checked(prev, f) && crate::movement::movement_rejected(
        prev.x->Some_0 as int, prev.y->Some_0 as int, prev.z->Some_0 as int, prev.ts->Some_0,
        cand_coord(f.x, prev.x->Some_0) as int,
        cand_coord(f.y, prev.y->Some_0) as int,
        cand_coord(f.z, prev.z->Some_0) as int,
        f.ts->Some_0,
        reported_vel(f.vx) as int, reported_vel(f.vy) as int, reported_vel(f.vz) as int,
    )
}

/// Every field replaced by the incoming one; identity kept.
pub open spec fn merged_state(prev: crate::player::PlayerStateView, f: UpdateFieldsView)
    -> crate::player::PlayerStateView {
    crate::player::PlayerStateView {
        uuid: prev.uuid,
        username: prev.username,
        x: f.x,
        y: f.y,
        z: f.z,
        ts: f.ts,
        rx: f.rx,
        ry: f.ry,
        rz: f.rz,
        vx: f.vx,
        vy: f.vy,
        vz: f.vz,
        action: f.action,
    }
}

/// The state an accepted `update` stores: the merged fields, with the
/// position clamped to the corrected one when the validator rejects the
/// sample.
pub open spec fn applied_state(prev: crate::player::PlayerStateView, f: UpdateFieldsView)
    -> crate::player::PlayerStateView {
    let m = merged_state(prev, f);
    if update_rejected(prev, f) {
        let dt = crate::movement::spec_dt_ms(prev.ts->Some_0, f.ts->Some_0);
        crate::player::PlayerStateView {
            x: Some(crate::movement::corrected_coord(
                prev.x->Some_0 as int, reported_vel(f.vx) as int, dt) as i64),
            y: Some(crate::movement::corrected_coord(
                prev.y->Some_0 as int, reported_vel(f.vy) as int, dt) as i64),
            z: Some(crate::movement::corrected_coord(
                prev.z->Some_0 as int, reported_vel(f.vz) as int, dt) as i64),
            ..m
        }
    } else {
        m
    }
}

/// A correction notice sent only to the offending session.
#[derive(Debug)]
pub struct Correction {
    pub uuid: u128,
    pub username: String,
    pub x: i64,
    pub y: i64,
    pub z: i64,
    pub vx: i64,
    pub vy: i64,
    pub vz: i64,
    pub ts: u128,
}

/// Outcome of an `update` request.
#[derive(Debug)]
pub enum UpdateOutcome {
    Ignored,
    Applied { state: PlayerState, correction: Option<Correction> },
}

impl Server {
    /// Handle an `update` request: refresh activity, rebind the address,
    /// validate the movement against the stored sample, and store the
    /// (possibly corrected) result. Unknown session ids are ignored;
    /// validation only ever changes what is stored, never whether.
    pub fn update(&mut self, now: u128, addr: String, id: u128, fields: UpdateFields)
        -> (r: UpdateOutcome)
        requires
            old(self).wf(),
            fields_bounded(fields@),
        ensures
            final(self).wf(),
            final(self).timeout_ms == old(self).timeout_ms,
            final(self).evict_on_timeout == old(self).evict_on_timeout,
            final(self).storage@ == old(self).storage@,
            (r is Ignored) == !old(self).has_session(id),
            r is Ignored ==> final(self).views() == old(self).views(),
            r matches UpdateOutcome::Applied { state, correction } ==> exists|i: int|
                0 <= i < old(self).views().len()
                && old(self).views()[i].state.uuid == id
                && state@ == applied_state(old(self).views()[i].state, fields@)
                && final(self).views() == old(self).views().update(i, SessionView {
                    state: applied_state(old(self).views()[i].state, fields@),
                    addr: addr@,
                    last_seen: now,
                    online: true,
                })
                && ((correction is Some) == update_rejected(old(self).views()[i].state, fields@))
                && (correction matches Some(c) ==> ({
                    let prev = old(self).views()[i].state;
                    let dt = crate::movement::spec_dt_ms(prev.ts->Some_0, fields@.ts->Some_0);
                    &&& c.uuid == id
                    &&& c.username@ == prev.username
                    &&& c.x as int == crate::movement::corrected_coord(
                        prev.x->Some_0 as int, reported_vel(fields@.vx) as int, dt)
                    &&& c.y as int == crate::movement::corrected_coord(
                        prev.y->Some_0 as int, reported_vel(fields@.vy) as int, dt)
                    &&& c.z as int == crate::movement::corrected_coord(
                        prev.z->Some_0 as int, reported_vel(fields@.vz) as int, dt)
                    &&& c.vx == reported_vel(fields@.vx)
                    &&& c.vy == reported_vel(fields@.vy)
                    &&& c.vz == reported_vel(fields@.vz)
                    &&& c.ts == fields@.ts->Some_0
                })),
    {
        match self.find_session(id) {
            None => UpdateOutcome::Ignored,
            Some(i) => {
                proof {
                    let ghost w: int = i as int;
                    assert(0 <= w < self.views().len() && self.views()[w].state.uuid == id);
                }
                let prev_st = self.sessions[i].state.duplicate();
                let mut newst = PlayerState {
                    uuid: prev_st.uuid,
                    username: prev_st.username.clone(),
                    x: fields.x,
                    y: fields.y,
                    z: fields.z,
                    ts: fields.ts,
                    rx: fields.rx,
                    ry: fields.ry,
                    rz: fields.rz,
                    vx: fields.vx,
                    vy: fields.vy,
                    vz: fields.vz,
                    action: fields.action,
                };
                let mut correction: Option<Correction> = None;
                if prev_st.x.is_some() && prev_st.y.is_some() && prev_st.z.is_some()
                    && prev_st.ts.is_some() && newst.ts.is_some() {
                    let px = prev_st.x.unwrap();
                    let py = prev_st.y.unwrap();
                    let pz = prev_st.z.unwrap();
                    let pts = prev_st.ts.unwrap();
                    let nts = newst.ts.unwrap();
                    let cx = match newst.x { Some(c) => c, None => px };
                    let cy = match newst.y { Some(c) => c, None => py };
                    let cz = match newst.z { Some(c) => c, None => pz };
                    let vx = match newst.vx { Some(v) => v, None => 0 };
                    let vy = match newst.vy { Some(v) => v, None => 0 };
                    let vz = match newst.vz { Some(v) => v, None => 0 };
                    proof {
                        let ghost w: int = i as int;
                        assert(crate::player::state_bounded(self.views()[w].state));
                        assert(self.views()[w].state == prev_st@);
                    }
                    let mv = crate::movement::validate_movement(
                        px, py, pz, pts, cx, cy, cz, nts, vx, vy, vz);
                    if !mv.is_valid {
                        let corx = mv.corrected_x.unwrap();
                        let cory = mv.corrected_y.unwrap();
                        let corz = mv.corrected_z.unwrap();
                        newst.x = Some(corx);
                        newst.y = Some(cory);
                        newst.z = Some(corz);
                        correction = Some(Correction {
                            uuid: id,
                            username: prev_st.username.clone(),
                            x: corx,
                            y: cory,
                            z: corz,
                            vx,
                            vy,
                            vz,
                            ts: nts,
                        });
                    }
                }
                proof {
                    let ghost w: int = i as int;
                    assert(newst@ == applied_state(old(self).views()[w].state, fields@));
                }
                let stc = newst.duplicate();
                self.sessions.set(i, Session {
                    state: newst,
                    addr,
                    last_seen: now,
                    online: true,
                });
                proof {
                    let ghost w: int = i as int;
                    assert(final(self).views() =~= old(self).views().update(w, SessionView {
                        state: applied_state(old(self).views()[w].state, fields@),
                        addr: final(self).views()[w].addr,
                        last_seen: now,
                        online: true,
                    }));
                }
                UpdateOutcome::Applied { state: stc, correction }
            },
        }
    }
}


/// A session that the sweep just moved from online to offline.
pub open spec fn session_crossed(v: SessionView, now: u128, timeout_ms: u128) -> bool {
    v.online && !session_online(v, now, timeout_ms)
}

/// What the sweep makes of one session: cleared online flag when it just
/// crossed, untouched otherwise.
pub open spec fn swept_view(v: SessionView, now: u128, timeout_ms: u128) -> SessionView {
    if session_crossed(v, now, timeout_ms) {
        SessionView { online: false, ..v }
    } else {
        v
    }
}

/// The `(id, username, address)` notices a sweep emits, in session order.
pub open spec fn notices_of(views: Seq<SessionView>, now: u128, timeout_ms: u128)
    -> Seq<(u128, Seq<char>, Seq<char>)>
    decreases views.len(),
{
    if views.len() == 0 {
        Seq::empty()
    } else {
        let rest = notices_of(views.drop_last(), now, timeout_ms);
        if session_crossed(views.last(), now, timeout_ms) {
            rest.push((views.last().state.uuid, views.last().state.username, views.last().addr))
        } else {
            rest
        }
    }
}

/// What survives a hard-evict sweep: the sessions that did not just cross
/// from online to offline, in order.
pub open spec fn kept_views(views: Seq<SessionView>, now: u128, timeout_ms: u128)
    -> Seq<SessionView>
    decreases views.len(),
{
    if views.len() == 0 {
        Seq::empty()
    } else {
        let rest = kept_views(views.drop_last(), now, timeout_ms);
        if session_crossed(views.last(), now, timeout_ms) {
            rest
        } else {
            rest.push(views.last())
        }
    }
}

/// Notification of an inactivity timeout, addressed to the session's bound
/// address.
#[derive(Debug)]
pub struct OfflineNotice {
    pub uuid: u128,
    pub username: String,
    pub addr: String,
}

impl Server {
    /// The periodic presence sweep, under the configured timeout policy.
    ///
    /// Soft-offline: sessions that just crossed from online to offline are
    /// marked offline and their identities persisted; every record stays in
    /// the store. Hard-evict: the crossed sessions are removed entirely and
    /// the identity store is untouched. Either way, one notice per
    /// transition is returned for the caller to deliver.
    pub fn sweep(&mut self, now: u128) -> (notices: Vec<OfflineNotice>)
        requires
            old(self).wf(),
        ensures
            final(self).wf(),
            final(self).timeout_ms == old(self).timeout_ms,
            final(self).evict_on_timeout == old(self).evict_on_timeout,
            notices@.map_values(|n: OfflineNotice| (n.uuid, n.username@, n.addr@))
                == notices_of(old(self).views(), now, old(self).timeout_ms),
            // soft-offline: only the online flags change
            !old(self).evict_on_timeout ==> final(self).views().len() == old(self).views().len(),
            !old(self).evict_on_timeout ==> forall|i: int| 0 <= i < old(self).views().len()
                ==> final(self).views()[i] == swept_view(
                    #[trigger] old(self).views()[i], now, old(self).timeout_ms),
            // soft-offline identities: crossed sessions added, all other entries kept
            !old(self).evict_on_timeout ==> forall|id: u128|
                #[trigger] crate::storage::key_in(final(self).storage@, id)
                == (crate::storage::key_in(old(self).storage@, id) || exists|i: int|
                    0 <= i < old(self).views().len()
                    && session_crossed(#[trigger] old(self).views()[i], now, old(self).timeout_ms)
                    && old(self).views()[i].state.uuid == id),
            !old(self).evict_on_timeout ==> forall|i: int| 0 <= i < old(self).views().len()
                && session_crossed(#[trigger] old(self).views()[i], now, old(self).timeout_ms)
                ==> crate::storage::pair_in(final(self).storage@,
                    (old(self).views()[i].state.uuid, old(self).views()[i].state.username)),
            !old(self).evict_on_timeout ==> forall|j: int| #![trigger old(self).storage@[j]]
                0 <= j < old(self).storage@.len()
                && !(exists|i: int| 0 <= i < old(self).views().len()
                    && session_crossed(#[trigger] old(self).views()[i], now, old(self).timeout_ms)
                    && old(self).views()[i].state.uuid == old(self).storage@[j].0)
                ==> crate::storage::pair_in(final(self).storage@, old(self).storage@[j]),
            // hard-evict: crossed sessions disappear, the rest and the store survive
            old(self).evict_on_timeout ==> final(self).views()
                == kept_views(old(self).views(), now, old(self).timeout_ms),
            old(self).evict_on_timeout ==> final(self).storage@ == old(self).storage@,
    {
        let ghost t = self.timeout_ms;
        if self.evict_on_timeout {
            return self.sweep_evict(now);
        }
        let mut notices: Vec<OfflineNotice> = Vec::new();
        let mut k: usize = 0;
        proof {
            assert(notices@.map_values(|n: OfflineNotice| (n.uuid, n.username@, n.addr@))
                =~= notices_of(old(self).views().take(0), now, t));
            assert forall|j: int| #![trigger old(self).storage@[j]]
                0 <= j < old(self).storage@.len()
                implies crate::storage::pair_in(self.storage@, old(self).storage@[j]) by {
                assert(self.storage@[j] == old(self).storage@[j]);
            }
        }
        while k < self.sessions.len()
            invariant
                k <= self.sessions@.len(),
                self.wf(),
                t == old(self).timeout_ms,
                self.timeout_ms == old(self).timeout_ms,
                self.evict_on_timeout == old(self).evict_on_timeout,
                self.sessions@.len() == old(self).sessions@.len(),
                forall|i: int| k <= i < old(self).views().len()
                    ==> self.views()[i] == #[trigger] old(self).views()[i],
                forall|i: int| 0 <= i < k
                    ==> self.views()[i] == swept_view(#[trigger] old(self).views()[i], now, t),
                notices@.map_values(|n: OfflineNotice| (n.uuid, n.username@, n.addr@))
                    == notices_of(old(self).views().take(k as int), now, t),
                forall|id: u128| #[trigger] crate::storage::key_in(self.storage@, id)
                    == (crate::storage::key_in(old(self).storage@, id) || exists|i: int|
                        0 <= i < k
                        && session_crossed(#[trigger] old(self).views()[i], now, t)
                        && old(self).views()[i].state.uuid == id),
                forall|i: int| 0 <= i < k
                    && session_crossed(#[trigger] old(self).views()[i], now, t)
                    ==> crate::storage::pair_in(self.storage@,
                        (old(self).views()[i].state.uuid, old(self).views()[i].state.username)),
                forall|j: int| #![trigger old(self).storage@[j]]
                    0 <= j < old(self).storage@.len()
                    ==> crate::storage::pair_in(self.storage@, old(self).storage@[j])
                        || (exists|i: int| 0 <= i < k
                            && session_crossed(#[trigger] old(self).views()[i], now, t)
                            && old(self).views()[i].state.uuid == old(self).storage@[j].0),
            decreases self.sessions@.len() - k,
        {
            let ghost w: int = k as int;
            let ghost pre_views = self.views();
            let ghost pre_storage = self.storage@;
            proof {
                assert(old(self).views().take(w + 1).drop_last() =~= old(self).views().take(w));
                assert(old(self).views().take(w + 1).last() == old(self).views()[w]);
            }
            if self.sessions[k].online && !self.is_online_at(k, now) {
                let uid = self.sessions[k].state.uuid;
                let uname = self.sessions[k].state.username.clone();
                let ad = self.sessions[k].addr.clone();
                let updated = Session {
                    state: self.sessions[k].state.duplicate(),
                    addr: self.sessions[k].addr.clone(),
                    last_seen: self.sessions[k].last_seen,
                    online: false,
                };
                self.sessions.set(k, updated);
                proof {
                    assert(self.views() =~= pre_views.update(w, SessionView {
                        online: false,
                        ..pre_views[w]
                    }));
                    assert(self.views()[w].state.username.len() < 0x1_0000_0000);
                }
                self.storage.add_uuid(uid, uname.clone());
                notices.push(OfflineNotice { uuid: uid, username: uname, addr: ad });
                proof {
                    assert(session_crossed(old(self).views()[w], now, t));
                    assert(old(self).views()[w].state.uuid == uid);
                    assert(old(self).views()[w].state.username == uname@);
                    crate::storage::lemma_upsert_facts(pre_storage, self.storage@, uid, uname@);
                    assert(notices@.map_values(|n: OfflineNotice| (n.uuid, n.username@, n.addr@))
                        =~= notices_of(old(self).views().take(w + 1), now, t));
                    // keys after this insertion
                    assert forall|id: u128| #[trigger] crate::storage::key_in(self.storage@, id)
                        == (crate::storage::key_in(old(self).storage@, id) || exists|i: int|
                            0 <= i < w + 1
                            && session_crossed(#[trigger] old(self).views()[i], now, t)
                            && old(self).views()[i].state.uuid == id) by {
                        assert(crate::storage::key_in(self.storage@, id)
                            == (crate::storage::key_in(pre_storage, id) || id == uid));
                        if id == uid {
                            assert(session_crossed(old(self).views()[w], now, t)
                                && old(self).views()[w].state.uuid == id);
                        }
                    }
                    // crossed pairs recorded so far survive
                    assert forall|i: int| 0 <= i < w + 1
                        && session_crossed(#[trigger] old(self).views()[i], now, t)
                        implies crate::storage::pair_in(self.storage@,
                            (old(self).views()[i].state.uuid,
                             old(self).views()[i].state.username)) by {
                        if i < w {
                            assert(crate::storage::pair_in(pre_storage,
                                (old(self).views()[i].state.uuid,
                                 old(self).views()[i].state.username)));
                            assert(old(self).views()[i].state.uuid != uid);
                        }
                    }
                    // original entries survive unless their session crossed
                    assert forall|j: int| #![trigger old(self).storage@[j]]
                        0 <= j < old(self).storage@.len()
                        implies crate::storage::pair_in(self.storage@, old(self).storage@[j])
                            || (exists|i: int| 0 <= i < w + 1
                                && session_crossed(#[trigger] old(self).views()[i], now, t)
                                && old(self).views()[i].state.uuid
                                    == old(self).storage@[j].0) by {
                        if crate::storage::pair_in(pre_storage, old(self).storage@[j]) {
                            if old(self).storage@[j].0 != uid {
                                assert(crate::storage::pair_in(self.storage@,
                                    old(self).storage@[j]));
                            } else {
                                assert(session_crossed(old(self).views()[w], now, t)
                                    && old(self).views()[w].state.uuid
                                        == old(self).storage@[j].0);
                            }
                        }
                    }
                }
            } else {
                proof {
                    assert(self.views()[w] == swept_view(old(self).views()[w], now, t));
                    assert(notices@.map_values(|n: OfflineNotice| (n.uuid, n.username@, n.addr@))
                        =~= notices_of(old(self).views().take(w + 1), now, t));
                }
            }
            k = k + 1;
        }
        proof {
            assert(old(self).views().take(old(self).views().len() as int) =~= old(self).views());
        }
        notices
    }

    /// Hard-evict sweep: rebuild the session vector without the sessions
    /// that just crossed from online to offline.
    fn sweep_evict(&mut self, now: u128) -> (notices: Vec<OfflineNotice>)
        requires
            old(self).wf(),
        ensures
            final(self).wf(),
            final(self).timeout_ms == old(self).timeout_ms,
            final(self).evict_on_timeout == old(self).evict_on_timeout,
            final(self).storage@ == old(self).storage@,
            notices@.map_values(|n: OfflineNotice| (n.uuid, n.username@, n.addr@))
                == notices_of(old(self).views(), now, old(self).timeout_ms),
            final(self).views() == kept_views(old(self).views(), now, old(self).timeout_ms),
    {
        let ghost t = self.timeout_ms;
        let mut kept: Vec<Session> = Vec::new();
        let mut notices: Vec<OfflineNotice> = Vec::new();
        let mut k: usize = 0;
        proof {
            assert(kept@.map_values(|s: Session| s@)
                =~= kept_views(old(self).views().take(0), now, t));
            assert(notices@.map_values(|n: OfflineNotice| (n.uuid, n.username@, n.addr@))
                =~= notices_of(old(self).views().take(0), now, t));
        }
        while k < self.sessions.len()
            invariant
                k <= self.sessions@.len(),
                *self == *old(self),
                self.wf(),
                t == old(self).timeout_ms,
                kept@.map_values(|s: Session| s@)
                    == kept_views(old(self).views().take(k as int), now, t),
                notices@.map_values(|n: OfflineNotice| (n.uuid, n.username@, n.addr@))
                    == notices_of(old(self).views().take(k as int), now, t),
                forall|j: int| 0 <= j < kept@.len() ==> exists|i: int|
                    0 <= i < k && (#[trigger] kept@[j])@ == old(self).views()[i],
                forall|j1: int, j2: int|
                    0 <= j1 < kept@.len() && 0 <= j2 < kept@.len() && j1 != j2
                        ==> kept@[j1]@.state.uuid != kept@[j2]@.state.uuid,
            decreases self.sessions@.len() - k,
        {
            let ghost w: int = k as int;
            proof {
                assert(old(self).views().take(w + 1).drop_last() =~= old(self).views().take(w));
                assert(old(self).views().take(w + 1).last() == old(self).views()[w]);
            }
            if self.sessions[k].online && !self.is_online_at(k, now) {
                notices.push(OfflineNotice {
                    uuid: self.sessions[k].state.uuid,
                    username: self.sessions[k].state.username.clone(),
                    addr: self.sessions[k].addr.clone(),
                });
                proof {
                    assert(session_crossed(old(self).views()[w], now, t));
                    assert(notices@.map_values(|n: OfflineNotice| (n.uuid, n.username@, n.addr@))
                        =~= notices_of(old(self).views().take(w + 1), now, t));
                    assert(kept@.map_values(|s: Session| s@)
                        =~= kept_views(old(self).views().take(w + 1), now, t));
                }
            } else {
                let ghost pre_kept = kept@;
                kept.push(Session {
                    state: self.sessions[k].state.duplicate(),
                    addr: self.sessions[k].addr.clone(),
                    last_seen: self.sessions[k].last_seen,
                    online: self.sessions[k].online,
                });
                proof {
                    assert(!session_crossed(old(self).views()[w], now, t));
                    assert(kept@.last()@ == old(self).views()[w]);
                    assert(kept@.map_values(|s: Session| s@)
                        =~= kept_views(old(self).views().take(w), now, t)
                            .push(old(self).views()[w]));
                    assert(kept@.map_values(|s: Session| s@)
                        =~= kept_views(old(self).views().take(w + 1), now, t));
                    assert(notices@.map_values(|n: OfflineNotice| (n.uuid, n.username@, n.addr@))
                        =~= notices_of(old(self).views().take(w + 1), now, t));
                    // the new entry's id is distinct from every kept one
                    assert forall|j: int| 0 <= j < pre_kept.len()
                        implies pre_kept[j]@.state.uuid != old(self).views()[w].state.uuid by {
                        let i0 = choose|i: int| 0 <= i < w
                            && (#[trigger] pre_kept[j])@ == old(self).views()[i];
                        assert(old(self).views()[i0].state.uuid != old(self).views()[w].state.uuid);
                    }
                }
            }
            k = k + 1;
        }
        proof {
            assert(old(self).views().take(old(self).views().len() as int) =~= old(self).views());
        }
        self.sessions = kept;
        proof {
            assert(final(self).views() == final(self).sessions@.map_values(|s: Session| s@));
            // well-formedness of the surviving sessions, from their sources
            assert forall|j: int| 0 <= j < final(self).views().len()
                implies state_bounded(#[trigger] final(self).views()[j].state)
                    && final(self).views()[j].state.username.len() < 0x1_0000_0000 by {
                let i0 = choose|i: int| 0 <= i < old(self).views().len()
                    && (#[trigger] final(self).sessions@[j])@ == old(self).views()[i];
                assert(final(self).views()[j] == old(self).views()[i0]);
            }
        }
        notices
    }
}


/// Presence: a session idle for at least the timeout is excluded from the
/// snapshot but stays in the world store (the snapshot only reads it), and
/// a session whose activity is fresh appears in the snapshot.
pub proof fn lemma_presence(s: Server, now: u128, i: int)
    requires
        s.wf(),
        0 <= i < s.sessions@.len(),
    ensures
        !session_online(s.sessions@[i]@, now, s.timeout_ms) ==> forall|k: int|
            0 <= k < online_players(s.sessions@, now, s.timeout_ms).len()
            ==> #[trigger] online_players(s.sessions@, now, s.timeout_ms)[k].uuid
                != s.sessions@[i].state.uuid,
        session_online(s.sessions@[i]@, now, s.timeout_ms) ==> exists|k: int|
            0 <= k < online_players(s.sessions@, now, s.timeout_ms).len()
            && online_players(s.sessions@, now, s.timeout_ms)[k] == s.sessions@[i].state,
{
    lemma_online_players_membership(s.sessions@, now, s.timeout_ms);
    let op = online_players(s.sessions@, now, s.timeout_ms);
    assert(forall|j: int| 0 <= j < s.sessions@.len()
        ==> #[trigger] s.sessions@[j]@ == s.views()[j]);
    if !session_online(s.sessions@[i]@, now, s.timeout_ms) {
        assert forall|k: int| 0 <= k < op.len()
            implies #[trigger] op[k].uuid != s.sessions@[i].state.uuid by {
            let j = choose|j: int| 0 <= j < s.sessions@.len()
                && session_online(#[trigger] s.sessions@[j]@, now, s.timeout_ms)
                && op[k] == s.sessions@[j].state;
            if op[k].uuid == s.sessions@[i].state.uuid {
                assert(s.views()[j].state.uuid == s.views()[i].state.uuid);
                assert(j == i);
            }
        }
    }
}

/// Updates to distinct sessions are independent: they commute, and each
/// session holds the value of its own last write while every other session
/// and the session count stay unchanged. Since the aggregate is accessed
/// exclusively, this is what interleaved handlers observe.
pub proof fn lemma_updates_commute<A>(s: Seq<A>, i: int, j: int, a: A, b: A)
    requires
        0 <= i < s.len(),
        0 <= j < s.len(),
        i != j,
    ensures
        s.update(i, a).update(j, b) == s.update(j, b).update(i, a),
        s.update(i, a).update(j, b).len() == s.len(),
        s.update(i, a).update(j, b)[i] == a,
        s.update(i, a).update(j, b)[j] == b,
        forall|k: int| 0 <= k < s.len() && k != i && k != j
            ==> s.update(i, a).update(j, b)[k] == s[k],
{
    assert(s.update(i, a).update(j, b) =~= s.update(j, b).update(i, a));
}


impl Server {
    /// The stored record for a session id, online or soft-offline.
    pub fn get_state(&self, id: u128) -> (r: Option<PlayerState>)
        ensures
            (r is Some) == self.has_session(id),
            r matches Some(p) ==> exists|i: int|
                0 <= i < self.views().len()
                && self.views()[i].state.uuid == id
                && p@ == self.views()[i].state,
    {
        match self.find_session(id) {
            Some(i) => {
                proof {
                    let ghost w: int = i as int;
                    assert(0 <= w < self.views().len() && self.views()[w].state.uuid == id);
                    assert(self.sessions@[w]@ == self.views()[w]);
                }
                Some(self.sessions[i].state.duplicate())
            },
            None => None,
        }
    }
}

} // verus!
