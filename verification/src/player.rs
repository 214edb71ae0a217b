//! Per-session player state and the authoritative world store.

use vstd::prelude::*;

verus! {

use crate::movement::{coord_ok, vel_ok};

/// Abstract value of a [`PlayerState`]: strings are sequences of characters.
pub ghost struct PlayerStateView {
    pub uuid: u128,
    pub username: Seq<char>,
    pub x: Option<i64>,
    pub y: Option<i64>,
    pub z: Option<i64>,
    pub ts: Option<u128>,
    pub rx: Option<i64>,
    pub ry: Option<i64>,
    pub rz: Option<i64>,
    pub vx: Option<i64>,
    pub vy: Option<i64>,
    pub vz: Option<i64>,
    pub action: Option<Seq<char>>,
}

pub open spec fn opt_str_view(o: Option<String>) -> Option<Seq<char>> {
    match o {
        Some(s) => Some(s@),
        None => None,
    }
}

/// The latest authoritative record for one session.
///
/// The session id is a 128-bit token (the integer value of a UUID); positions
/// are in micrometers, velocities in micrometers per second, rotations in
/// microdegrees, timestamps in client milliseconds. Every transform field is
/// independently present-or-absent.
#[derive(Debug)]
pub struct PlayerState {
    pub uuid: u128,
    pub username: String,
    pub x: Option<i64>,
    pub y: Option<i64>,
    pub z: Option<i64>,
    pub ts: Option<u128>,
    pub rx: Option<i64>,
    pub ry: Option<i64>,
    pub rz: Option<i64>,
    pub vx: Option<i64>,
    pub vy: Option<i64>,
    pub vz: Option<i64>,
    pub action: Option<String>,
}

impl View for PlayerState {
    type V = PlayerStateView;

    open spec fn view(&self) -> PlayerStateView {
        PlayerStateView {
            uuid: self.uuid,
            username: self.username@,
            x: self.x,
            y: self.y,
            z: self.z,
            ts: self.ts,
            rx: self.rx,
            ry: self.ry,
            rz: self.rz,
            vx: self.vx,
            vy: self.vy,
            vz: self.vz,
            action: opt_str_view(self.action),
        }
    }
}

/// Position and velocity fields, where present, lie within the fixed-point
/// coordinate model.
pub open spec fn state_bounded(p: PlayerStateView) -> bool {
    &&& (p.x matches Some(c) ==> coord_ok(c))
    &&& (p.y matches Some(c) ==> coord_ok(c))
    &&& (p.z matches Some(c) ==> coord_ok(c))
    &&& (p.vx matches Some(v) ==> vel_ok(v))
    &&& (p.vy matches Some(v) ==> vel_ok(v))
    &&& (p.vz matches Some(v) ==> vel_ok(v))
}

/// View of a freshly created session record: a known identity, no transform.
pub open spec fn empty_state_view(uuid: u128, username: Seq<char>) -> PlayerStateView {
    PlayerStateView {
        uuid,
        username,
        x: None,
        y: None,
        z: None,
        ts: None,
        rx: None,
        ry: None,
        rz: None,
        vx: None,
        vy: None,
        vz: None,
        action: None,
    }
}

impl PlayerState {
    /// A new record with a known identity and an empty transform.
    pub fn empty(uuid: u128, username: String) -> (r: PlayerState)
        ensures
            r@ == empty_state_view(uuid, username@),
    {
        PlayerState {
            uuid,
            username,
            x: None,
            y: None,
            z: None,
            ts: None,
            rx: None,
            ry: None,
            rz: None,
            vx: None,
            vy: None,
            vz: None,
            action: None,
        }
    }

    /// A copy equal to the original.
    pub fn duplicate(&self) -> (r: PlayerState)
        ensures
            r == *self,
    {
        PlayerState {
            uuid: self.uuid,
            username: self.username.clone(),
            x: self.x,
            y: self.y,
            z: self.z,
            ts: self.ts,
            rx: self.rx,
            ry: self.ry,
            rz: self.rz,
            vx: self.vx,
            vy: self.vy,
            vz: self.vz,
            action: match &self.action {
                Some(s) => Some(s.clone()),
                None => None,
            },
        }
    }
}

/// A name is taken when some player in the sequence carries it.
pub open spec fn name_taken(players: Seq<PlayerState>, name: Seq<char>) -> bool {
    exists|k: int| 0 <= k < players.len() && players[k].username@ == name
}

/// The authoritative map from session id to latest player state, stored as a
/// vector of records with pairwise distinct session ids.
#[derive(Debug)]
pub struct WorldState {
    pub players: Vec<PlayerState>,
}

impl WorldState {
    pub fn new() -> (r: WorldState)
        ensures
            r.players@.len() == 0,
    {
        WorldState { players: Vec::new() }
    }

    /// Whether some player carries the given username.
    pub fn has_name(&self, name: &String) -> (r: bool)
        ensures
            r == name_taken(self.players@, name@),
    {
        let mut k: usize = 0;
        while k < self.players.len()
            invariant
                k <= self.players@.len(),
                forall|j: int| 0 <= j < k ==> self.players@[j].username@ != name@,
            decreases self.players@.len() - k,
        {
            if self.players[k].username.eq(name) {
                return true;
            }
            k = k + 1;
        }
        false
    }

    /// The player bound to the given session id, if any.
    pub fn get_player(&self, uuid: u128) -> (r: Option<&PlayerState>)
        ensures
            (r is Some) == exists|i: int| 0 <= i < self.players@.len() && self.players@[i].uuid == uuid,
            r matches Some(p) ==> p.uuid == uuid
                && exists|i: int| 0 <= i < self.players@.len() && self.players@[i] == *p,
    {
        let mut k: usize = 0;
        while k < self.players.len()
            invariant
                k <= self.players@.len(),
                forall|j: int| 0 <= j < k ==> self.players@[j].uuid != uuid,
            decreases self.players@.len() - k,
        {
            if self.players[k].uuid == uuid {
                return Some(&self.players[k]);
            }
            k = k + 1;
        }
        None
    }
}

} // verus!
