//! Durable session-identity store: session id → username.
//!
//! The store itself is a vector of entries with pairwise distinct ids; its
//! abstract value is the sequence of `(id, username)` pairs.
//! [`UuidStorage::encode`] and [`UuidStorage::decode`] convert it to and
//! from the textual record format of [`crate::codec`]; decoding is total and
//! yields an empty store for text that does not parse, so a missing or
//! corrupt record never surfaces an error.

use vstd::prelude::*;

verus! {

use vstd::string::StrSliceExecFns;
use crate::codec::{
    hex_digits, encode_name, decode_name, encode_entry, spec_encode, spec_decode,
    is_scalar, parse_hex,
    lemma_pow16_vals, lemma_parse_hex_bound,
    lemma_encode_name_push, lemma_spec_encode_push,
    append_hex, parse_hex_range,
};

/// Relies on `String::push`: appends the given character to the string.
#[verifier::external_body]
fn push_char(s: &mut String, c: char)
    ensures
        final(s)@ == old(s)@.push(c),
{
    s.push(c);
}

/// Relies on `char::from_u32`: returns `Some` exactly for Unicode scalar
/// values, and then the character with that value.
#[verifier::external_body]
fn char_of_u32(v: u32) -> (r: Option<char>)
    ensures
        (r is Some) == is_scalar(v as nat),
        r matches Some(c) ==> c as u32 == v,
{
    char::from_u32(v)
}

/// The abstract value of the raw entry vector.
pub open spec fn entry_views(s: Seq<(u128, String)>) -> Seq<(u128, Seq<char>)> {
    s.map_values(|e: (u128, String)| (e.0, e.1@))
}

/// Some entry carries this id.
pub open spec fn key_in(s: Seq<(u128, Seq<char>)>, id: u128) -> bool {
    exists|j: int| 0 <= j < s.len() && s[j].0 == id
}

/// Some entry is exactly this pair.
pub open spec fn pair_in(s: Seq<(u128, Seq<char>)>, p: (u128, Seq<char>)) -> bool {
    exists|j: int| 0 <= j < s.len() && s[j] == p
}

/// What recording an id does to the entries, whether it overwrites or
/// appends: the id's pair is present, other pairs survive, and no other key
/// appears.
pub proof fn lemma_upsert_facts(
    pre: Seq<(u128, Seq<char>)>,
    post: Seq<(u128, Seq<char>)>,
    uid: u128,
    name: Seq<char>,
)
    requires
        (exists|i: int| 0 <= i < pre.len() && pre[i].0 == uid
            && post == pre.update(i, (uid, name)))
        || ((forall|i: int| 0 <= i < pre.len() ==> pre[i].0 != uid)
            && post == pre.push((uid, name))),
    ensures
        forall|id: u128| #[trigger] key_in(post, id) == (key_in(pre, id) || id == uid),
        pair_in(post, (uid, name)),
        forall|p: (u128, Seq<char>)| #[trigger] pair_in(pre, p) && p.0 != uid
            ==> pair_in(post, p),
{
    if exists|i: int| 0 <= i < pre.len() && pre[i].0 == uid
        && post == pre.update(i, (uid, name)) {
        let i0 = choose|i: int| 0 <= i < pre.len() && pre[i].0 == uid
            && post == pre.update(i, (uid, name));
        assert(post[i0] == (uid, name));
        assert forall|id: u128| #[trigger] key_in(post, id)
            == (key_in(pre, id) || id == uid) by {
            if key_in(post, id) {
                let j = choose|j: int| 0 <= j < post.len() && post[j].0 == id;
                if j != i0 {
                    assert(pre[j].0 == id);
                }
            }
            if key_in(pre, id) || id == uid {
                if id == uid {
                    assert(post[i0].0 == id);
                } else {
                    let j = choose|j: int| 0 <= j < pre.len() && pre[j].0 == id;
                    assert(j != i0);
                    assert(post[j].0 == id);
                }
            }
        }
        assert forall|p: (u128, Seq<char>)| #[trigger] pair_in(pre, p) && p.0 != uid
            implies pair_in(post, p) by {
            let j = choose|j: int| 0 <= j < pre.len() && pre[j] == p;
            assert(j != i0);
            assert(post[j] == p);
        }
    } else {
        let n = pre.len() as int;
        assert(post == pre.push((uid, name)));
        assert(post[n] == (uid, name));
        assert forall|id: u128| #[trigger] key_in(post, id)
            == (key_in(pre, id) || id == uid) by {
            if key_in(post, id) {
                let j = choose|j: int| 0 <= j < post.len() && post[j].0 == id;
                if j < n {
                    assert(pre[j].0 == id);
                }
            }
            if key_in(pre, id) || id == uid {
                if id == uid {
                    assert(post[n].0 == id);
                } else {
                    let j = choose|j: int| 0 <= j < pre.len() && pre[j].0 == id;
                    assert(post[j].0 == id);
                }
            }
        }
        assert forall|p: (u128, Seq<char>)| #[trigger] pair_in(pre, p) && p.0 != uid
            implies pair_in(post, p) by {
            let j = choose|j: int| 0 <= j < pre.len() && pre[j] == p;
            assert(post[j] == p);
        }
    }
}

pub open spec fn keys_distinct(entries: Seq<(u128, Seq<char>)>) -> bool {
    forall|i: int, j: int|
        0 <= i < entries.len() && 0 <= j < entries.len() && i != j
            ==> entries[i].0 != entries[j].0
}

pub open spec fn names_bounded(entries: Seq<(u128, Seq<char>)>) -> bool {
    forall|i: int| 0 <= i < entries.len() ==> #[trigger] entries[i].1.len() < 0x1_0000_0000
}

/// Durable record of every session id ever registered, with its username.
#[derive(Debug)]
pub struct UuidStorage {
    pub uuids: Vec<(u128, String)>,
}

impl View for UuidStorage {
    type V = Seq<(u128, Seq<char>)>;

    open spec fn view(&self) -> Seq<(u128, Seq<char>)> {
        entry_views(self.uuids@)
    }
}

impl UuidStorage {
    /// Ids are pairwise distinct and every username fits the record format.
    pub open spec fn wf(self) -> bool {
        keys_distinct(self@) && names_bounded(self@)
    }

    pub open spec fn spec_contains(self, id: u128) -> bool {
        key_in(self@, id)
    }

    pub fn new() -> (r: UuidStorage)
        ensures
            r@ == Seq::<(u128, Seq<char>)>::empty(),
            r.wf(),
    {
        let r = UuidStorage { uuids: Vec::new() };
        proof {
            assert(r@ =~= Seq::<(u128, Seq<char>)>::empty());
        }
        r
    }

    fn find_index(&self, uuid: u128) -> (r: Option<usize>)
        ensures
            r matches Some(i) ==> i < self@.len() && self@[i as int].0 == uuid,
            r is None ==> forall|i: int| 0 <= i < self@.len() ==> self@[i].0 != uuid,
    {
        let mut k: usize = 0;
        while k < self.uuids.len()
            invariant
                k <= self@.len(),
                self@.len() == self.uuids@.len(),
                forall|i: int| 0 <= i < k ==> self@[i].0 != uuid,
            decreases self.uuids@.len() - k,
        {
            if self.uuids[k].0 == uuid {
                return Some(k);
            }
            k = k + 1;
        }
        None
    }

    /// Record or overwrite the username bound to a session id.
    pub fn add_uuid(&mut self, uuid: u128, username: String)
        requires
            old(self).wf(),
            username@.len() < 0x1_0000_0000,
        ensures
            final(self).wf(),
            ({
                ||| exists|i: int|
                    0 <= i < old(self)@.len()
                    && old(self)@[i].0 == uuid
                    && final(self)@ == old(self)@.update(i, (uuid, username@))
                ||| ((forall|i: int| 0 <= i < old(self)@.len() ==> old(self)@[i].0 != uuid)
                    && final(self)@ == old(self)@.push((uuid, username@)))
            }),
    {
        match self.find_index(uuid) {
            Some(i) => {
                self.uuids.set(i, (uuid, username));
                proof {
                    let ghost w: int = i as int;
                    assert(self@ =~= old(self)@.update(w, (uuid, username@)));
                }
            },
            None => {
                self.uuids.push((uuid, username));
                proof {
                    assert(self@ =~= old(self)@.push((uuid, username@)));
                }
            },
        }
    }

    /// Whether a session id has ever been recorded.
    pub fn contains_uuid(&self, uuid: u128) -> (r: bool)
        ensures
            r == self.spec_contains(uuid),
    {
        match self.find_index(uuid) {
            Some(_) => true,
            None => false,
        }
    }

    /// The username recorded for a session id, if any.
    pub fn get_username(&self, uuid: u128) -> (r: Option<String>)
        ensures
            (r is Some) == self.spec_contains(uuid),
            r matches Some(n) ==> exists|i: int|
                0 <= i < self@.len() && self@[i] == (uuid, n@),
    {
        match self.find_index(uuid) {
            Some(i) => Some(self.uuids[i].1.clone()),
            None => None,
        }
    }

    /// Render the store in the textual record format.
    pub fn encode(&self) -> (r: String)
        requires
            self.wf(),
        ensures
            r@ == spec_encode(self@),
    {
        let mut out = String::new();
        let mut k: usize = 0;
        while k < self.uuids.len()
            invariant
                k <= self.uuids@.len(),
                self@.len() == self.uuids@.len(),
                self.wf(),
                out@ == spec_encode(self@.take(k as int)),
            decreases self.uuids@.len() - k,
        {
            let ghost pre = self@.take(k as int);
            proof {
                assert(self@[k as int] == (self.uuids@[k as int].0, self.uuids@[k as int].1@));
                assert(self@[k as int].1.len() < 0x1_0000_0000);
            }
            append_entry(&mut out, self.uuids[k].0, &self.uuids[k].1);
            proof {
                lemma_spec_encode_push(pre, self@[k as int]);
                assert(self@.take((k + 1) as int) =~= pre.push(self@[k as int]));
            }
            k = k + 1;
        }
        proof {
            assert(self@.take(self.uuids@.len() as int) =~= self@);
        }
        out
    }

    /// Rebuild a store from its textual record; anything malformed, and any
    /// record with a repeated id, denotes the empty store.
    pub fn decode(s: &str) -> (r: UuidStorage)
        ensures
            r.wf(),
            spec_decode(s@) is None ==> r@ == Seq::<(u128, Seq<char>)>::empty(),
            spec_decode(s@) matches Some(e) ==> ({
                &&& keys_distinct(e) ==> r@ == e
                &&& !keys_distinct(e) ==> r@ == Seq::<(u128, Seq<char>)>::empty()
            }),
    {
        let n = s.unicode_len();
        let mut acc: Vec<(u128, String)> = Vec::new();
        let mut pos: usize = 0;
        proof {
            assert(entry_views(acc@) =~= Seq::<(u128, Seq<char>)>::empty());
            assert(s@.subrange(0, n as int) =~= s@);
            match spec_decode(s@) {
                Some(rest) => {
                    assert(entry_views(acc@) + rest =~= rest);
                },
                None => {},
            }
        }
        while pos < n
            invariant
                pos <= n,
                n == s@.len(),
                names_bounded(entry_views(acc@)),
                match spec_decode(s@.subrange(pos as int, n as int)) {
                    Some(rest) => spec_decode(s@) == Some(entry_views(acc@) + rest),
                    None => spec_decode(s@) is None,
                },
            decreases n - pos,
        {
            let ghost suffix = s@.subrange(pos as int, n as int);
            if n - pos < 40 {
                return UuidStorage::new();
            }
            proof {
                assert(suffix.subrange(0, 32) =~= s@.subrange(pos as int, pos + 32));
                assert(suffix.subrange(32, 40) =~= s@.subrange(pos + 32, pos + 40));
            }
            let id = match parse_hex_range(s, pos, pos + 32) {
                Some(v) => v,
                None => {
                    return UuidStorage::new();
                },
            };
            let l128 = match parse_hex_range(s, pos + 32, pos + 40) {
                Some(v) => v,
                None => {
                    return UuidStorage::new();
                },
            };
            proof {
                lemma_parse_hex_bound(suffix.subrange(32, 40));
                lemma_pow16_vals();
            }
            let rem: usize = n - pos - 40;
            if (rem as u128) < 8 * l128 {
                return UuidStorage::new();
            }
            let l: usize = l128 as usize;
            proof {
                assert(suffix.len() >= 40 + 8 * (l128 as nat));
                assert(suffix.subrange(40, 40 + 8 * (l as int))
                    =~= s@.subrange(pos + 40, pos + 40 + 8 * (l as int)));
            }
            proof {
                assert(s@.len() <= usize::MAX);
            }
            let name = match parse_name(s, pos + 40, l) {
                Some(nm) => nm,
                None => {
                    return UuidStorage::new();
                },
            };
            let ghost next_pos: int = pos + 40 + 8 * (l as int);
            proof {
                assert(suffix.subrange(40 + 8 * (l as int), suffix.len() as int)
                    =~= s@.subrange(next_pos, n as int));
                assert((id as nat) as u128 == id);
            }
            let ghost old_views = entry_views(acc@);
            acc.push((id, name));
            proof {
                assert(entry_views(acc@) =~= old_views.push((id, name@)));
                assert(name@.len() == l);
                let entry = (id, name@);
                match spec_decode(s@.subrange(next_pos, n as int)) {
                    Some(rest2) => {
                        assert(spec_decode(suffix) == Some(seq![entry] + rest2));
                        assert(entry_views(acc@) + rest2 =~= old_views + (seq![entry] + rest2));
                    },
                    None => {
                        assert(spec_decode(suffix) is None);
                    },
                }
            }
            pos = pos + 40 + 8 * l;
        }
        proof {
            assert(s@.subrange(pos as int, n as int) =~= Seq::<char>::empty());
            assert(entry_views(acc@) + Seq::<(u128, Seq<char>)>::empty() =~= entry_views(acc@));
        }
        let st = UuidStorage { uuids: acc };
        if has_duplicate_keys(&st) {
            return UuidStorage::new();
        }
        st
    }
}

/// Parse `l` characters of 8 hex digits each, starting at position `lo`.
fn parse_name(s: &str, lo: usize, l: usize) -> (r: Option<String>)
    requires
        lo + 8 * l <= s@.len(),
        s@.len() <= usize::MAX,
    ensures
        (r is Some) == (decode_name(s@.subrange(lo as int, lo + 8 * (l as int))) is Some),
        r matches Some(nm) ==> decode_name(s@.subrange(lo as int, lo + 8 * (l as int)))
            == Some(nm@) && nm@.len() == l,
{
    let ghost hi: int = lo + 8 * (l as int);
    let mut name = String::new();
    let mut k: usize = 0;
    while k < l
        invariant
            k <= l,
            lo + 8 * l <= s@.len(),
            s@.len() <= usize::MAX,
            hi == lo + 8 * (l as int),
            name@.len() == k,
            match decode_name(s@.subrange(lo + 8 * (k as int), hi)) {
                Some(rest) => decode_name(s@.subrange(lo as int, hi)) == Some(name@ + rest),
                None => decode_name(s@.subrange(lo as int, hi)) is None,
            },
        decreases l - k,
    {
        let ghost chunk = s@.subrange(lo + 8 * (k as int), hi);
        proof {
            assert(8 * (k as int) + 8 <= 8 * (l as int));
            assert(chunk.len() == 8 * (l as int) - 8 * (k as int));
            assert(chunk.subrange(0, 8)
                =~= s@.subrange(lo + 8 * (k as int), lo + 8 * (k as int) + 8));
        }
        let v = match parse_hex_range(s, lo + 8 * k, lo + 8 * k + 8) {
            Some(v) => v,
            None => {
                return None;
            },
        };
        proof {
            lemma_parse_hex_bound(chunk.subrange(0, 8));
            lemma_pow16_vals();
            assert((v as u32) as nat == v as nat);
        }
        let c = match char_of_u32(v as u32) {
            Some(c) => c,
            None => {
                return None;
            },
        };
        push_char(&mut name, c);
        proof {
            vstd::utf8::char_u32_cast(c, v as u32);
            assert(((v as nat) as u32) as char == c);
            assert(chunk.subrange(8, chunk.len() as int)
                =~= s@.subrange(lo + 8 * ((k + 1) as int), hi));
            match decode_name(s@.subrange(lo + 8 * ((k + 1) as int), hi)) {
                Some(rest2) => {
                    assert(decode_name(chunk) == Some(seq![c] + rest2));
                    assert(name@ + rest2 =~= (name@.drop_last() + (seq![c] + rest2)));
                },
                None => {
                    assert(decode_name(chunk) is None);
                },
            }
        }
        k = k + 1;
    }
    proof {
        assert(s@.subrange(lo + 8 * (l as int), hi) =~= Seq::<char>::empty());
        assert(name@ + Seq::<char>::empty() =~= name@);
    }
    Some(name)
}

fn has_duplicate_keys(st: &UuidStorage) -> (r: bool)
    ensures
        r == !keys_distinct(st@),
{
    let n = st.uuids.len();
    let mut i: usize = 0;
    while i < n
        invariant
            i <= n,
            n == st.uuids@.len(),
            st@.len() == n,
            forall|a: int, b: int| 0 <= a < i && a < b < n ==> st@[a].0 != st@[b].0,
        decreases n - i,
    {
        let mut j: usize = i + 1;
        while j < n
            invariant
                i < n,
                i + 1 <= j <= n,
                n == st.uuids@.len(),
                st@.len() == n,
                forall|b: int| i < b < j ==> st@[i as int].0 != st@[b].0,
            decreases n - j,
        {
            if st.uuids[i].0 == st.uuids[j].0 {
                proof {
                    assert(st@[i as int] == (st.uuids@[i as int].0, st.uuids@[i as int].1@));
                    assert(st@[j as int] == (st.uuids@[j as int].0, st.uuids@[j as int].1@));
                    assert(st@[i as int].0 == st@[j as int].0 && i as int != j as int);
                }
                return true;
            }
            j = j + 1;
        }
        i = i + 1;
    }
    proof {
        assert forall|a: int, b: int|
            0 <= a < st@.len() && 0 <= b < st@.len() && a != b
            implies st@[a].0 != st@[b].0 by {
        }
    }
    false
}

/// Append one record to the output.
fn append_entry(out: &mut String, id: u128, name: &String)
    requires
        name@.len() < 0x1_0000_0000,
    ensures
        final(out)@ == old(out)@ + encode_entry(id, name@),
{
    append_hex(out, id, 32);
    let l = name.as_str().unicode_len();
    append_hex(out, l as u128, 8);
    let ghost header = old(out)@ + hex_digits(id as nat, 32) + hex_digits(name@.len(), 8);
    proof {
        assert(out@ =~= header + encode_name(name@.take(0)));
    }
    let mut k: usize = 0;
    while k < l
        invariant
            k <= l,
            l == name@.len(),
            out@ == header + encode_name(name@.take(k as int)),
        decreases l - k,
    {
        let c = name.as_str().get_char(k);
        append_hex(out, c as u128, 8);
        proof {
            lemma_encode_name_push(name@.take(k as int), c);
            assert(name@.take((k + 1) as int) =~= name@.take(k as int).push(c));
            assert((c as u128) as nat == c as u32 as nat);
            assert(out@ =~= header + encode_name(name@.take((k + 1) as int)));
        }
        k = k + 1;
    }
    proof {
        assert(name@.take(l as int) =~= name@);
        assert(out@ =~= old(out)@ + encode_entry(id, name@));
    }
}

/// The persistence round trip: decoding an encoded store yields a store with
/// the same mapping from session ids to usernames, entry for entry.
pub proof fn lemma_storage_round_trip(st: UuidStorage)
    requires
        st.wf(),
    ensures
        spec_decode(spec_encode(st@)) == Some(st@),
{
    crate::codec::lemma_decode_encode(st@);
}

} // verus!
