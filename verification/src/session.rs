//! The in-memory session store.  Clock readings are passed in by the
//! embedding program.

use vstd::prelude::*;

use crate::bytes::{bytes_eq, fmt_hex, hex_str, to_vec};
use crate::request::{qview, spec_qget, spec_qinsert};

verus! {

/// One session: an identifier, its data, and its clock accounting.
#[derive(Debug, Clone)]
pub struct Session {
    /// Session identifier.
    pub id: Vec<u8>,
    /// Stored key/value pairs, keys unique.
    pub data: Vec<(Vec<u8>, Vec<u8>)>,
    /// Creation time, in clock seconds.
    pub created_at: u64,
    /// Last access time, in clock seconds.
    pub last_accessed: u64,
    /// Idle lifetime, in seconds.
    pub expires_in: u64,
}

/// Whether a session has sat idle past its lifetime.
pub open spec fn spec_expired(s: Session, now: u64) -> bool {
    now > s.last_accessed && now - s.last_accessed > s.expires_in
}

impl Session {
    /// Creates a session with an hour's lifetime.
    pub fn new(id: &[u8], now: u64) -> (r: Session)
        ensures
            r.id@ == id@,
            qview(r.data@) == Seq::<(Seq<u8>, Seq<u8>)>::empty(),
            r.created_at == now,
            r.last_accessed == now,
            r.expires_in == 3600,
    {
        let r = Session {
            id: to_vec(id),
            data: Vec::new(),
            created_at: now,
            last_accessed: now,
            expires_in: 3600,
        };
        proof {
            assert(qview(r.data@) =~= Seq::<(Seq<u8>, Seq<u8>)>::empty());
        }
        r
    }

    /// Reads a value from the session.
    pub fn get(&self, key: &[u8]) -> (r: Option<Vec<u8>>)
        ensures
            match r {
                Some(v) => spec_qget(qview(self.data@), key@) == Some(v@),
                None => spec_qget(qview(self.data@), key@) == None::<Seq<u8>>,
            },
    {
        let ghost m = qview(self.data@);
        proof {
            crate::request::lemma_qidx_props(m, key@, 0);
        }
        let mut i: usize = 0;
        while i < self.data.len()
            invariant
                i <= self.data@.len(),
                m == qview(self.data@),
                m.len() == self.data@.len(),
                crate::request::qidx_from(m, key@, 0) == crate::request::qidx_from(
                    m,
                    key@,
                    i as int,
                ),
            decreases self.data@.len() - i,
        {
            if bytes_eq(self.data[i].0.as_slice(), key) {
                return Some(to_vec(self.data[i].1.as_slice()));
            }
            i = i + 1;
        }
        None
    }

    /// Stores a value, replacing any earlier one, and touches the clock.
    pub fn set(&mut self, key: &[u8], value: &[u8], now: u64)
        ensures
            qview(final(self).data@) == spec_qinsert(qview(old(self).data@), key@, value@),
            final(self).last_accessed == now,
            final(self).id@ == old(self).id@,
            final(self).created_at == old(self).created_at,
            final(self).expires_in == old(self).expires_in,
    {
        let ghost m0 = qview(self.data@);
        proof {
            crate::request::lemma_qidx_props(m0, key@, 0);
        }
        let k = to_vec(key);
        let v = to_vec(value);
        let mut i: usize = 0;
        let n = self.data.len();
        let mut done = false;
        while i < n && !done
            invariant
                i <= n,
                n == self.data@.len(),
                self.id@ == old(self).id@,
                self.created_at == old(self).created_at,
                self.expires_in == old(self).expires_in,
                !done ==> m0 == qview(self.data@) && crate::request::qidx_from(m0, key@, 0)
                    == crate::request::qidx_from(m0, key@, i as int),
                done ==> qview(self.data@) == spec_qinsert(m0, key@, value@),
            decreases n - i, (if done { 0int } else { 1int }),
        {
            if bytes_eq(self.data[i].0.as_slice(), k.as_slice()) {
                proof {
                    assert(m0[i as int].0 == key@);
                    assert(crate::request::qidx_from(m0, key@, i as int) == Some(i as int));
                }
                let _ = self.data.remove(i);
                self.data.insert(i, (to_vec(key), to_vec(value)));
                proof {
                    assert(qview(self.data@) =~~= spec_qinsert(m0, key@, value@));
                }
                done = true;
            } else {
                i = i + 1;
            }
        }
        if !done {
            proof {
                assert(crate::request::qidx_from(m0, key@, self.data@.len() as int)
                    == None::<int>);
            }
            self.data.push((k, v));
            proof {
                assert(qview(self.data@) =~~= spec_qinsert(m0, key@, value@));
            }
        }
        self.last_accessed = now;
    }

    /// Removes a value and touches the clock; the removed value returns.
    pub fn remove(&mut self, key: &[u8], now: u64) -> (r: Option<Vec<u8>>)
        ensures
            final(self).last_accessed == now,
            final(self).id@ == old(self).id@,
            match r {
                Some(v) => spec_qget(qview(old(self).data@), key@) == Some(v@),
                None => spec_qget(qview(old(self).data@), key@) == None::<Seq<u8>>,
            },
    {
        let ghost m0 = qview(self.data@);
        proof {
            crate::request::lemma_qidx_props(m0, key@, 0);
        }
        self.last_accessed = now;
        let mut i: usize = 0;
        let n = self.data.len();
        while i < n
            invariant
                i <= n,
                n == self.data@.len(),
                self.id@ == old(self).id@,
                self.last_accessed == now,
                m0 == qview(self.data@),
                crate::request::qidx_from(m0, key@, 0) == crate::request::qidx_from(
                    m0,
                    key@,
                    i as int,
                ),
            decreases n - i,
        {
            if bytes_eq(self.data[i].0.as_slice(), key) {
                proof {
                    assert(m0[i as int].0 == key@);
                    assert(crate::request::qidx_from(m0, key@, i as int) == Some(i as int));
                }
                let kv = self.data.remove(i);
                proof {
                    let m1 = qview(self.data@);
                    crate::request::lemma_qidx_props(m1, key@, 0);
                    if spec_qget(m1, key@) is Some {
                        let j = crate::request::qidx(m1, key@).unwrap();
                        assert(m1[j].0 == key@);
                        if j < i {
                            assert(m0[j].0 == key@);
                        } else {
                            assert(m0[j + 1].0 == key@);
                        }
                    }
                }
                return Some(kv.1);
            }
            i = i + 1;
        }
        None
    }

    /// Whether the session has expired.
    pub fn is_expired(&self, now: u64) -> (r: bool)
        ensures
            r == spec_expired(*self, now),
    {
        now > self.last_accessed && now - self.last_accessed > self.expires_in
    }

    /// Refreshes the last access time.
    pub fn touch(&mut self, now: u64)
        ensures
            final(self).last_accessed == now,
            final(self).id@ == old(self).id@,
            final(self).data@ == old(self).data@,
            final(self).created_at == old(self).created_at,
            final(self).expires_in == old(self).expires_in,
    {
        self.last_accessed = now;
    }
}

/// The in-memory session store.
#[derive(Debug, Clone)]
pub struct SessionStore {
    /// Sessions keyed by identifier, identifiers unique.
    pub sessions: Vec<(Vec<u8>, Session)>,
    /// Lifetime given to new sessions, in seconds.
    pub default_expiry: u64,
}

impl SessionStore {
    /// Creates a store whose sessions live an hour.
    pub fn new() -> (r: SessionStore)
        ensures
            r.sessions@.len() == 0,
            r.default_expiry == 3600,
    {
        SessionStore { sessions: Vec::new(), default_expiry: 3600 }
    }

    /// Creates a store with a custom session lifetime.
    pub fn with_expiry(expiry_seconds: u64) -> (r: SessionStore)
        ensures
            r.sessions@.len() == 0,
            r.default_expiry == expiry_seconds,
    {
        SessionStore { sessions: Vec::new(), default_expiry: expiry_seconds }
    }

    /// Derives a session identifier from a clock reading: the reading and
    /// a multiplicative scramble of it, in hexadecimal.
    pub fn generate_id(now_nanos: u64) -> (r: Vec<u8>)
        ensures
            r@ == hex_str(now_nanos as nat) + hex_str(
                (now_nanos as nat * 0x5DEECE66D) % 0x10000000000000000,
            ),
    {
        let mut r = fmt_hex(now_nanos);
        let scrambled = now_nanos.wrapping_mul(0x5DEECE66D);
        let h = fmt_hex(scrambled);
        r.extend_from_slice(h.as_slice());
        proof {
            assert(r@ =~= hex_str(now_nanos as nat) + hex_str(
                (now_nanos as nat * 0x5DEECE66D) % 0x10000000000000000,
            ));
        }
        r
    }

    /// Index of the session with the given identifier.
    fn index_for(&self, id: &[u8]) -> (r: Option<usize>)
        ensures
            match r {
                Some(i) => i < self.sessions@.len() && self.sessions@[i as int].0@ == id@,
                None => forall|j: int|
                    0 <= j < self.sessions@.len() ==> (#[trigger] self.sessions@[j].0@) != id@,
            },
    {
        let mut i: usize = 0;
        while i < self.sessions.len()
            invariant
                i <= self.sessions@.len(),
                forall|j: int| 0 <= j < i ==> (#[trigger] self.sessions@[j].0@) != id@,
            decreases self.sessions@.len() - i,
        {
            if bytes_eq(self.sessions[i].0.as_slice(), id) {
                return Some(i);
            }
            i = i + 1;
        }
        None
    }

    /// Creates a session and returns its identifier.
    pub fn create(&mut self, now_nanos: u64, now: u64) -> (r: Vec<u8>)
        ensures
            final(self).sessions@.len() == old(self).sessions@.len() + 1,
            final(self).sessions@.last().0@ == r@,
            final(self).sessions@.last().1.expires_in == old(self).default_expiry,
            final(self).sessions@.last().1.last_accessed == now,
            final(self).default_expiry == old(self).default_expiry,
            forall|j: int|
                0 <= j < old(self).sessions@.len() ==> final(self).sessions@[j] == old(
                    self,
                ).sessions@[j],
    {
        let id = Self::generate_id(now_nanos);
        let mut session = Session::new(id.as_slice(), now);
        session.expires_in = self.default_expiry;
        self.sessions.push((to_vec(id.as_slice()), session));
        id
    }

    /// Index of the live session with the given identifier, touched; an
    /// expired session is dropped.  Expired sessions are swept first.
    pub fn get(&mut self, id: &[u8], now: u64) -> (r: Option<usize>)
        ensures
            match r {
                Some(i) => i < final(self).sessions@.len() && final(self).sessions@[i as int].0@
                    == id@ && !spec_expired(final(self).sessions@[i as int].1, now),
                None => true,
            },
    {
        self.cleanup_expired(now);
        match self.index_for(id) {
            Some(i) => {
                if self.sessions[i].1.is_expired(now) {
                    let _ = self.sessions.remove(i);
                    None
                } else {
                    let mut entry = self.sessions.remove(i);
                    entry.1.touch(now);
                    let ghost e = entry;
                    self.sessions.insert(i, entry);
                    proof {
                        assert(self.sessions@[i as int] == e);
                    }
                    Some(i)
                }
            },
            None => None,
        }
    }

    /// Index of the live session with the given identifier, touched; an
    /// expired session is dropped.
    pub fn get_mut(&mut self, id: &[u8], now: u64) -> (r: Option<usize>)
        ensures
            match r {
                Some(i) => i < final(self).sessions@.len() && final(self).sessions@[i as int].0@
                    == id@ && !spec_expired(final(self).sessions@[i as int].1, now),
                None => true,
            },
    {
        match self.index_for(id) {
            Some(i) => {
                if self.sessions[i].1.is_expired(now) {
                    let _ = self.sessions.remove(i);
                    None
                } else {
                    let mut entry = self.sessions.remove(i);
                    entry.1.touch(now);
                    let ghost e = entry;
                    self.sessions.insert(i, entry);
                    proof {
                        assert(self.sessions@[i as int] == e);
                    }
                    Some(i)
                }
            },
            None => None,
        }
    }

    /// Index of the live session with the identifier, or of a freshly
    /// created one.
    pub fn get_or_create(&mut self, id: Option<&[u8]>, now_nanos: u64, now: u64) -> (r: usize)
        ensures
            r < final(self).sessions@.len(),
            !spec_expired(final(self).sessions@[r as int].1, now),
    {
        match id {
            Some(existing) => {
                match self.get_mut(existing, now) {
                    Some(i) => i,
                    None => self.create_index(now_nanos, now),
                }
            },
            None => self.create_index(now_nanos, now),
        }
    }

    /// Creates a session and returns its index.
    fn create_index(&mut self, now_nanos: u64, now: u64) -> (r: usize)
        ensures
            r < final(self).sessions@.len(),
            !spec_expired(final(self).sessions@[r as int].1, now),
    {
        let _ = self.create(now_nanos, now);
        let n = self.sessions.len();
        proof {
            assert(n >= 1);
            assert(!spec_expired(self.sessions@[n - 1].1, now));
        }
        n - 1
    }

    /// Destroys the session with the given identifier.
    pub fn destroy(&mut self, id: &[u8])
        ensures
            final(self).sessions@.len() <= old(self).sessions@.len(),
    {
        match self.index_for(id) {
            Some(i) => {
                let _ = self.sessions.remove(i);
            },
            None => {},
        }
    }

    /// Sweeps expired sessions out of the store.
    pub fn cleanup_expired(&mut self, now: u64)
        ensures
            forall|j: int|
                0 <= j < final(self).sessions@.len() ==> !spec_expired(
                    (#[trigger] final(self).sessions@[j]).1,
                    now,
                ),
            forall|j: int|
                0 <= j < final(self).sessions@.len() ==> old(self).sessions@.contains(
                    #[trigger] final(self).sessions@[j],
                ),
            final(self).default_expiry == old(self).default_expiry,
    {
        let ghost src0 = self.sessions@;
        let mut kept: Vec<(Vec<u8>, Session)> = Vec::new();
        while self.sessions.len() > 0
            invariant
                self.sessions@.len() <= src0.len(),
                self.default_expiry == old(self).default_expiry,
                self.sessions@ == src0.subrange(0, self.sessions@.len() as int),
                forall|j: int|
                    0 <= j < kept@.len() ==> !spec_expired((#[trigger] kept@[j]).1, now),
                forall|j: int| 0 <= j < kept@.len() ==> src0.contains(#[trigger] kept@[j]),
            decreases self.sessions@.len(),
        {
            let ghost n = self.sessions@.len();
            let entry = match self.sessions.pop() {
                Some(e) => e,
                None => {
                    proof {
                        assert(false);
                    }
                    continue ;
                },
            };
            proof {
                assert(n <= src0.len());
                assert(entry == src0.subrange(0, n as int)[n - 1]);
                assert(entry == src0[n - 1]);
                assert(src0.contains(entry)) by {
                    assert(src0[n - 1] == entry);
                }
                assert(self.sessions@ =~= src0.subrange(0, self.sessions@.len() as int));
            }
            if !entry.1.is_expired(now) {
                kept.push(entry);
            }
        }
        self.sessions = kept;
    }

    /// The number of stored sessions.
    pub fn count(&self) -> (r: usize)
        ensures
            r == self.sessions@.len(),
    {
        self.sessions.len()
    }
}

} // verus!
