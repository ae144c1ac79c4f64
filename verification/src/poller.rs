//! The poller's registration bookkeeping: a set of descriptors with
//! their interests, and the events a readiness sweep reports.  The one
//! blocking wait per loop iteration is the embedding program's; it asks
//! this model which descriptors to report.

use vstd::prelude::*;

use crate::error::ServerError;

verus! {

/// The interest registered for a descriptor.
#[derive(Debug, Clone, Copy, PartialEq, Eq, Structural)]
pub enum EventType {
    Read,
    Write,
    ReadWrite,
}

/// A readiness event for one descriptor.
#[derive(Debug, Clone, Copy, PartialEq, Eq, Structural)]
pub struct Event {
    pub fd: u64,
    pub readable: bool,
    pub writable: bool,
}

/// Index of the registration for `fd` at or after `i`.
pub open spec fn reg_idx_from(rs: Seq<(u64, EventType)>, fd: u64, i: int) -> Option<int>
    decreases rs.len() - i,
{
    if i < 0 || i >= rs.len() {
        None
    } else if rs[i].0 == fd {
        Some(i)
    } else {
        reg_idx_from(rs, fd, i + 1)
    }
}

/// Index of the registration for `fd`, if any.
pub open spec fn reg_idx(rs: Seq<(u64, EventType)>, fd: u64) -> Option<int> {
    reg_idx_from(rs, fd, 0)
}

/// Whether `fd` is registered.
pub open spec fn spec_registered(rs: Seq<(u64, EventType)>, fd: u64) -> bool {
    reg_idx(rs, fd) is Some
}

/// What `reg_idx_from` says about its result.
pub proof fn lemma_reg_idx_props(rs: Seq<(u64, EventType)>, fd: u64, i: int)
    requires
        0 <= i,
    ensures
        match reg_idx_from(rs, fd, i) {
            Some(k) => i <= k < rs.len() && rs[k].0 == fd && forall|j: int|
                i <= j < k ==> rs[j].0 != fd,
            None => forall|j: int| i <= j < rs.len() ==> rs[j].0 != fd,
        },
    decreases rs.len() - i,
{
    if i < rs.len() && rs[i].0 != fd {
        lemma_reg_idx_props(rs, fd, i + 1);
    }
}

/// The event reported for one registration.
pub open spec fn event_of(r: (u64, EventType)) -> Event {
    Event {
        fd: r.0,
        readable: r.1 == EventType::Read || r.1 == EventType::ReadWrite,
        writable: r.1 == EventType::Write || r.1 == EventType::ReadWrite,
    }
}

/// The events a readiness sweep reports: one per registration.
pub open spec fn spec_events(rs: Seq<(u64, EventType)>) -> Seq<Event> {
    rs.map_values(|r: (u64, EventType)| event_of(r))
}

/// A descriptor that is not registered never appears among the reported
/// events.
pub proof fn lemma_unregistered_never_reported(rs: Seq<(u64, EventType)>, fd: u64)
    requires
        !spec_registered(rs, fd),
    ensures
        forall|i: int| 0 <= i < spec_events(rs).len() ==> (#[trigger] spec_events(rs)[i]).fd != fd,
{
    lemma_reg_idx_props(rs, fd, 0);
    assert forall|i: int| 0 <= i < spec_events(rs).len() implies (#[trigger] spec_events(rs)[i]).fd
        != fd by {
        assert(spec_events(rs)[i] == event_of(rs[i]));
    }
}

/// Registration bookkeeping for the readiness sweep.
#[derive(Debug, Clone)]
pub struct Poller {
    /// Registered descriptors with their interests, each descriptor once.
    pub registered: Vec<(u64, EventType)>,
}

impl View for Poller {
    type V = Seq<(u64, EventType)>;

    open spec fn view(&self) -> Seq<(u64, EventType)> {
        self.registered@
    }
}

impl Poller {
    /// Uniqueness of registered descriptors.
    pub open spec fn wf(&self) -> bool {
        forall|i: int, j: int|
            0 <= i < j < self@.len() ==> (#[trigger] self@[i].0) != (#[trigger] self@[j].0)
    }

    /// Creates an empty poller.
    pub fn new() -> (r: Result<Poller, ServerError>)
        ensures
            r matches Ok(p) && p@ == Seq::<(u64, EventType)>::empty() && p.wf(),
    {
        Ok(Poller { registered: Vec::new() })
    }

    /// Index of the registration for `fd`.
    fn index_for(&self, fd: u64) -> (r: Option<usize>)
        ensures
            match r {
                Some(i) => reg_idx(self@, fd) == Some(i as int) && i < self@.len(),
                None => reg_idx(self@, fd) == None::<int>,
            },
    {
        let mut i: usize = 0;
        while i < self.registered.len()
            invariant
                i <= self@.len(),
                reg_idx_from(self@, fd, 0) == reg_idx_from(self@, fd, i as int),
            decreases self@.len() - i,
        {
            if self.registered[i].0 == fd {
                return Some(i);
            }
            i = i + 1;
        }
        None
    }

    /// Registers a descriptor, replacing any earlier interest.
    pub fn register(&mut self, fd: u64, event_type: EventType) -> (r: Result<(), ServerError>)
        ensures
            r is Ok,
            spec_registered(final(self)@, fd),
            match reg_idx(old(self)@, fd) {
                Some(i) => final(self)@ == old(self)@.update(i, (fd, event_type)),
                None => final(self)@ == old(self)@.push((fd, event_type)),
            },
            old(self).wf() ==> final(self).wf(),
    {
        let ghost rs = self@;
        proof {
            lemma_reg_idx_props(rs, fd, 0);
        }
        match self.index_for(fd) {
            Some(i) => {
                let _ = self.registered.remove(i);
                self.registered.insert(i, (fd, event_type));
                proof {
                    assert(self@ =~= rs.update(i as int, (fd, event_type)));
                    lemma_reg_idx_props(self@, fd, 0);
                    assert(self@[i as int].0 == fd);
                    if !spec_registered(self@, fd) {
                        assert(self@[i as int].0 != fd);
                    }
                }
            },
            None => {
                self.registered.push((fd, event_type));
                proof {
                    lemma_reg_idx_props(self@, fd, 0);
                    assert(self@[rs.len() as int].0 == fd);
                    if !spec_registered(self@, fd) {
                        assert(self@[rs.len() as int].0 != fd);
                    }
                }
            },
        }
        Ok(())
    }

    /// Modifies the interest of a registered descriptor; an unregistered
    /// descriptor is an error.
    pub fn modify(&mut self, fd: u64, event_type: EventType) -> (r: Result<(), ServerError>)
        ensures
            r is Ok <==> spec_registered(old(self)@, fd),
            match reg_idx(old(self)@, fd) {
                Some(i) => final(self)@ == old(self)@.update(i, (fd, event_type)),
                None => final(self)@ == old(self)@,
            },
            old(self).wf() ==> final(self).wf(),
    {
        let ghost rs = self@;
        proof {
            lemma_reg_idx_props(rs, fd, 0);
        }
        match self.index_for(fd) {
            Some(i) => {
                let _ = self.registered.remove(i);
                self.registered.insert(i, (fd, event_type));
                proof {
                    assert(self@ =~= rs.update(i as int, (fd, event_type)));
                }
                Ok(())
            },
            None => Err(
                ServerError::Internal(crate::bytes::to_vec("socket not registered".as_bytes())),
            ),
        }
    }

    /// Unregisters a descriptor: afterwards it is not registered and no
    /// sweep reports it.
    pub fn unregister(&mut self, fd: u64) -> (r: Result<(), ServerError>)
        ensures
            r is Ok,
            old(self).wf() ==> !spec_registered(final(self)@, fd),
            match reg_idx(old(self)@, fd) {
                Some(i) => final(self)@ == old(self)@.subrange(0, i) + old(self)@.subrange(
                    i + 1,
                    old(self)@.len() as int,
                ),
                None => final(self)@ == old(self)@,
            },
            old(self).wf() ==> final(self).wf(),
    {
        let ghost rs = self@;
        proof {
            lemma_reg_idx_props(rs, fd, 0);
        }
        match self.index_for(fd) {
            Some(i) => {
                let _ = self.registered.remove(i);
                proof {
                    assert(self@ =~= rs.subrange(0, i as int) + rs.subrange(
                        i + 1,
                        rs.len() as int,
                    ));
                    if old(self).wf() {
                        lemma_reg_idx_props(self@, fd, 0);
                        if spec_registered(self@, fd) {
                            let k = reg_idx(self@, fd).unwrap();
                            assert(self@[k].0 == fd);
                            if k < i {
                                assert(rs[k].0 == fd);
                            } else {
                                assert(rs[k + 1].0 == fd);
                            }
                        }
                    }
                }
                Ok(())
            },
            None => Ok(()),
        }
    }

    /// The events one readiness sweep reports: every registered
    /// descriptor with its interest, and nothing else.
    pub fn snapshot_events(&self) -> (r: Vec<Event>)
        ensures
            r@ == spec_events(self@),
            forall|i: int|
                0 <= i < r@.len() ==> spec_registered(self@, (#[trigger] r@[i]).fd),
    {
        let mut out: Vec<Event> = Vec::new();
        let mut i: usize = 0;
        while i < self.registered.len()
            invariant
                i <= self@.len(),
                out@ =~= spec_events(self@).take(i as int),
            decreases self@.len() - i,
        {
            let (fd, et) = self.registered[i];
            let readable = matches!(et, EventType::Read | EventType::ReadWrite);
            let writable = matches!(et, EventType::Write | EventType::ReadWrite);
            out.push(Event { fd, readable, writable });
            proof {
                assert(spec_events(self@).take(i + 1) =~= spec_events(self@).take(i as int).push(
                    event_of(self@[i as int]),
                ));
            }
            i = i + 1;
        }
        proof {
            assert(spec_events(self@).take(self@.len() as int) =~= spec_events(self@));
            assert forall|k: int|
                0 <= k < out@.len() implies spec_registered(self@, (#[trigger] out@[k]).fd) by {
                assert(out@[k] == event_of(self@[k]));
                lemma_reg_idx_props(self@, self@[k].0, 0);
                if !spec_registered(self@, self@[k].0) {
                    assert(self@[k].0 != self@[k].0);
                }
            }
        }
        out
    }
}

} // verus!
