//! Serialised mutation: requests against one store wait in a queue and run
//! one at a time, in the order they were submitted, each on the store its
//! predecessor left.
use vstd::prelude::*;

use crate::error::Error;
use crate::store::{
    blank, committed, content, content_of, current_base, deleted, has_id, lemma_committed,
    lemma_deleted, lemma_renamed, lemma_tree, reaches_root, renamed, well_formed, Sbvc, SbvcView,
};

verus! {

/// A mutating operation on the history.
#[derive(Debug)]
pub enum Request {
    /// Record what the working file holds, dated `date`.
    Commit { date: i64 },
    /// Make version `id` current; `discard` drops uncommitted edits.
    Checkout { id: u32, discard: bool },
    /// Rename the current version.
    Rename { name: String },
    /// Remove the current version.
    Delete,
    /// Drop the uncommitted edits of the working file.
    Rollback,
    /// Track another file.
    SetFile { file: String },
}

/// What a request came to.
#[derive(Debug)]
pub enum Reply {
    /// A commit ran; the id is the current one afterwards.
    Committed(u32),
    /// The working file must now hold these bytes.
    Write(Vec<u8>),
    /// Done; the working file stays as it is.
    Done,
    /// Refused; the store is unchanged.
    Failed(Error),
}

/// `t` and `reply` are what running `req` on `s` gives, where `working` is
/// what the working file held.
pub open spec fn performed(s: SbvcView, req: Request, working: Seq<u8>, t: SbvcView, reply: Reply) -> bool {
    match req {
        Request::Commit { date } => if working != content_of(s, s.current) && s.next_id == u32::MAX {
            t == s && reply == Reply::Failed(Error::IdsExhausted)
        } else {
            t == committed(s, working, date) && reply == Reply::Committed(t.current)
        },
        Request::Checkout { id, discard } => if !has_id(s.versions, id) {
            t == s && reply == Reply::Failed(Error::UnknownVersion)
        } else if !discard && working != content_of(s, s.current) {
            t == s && reply == Reply::Failed(Error::UncommittedChanges)
        } else {
            t == (SbvcView { current: id, ..s }) && (reply matches Reply::Write(v) && v@
                == content_of(s, id))
        },
        Request::Rename { name } => if blank(name@) {
            t == s && reply == Reply::Failed(Error::EmptyName)
        } else {
            t == renamed(s, name@) && reply == Reply::Done
        },
        Request::Delete => if s.current == s.versions[0].id {
            t == s && reply == Reply::Failed(Error::CannotDeleteRoot)
        } else {
            t == deleted(s) && (reply matches Reply::Write(v) && v@ == content_of(s, current_base(s)))
        },
        Request::Rollback => t == s && (reply matches Reply::Write(v) && v@ == content_of(
            s,
            s.current,
        )),
        Request::SetFile { file } => t == (SbvcView { file: file@, ..s }) && reply == Reply::Done,
    }
}

/// Runs one request on `store`.
pub fn perform(store: &mut Sbvc, req: Request, working: &Vec<u8>) -> (r: Reply)
    requires
        well_formed(old(store)@),
    ensures
        well_formed(final(store)@),
        performed(old(store)@, req, working@, final(store)@, r),
{
    match req {
        Request::Commit { date } => {
            if store.next_id() == u32::MAX && store.is_changed(working) {
                Reply::Failed(Error::IdsExhausted)
            } else {
                Reply::Committed(store.commit(working, date))
            }
        },
        Request::Checkout { id, discard } => match store.checkout(id, discard, working) {
            Ok(v) => Reply::Write(v),
            Err(e) => Reply::Failed(e),
        },
        Request::Rename { name } => {
            let ghost n = name@;
            match store.rename(name) {
                Ok(()) => Reply::Done,
                Err(e) => Reply::Failed(e),
            }
        },
        Request::Delete => match store.delete() {
            Ok(v) => Reply::Write(v),
            Err(e) => Reply::Failed(e),
        },
        Request::Rollback => Reply::Write(store.rollback()),
        Request::SetFile { file } => {
            store.set_file(file);
            Reply::Done
        },
    }
}

pub struct SchedulerView {
    pub store: SbvcView,
    pub pending: Seq<Request>,
}

/// A store and the requests that wait for it, oldest first.
#[derive(Debug)]
pub struct Scheduler {
    store: Sbvc,
    pending: Vec<Request>,
}

impl View for Scheduler {
    type V = SchedulerView;

    closed spec fn view(&self) -> SchedulerView {
        SchedulerView { store: self.store@, pending: self.pending@ }
    }
}

/// `q1` and `reply` are what running the oldest waiting request of `q0`
/// gives, where `working` is what the working file held.
pub open spec fn advanced(q0: SchedulerView, working: Seq<u8>, q1: SchedulerView, reply: Reply) -> bool {
    &&& q0.pending.len() > 0
    &&& performed(q0.store, q0.pending[0], working, q1.store, reply)
    &&& q1.pending == q0.pending.drop_first()
}

impl Scheduler {
    /// A scheduler that owns `store`, with nothing waiting.
    pub fn new(store: Sbvc) -> (r: Scheduler)
        ensures
            r@.store == store@,
            r@.pending == Seq::<Request>::empty(),
    {
        Scheduler { store, pending: Vec::new() }
    }

    /// The store as the last completed request left it.
    pub fn store(&self) -> (r: &Sbvc)
        ensures
            r@ == self@.store,
    {
        &self.store
    }

    /// How many requests wait.
    pub fn waiting(&self) -> (r: usize)
        ensures
            r == self@.pending.len(),
    {
        self.pending.len()
    }

    /// Queues `req` behind every request already waiting.
    pub fn submit(&mut self, req: Request)
        ensures
            final(self)@.store == old(self)@.store,
            final(self)@.pending == old(self)@.pending.push(req),
    {
        self.pending.push(req);
    }

    /// Runs the oldest waiting request to completion and returns its reply;
    /// `None` where nothing waits.
    pub fn run_next(&mut self, working: &Vec<u8>) -> (r: Option<Reply>)
        requires
            well_formed(old(self)@.store),
        ensures
            well_formed(final(self)@.store),
            old(self)@.pending.len() == 0 ==> r is None && final(self)@ == old(self)@,
            old(self)@.pending.len() > 0 ==> (r matches Some(reply) && advanced(
                old(self)@,
                working@,
                final(self)@,
                reply,
            )),
    {
        if self.pending.len() == 0 {
            return None;
        }
        let req = self.pending.remove(0);
        proof {
            assert(self.pending@ =~= old(self)@.pending.drop_first());
        }
        Some(perform(&mut self.store, req, working))
    }
}

/// Whatever a request does, a well-formed store stays well formed.
pub proof fn lemma_performed_well_formed(s: SbvcView, req: Request, working: Seq<u8>, t: SbvcView, reply: Reply)
    requires
        well_formed(s),
        performed(s, req, working, t, reply),
    ensures
        well_formed(t),
{
    match req {
        Request::Commit { date } => {
            if !(working != content_of(s, s.current) && s.next_id == u32::MAX) {
                lemma_committed(s, working, date);
            }
        },
        Request::Rename { name } => {
            if !blank(name@) {
                lemma_renamed(s, name@);
            }
        },
        Request::Delete => {
            if s.current != s.versions[0].id {
                lemma_deleted(s);
            }
        },
        _ => {},
    }
}

/// After any run of requests, each run on the store its predecessor left,
/// the history is still a tree: the root is the one version that is its own
/// base, following bases from any version ends at it, and every version has
/// a content.
pub proof fn lemma_history_stays_a_tree(
    states: Seq<SbvcView>,
    reqs: Seq<Request>,
    workings: Seq<Seq<u8>>,
    replies: Seq<Reply>,
)
    requires
        states.len() == reqs.len() + 1,
        workings.len() == reqs.len(),
        replies.len() == reqs.len(),
        well_formed(states[0]),
        forall|i: int|
            0 <= i < reqs.len() ==> performed(
                states[i],
                #[trigger] reqs[i],
                workings[i],
                states[i + 1],
                replies[i],
            ),
    ensures
        forall|n: int|
            0 <= n < states.len() ==> {
                let vs = (#[trigger] states[n]).versions;
                &&& well_formed(states[n])
                &&& forall|i: int| 0 <= i < vs.len() ==> ((#[trigger] vs[i]).base == vs[i].id <==> i == 0)
                &&& forall|i: int| 0 <= i < vs.len() ==> #[trigger] reaches_root(vs, i)
                &&& forall|i: int| 0 <= i < vs.len() ==> (#[trigger] content(vs, states[n].seed, i)).is_some()
            },
{
    assert forall|n: int| 0 <= n < states.len() implies well_formed(#[trigger] states[n]) by {
        lemma_prefix_well_formed(states, reqs, workings, replies, n);
    }
    assert forall|n: int| 0 <= n < states.len() implies {
        let vs = (#[trigger] states[n]).versions;
        &&& well_formed(states[n])
        &&& forall|i: int| 0 <= i < vs.len() ==> ((#[trigger] vs[i]).base == vs[i].id <==> i == 0)
        &&& forall|i: int| 0 <= i < vs.len() ==> #[trigger] reaches_root(vs, i)
        &&& forall|i: int| 0 <= i < vs.len() ==> (#[trigger] content(vs, states[n].seed, i)).is_some()
    } by {
        lemma_tree(states[n]);
    }
}

proof fn lemma_prefix_well_formed(
    states: Seq<SbvcView>,
    reqs: Seq<Request>,
    workings: Seq<Seq<u8>>,
    replies: Seq<Reply>,
    n: int,
)
    requires
        states.len() == reqs.len() + 1,
        workings.len() == reqs.len(),
        replies.len() == reqs.len(),
        well_formed(states[0]),
        forall|i: int|
            0 <= i < reqs.len() ==> performed(
                states[i],
                #[trigger] reqs[i],
                workings[i],
                states[i + 1],
                replies[i],
            ),
        0 <= n < states.len(),
    ensures
        well_formed(states[n]),
    decreases n,
{
    if n > 0 {
        lemma_prefix_well_formed(states, reqs, workings, replies, n - 1);
        lemma_performed_well_formed(
            states[n - 1],
            reqs[n - 1],
            workings[n - 1],
            states[n],
            replies[n - 1],
        );
    }
}

/// Two requests submitted back to back never interleave: the second starts
/// from exactly the store the first left, whatever came before or after.
pub proof fn lemma_back_to_back(
    q0: SchedulerView,
    q1: SchedulerView,
    q2: SchedulerView,
    a: Request,
    b: Request,
    w1: Seq<u8>,
    w2: Seq<u8>,
    r1: Reply,
    r2: Reply,
)
    requires
        q0.pending.len() == 2,
        q0.pending[0] == a,
        q0.pending[1] == b,
        advanced(q0, w1, q1, r1),
        advanced(q1, w2, q2, r2),
    ensures
        performed(q0.store, a, w1, q1.store, r1),
        performed(q1.store, b, w2, q2.store, r2),
        q2.pending.len() == 0,
        forall|t: SbvcView, r: Reply| performed(q0.store, a, w1, t, r) ==> t == q1.store,
{
    assert forall|t: SbvcView, r: Reply| performed(q0.store, a, w1, t, r) implies t == q1.store by {
    }
}

} // verus!
