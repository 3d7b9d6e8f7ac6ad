//! Behaviour-oriented concurrency: the scheduling of behaviours over concurrent owners.
//!
//! A `CownPtr` names a shared resource (a *cown*). `run_when` creates a *behaviour* that needs a
//! set of cowns and schedules it: for each of its cowns, the behaviour joins the cown's queue of
//! requests. A behaviour may run once it is at the head of the queue of every cown it needs; the
//! number of its requests that are not at the head yet is its `count`. When a behaviour has run,
//! it releases its cowns: it leaves their queues, and the behaviour next in each queue is
//! resolved one step further.
//!
//! The `Runtime` holds the queues and the behaviours; behaviours are named by the order in which
//! they were scheduled. It decides which behaviour may run; running the bodies is left to the
//! caller, which reports each finished behaviour back with `Runtime::complete`.

use vstd::prelude::*;

verus! {

/// A request of a behaviour for one cown.
#[derive(Debug)]
pub struct Request {
    /// The cown that this request wants to access.
    target: usize,
    /// Whether the request has been enqueued on its cown.
    scheduled: bool,
}

impl Request {
    /// The cown this request is for.
    pub closed spec fn target(&self) -> usize {
        self.target
    }

    /// Creates a request for `target` that is not enqueued yet.
    fn new(target: &CownPtr) -> (r: Request)
        ensures
            r.target() == target.id(),
            !r.scheduled,
    {
        Request { target: target.id, scheduled: false }
    }
}

/// A handle to a cown.
#[derive(Debug)]
pub struct CownPtr {
    id: usize,
}

impl CownPtr {
    /// The cown this handle names.
    pub closed spec fn id(&self) -> usize {
        self.id
    }

    /// Creates a new cown in `rt`, with an empty queue.
    pub fn new(rt: &mut Runtime) -> (r: CownPtr)
        requires
            old(rt).wf(),
        ensures
            final(rt).wf(),
            r.id() == old(rt).num_cowns(),
            final(rt).num_cowns() == old(rt).num_cowns() + 1,
            final(rt).queue(r.id() as int) == Seq::<usize>::empty(),
            final(rt).num_behaviors() == old(rt).num_behaviors(),
            forall|c: int| 0 <= c < old(rt).num_cowns() ==> #[trigger] final(rt).queue(c) == old(rt).queue(c),
            forall|b: int| 0 <= b < old(rt).num_behaviors() ==> #[trigger] final(rt).behavior(b) == old(rt).behavior(b),
    {
        let id = rt.queues.len();
        rt.queues.push(Vec::new());
        proof {
            assert forall|c: int| 0 <= c < old(rt).num_cowns() implies #[trigger] rt.queue(c) == old(rt).queue(c) by {
                assert(rt.queues@[c] == old(rt).queues@[c]);
            }
            assert(rt.queue(id as int) == Seq::<usize>::empty());
            assert forall|b: int| 0 <= b < rt.num_behaviors() && !#[trigger] rt.done(b) implies rt.blocked(b)
                == old(rt).blocked(b) by {
                assert forall|i: int| 0 <= i < rt.targets(b).len() implies (rt.at_head(
                    #[trigger] rt.targets(b)[i] as int,
                    b,
                ) <==> old(rt).at_head(rt.targets(b)[i] as int, b)) by {
                    let c = rt.targets(b)[i] as int;
                    assert(!old(rt).done(b));
                    assert(old(rt).targets(b)[i] == c);
                    assert(0 <= c < old(rt).num_cowns());
                    assert(rt.queue(c) == old(rt).queue(c));
                }
                rt.lemma_blocked_frame(old(rt), b, rt.targets(b).len() as int);
            }
            assert forall|c: int, k: int|
                0 <= c < rt.num_cowns() && 0 <= k < rt.queue(c).len() implies {
                    let b = #[trigger] rt.queue(c)[k] as int;
                    &&& 0 <= b < rt.num_behaviors()
                    &&& !rt.done(b)
                    &&& rt.targets(b).contains(c as usize)
                } by {
                assert(c < old(rt).num_cowns());
                assert(old(rt).queue(c)[k] == rt.queue(c)[k]);
            }
            assert forall|c: int, k: int, l: int|
                0 <= c < rt.num_cowns() && 0 <= k < l < rt.queue(c).len() implies #[trigger] rt.queue(c)[k]
                    < #[trigger] rt.queue(c)[l] by {
                assert(c < old(rt).num_cowns());
                assert(old(rt).queue(c)[k] < old(rt).queue(c)[l]);
            }
            assert forall|b: int| 0 <= b < rt.num_behaviors() && !#[trigger] rt.done(b) implies {
                &&& rt.targets(b).no_duplicates()
                &&& forall|i: int|
                    0 <= i < rt.targets(b).len() ==> {
                        let c = #[trigger] rt.targets(b)[i] as int;
                        &&& 0 <= c < rt.num_cowns()
                        &&& rt.queue(c).contains(b as usize)
                    }
                &&& rt.count(b) == rt.blocked(b)
            } by {
                assert(!old(rt).done(b));
                assert forall|i: int| 0 <= i < rt.targets(b).len() implies {
                    let c = #[trigger] rt.targets(b)[i] as int;
                    &&& 0 <= c < rt.num_cowns()
                    &&& rt.queue(c).contains(b as usize)
                } by {
                    assert(old(rt).targets(b)[i] == rt.targets(b)[i]);
                }
            }
        }
        CownPtr { id }
    }

    /// The cown this handle names.
    pub fn index(&self) -> (r: usize)
        ensures
            r == self.id(),
    {
        self.id
    }

    /// Another handle to the same cown.
    pub fn clone(&self) -> (r: CownPtr)
        ensures
            r.id() == self.id(),
    {
        CownPtr { id: self.id }
    }
}

/// A behaviour: the requests for the cowns it needs, and how many of them are not at the head
/// of their cown's queue yet.
#[derive(Debug)]
pub struct Behavior {
    count: usize,
    requests: Vec<Request>,
    done: bool,
}

/// What the runtime knows of a behaviour: its cowns, its count, and whether it has run.
pub struct BehaviorState {
    pub targets: Seq<usize>,
    pub count: nat,
    pub done: bool,
}

/// The cowns and behaviours of a program.
#[derive(Debug)]
pub struct Runtime {
    /// For each cown, the behaviours waiting for it or holding it, in scheduling order.
    queues: Vec<Vec<usize>>,
    /// The behaviours, in scheduling order.
    behaviors: Vec<Behavior>,
}

/// The cowns of a sequence of requests.
pub open spec fn targets_of(rs: Seq<Request>) -> Seq<usize> {
    rs.map_values(|r: Request| r.target())
}

impl Runtime {
    /// The number of cowns.
    pub closed spec fn num_cowns(&self) -> nat {
        self.queues@.len()
    }

    /// The number of behaviours scheduled so far.
    pub closed spec fn num_behaviors(&self) -> nat {
        self.behaviors@.len()
    }

    /// The queue of cown `c`: the behaviours waiting for it, the first one holding it.
    pub closed spec fn queue(&self, c: int) -> Seq<usize> {
        self.queues@[c]@
    }

    /// The cowns of behaviour `b`.
    pub closed spec fn targets(&self, b: int) -> Seq<usize> {
        targets_of(self.behaviors@[b].requests@)
    }

    /// The count of behaviour `b`.
    pub closed spec fn count(&self, b: int) -> nat {
        self.behaviors@[b].count as nat
    }

    /// Whether request `i` of behaviour `b` has been enqueued on its cown.
    pub closed spec fn request_scheduled(&self, b: int, i: int) -> bool {
        self.behaviors@[b].requests@[i].scheduled
    }

    /// Whether behaviour `b` has run.
    pub closed spec fn done(&self, b: int) -> bool {
        self.behaviors@[b].done
    }

    /// What the runtime knows of behaviour `b`.
    pub open spec fn behavior(&self, b: int) -> BehaviorState {
        BehaviorState { targets: self.targets(b), count: self.count(b), done: self.done(b) }
    }

    /// Behaviour `b` is first in the queue of cown `c`.
    pub open spec fn at_head(&self, c: int, b: int) -> bool {
        self.queue(c).len() > 0 && self.queue(c)[0] == b
    }

    /// The number of the first `n` requests of behaviour `b` that are not at the head of their
    /// cown's queue.
    pub open spec fn blocked_upto(&self, b: int, n: int) -> nat
        decreases n,
    {
        if n <= 0 {
            0
        } else {
            self.blocked_upto(b, n - 1) + if self.at_head(self.targets(b)[n - 1] as int, b) {
                0nat
            } else {
                1nat
            }
        }
    }

    /// The number of requests of behaviour `b` that are not at the head of their cown's queue.
    pub open spec fn blocked(&self, b: int) -> nat {
        self.blocked_upto(b, self.targets(b).len() as int)
    }

    /// Behaviour `b` may run: it is scheduled, has not run, and holds all its cowns.
    pub open spec fn runnable(&self, b: int) -> bool {
        0 <= b < self.num_behaviors() && !self.done(b) && self.count(b) == 0
    }

    /// Every queue lists behaviours that have not run and need the cown, in scheduling order.
    pub open spec fn queues_wf(&self) -> bool {
        &&& forall|c: int, k: int|
            0 <= c < self.num_cowns() && 0 <= k < self.queue(c).len() ==> {
                let b = #[trigger] self.queue(c)[k] as int;
                &&& 0 <= b < self.num_behaviors()
                &&& !self.done(b)
                &&& self.targets(b).contains(c as usize)
            }
        &&& forall|c: int, k: int, l: int|
            0 <= c < self.num_cowns() && 0 <= k < l < self.queue(c).len() ==> #[trigger] self.queue(c)[k]
                < #[trigger] self.queue(c)[l]
    }

    /// Behaviour `b` needs each of its cowns once, is in the queue of each of them, and its count
    /// is the number of its requests that are not at the head of their queue.
    pub open spec fn behavior_wf(&self, b: int) -> bool {
        &&& self.targets(b).no_duplicates()
        &&& forall|i: int|
            0 <= i < self.targets(b).len() ==> {
                let c = #[trigger] self.targets(b)[i] as int;
                &&& 0 <= c < self.num_cowns()
                &&& self.queue(c).contains(b as usize)
            }
        &&& self.count(b) == self.blocked(b)
    }

    /// The invariant of the runtime: the queues are well formed, and so is every behaviour that
    /// has not run.
    pub open spec fn wf(&self) -> bool {
        &&& self.queues_wf()
        &&& forall|b: int| 0 <= b < self.num_behaviors() && !#[trigger] self.done(b) ==> self.behavior_wf(b)
    }

    /// The number of cowns.
    pub fn cown_count(&self) -> (r: usize)
        ensures
            r == self.num_cowns(),
    {
        self.queues.len()
    }

    /// The number of behaviours scheduled so far.
    pub fn behavior_count(&self) -> (r: usize)
        ensures
            r == self.num_behaviors(),
    {
        self.behaviors.len()
    }

    /// Whether behaviour `b` may run now.
    pub fn is_runnable(&self, b: usize) -> (r: bool)
        ensures
            r == self.runnable(b as int),
    {
        b < self.behaviors.len() && !self.behaviors[b].done && self.behaviors[b].count == 0
    }

    /// Creates a runtime with no cown and no behaviour.
    pub fn new() -> (r: Self)
        ensures
            r.wf(),
            r.num_cowns() == 0,
            r.num_behaviors() == 0,
    {
        Runtime { queues: Vec::new(), behaviors: Vec::new() }
    }

    /// `blocked_upto` only depends on the targets of `b` and the heads of their queues.
    proof fn lemma_blocked_frame(&self, other: &Self, b: int, n: int)
        requires
            self.targets(b) == other.targets(b),
            0 <= n <= self.targets(b).len(),
            forall|i: int|
                0 <= i < n ==> (self.at_head(#[trigger] self.targets(b)[i] as int, b) <==> other.at_head(
                    self.targets(b)[i] as int,
                    b,
                )),
        ensures
            self.blocked_upto(b, n) == other.blocked_upto(b, n),
        decreases n,
    {
        if n > 0 {
            self.lemma_blocked_frame(other, b, n - 1);
        }
    }

    /// A behaviour none of whose first `n` requests is blocked is at the head of each of their
    /// queues.
    proof fn lemma_unblocked(&self, b: int, n: int)
        requires
            0 <= n <= self.targets(b).len(),
            self.blocked_upto(b, n) == 0,
        ensures
            forall|i: int| 0 <= i < n ==> self.at_head(#[trigger] self.targets(b)[i] as int, b),
        decreases n,
    {
        if n > 0 {
            self.lemma_unblocked(b, n - 1);
        }
    }
}

impl Behavior {
    /// The cowns this behaviour needs, in the order of its requests.
    pub closed spec fn targets(&self) -> Seq<usize> {
        targets_of(self.requests@)
    }

    /// The behaviour's count.
    pub closed spec fn count(&self) -> nat {
        self.count as nat
    }

    /// Creates a behaviour that needs `cowns`. Its count starts at one more than the number of
    /// its requests: one for each request, plus one that `schedule` resolves once every request
    /// is enqueued.
    fn new<C: CownPtrs>(cowns: &C) -> (r: Behavior)
        requires
            cowns.cowns().len() < usize::MAX,
        ensures
            r.targets() == cowns.cowns(),
            r.count() == cowns.cowns().len() + 1,
            !r.done,
    {
        let requests = cowns.requests();
        let count = requests.len() + 1;
        Behavior { count, requests, done: false }
    }

    /// Schedules the behaviour in `rt` and returns its name, and whether it may run at once.
    ///
    /// Every request is enqueued on its cown (a request that finds the queue empty is resolved
    /// at once); then every request is marked as scheduled; then the extra unit of the count is
    /// resolved. The cowns must be distinct (a behaviour that needs a cown twice would wait for
    /// itself forever).
    fn schedule(self, rt: &mut Runtime) -> (r: (usize, bool))
        requires
            old(rt).wf(),
            old(rt).num_behaviors() < usize::MAX,
            self.targets().no_duplicates(),
            forall|i: int| 0 <= i < self.targets().len() ==> #[trigger] self.targets()[i] < old(rt).num_cowns(),
            self.count() == self.targets().len() + 1,
            !self.done,
        ensures
            final(rt).wf(),
            r.0 == old(rt).num_behaviors(),
            final(rt).num_behaviors() == old(rt).num_behaviors() + 1,
            final(rt).num_cowns() == old(rt).num_cowns(),
            final(rt).targets(r.0 as int) == self.targets(),
            !final(rt).done(r.0 as int),
            r.1 == final(rt).runnable(r.0 as int),
            forall|b: int| 0 <= b < old(rt).num_behaviors() ==> #[trigger] final(rt).behavior(b) == old(rt).behavior(b),
            forall|c: int|
                0 <= c < old(rt).num_cowns() ==> #[trigger] final(rt).queue(c) == if self.targets().contains(
                    c as usize,
                ) {
                    old(rt).queue(c).push(r.0)
                } else {
                    old(rt).queue(c)
                },
    {
        let id = rt.behaviors.len();
        let num_cowns = rt.queues.len();
        let n = self.requests.len();
        let ghost t = self.targets();
        rt.behaviors.push(self);
        proof {
            assert(rt.targets(id as int) == t);
            assert forall|b: int| 0 <= b < old(rt).num_behaviors() implies #[trigger] rt.behavior(b) == old(rt).behavior(b) by {
                assert(rt.behaviors@[b] == old(rt).behaviors@[b]);
            }
        }
        let mut i: usize = 0;
        while i < n
            invariant
                n == t.len(),
                i <= n,
                num_cowns == old(rt).num_cowns(),
                id == old(rt).num_behaviors(),
                rt.num_behaviors() == id + 1,
                rt.num_cowns() == old(rt).num_cowns(),
                rt.targets(id as int) == t,
                !rt.done(id as int),
                t.no_duplicates(),
                forall|k: int| 0 <= k < t.len() ==> #[trigger] t[k] < old(rt).num_cowns(),
                rt.count(id as int) == 1 + (n - i) + rt.blocked_upto(id as int, i as int),
                forall|b: int| 0 <= b < id ==> #[trigger] rt.behavior(b) == old(rt).behavior(b),
                forall|c: int|
                    0 <= c < old(rt).num_cowns() ==> #[trigger] rt.queue(c) == if t.take(i as int).contains(
                        c as usize,
                    ) {
                        old(rt).queue(c).push(id)
                    } else {
                        old(rt).queue(c)
                    },
                old(rt).wf(),
            decreases n - i,
        {
            let ghost before = *rt;
            proof {
                assert(t[i as int] < old(rt).num_cowns());
            }
            Request::start_enqueue(rt, id, i);
            proof {
                let c = t[i as int];
                assert(t.take(i + 1) =~= t.take(i as int).push(c));
                assert(!t.take(i as int).contains(c)) by {
                    if t.take(i as int).contains(c) {
                        let k = choose|k: int| 0 <= k < i && #[trigger] t.take(i as int)[k] == c;
                        assert(t[k] == t[i as int]);
                    }
                }
                assert(before.queue(c as int) == old(rt).queue(c as int));
                assert forall|d: int|
                    0 <= d < old(rt).num_cowns() implies #[trigger] rt.queue(d) == if t.take(i + 1).contains(d as usize) {
                        old(rt).queue(d).push(id)
                    } else {
                        old(rt).queue(d)
                    } by {
                    if d != c {
                        assert(rt.queue(d) == before.queue(d));
                        assert(t.take(i + 1)[i as int] == c);
                        if t.take(i + 1).contains(d as usize) {
                            let k = choose|k: int| 0 <= k < i + 1 && #[trigger] t.take(i + 1)[k] == d as usize;
                            assert(k != i);
                            assert(t.take(i as int)[k] == d as usize);
                        }
                        if t.take(i as int).contains(d as usize) {
                            let k = choose|k: int| 0 <= k < i && #[trigger] t.take(i as int)[k] == d as usize;
                            assert(t.take(i + 1)[k] == d as usize);
                        }
                    } else {
                        assert(t.take(i + 1)[i as int] == c);
                    }
                }
                assert forall|k: int| 0 <= k < i implies (rt.at_head(#[trigger] rt.targets(id as int)[k] as int, id as int)
                    <==> before.at_head(rt.targets(id as int)[k] as int, id as int)) by {
                    assert(t[k] != c);
                    assert(t[k] < old(rt).num_cowns());
                    assert(rt.queue(t[k] as int) == before.queue(t[k] as int));
                }
                rt.lemma_blocked_frame(&before, id as int, i as int);
                assert(rt.blocked_upto(id as int, i + 1) == rt.blocked_upto(id as int, i as int) + if rt.at_head(c as int, id as int) {
                    0nat
                } else {
                    1nat
                });
                assert(rt.at_head(c as int, id as int) == (before.queue(c as int).len() == 0));
            }
            i = i + 1;
        }
        let ghost enqueued = *rt;
        let mut j: usize = 0;
        while j < n
            invariant
                j <= n,
                n == t.len(),
                id == old(rt).num_behaviors(),
                rt.num_behaviors() == id + 1,
                rt.targets(id as int) == t,
                rt.queues@ == enqueued.queues@,
                forall|x: int| 0 <= x <= id ==> #[trigger] rt.behavior(x) == enqueued.behavior(x),
            decreases n - j,
        {
            let ghost pre = *rt;
            Request::finish_enqueue(rt, id, j);
            proof {
                assert(rt.behavior(id as int) == pre.behavior(id as int));
            }
            j = j + 1;
        }
        proof {
            assert(rt.behavior(id as int) == enqueued.behavior(id as int));
            assert(rt.count(id as int) == enqueued.count(id as int));
        }
        let ghost finished = *rt;
        let runnable = rt.resolve_one(id);
        proof {
            assert forall|c: int| 0 <= c < rt.num_cowns() implies #[trigger] rt.queue(c) == enqueued.queue(c) by {
                assert(rt.queues@[c] == enqueued.queues@[c]);
            }
            assert forall|x: int| 0 <= x < id implies #[trigger] rt.behavior(x) == old(rt).behavior(x) by {
                assert(rt.behavior(x) == finished.behavior(x));
                assert(finished.behavior(x) == enqueued.behavior(x));
            }
            assert(t.take(n as int) =~= t);
            rt.lemma_blocked_frame(&enqueued, id as int, n as int);
            self::lemma_schedule_wf(old(rt), rt, id as int);
        }
        (id, runnable)
    }
}

/// After a new behaviour `b` has joined the queue of each of its cowns (and nothing else
/// changed), the runtime invariant holds again.
proof fn lemma_schedule_wf(old_rt: &Runtime, rt: &Runtime, b: int)
    requires
        old_rt.wf(),
        b < usize::MAX,
        b == old_rt.num_behaviors(),
        rt.num_behaviors() == b + 1,
        rt.num_cowns() == old_rt.num_cowns(),
        !rt.done(b),
        rt.targets(b).no_duplicates(),
        forall|k: int| 0 <= k < rt.targets(b).len() ==> #[trigger] rt.targets(b)[k] < old_rt.num_cowns(),
        rt.count(b) == rt.blocked(b),
        forall|x: int| 0 <= x < b ==> #[trigger] rt.behavior(x) == old_rt.behavior(x),
        forall|c: int|
            0 <= c < old_rt.num_cowns() ==> #[trigger] rt.queue(c) == if rt.targets(b).contains(c as usize) {
                old_rt.queue(c).push(b as usize)
            } else {
                old_rt.queue(c)
            },
    ensures
        rt.wf(),
{
    assert forall|c: int, k: int|
        0 <= c < rt.num_cowns() && 0 <= k < rt.queue(c).len() implies {
            let x = #[trigger] rt.queue(c)[k] as int;
            &&& 0 <= x < rt.num_behaviors()
            &&& !rt.done(x)
            &&& rt.targets(x).contains(c as usize)
        } by {
        let q = old_rt.queue(c);
        if rt.targets(b).contains(c as usize) {
            assert(rt.queue(c) == q.push(b as usize));
        } else {
            assert(rt.queue(c) == q);
        }
        if k < q.len() {
            assert(rt.queue(c)[k] == q[k]);
            let x = q[k] as int;
            assert(0 <= x < old_rt.num_behaviors() && !old_rt.done(x) && old_rt.targets(x).contains(c as usize));
            assert(rt.behavior(x) == old_rt.behavior(x));
            assert(rt.targets(x) == old_rt.targets(x));
            assert(rt.done(x) == old_rt.done(x));
            assert(rt.queue(c)[k] as int == x);
            assert(rt.targets(x).contains(c as usize));
        } else {
            assert(rt.targets(b).contains(c as usize));
            assert(rt.queue(c)[k] == b as usize);
            assert(rt.queue(c)[k] as int == b);
        }
    }
    assert forall|c: int, k: int, l: int|
        0 <= c < rt.num_cowns() && 0 <= k < l < rt.queue(c).len() implies #[trigger] rt.queue(c)[k]
            < #[trigger] rt.queue(c)[l] by {
        let q = old_rt.queue(c);
        if rt.targets(b).contains(c as usize) {
            assert(rt.queue(c) == q.push(b as usize));
        } else {
            assert(rt.queue(c) == q);
        }
        assert(k < q.len());
        assert(rt.queue(c)[k] == old_rt.queue(c)[k]);
        if l < old_rt.queue(c).len() {
            assert(rt.queue(c)[l] == old_rt.queue(c)[l]);
            assert(old_rt.queue(c)[k] < old_rt.queue(c)[l]);
        } else {
            let x = old_rt.queue(c)[k];
            assert(0 <= x < old_rt.num_behaviors());
            assert(rt.queue(c)[l] == b as usize);
        }
    }
    assert forall|x: int| 0 <= x < rt.num_behaviors() && !#[trigger] rt.done(x) implies {
        &&& rt.targets(x).no_duplicates()
        &&& forall|i: int|
            0 <= i < rt.targets(x).len() ==> {
                let c = #[trigger] rt.targets(x)[i] as int;
                &&& 0 <= c < rt.num_cowns()
                &&& rt.queue(c).contains(x as usize)
            }
        &&& rt.count(x) == rt.blocked(x)
    } by {
        if x < b {
            assert(rt.behavior(x) == old_rt.behavior(x));
            assert(!old_rt.done(x));
            assert forall|i: int| 0 <= i < rt.targets(x).len() implies {
                let c = #[trigger] rt.targets(x)[i] as int;
                &&& 0 <= c < rt.num_cowns()
                &&& rt.queue(c).contains(x as usize)
                &&& (rt.at_head(c, x) <==> old_rt.at_head(c, x))
            } by {
                let c = rt.targets(x)[i] as int;
                assert(old_rt.targets(x)[i] == c);
                assert(old_rt.queue(c).contains(x as usize));
                let k = choose|k: int| 0 <= k < old_rt.queue(c).len() && old_rt.queue(c)[k] == x as usize;
                assert(rt.queue(c)[k] == x as usize);
                assert(old_rt.queue(c).len() > 0);
                assert(rt.queue(c)[0] == old_rt.queue(c)[0]);
            }
            rt.lemma_blocked_frame(old_rt, x, rt.targets(x).len() as int);
        } else {
            assert forall|i: int| 0 <= i < rt.targets(x).len() implies {
                let c = #[trigger] rt.targets(x)[i] as int;
                &&& 0 <= c < rt.num_cowns()
                &&& rt.queue(c).contains(x as usize)
            } by {
                let c = rt.targets(x)[i] as int;
                assert(rt.targets(b).contains(c as usize));
                assert(rt.queue(c)[rt.queue(c).len() - 1] == b as usize);
            }
        }
    }
}

impl Runtime {
    /// Decrements the count of behaviour `b`; returns whether it reached zero, i.e. whether `b`
    /// may now run.
    fn resolve_one(&mut self, b: usize) -> (r: bool)
        requires
            b < old(self).num_behaviors(),
            old(self).count(b as int) > 0,
        ensures
            final(self).count(b as int) == old(self).count(b as int) - 1,
            r == (final(self).count(b as int) == 0),
            final(self).num_behaviors() == old(self).num_behaviors(),
            final(self).targets(b as int) == old(self).targets(b as int),
            final(self).done(b as int) == old(self).done(b as int),
            forall|x: int| 0 <= x < old(self).num_behaviors() && x != b ==> #[trigger] final(self).behavior(x) == old(self).behavior(x),
            forall|x: int| 0 <= x < old(self).num_behaviors() ==> #[trigger] final(self).targets(x) == old(self).targets(x),
            forall|x: int| 0 <= x < old(self).num_behaviors() ==> #[trigger] final(self).done(x) == old(self).done(x),
            forall|x: int| 0 <= x < old(self).num_behaviors() && x != b ==> #[trigger] final(self).count(x) == old(self).count(x),
            final(self).queues@ == old(self).queues@,
    {
        let count = self.behaviors[b].count - 1;
        self.behaviors[b].count = count;
        proof {
            assert forall|x: int| 0 <= x < old(self).num_behaviors() && x != b implies #[trigger] self.behaviors@[x] == old(self).behaviors@[x] by {}
        }
        count == 0
    }
}

impl Request {
    /// The first phase of enqueueing request `i` of behaviour `b`: the request joins the queue
    /// of its cown. If the queue was empty, the cown is free and the request is resolved at once.
    fn start_enqueue(rt: &mut Runtime, b: usize, i: usize)
        requires
            b < old(rt).num_behaviors(),
            i < old(rt).targets(b as int).len(),
            old(rt).targets(b as int)[i as int] < old(rt).num_cowns(),
            old(rt).count(b as int) > 1,
        ensures
            ({
                let c = old(rt).targets(b as int)[i as int] as int;
                &&& final(rt).num_cowns() == old(rt).num_cowns()
                &&& final(rt).queue(c) == old(rt).queue(c).push(b)
                &&& forall|d: int| 0 <= d < old(rt).num_cowns() && d != c ==> #[trigger] final(rt).queue(d) == old(rt).queue(d)
                &&& final(rt).count(b as int) == old(rt).count(b as int) - if old(rt).queue(c).len() == 0 {
                    1nat
                } else {
                    0nat
                }
            }),
            final(rt).num_behaviors() == old(rt).num_behaviors(),
            final(rt).targets(b as int) == old(rt).targets(b as int),
            final(rt).done(b as int) == old(rt).done(b as int),
            forall|x: int| 0 <= x < old(rt).num_behaviors() && x != b ==> #[trigger] final(rt).behavior(x) == old(rt).behavior(x),
    {
        let c = rt.behaviors[b].requests[i].target;
        proof {
            assert(c == rt.targets(b as int)[i as int]);
        }
        if rt.queues[c].len() == 0 {
            rt.resolve_one(b);
        }
        let ghost mid = *rt;
        rt.queues[c].push(b);
        proof {
            assert(rt.behaviors@ == mid.behaviors@);
            assert forall|d: int| 0 <= d < old(rt).num_cowns() && d != c implies #[trigger] rt.queue(d) == old(rt).queue(d) by {
                assert(rt.queues@[d] == mid.queues@[d]);
            }
            assert forall|x: int| 0 <= x < old(rt).num_behaviors() && x != b implies #[trigger] rt.behavior(x) == old(rt).behavior(x) by {
                assert(rt.behavior(x) == mid.behavior(x));
            }
        }
    }

    /// The second phase of enqueueing request `i` of behaviour `b`: marks it as scheduled.
    fn finish_enqueue(rt: &mut Runtime, b: usize, i: usize)
        requires
            b < old(rt).num_behaviors(),
            i < old(rt).targets(b as int).len(),
        ensures
            final(rt).request_scheduled(b as int, i as int),
            forall|x: int, j: int|
                0 <= x < old(rt).num_behaviors() && 0 <= j < old(rt).targets(x).len() && (x != b
                    || j != i) ==> #[trigger] final(rt).request_scheduled(x, j)
                    == old(rt).request_scheduled(x, j),
            final(rt).queues@ == old(rt).queues@,
            final(rt).num_behaviors() == old(rt).num_behaviors(),
            forall|x: int| 0 <= x < old(rt).num_behaviors() ==> #[trigger] final(rt).behavior(x) == old(rt).behavior(x),
    {
        let ghost old_requests = rt.behaviors@[b as int].requests@;
        rt.behaviors[b].requests[i].scheduled = true;
        proof {
            assert(targets_of(rt.behaviors@[b as int].requests@) =~= targets_of(old_requests));
            assert forall|x: int| 0 <= x < old(rt).num_behaviors() implies #[trigger] rt.behavior(x) == old(rt).behavior(x) by {
                if x != b {
                    assert(rt.behaviors@[x] == old(rt).behaviors@[x]);
                }
            }
            assert forall|x: int, j: int|
                0 <= x < old(rt).num_behaviors() && 0 <= j < old(rt).targets(x).len() && (x != b
                    || j != i) implies #[trigger] rt.request_scheduled(x, j)
                == old(rt).request_scheduled(x, j) by {
                if x != b {
                    assert(rt.behaviors@[x] == old(rt).behaviors@[x]);
                } else {
                    assert(rt.behaviors@[x].requests@[j] == old_requests[j]);
                }
            }
        }
    }
}

impl Runtime {
    /// If cown `c` becomes the only one of `x`'s cowns whose head changes, from another
    /// behaviour to `x`, the number of `x`'s blocked requests goes down by one.
    proof fn lemma_blocked_one_resolved(&self, other: &Self, x: int, c: usize, n: int)
        requires
            self.targets(x) == other.targets(x),
            self.targets(x).no_duplicates(),
            0 <= n <= self.targets(x).len(),
            !other.at_head(c as int, x),
            self.at_head(c as int, x),
            forall|i: int|
                0 <= i < n && #[trigger] self.targets(x)[i] != c ==> (self.at_head(
                    self.targets(x)[i] as int,
                    x,
                ) <==> other.at_head(self.targets(x)[i] as int, x)),
        ensures
            self.targets(x).take(n).contains(c) ==> self.blocked_upto(x, n) + 1 == other.blocked_upto(x, n),
            !self.targets(x).take(n).contains(c) ==> self.blocked_upto(x, n) == other.blocked_upto(x, n),
        decreases n,
    {
        if n > 0 {
            self.lemma_blocked_one_resolved(other, x, c, n - 1);
            let t = self.targets(x);
            assert(t.take(n) =~= t.take(n - 1).push(t[n - 1]));
            assert(t.take(n)[n - 1] == t[n - 1]);
            if t[n - 1] == c {
                assert(t.take(n).contains(c));
                assert(!t.take(n - 1).contains(c)) by {
                    if t.take(n - 1).contains(c) {
                        let k = choose|k: int| 0 <= k < n - 1 && #[trigger] t.take(n - 1)[k] == c;
                        assert(t[k] == t[n - 1]);
                    }
                }
            } else {
                if t.take(n).contains(c) {
                    let k = choose|k: int| 0 <= k < n && #[trigger] t.take(n)[k] == c;
                    assert(k != n - 1);
                    assert(t.take(n - 1)[k] == c);
                }
                if t.take(n - 1).contains(c) {
                    let k = choose|k: int| 0 <= k < n - 1 && #[trigger] t.take(n - 1)[k] == c;
                    assert(t.take(n)[k] == c);
                }
            }
        }
    }
}

impl Request {
    /// Releases the cown of request `i` of behaviour `b`, which holds it: `b` leaves the head of
    /// the cown's queue, and the next behaviour in the queue, if any, is resolved one step.
    /// Returns that behaviour if it may now run.
    fn release(rt: &mut Runtime, b: usize, i: usize) -> (r: Option<usize>)
        requires
            old(rt).queues_wf(),
            b < old(rt).num_behaviors(),
            i < old(rt).targets(b as int).len(),
            old(rt).targets(b as int)[i as int] < old(rt).num_cowns(),
            old(rt).at_head(old(rt).targets(b as int)[i as int] as int, b as int),
            forall|x: int|
                0 <= x < old(rt).num_behaviors() && x != b && !#[trigger] old(rt).done(x) ==> old(rt).behavior_wf(x),
        ensures
            ({
                let c = old(rt).targets(b as int)[i as int] as int;
                &&& final(rt).queue(c) == old(rt).queue(c).drop_first()
                &&& forall|d: int| 0 <= d < old(rt).num_cowns() && d != c ==> #[trigger] final(rt).queue(d) == old(rt).queue(d)
                &&& match r {
                    Some(x) => {
                        &&& final(rt).queue(c).len() > 0
                        &&& x == final(rt).queue(c)[0]
                        &&& final(rt).runnable(x as int)
                        &&& !old(rt).runnable(x as int)
                    },
                    None => true,
                }
                &&& forall|x: int|
                    0 <= x < old(rt).num_behaviors() && #[trigger] final(rt).runnable(x) && x != b ==> old(rt).runnable(x) || r == Some(x as usize)
            }),
            final(rt).num_cowns() == old(rt).num_cowns(),
            final(rt).num_behaviors() == old(rt).num_behaviors(),
            final(rt).queues_wf(),
            forall|x: int| 0 <= x < old(rt).num_behaviors() ==> #[trigger] final(rt).targets(x) == old(rt).targets(x),
            forall|x: int| 0 <= x < old(rt).num_behaviors() ==> #[trigger] final(rt).done(x) == old(rt).done(x),
            final(rt).count(b as int) == old(rt).count(b as int),
            forall|x: int| 0 <= x < old(rt).num_behaviors() && x != b ==> #[trigger] final(rt).count(x) <= old(rt).count(x),
            forall|x: int|
                0 <= x < old(rt).num_behaviors() && x != b && !#[trigger] final(rt).done(x) ==> final(rt).behavior_wf(x),
    {
        let c = rt.behaviors[b].requests[i].target;
        let _num_behaviors = rt.behaviors.len();
        let _num_cowns = rt.queues.len();
        proof {
            assert(c == rt.targets(b as int)[i as int]);
        }
        let ghost before = *rt;
        rt.queues[c].remove(0);
        let ghost removed = *rt;
        proof {
            assert(rt.behaviors@ == before.behaviors@);
            assert forall|d: int| 0 <= d < old(rt).num_cowns() && d != c implies #[trigger] rt.queue(d) == old(rt).queue(d) by {
                assert(rt.queues@[d] == before.queues@[d]);
            }
            assert(rt.queue(c as int) =~= before.queue(c as int).drop_first());
        }
        let r = if rt.queues[c].len() > 0 {
            let next = rt.queues[c][0];
            proof {
                assert(before.queue(c as int)[1] == next);
                assert(before.queue(c as int)[0] < before.queue(c as int)[1]);
                let x = next as int;
                assert(0 <= x < before.num_behaviors() && !before.done(x));
                assert(before.behavior_wf(x));
                assert(before.targets(x).contains(c));
                let k = choose|k: int| 0 <= k < before.targets(x).len() && before.targets(x)[k] == c;
                assert(before.queue(before.targets(x)[k] as int).contains(x as usize));
                before.lemma_blocked_upto_le(x, before.targets(x).len() as int, k);
            }
            if rt.resolve_one(next) {
                Some(next)
            } else {
                None
            }
        } else {
            None
        };
        proof {
            lemma_release_frame(&before, &removed, rt, b as int, c as int);
        }
        r
    }
}

/// Bookkeeping of `Request::release`: dropping `b` from the head of queue `c` and resolving the
/// new head keeps the queues and every other behaviour well formed.
proof fn lemma_release_frame(before: &Runtime, removed: &Runtime, after: &Runtime, b: int, c: int)
    requires
        before.queues_wf(),
        before.num_behaviors() <= usize::MAX,
        before.num_cowns() <= usize::MAX,
        0 <= b < before.num_behaviors(),
        0 <= c < before.num_cowns(),
        before.at_head(c, b),
        forall|x: int|
            0 <= x < before.num_behaviors() && x != b && !#[trigger] before.done(x) ==> before.behavior_wf(x),
        removed.behaviors@ == before.behaviors@,
        removed.num_cowns() == before.num_cowns(),
        removed.queue(c) == before.queue(c).drop_first(),
        forall|d: int| 0 <= d < before.num_cowns() && d != c ==> #[trigger] removed.queue(d) == before.queue(d),
        after.queues@ == removed.queues@,
        after.num_behaviors() == before.num_behaviors(),
        forall|x: int| 0 <= x < before.num_behaviors() ==> #[trigger] after.targets(x) == before.targets(x),
        forall|x: int| 0 <= x < before.num_behaviors() ==> #[trigger] after.done(x) == before.done(x),
        removed.queue(c).len() > 0 ==> {
            let n = removed.queue(c)[0] as int;
            &&& after.count(n) + 1 == before.count(n)
            &&& forall|x: int| 0 <= x < before.num_behaviors() && x != n ==> #[trigger] after.count(x) == before.count(x)
        },
        removed.queue(c).len() == 0 ==> forall|x: int| 0 <= x < before.num_behaviors() ==> #[trigger] after.count(x) == before.count(x),
    ensures
        after.queues_wf(),
        forall|x: int|
            0 <= x < before.num_behaviors() && x != b && !#[trigger] after.done(x) ==> after.behavior_wf(x),
        forall|x: int|
            0 <= x < before.num_behaviors() && #[trigger] after.runnable(x) && x != b ==> before.runnable(x) || (
            removed.queue(c).len() > 0 && x == removed.queue(c)[0]),
{
    assert forall|d: int| 0 <= d < after.num_cowns() implies #[trigger] after.queue(d) == removed.queue(d) by {
        assert(after.queues@[d] == removed.queues@[d]);
    }
    let q = before.queue(c);
    assert forall|d: int, k: int|
        0 <= d < after.num_cowns() && 0 <= k < after.queue(d).len() implies {
            let x = #[trigger] after.queue(d)[k] as int;
            &&& 0 <= x < after.num_behaviors()
            &&& !after.done(x)
            &&& after.targets(x).contains(d as usize)
        } by {
        if d == c {
            assert(after.queue(d)[k] == q[k + 1]);
        } else {
            assert(after.queue(d)[k] == before.queue(d)[k]);
        }
    }
    assert forall|d: int, k: int, l: int|
        0 <= d < after.num_cowns() && 0 <= k < l < after.queue(d).len() implies #[trigger] after.queue(d)[k]
            < #[trigger] after.queue(d)[l] by {
        if d == c {
            assert(after.queue(d)[k] == q[k + 1]);
            assert(after.queue(d)[l] == q[l + 1]);
        } else {
            assert(after.queue(d)[k] == before.queue(d)[k]);
            assert(after.queue(d)[l] == before.queue(d)[l]);
        }
    }
    assert forall|x: int|
        0 <= x < before.num_behaviors() && x != b && !#[trigger] after.done(x) implies after.behavior_wf(x) by {
        assert(!before.done(x));
        assert(before.behavior_wf(x));
        let t = before.targets(x);
        assert forall|i: int| 0 <= i < after.targets(x).len() implies {
            let d = #[trigger] after.targets(x)[i] as int;
            &&& 0 <= d < after.num_cowns()
            &&& after.queue(d).contains(x as usize)
        } by {
            let d = t[i] as int;
            assert(before.queue(d).contains(x as usize));
            if d == c {
                let k = choose|k: int| 0 <= k < q.len() && q[k] == x as usize;
                assert(k != 0);
                assert(after.queue(d)[k - 1] == x as usize);
            }
        }
        if removed.queue(c).len() > 0 && x == removed.queue(c)[0] as int {
            assert(q[1] == x);
            assert(!before.at_head(c, x));
            assert(after.at_head(c, x));
            assert(t.contains(c as usize));
            assert forall|i: int|
                0 <= i < t.len() && #[trigger] after.targets(x)[i] != c as usize implies (after.at_head(
                    after.targets(x)[i] as int,
                    x,
                ) <==> before.at_head(after.targets(x)[i] as int, x)) by {
                let d = t[i] as int;
                assert(after.queue(d) == before.queue(d));
            }
            assert(t.take(t.len() as int) =~= t);
            after.lemma_blocked_one_resolved(before, x, c as usize, t.len() as int);
        } else {
            assert forall|i: int|
                0 <= i < t.len() implies (after.at_head(#[trigger] after.targets(x)[i] as int, x)
                    <==> before.at_head(after.targets(x)[i] as int, x)) by {
                let d = t[i] as int;
                if d == c {
                    assert(before.queue(d).contains(x as usize));
                    assert(q[0] == b);
                    if after.at_head(d, x) {
                        assert(q[1] == x);
                    }
                } else {
                    assert(after.queue(d) == before.queue(d));
                }
            }
            after.lemma_blocked_frame(before, x, t.len() as int);
        }
    }
    assert forall|x: int|
        0 <= x < before.num_behaviors() && #[trigger] after.runnable(x) && x != b implies before.runnable(x) || (
        removed.queue(c).len() > 0 && x == removed.queue(c)[0]) by {
        if !(removed.queue(c).len() > 0 && x == removed.queue(c)[0]) {
            assert(after.count(x) == before.count(x));
        }
    }
}

impl Runtime {
    /// The blocked requests among the first `n` are at least as many as among the first `k`,
    /// and one more if request `k` is blocked.
    proof fn lemma_blocked_upto_le(&self, b: int, n: int, k: int)
        requires
            0 <= k < n,
        ensures
            self.blocked_upto(b, k) <= self.blocked_upto(b, n),
            !self.at_head(self.targets(b)[k] as int, b) ==> self.blocked_upto(b, k) + 1 <= self.blocked_upto(b, n),
        decreases n,
    {
        if n > k + 1 {
            self.lemma_blocked_upto_le(b, n - 1, k);
        }
    }
}

impl Runtime {
    /// Reports that the runnable behaviour `b` has run: it releases each of its cowns, and is
    /// then done. Returns the behaviours that may run now and could not before, in the order
    /// they became runnable.
    pub fn complete(&mut self, b: usize) -> (r: Vec<usize>)
        requires
            old(self).wf(),
            old(self).runnable(b as int),
        ensures
            final(self).wf(),
            final(self).done(b as int),
            final(self).num_behaviors() == old(self).num_behaviors(),
            final(self).num_cowns() == old(self).num_cowns(),
            forall|x: int| 0 <= x < old(self).num_behaviors() ==> #[trigger] final(self).targets(x) == old(self).targets(x),
            forall|x: int| 0 <= x < old(self).num_behaviors() && x != b ==> #[trigger] final(self).done(x) == old(self).done(x),
            forall|k: int| 0 <= k < r@.len() ==> final(self).runnable(#[trigger] r@[k] as int) && !old(self).runnable(r@[k] as int),
            forall|x: int|
                0 <= x < old(self).num_behaviors() && x != b ==> (#[trigger] final(self).runnable(x) <==> old(self).runnable(x) || r@.contains(x as usize)),
            r@.no_duplicates(),
            forall|c: int|
                0 <= c < old(self).num_cowns() ==> #[trigger] final(self).queue(c) == if old(self).targets(b as int).contains(c as usize) {
                    old(self).queue(c).drop_first()
                } else {
                    old(self).queue(c)
                },
    {
        let ghost t = self.targets(b as int);
        let n = self.behaviors[b].requests.len();
        let _num_cowns = self.queues.len();
        let _num_behaviors = self.behaviors.len();
        proof {
            assert(self.behavior_wf(b as int));
            self.lemma_unblocked(b as int, t.len() as int);
        }
        let mut freed: Vec<usize> = Vec::new();
        let mut i: usize = 0;
        while i < n
            invariant
                n == t.len(),
                i <= n,
                t.no_duplicates(),
                old(self).num_cowns() <= usize::MAX,
                old(self).num_behaviors() <= usize::MAX,
                self.queues_wf(),
                self.num_behaviors() == old(self).num_behaviors(),
                self.num_cowns() == old(self).num_cowns(),
                b < self.num_behaviors(),
                self.targets(b as int) == t,
                self.count(b as int) == 0,
                forall|k: int| 0 <= k < t.len() ==> #[trigger] t[k] < old(self).num_cowns(),
                forall|k: int| 0 <= k < t.len() ==> old(self).at_head(#[trigger] t[k] as int, b as int),
                forall|x: int| 0 <= x < old(self).num_behaviors() ==> #[trigger] self.targets(x) == old(self).targets(x),
                forall|x: int| 0 <= x < old(self).num_behaviors() ==> #[trigger] self.done(x) == old(self).done(x),
                forall|x: int|
                    0 <= x < old(self).num_behaviors() && x != b && !#[trigger] self.done(x) ==> self.behavior_wf(x),
                forall|x: int| 0 <= x < old(self).num_behaviors() && x != b ==> #[trigger] self.count(x) <= old(self).count(x),
                forall|k: int| 0 <= k < freed@.len() ==> self.runnable(#[trigger] freed@[k] as int) && !old(self).runnable(freed@[k] as int),
                freed@.no_duplicates(),
                forall|x: int|
                    0 <= x < old(self).num_behaviors() && x != b ==> (#[trigger] self.runnable(x) <==> old(self).runnable(x) || freed@.contains(x as usize)),
                forall|c: int|
                    0 <= c < old(self).num_cowns() ==> #[trigger] self.queue(c) == if t.take(i as int).contains(c as usize) {
                        old(self).queue(c).drop_first()
                    } else {
                        old(self).queue(c)
                    },
            decreases n - i,
        {
            let ghost before = *self;
            let ghost old_freed = freed@;
            proof {
                let c = t[i as int];
                assert(!t.take(i as int).contains(c)) by {
                    if t.take(i as int).contains(c) {
                        let k = choose|k: int| 0 <= k < i && #[trigger] t.take(i as int)[k] == c;
                        assert(t[k] == t[i as int]);
                    }
                }
                assert(self.queue(c as int) == old(self).queue(c as int));
                assert(old(self).at_head(t[i as int] as int, b as int));
            }
            let released = Request::release(self, b, i);
            match released {
                Some(x) => {
                    proof {
                        assert(!old_freed.contains(x)) by {
                            if old_freed.contains(x) {
                                let k = choose|k: int| 0 <= k < old_freed.len() && old_freed[k] == x;
                                assert(before.runnable(old_freed[k] as int));
                            }
                        }
                    }
                    freed.push(x);
                    proof {
                        assert forall|p: int, q: int|
                            0 <= p < freed@.len() && 0 <= q < freed@.len() && p != q implies freed@[p]
                            != freed@[q] by {
                            if p == old_freed.len() as int {
                                assert(old_freed[q] == freed@[q]);
                            } else if q == old_freed.len() as int {
                                assert(old_freed[p] == freed@[p]);
                            } else {
                                assert(old_freed[p] == freed@[p] && old_freed[q] == freed@[q]);
                            }
                        }
                    }
                },
                None => {},
            }
            proof {
                let c = t[i as int];
                assert(t.take(i + 1) =~= t.take(i as int).push(c));
                assert(t.take(i + 1)[i as int] == c);
                assert forall|d: int|
                    0 <= d < old(self).num_cowns() implies #[trigger] self.queue(d) == if t.take(i + 1).contains(d as usize) {
                        old(self).queue(d).drop_first()
                    } else {
                        old(self).queue(d)
                    } by {
                    if d != c {
                        assert(self.queue(d) == before.queue(d));
                        if t.take(i + 1).contains(d as usize) {
                            let k = choose|k: int| 0 <= k < i + 1 && #[trigger] t.take(i + 1)[k] == d as usize;
                            assert(k != i);
                            assert(t.take(i as int)[k] == d as usize);
                        }
                        if t.take(i as int).contains(d as usize) {
                            let k = choose|k: int| 0 <= k < i && #[trigger] t.take(i as int)[k] == d as usize;
                            assert(t.take(i + 1)[k] == d as usize);
                        }
                    } else {
                        assert(!t.take(i as int).contains(c)) by {
                            if t.take(i as int).contains(c) {
                                let k = choose|k: int| 0 <= k < i && #[trigger] t.take(i as int)[k] == c;
                                assert(t[k] == t[i as int]);
                            }
                        }
                    }
                }
                assert forall|x: int| 0 <= x < old(self).num_behaviors() && x != b implies #[trigger] self.count(x) <= old(self).count(x) by {
                    assert(self.count(x) <= before.count(x));
                }
                assert forall|k: int| 0 <= k < freed@.len() implies self.runnable(#[trigger] freed@[k] as int) && !old(self).runnable(freed@[k] as int) by {
                    if k < old_freed.len() {
                        assert(freed@[k] == old_freed[k]);
                        assert(before.runnable(old_freed[k] as int));
                    }
                }
                assert forall|x: int|
                    0 <= x < old(self).num_behaviors() && x != b implies (#[trigger] self.runnable(x) <==> old(self).runnable(x) || freed@.contains(x as usize)) by {
                    assert(self.count(x) <= before.count(x));
                    assert(self.done(x) == before.done(x));
                    if self.runnable(x) && !before.runnable(x) {
                        assert(released == Some(x as usize));
                        assert(freed@[freed@.len() - 1] == x as usize);
                    }
                    if released == Some(x as usize) {
                        assert(freed@[freed@.len() - 1] == x as usize);
                    }
                    if old_freed.contains(x as usize) {
                        let k = choose|k: int| 0 <= k < old_freed.len() && old_freed[k] == x as usize;
                        assert(freed@[k] == x as usize);
                    }
                    if freed@.contains(x as usize) && !old_freed.contains(x as usize) {
                        let k = choose|k: int| 0 <= k < freed@.len() && freed@[k] == x as usize;
                        if k < old_freed.len() {
                            assert(old_freed[k] == x as usize);
                        }
                    }
                }
            }
            i = i + 1;
        }
        let ghost released_all = *self;
        self.behaviors[b].done = true;
        proof {
            assert(t.take(n as int) =~= t);
            assert forall|x: int| 0 <= x < old(self).num_behaviors() && x != b implies #[trigger] self.behaviors@[x] == released_all.behaviors@[x] by {}
            assert forall|c: int| 0 <= c < self.num_cowns() implies #[trigger] self.queue(c) == released_all.queue(c) by {}
            assert(targets_of(self.behaviors@[b as int].requests@) == targets_of(released_all.behaviors@[b as int].requests@));
            assert(self.targets(b as int) == released_all.targets(b as int));
            assert forall|x: int| 0 <= x < old(self).num_behaviors() implies #[trigger] self.targets(x) == old(self).targets(x) by {
                if x != b {
                    assert(self.behaviors@[x] == released_all.behaviors@[x]);
                }
                assert(released_all.targets(x) == old(self).targets(x));
            }
            assert forall|x: int| 0 <= x < old(self).num_behaviors() && x != b implies #[trigger] self.done(x) == old(self).done(x) by {
                assert(self.behaviors@[x] == released_all.behaviors@[x]);
                assert(released_all.done(x) == old(self).done(x));
            }
            lemma_complete_wf(old(self), &released_all, self, b as int);
            assert forall|x: int| 0 <= x < old(self).num_behaviors() && x != b implies #[trigger] self.runnable(x) == released_all.runnable(x) by {
                assert(self.behaviors@[x] == released_all.behaviors@[x]);
            }
        }
        freed
    }
}

/// Once behaviour `b` has left the head of the queue of each of its cowns, marking it done
/// leaves the runtime well formed.
proof fn lemma_complete_wf(start: &Runtime, released: &Runtime, after: &Runtime, b: int)
    requires
        start.wf(),
        start.num_cowns() <= usize::MAX,
        start.runnable(b),
        released.queues_wf(),
        released.num_behaviors() == start.num_behaviors(),
        released.num_cowns() == start.num_cowns(),
        forall|x: int| 0 <= x < start.num_behaviors() ==> #[trigger] released.targets(x) == start.targets(x),
        forall|x: int| 0 <= x < start.num_behaviors() ==> #[trigger] released.done(x) == start.done(x),
        forall|x: int|
            0 <= x < start.num_behaviors() && x != b && !#[trigger] released.done(x) ==> released.behavior_wf(x),
        forall|c: int|
            0 <= c < start.num_cowns() ==> #[trigger] released.queue(c) == if start.targets(b).contains(c as usize) {
                start.queue(c).drop_first()
            } else {
                start.queue(c)
            },
        forall|k: int| 0 <= k < start.targets(b).len() ==> start.at_head(#[trigger] start.targets(b)[k] as int, b),
        after.num_behaviors() == released.num_behaviors(),
        after.num_cowns() == released.num_cowns(),
        forall|c: int| 0 <= c < after.num_cowns() ==> #[trigger] after.queue(c) == released.queue(c),
        forall|x: int| 0 <= x < start.num_behaviors() && x != b ==> #[trigger] after.behaviors@[x] == released.behaviors@[x],
        after.done(b),
        after.targets(b) == released.targets(b),
    ensures
        after.wf(),
{
    assert forall|c: int, k: int|
        0 <= c < after.num_cowns() && 0 <= k < after.queue(c).len() implies {
            let x = #[trigger] after.queue(c)[k] as int;
            &&& 0 <= x < after.num_behaviors()
            &&& !after.done(x)
            &&& after.targets(x).contains(c as usize)
        } by {
        let x = released.queue(c)[k] as int;
        assert(0 <= x < released.num_behaviors() && !released.done(x) && released.targets(x).contains(c as usize));
        if x == b {
            let q = start.queue(c);
            assert(start.targets(b).contains(c as usize));
            let i = choose|i: int| 0 <= i < start.targets(b).len() && start.targets(b)[i] == c as usize;
            assert(start.at_head(start.targets(b)[i] as int, b));
            assert(q[0] == b);
            assert(released.queue(c)[k] == q[k + 1]);
            assert(q[0] < q[k + 1]);
        }
        assert(after.behaviors@[x] == released.behaviors@[x]);
    }
    assert forall|c: int, k: int, l: int|
        0 <= c < after.num_cowns() && 0 <= k < l < after.queue(c).len() implies #[trigger] after.queue(c)[k]
            < #[trigger] after.queue(c)[l] by {
        assert(released.queue(c)[k] < released.queue(c)[l]);
    }
    assert forall|x: int| 0 <= x < after.num_behaviors() && !#[trigger] after.done(x) implies after.behavior_wf(x) by {
        assert(x != b);
        assert(after.behaviors@[x] == released.behaviors@[x]);
        assert(!released.done(x));
        assert(released.behavior_wf(x));
        let t = after.targets(x);
        assert forall|i: int| 0 <= i < t.len() implies (after.at_head(#[trigger] t[i] as int, x) <==> released.at_head(t[i] as int, x)) by {
            assert(released.targets(x)[i] < released.num_cowns());
        }
        after.lemma_blocked_frame(released, x, t.len() as int);
    }
}

/// A collection of `CownPtr`s that a behaviour needs.
pub trait CownPtrs {
    /// The cowns of the collection, in the order of their requests.
    spec fn cowns(&self) -> Seq<usize>;

    /// Returns a request for each cown of the collection, none of them enqueued yet.
    fn requests(&self) -> (r: Vec<Request>)
        ensures
            targets_of(r@) == self.cowns(),
    ;
}

impl CownPtrs for () {
    open spec fn cowns(&self) -> Seq<usize> {
        Seq::empty()
    }

    fn requests(&self) -> (r: Vec<Request>) {
        let r: Vec<Request> = Vec::new();
        assert(targets_of(r@) =~= Seq::<usize>::empty());
        r
    }
}

impl<Ts: CownPtrs> CownPtrs for (CownPtr, Ts) {
    open spec fn cowns(&self) -> Seq<usize> {
        self.1.cowns().push(self.0.id())
    }

    fn requests(&self) -> (r: Vec<Request>) {
        let mut rs = self.1.requests();
        rs.push(Request::new(&self.0));
        assert(targets_of(rs@) =~= self.1.cowns().push(self.0.id()));
        rs
    }
}

impl CownPtrs for Vec<CownPtr> {
    open spec fn cowns(&self) -> Seq<usize> {
        self@.map_values(|p: CownPtr| p.id())
    }

    fn requests(&self) -> (r: Vec<Request>) {
        let mut requests: Vec<Request> = Vec::new();
        let mut i: usize = 0;
        while i < self.len()
            invariant
                i <= self@.len(),
                requests@.len() == i,
                forall|k: int| 0 <= k < i ==> #[trigger] requests@[k].target() == self@[k].id(),
            decreases self@.len() - i,
        {
            requests.push(Request::new(&self[i]));
            i = i + 1;
        }
        assert(targets_of(requests@) =~= self@.map_values(|p: CownPtr| p.id()));
        requests
    }
}

/// Creates a behaviour that needs the cowns of `cowns` and schedules it in `rt`. Returns the
/// name of the behaviour, and whether it may run at once. Its body may run once `rt` says so;
/// the caller then reports it with `Runtime::complete`.
///
/// The cowns must be distinct: a behaviour that needs a cown twice would wait for itself
/// forever.
pub fn run_when<C: CownPtrs>(rt: &mut Runtime, cowns: &C) -> (r: (usize, bool))
    requires
        old(rt).wf(),
        old(rt).num_behaviors() < usize::MAX,
        cowns.cowns().len() < usize::MAX,
        cowns.cowns().no_duplicates(),
        forall|i: int| 0 <= i < cowns.cowns().len() ==> #[trigger] cowns.cowns()[i] < old(rt).num_cowns(),
    ensures
        final(rt).wf(),
        r.0 == old(rt).num_behaviors(),
        final(rt).num_behaviors() == old(rt).num_behaviors() + 1,
        final(rt).num_cowns() == old(rt).num_cowns(),
        final(rt).targets(r.0 as int) == cowns.cowns(),
        !final(rt).done(r.0 as int),
        r.1 == final(rt).runnable(r.0 as int),
        forall|b: int| 0 <= b < old(rt).num_behaviors() ==> #[trigger] final(rt).behavior(b) == old(rt).behavior(b),
        forall|c: int|
            0 <= c < old(rt).num_cowns() ==> #[trigger] final(rt).queue(c) == if cowns.cowns().contains(c as usize) {
                old(rt).queue(c).push(r.0)
            } else {
                old(rt).queue(c)
            },
{
    Behavior::new(cowns).schedule(rt)
}

impl Runtime {
    /// A behaviour at the head of the queue of each of its first `n` cowns has none of those
    /// requests blocked.
    proof fn lemma_all_at_head(&self, b: int, n: int)
        requires
            0 <= n <= self.targets(b).len(),
            forall|i: int| 0 <= i < n ==> self.at_head(#[trigger] self.targets(b)[i] as int, b),
        ensures
            self.blocked_upto(b, n) == 0,
        decreases n,
    {
        if n > 0 {
            self.lemma_all_at_head(b, n - 1);
        }
    }
}

/// Mutual exclusion: two different behaviours that may run at the same time need no common
/// cown.
pub proof fn lemma_runnable_exclusive(rt: &Runtime, b1: int, b2: int, c: usize)
    requires
        rt.wf(),
        rt.runnable(b1),
        rt.runnable(b2),
        b1 != b2,
    ensures
        !(rt.targets(b1).contains(c) && rt.targets(b2).contains(c)),
{
    if rt.targets(b1).contains(c) && rt.targets(b2).contains(c) {
        assert(rt.behavior_wf(b1));
        assert(rt.behavior_wf(b2));
        rt.lemma_unblocked(b1, rt.targets(b1).len() as int);
        rt.lemma_unblocked(b2, rt.targets(b2).len() as int);
        let i = choose|i: int| 0 <= i < rt.targets(b1).len() && rt.targets(b1)[i] == c;
        let j = choose|j: int| 0 <= j < rt.targets(b2).len() && rt.targets(b2)[j] == c;
        assert(rt.at_head(rt.targets(b1)[i] as int, b1));
        assert(rt.at_head(rt.targets(b2)[j] as int, b2));
    }
}

/// Scheduling order: a behaviour that may run only does so after every behaviour scheduled
/// before it that needs one of its cowns has run.
pub proof fn lemma_runnable_after_earlier(rt: &Runtime, b: int, earlier: int, c: usize)
    requires
        rt.wf(),
        rt.runnable(b),
        0 <= earlier < b,
        rt.targets(b).contains(c),
        rt.targets(earlier).contains(c),
    ensures
        rt.done(earlier),
{
    if !rt.done(earlier) {
        assert(rt.behavior_wf(b));
        assert(rt.behavior_wf(earlier));
        rt.lemma_unblocked(b, rt.targets(b).len() as int);
        let i = choose|i: int| 0 <= i < rt.targets(b).len() && rt.targets(b)[i] == c;
        let j = choose|j: int| 0 <= j < rt.targets(earlier).len() && rt.targets(earlier)[j] == c;
        assert(rt.at_head(rt.targets(b)[i] as int, b));
        let q = rt.queue(c as int);
        assert(rt.queue(rt.targets(earlier)[j] as int).contains(earlier as usize));
        let k = choose|k: int| 0 <= k < q.len() && q[k] == earlier as usize;
        assert(q[0] == b);
        if k > 0 {
            assert(q[0] < q[k]);
        }
    }
}

/// Deadlock freedom: the earliest behaviour that has not run yet may run. So as long as some
/// behaviour has not run, some behaviour may run.
pub proof fn lemma_earliest_runnable(rt: &Runtime, b: int)
    requires
        rt.wf(),
        0 <= b < rt.num_behaviors(),
        !rt.done(b),
        forall|x: int| 0 <= x < b ==> #[trigger] rt.done(x),
    ensures
        rt.runnable(b),
{
    assert(rt.behavior_wf(b));
    let t = rt.targets(b);
    assert forall|i: int| 0 <= i < t.len() implies rt.at_head(#[trigger] t[i] as int, b) by {
        let c = t[i] as int;
        let q = rt.queue(c);
        assert(q.contains(b as usize));
        let k = choose|k: int| 0 <= k < q.len() && q[k] == b as usize;
        if k > 0 {
            let x = q[0] as int;
            assert(q[0] < q[k]);
            assert(!rt.done(x));
        }
    }
    rt.lemma_all_at_head(b, t.len() as int);
}

} // verus!
