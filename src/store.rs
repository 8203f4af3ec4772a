//! The queue store: named FIFO queues of payloads, each payload kept as the
//! JSON text it arrived in.

use vstd::prelude::*;

verus! {

/// A queue as the contracts see it: its name and its payloads, oldest first.
pub type QueueView = (Seq<char>, Seq<Seq<char>>);

/// Whether no two queues of `v` share a name.
pub open spec fn names_unique(v: Seq<QueueView>) -> bool {
    forall|i: int, j: int| 0 <= i < v.len() && 0 <= j < v.len() && i != j ==> v[i].0 != v[j].0
}

/// Whether `v` has a queue called `name`.
pub open spec fn has_queue(v: Seq<QueueView>, name: Seq<char>) -> bool {
    exists|i: int| 0 <= i < v.len() && v[i].0 == name
}

/// Position of the queue called `name` in `v`, or `v.len()` when there is none.
pub open spec fn queue_index(v: Seq<QueueView>, name: Seq<char>) -> nat
    decreases v.len(),
{
    if v.len() == 0 {
        0
    } else if v[0].0 == name {
        0
    } else {
        1 + queue_index(v.drop_first(), name)
    }
}

/// The (queue name, payload) pairs of one queue, oldest first.
pub open spec fn messages_of(q: QueueView) -> Seq<(Seq<char>, Seq<char>)> {
    q.1.map_values(|m: Seq<char>| (q.0, m))
}

/// Every (queue name, payload) pair of `v`: queue by queue in the order the
/// queues were made, and within a queue oldest first.
pub open spec fn all_messages(v: Seq<QueueView>) -> Seq<(Seq<char>, Seq<char>)>
    decreases v.len(),
{
    if v.len() == 0 {
        seq![]
    } else {
        all_messages(v.drop_last()) + messages_of(v.last())
    }
}

/// `v` with `body` appended to every queue.
pub open spec fn enqueued_to_all(v: Seq<QueueView>, body: Seq<char>) -> Seq<QueueView> {
    v.map_values(|q: QueueView| (q.0, q.1.push(body)))
}

/// `v` with `body` appended to the queue called `name`, which is made at the
/// end when there is none.
pub open spec fn enqueued_to(v: Seq<QueueView>, name: Seq<char>, body: Seq<char>) -> Seq<QueueView> {
    let i = queue_index(v, name) as int;
    if i < v.len() {
        v.update(i, (name, v[i].1.push(body)))
    } else {
        v.push((name, seq![body]))
    }
}

/// `v` with every queue emptied; the queues themselves stay.
pub open spec fn drained(v: Seq<QueueView>) -> Seq<QueueView> {
    v.map_values(|q: QueueView| (q.0, Seq::<Seq<char>>::empty()))
}

/// The view of a list of (queue name, payload) pairs.
pub open spec fn pairs_view(r: Seq<(String, String)>) -> Seq<(Seq<char>, Seq<char>)> {
    r.map_values(|p: (String, String)| (p.0@, p.1@))
}

/// `v` after `EnqueueTo(names[i], bodies[i])` for each `i`, in that order.
pub open spec fn enqueued_each(v: Seq<QueueView>, names: Seq<Seq<char>>, bodies: Seq<Seq<char>>) -> Seq<
    QueueView,
>
    decreases names.len(),
{
    if names.len() == 0 || bodies.len() == 0 {
        v
    } else {
        enqueued_to(
            enqueued_each(v, names.drop_last(), bodies.drop_last()),
            names.last(),
            bodies.last(),
        )
    }
}

/// Enqueues to pairwise distinct queue names, made one after another on an
/// empty store in whatever order the lock lets them through, are then read
/// back as exactly those (name, payload) pairs in that order: one entry each,
/// none lost and none doubled.
pub proof fn proof_distinct_enqueues(names: Seq<Seq<char>>, bodies: Seq<Seq<char>>)
    requires
        names.len() == bodies.len(),
        forall|i: int, j: int|
            0 <= i < names.len() && 0 <= j < names.len() && i != j ==> names[i] != names[j],
    ensures
        names_unique(enqueued_each(Seq::empty(), names, bodies)),
        enqueued_each(Seq::empty(), names, bodies) == Seq::new(
            names.len(),
            |i: int| (names[i], seq![bodies[i]]),
        ),
        all_messages(enqueued_each(Seq::empty(), names, bodies)) == Seq::new(
            names.len(),
            |i: int| (names[i], bodies[i]),
        ),
    decreases names.len(),
{
    let n = names.len() as int;
    let v = enqueued_each(Seq::empty(), names, bodies);
    if n == 0 {
        assert(v =~= Seq::new(0, |i: int| (names[i], seq![bodies[i]])));
        assert(all_messages(v) =~= Seq::new(0, |i: int| (names[i], bodies[i])));
    } else {
        let ns = names.drop_last();
        let bs = bodies.drop_last();
        proof_distinct_enqueues(ns, bs);
        let w = enqueued_each(Seq::empty(), ns, bs);
        let last = names.last();
        proof_queue_index_bounds(w, last);
        if has_queue(w, last) {
            let j = choose|j: int| 0 <= j < w.len() && w[j].0 == last;
            assert(names[j] == last);
        }
        assert(v == w.push((last, seq![bodies.last()])));
        assert(v =~= Seq::new(n as nat, |i: int| (names[i], seq![bodies[i]])));
        assert(v.drop_last() =~= w);
        let q = (last, seq![bodies.last()]);
        assert(messages_of(q) =~= seq![(last, bodies.last())]);
        assert(all_messages(v) =~= Seq::new(n as nat, |i: int| (names[i], bodies[i])));
    }
}

/// Broadcasting to an empty store makes no queue, so a read after it finds nothing.
pub proof fn proof_enqueue_any_on_empty(body: Seq<char>)
    ensures
        enqueued_to_all(Seq::empty(), body) == Seq::<QueueView>::empty(),
        all_messages(enqueued_to_all(Seq::empty(), body)) == Seq::<(Seq<char>, Seq<char>)>::empty(),
{
    assert(enqueued_to_all(Seq::empty(), body) =~= Seq::<QueueView>::empty());
}

/// A broadcast reaches every queue that exists at the time, and not a queue
/// made after it: that queue holds only what was sent to it.
pub proof fn proof_broadcast_not_retroactive(
    v: Seq<QueueView>,
    body: Seq<char>,
    name: Seq<char>,
    later: Seq<char>,
)
    requires
        !has_queue(v, name),
    ensures
        forall|i: int|
            0 <= i < v.len() ==> #[trigger] enqueued_to_all(v, body)[i] == (v[i].0, v[i].1.push(body)),
        enqueued_to(enqueued_to_all(v, body), name, later) == enqueued_to_all(v, body).push(
            (name, seq![later]),
        ),
{
    let w = enqueued_to_all(v, body);
    proof_queue_index_bounds(w, name);
    if has_queue(w, name) {
        let j = choose|j: int| 0 <= j < w.len() && w[j].0 == name;
        assert(v[j].0 == name);
    }
}

/// The first queue called `name` sits at `queue_index`; none before it has that name.
pub proof fn proof_queue_index_bounds(v: Seq<QueueView>, name: Seq<char>)
    ensures
        queue_index(v, name) <= v.len(),
        queue_index(v, name) < v.len() ==> v[queue_index(v, name) as int].0 == name,
        forall|k: int| 0 <= k < queue_index(v, name) ==> v[k].0 != name,
        has_queue(v, name) <==> queue_index(v, name) < v.len(),
    decreases v.len(),
{
    if v.len() > 0 && v[0].0 != name {
        let t = v.drop_first();
        proof_queue_index_bounds(t, name);
        assert forall|k: int| 0 <= k < queue_index(v, name) implies v[k].0 != name by {
            if k > 0 {
                assert(v[k] == t[k - 1]);
            }
        }
        if has_queue(v, name) {
            let j = choose|j: int| 0 <= j < v.len() && v[j].0 == name;
            assert(t[j - 1] == v[j]);
        }
        if has_queue(t, name) {
            let j = choose|j: int| 0 <= j < t.len() && t[j].0 == name;
            assert(v[j + 1] == t[j]);
        }
    }
}

/// A position whose queue is called `name`, or the end, with no such queue
/// before it, is `queue_index`.
pub proof fn proof_queue_index_at(v: Seq<QueueView>, name: Seq<char>, i: int)
    requires
        0 <= i <= v.len(),
        i < v.len() ==> v[i].0 == name,
        forall|k: int| 0 <= k < i ==> v[k].0 != name,
    ensures
        queue_index(v, name) == i,
    decreases i,
{
    if i > 0 {
        let t = v.drop_first();
        assert forall|k: int| 0 <= k < i - 1 implies t[k].0 != name by {
            assert(t[k] == v[k + 1]);
        }
        proof_queue_index_at(t, name, i - 1);
    }
}

/// The store of named queues that every connection shares.
pub struct MessageQueue {
    queues: Vec<(String, Vec<String>)>,
}

/// The view of one stored queue.
spec fn queue_view(q: (String, Vec<String>)) -> QueueView {
    (q.0@, q.1@.map_values(|m: String| m@))
}

/// Appending a payload to a stored queue appends its view to the queue's view.
proof fn proof_queue_view_push(q: (String, Vec<String>), r: (String, Vec<String>), m: String)
    requires
        r.0@ == q.0@,
        r.1@ == q.1@.push(m),
    ensures
        queue_view(r) == (q.0@, queue_view(q).1.push(m@)),
{
    assert(r.1@.map_values(|x: String| x@) =~= q.1@.map_values(|x: String| x@).push(m@));
}

impl View for MessageQueue {
    type V = Seq<QueueView>;

    closed spec fn view(&self) -> Seq<QueueView> {
        self.queues@.map_values(|q: (String, Vec<String>)| queue_view(q))
    }
}

impl MessageQueue {
    /// The store's invariant: queue names are unique.
    pub open spec fn wf(&self) -> bool {
        names_unique(self@)
    }

    /// A store with no queues.
    pub fn new() -> (r: MessageQueue)
        ensures
            r.wf(),
            r@ == Seq::<QueueView>::empty(),
    {
        let r = MessageQueue { queues: Vec::new() };
        assert(r@ =~= Seq::<QueueView>::empty());
        r
    }

    /// Appends `body` to every queue that exists now. With no queue this does
    /// nothing; in particular it makes none.
    pub fn enqueue_any(&mut self, body: String)
        requires
            old(self).wf(),
        ensures
            final(self).wf(),
            final(self)@ == enqueued_to_all(old(self)@, body@),
    {
        let ghost v0 = self@;
        let n = self.queues.len();
        let mut i: usize = 0;
        assert(forall|k: int| 0 <= k < n ==> v0[k] == queue_view(self.queues@[k]));
        while i < n
            invariant
                n == self.queues@.len(),
                n == v0.len(),
                i <= n,
                forall|k: int|
                    0 <= k < i ==> #[trigger] queue_view(self.queues@[k]) == (
                        v0[k].0,
                        v0[k].1.push(body@),
                    ),
                forall|k: int| i <= k < n ==> #[trigger] queue_view(self.queues@[k]) == v0[k],
            decreases n - i,
        {
            let m = body.clone();
            let ghost before = self.queues@;
            self.queues[i].1.push(m);
            proof {
                proof_queue_view_push(before[i as int], self.queues@[i as int], m);
                assert forall|k: int| 0 <= k < n && k != i implies self.queues@[k] == before[k] by {}
            }
            i = i + 1;
        }
        assert(self@ =~= enqueued_to_all(v0, body@));
    }

    /// Appends `body` to the queue called `name`, making that queue at the end
    /// when there is none.
    pub fn enqueue_to(&mut self, name: String, body: String)
        requires
            old(self).wf(),
        ensures
            final(self).wf(),
            final(self)@ == enqueued_to(old(self)@, name@, body@),
    {
        let ghost v0 = self@;
        let n = self.queues.len();
        let mut i: usize = 0;
        while i < n && !self.queues[i].0.eq(&name)
            invariant
                self@ == v0,
                n == self.queues@.len(),
                n == v0.len(),
                i <= n,
                forall|k: int| 0 <= k < i ==> v0[k].0 != name@,
            decreases n - i,
        {
            i = i + 1;
        }
        proof {
            proof_queue_index_at(v0, name@, i as int);
            proof_queue_index_bounds(v0, name@);
        }
        if i < n {
            let ghost before = self.queues@;
            let ghost b = body;
            self.queues[i].1.push(body);
            proof {
                proof_queue_view_push(before[i as int], self.queues@[i as int], b);
            }
            assert(self@ =~= enqueued_to(v0, name@, body@));
        } else {
            let mut q: Vec<String> = Vec::new();
            q.push(body);
            assert(q@.map_values(|x: String| x@) =~= seq![body@]);
            self.queues.push((name, q));
            assert(self@ =~= enqueued_to(v0, name@, body@));
        }
    }

    /// Hands back every (queue name, payload) pair, queue by queue in the order
    /// the queues were made and oldest first within a queue, and empties every
    /// queue: a message is delivered once. The queues themselves stay.
    pub fn get_all_messages(&mut self) -> (r: Vec<(String, String)>)
        requires
            old(self).wf(),
        ensures
            final(self).wf(),
            final(self)@ == drained(old(self)@),
            pairs_view(r@) == all_messages(old(self)@),
    {
        let ghost v0 = self@;
        let n = self.queues.len();
        let mut out: Vec<(String, String)> = Vec::new();
        let mut i: usize = 0;
        assert(forall|k: int| 0 <= k < n ==> v0[k] == queue_view(self.queues@[k]));
        assert(pairs_view(out@) =~= all_messages(v0.take(0)));
        while i < n
            invariant
                n == self.queues@.len(),
                n == v0.len(),
                i <= n,
                forall|k: int|
                    0 <= k < i ==> #[trigger] queue_view(self.queues@[k]) == (
                        v0[k].0,
                        Seq::<Seq<char>>::empty(),
                    ),
                forall|k: int| i <= k < n ==> #[trigger] queue_view(self.queues@[k]) == v0[k],
                pairs_view(out@) == all_messages(v0.take(i as int)),
            decreases n - i,
        {
            let m = self.queues[i].1.len();
            let mut j: usize = 0;
            let ghost q = v0[i as int];
            while j < m
                invariant
                    n == self.queues@.len(),
                    i < n,
                    m == self.queues@[i as int].1@.len(),
                    queue_view(self.queues@[i as int]) == q,
                    j <= m,
                    pairs_view(out@) == all_messages(v0.take(i as int)) + messages_of(q).take(
                        j as int,
                    ),
                decreases m - j,
            {
                let name = self.queues[i].0.clone();
                let msg = self.queues[i].1[j].clone();
                let ghost before = out@;
                out.push((name, msg));
                assert(pairs_view(out@) =~= pairs_view(before).push((name@, msg@)));
                assert(messages_of(q).take(j + 1) =~= messages_of(q).take(j as int).push(
                    (q.0, q.1[j as int]),
                ));
                j = j + 1;
            }
            assert(messages_of(q).take(m as int) =~= messages_of(q));
            assert(v0.take(i + 1).drop_last() =~= v0.take(i as int));
            assert(all_messages(v0.take(i + 1)) == all_messages(v0.take(i as int)) + messages_of(
                q,
            ));
            let ghost before = self.queues@;
            self.queues[i].1.clear();
            proof {
                assert(self.queues@[i as int].1@.map_values(|x: String| x@) =~= Seq::<
                    Seq<char>,
                >::empty());
                assert forall|k: int| 0 <= k < n && k != i implies self.queues@[k]
                    == before[k] by {}
            }
            i = i + 1;
        }
        assert(v0.take(n as int) =~= v0);
        assert(self@ =~= drained(v0));
        out
    }
}

} // verus!
