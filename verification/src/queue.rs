//! The bounded FIFO of pending requests.
//!
//! A queue is modelled by the sequence of its requests, head first, together
//! with the capacity it was built with. The requests of a well-formed queue
//! are pairwise distinct and never more than the capacity.

use vstd::prelude::*;
use crate::request::{QueueElement, Request};

verus! {

/// Whether a queue that holds `s` and has room for `limit` requests accepts
/// `request`: it is not full and does not hold the request yet.
pub open spec fn accepts(s: Seq<Request>, limit: nat, request: Request) -> bool {
    s.len() < limit && !s.contains(request)
}

/// The content of a queue after an attempt to push `request`: the request is
/// appended at the tail if it is accepted, else nothing changes.
pub open spec fn pushed(s: Seq<Request>, limit: nat, request: Request) -> Seq<Request> {
    if accepts(s, limit, request) {
        s.push(request)
    } else {
        s
    }
}

/// The request at the head of a queue, if there is one.
pub open spec fn head(s: Seq<Request>) -> Option<Request> {
    if s.len() == 0 {
        None
    } else {
        Some(s[0])
    }
}

/// The content of a queue after its head was taken off.
pub open spec fn popped(s: Seq<Request>) -> Seq<Request> {
    if s.len() == 0 {
        s
    } else {
        s.drop_first()
    }
}

/// The predicate that holds where `pred` does not.
pub open spec fn negation(pred: spec_fn(Request) -> bool) -> spec_fn(Request) -> bool {
    |request: Request| !pred(request)
}

/// The predicate that holds of the members of `set`.
pub open spec fn member_of(set: Set<Request>) -> spec_fn(Request) -> bool {
    |request: Request| set.contains(request)
}

/// Pairwise distinct requests that fit into `limit` slots.
pub open spec fn well_formed(s: Seq<Request>, limit: nat) -> bool {
    s.len() <= limit && s.no_duplicates()
}

/// The requests held by a sequence of slots, in the same order.
pub open spec fn requests_of(slots: Seq<QueueElement>) -> Seq<Request> {
    slots.map_values(|slot: QueueElement| slot.request)
}

/// Bounded FIFO of pairwise distinct requests.
pub struct Queue {
    elements: Vec<QueueElement>,
    limit: usize,
}

impl View for Queue {
    type V = Seq<Request>;

    /// The queued requests, head first.
    closed spec fn view(&self) -> Seq<Request> {
        requests_of(self.elements@)
    }
}

impl Queue {
    /// The capacity the queue was built with.
    pub closed spec fn spec_limit(&self) -> nat {
        self.limit as nat
    }

    /// The invariant of the queue: at most `spec_limit()` requests, no two of
    /// them equal.
    pub open spec fn wf(&self) -> bool {
        well_formed(self@, self.spec_limit())
    }

    /// Builds an empty queue with room for `limit` requests.
    pub fn new(limit: usize) -> (queue: Queue)
        ensures
            queue.wf(),
            queue@ == Seq::<Request>::empty(),
            queue.spec_limit() == limit,
    {
        let queue = Queue { elements: Vec::new(), limit };
        assert(queue@ =~= Seq::<Request>::empty());
        queue
    }

    /// Tells whether the queue holds no request.
    pub fn is_empty(&self) -> (empty: bool)
        ensures
            empty == (self@.len() == 0),
    {
        self.elements.len() == 0
    }

    /// Returns the number of queued requests.
    pub fn size(&self) -> (size: usize)
        ensures
            size == self@.len(),
    {
        self.elements.len()
    }

    /// Returns the request at the head without removing it.
    pub fn peek(&self) -> (request: Option<Request>)
        ensures
            request == head(self@),
    {
        if self.elements.len() == 0 {
            None
        } else {
            Some(self.elements[0].request)
        }
    }

    /// Removes and returns the request at the head; `None` if the queue is
    /// empty.
    pub fn pop(&mut self) -> (request: Option<Request>)
        requires
            old(self).wf(),
        ensures
            final(self).wf(),
            final(self).spec_limit() == old(self).spec_limit(),
            request == head(old(self)@),
            final(self)@ == popped(old(self)@),
    {
        if self.elements.len() == 0 {
            None
        } else {
            let element = self.elements.remove(0);
            assert(self@ =~= old(self)@.drop_first());
            Some(element.request)
        }
    }

    /// Appends `request` at the tail. Returns `false`, and leaves the queue as
    /// it is, if the queue is full or already holds the request.
    pub fn push_unique(&mut self, request: Request) -> (accepted: bool)
        requires
            old(self).wf(),
        ensures
            final(self).wf(),
            final(self).spec_limit() == old(self).spec_limit(),
            accepted == accepts(old(self)@, old(self).spec_limit(), request),
            final(self)@ == pushed(old(self)@, old(self).spec_limit(), request),
    {
        if self.elements.len() >= self.limit || self.holds(&request) {
            return false;
        }
        self.elements.push(QueueElement::new(request));
        assert(self@ =~= old(self)@.push(request));
        true
    }

    /// Tells whether `request` is queued.
    pub fn holds(&self, request: &Request) -> (found: bool)
        ensures
            found == self@.contains(*request),
    {
        let mut i: usize = 0;
        while i < self.elements.len()
            invariant
                i <= self.elements.len(),
                forall|j: int| 0 <= j < i ==> self@[j] != *request,
            decreases self.elements.len() - i,
        {
            if self.elements[i].request == *request {
                assert(self@[i as int] == *request);
                return true;
            }
            i += 1;
        }
        false
    }

    /// Removes every request for which `condition` returns `false` and
    /// returns the removed requests. Both the requests that stay and those
    /// that are returned keep the order they had in the queue.
    ///
    /// `condition` is asked once about each request. The contract therefore
    /// speaks of a predicate that agrees with the answers `condition` may
    /// give: the queue keeps the requests on which it holds, and the rest is
    /// returned.
    pub fn retain<F: Fn(&Request) -> bool>(&mut self, condition: F) -> (removed: Vec<Request>)
        requires
            old(self).wf(),
            forall|request: Request| #[trigger]
                old(self)@.contains(request) ==> call_requires(condition, (&request,)),
        ensures
            final(self).wf(),
            final(self).spec_limit() == old(self).spec_limit(),
            (exists|kept: spec_fn(Request) -> bool|
                {
                    &&& forall|request: Request| #[trigger]
                        old(self)@.contains(request) ==> call_ensures(
                            condition,
                            (&request,),
                            kept(request),
                        )
                    &&& final(self)@ == #[trigger] old(self)@.filter(kept)
                    &&& removed@ == old(self)@.filter(negation(kept))
                }),
            forall|request: Request| #[trigger]
                final(self)@.contains(request) ==> call_ensures(condition, (&request,), true),
            forall|request: Request| #[trigger]
                removed@.contains(request) ==> call_ensures(condition, (&request,), false),
            (forall|request: Request| #[trigger]
                old(self)@.contains(request) ==> !call_ensures(condition, (&request,), false))
                ==> final(self)@ == old(self)@ && removed@.len() == 0,
            (forall|request: Request| #[trigger]
                old(self)@.contains(request) ==> !call_ensures(condition, (&request,), true))
                ==> final(self)@.len() == 0 && removed@ == old(self)@,
    {
        let ghost before = self@;
        let ghost mut chosen: Set<Request> = Set::empty();
        let mut kept: Vec<QueueElement> = Vec::new();
        let mut removed: Vec<Request> = Vec::new();
        let mut i: usize = 0;
        proof {
            reveal(Seq::filter);
            assert(before.take(0) =~= Seq::<Request>::empty());
        }
        while i < self.elements.len()
            invariant
                i <= self.elements.len(),
                self@ == before,
                before.len() == self.elements.len(),
                before.no_duplicates(),
                forall|request: Request| #[trigger]
                    before.contains(request) ==> call_requires(condition, (&request,)),
                forall|request: Request| #[trigger]
                    chosen.contains(request) ==> before.take(i as int).contains(request),
                forall|j: int|
                    0 <= j < i ==> call_ensures(
                        condition,
                        (&#[trigger] before[j],),
                        chosen.contains(before[j]),
                    ),
                requests_of(kept@) == before.take(i as int).filter(member_of(chosen)),
                removed@ == before.take(i as int).filter(negation(member_of(chosen))),
            decreases self.elements.len() - i,
        {
            let element = self.elements[i];
            let ghost seen = before.take(i as int);
            let ghost earlier = chosen;
            proof {
                assert(element.request == before[i as int]);
                assert(before.contains(element.request));
                assert(before.take(i as int + 1) =~= seen.push(element.request));
                assert(!seen.contains(element.request));
            }
            let keep = condition(&element.request);
            if keep {
                kept.push(element);
                proof {
                    chosen = chosen.insert(element.request);
                }
            } else {
                removed.push(element.request);
            }
            proof {
                lemma_filter_agree(seen, member_of(earlier), member_of(chosen));
                lemma_filter_agree(
                    seen,
                    negation(member_of(earlier)),
                    negation(member_of(chosen)),
                );
                seen.lemma_filter_push(element.request, member_of(chosen));
                seen.lemma_filter_push(element.request, negation(member_of(chosen)));
                assert(requests_of(kept@) =~= before.take(i as int + 1).filter(
                    member_of(chosen),
                ));
                assert forall|j: int| 0 <= j < i + 1 implies call_ensures(
                    condition,
                    (&#[trigger] before[j],),
                    chosen.contains(before[j]),
                ) by {
                    if j < i {
                        assert(seen.contains(before[j])) by {
                            assert(seen[j] == before[j]);
                        }
                    }
                }
                assert forall|request: Request| #[trigger]
                    chosen.contains(request) implies before.take(i as int + 1).contains(
                    request,
                ) by {
                    if request == element.request {
                        assert(before.take(i as int + 1)[i as int] == request);
                    } else {
                        let j = choose|j: int| 0 <= j < seen.len() && seen[j] == request;
                        assert(before.take(i as int + 1)[j] == request);
                    }
                }
            }
            i += 1;
        }
        self.elements = kept;
        proof {
            let keeps = member_of(chosen);
            assert(before.take(i as int) =~= before);
            assert forall|request: Request| #[trigger]
                before.contains(request) implies call_ensures(
                condition,
                (&request,),
                keeps(request),
            ) by {
                let j = choose|j: int| 0 <= j < before.len() && before[j] == request;
                assert(call_ensures(condition, (&before[j],), chosen.contains(before[j])));
            }
            lemma_filter_subsequence(before, keeps);
            lemma_filter_subsequence(before, negation(keeps));
            if forall|request: Request| #[trigger]
                before.contains(request) ==> !call_ensures(condition, (&request,), false) {
                assert forall|j: int| 0 <= j < before.len() implies keeps(
                    #[trigger] before[j],
                ) by {
                    assert(before.contains(before[j]));
                }
                lemma_filter_all(before, keeps);
            }
            if forall|request: Request| #[trigger]
                before.contains(request) ==> !call_ensures(condition, (&request,), true) {
                assert forall|j: int| 0 <= j < before.len() implies !keeps(
                    #[trigger] before[j],
                ) by {
                    assert(before.contains(before[j]));
                }
                lemma_filter_none(before, keeps);
            }
        }
        removed
    }

    /// Removes every request.
    pub fn clear(&mut self)
        ensures
            final(self).wf(),
            final(self).spec_limit() == old(self).spec_limit(),
            final(self)@ == Seq::<Request>::empty(),
    {
        self.elements.clear();
        assert(self@ =~= Seq::<Request>::empty());
    }
}

/// Two predicates that agree on every request of `s` filter `s` alike.
pub proof fn lemma_filter_agree(
    s: Seq<Request>,
    p: spec_fn(Request) -> bool,
    q: spec_fn(Request) -> bool,
)
    requires
        forall|i: int| 0 <= i < s.len() ==> p(#[trigger] s[i]) == q(s[i]),
    ensures
        s.filter(p) == s.filter(q),
    decreases s.len(),
{
    reveal(Seq::filter);
    if s.len() > 0 {
        let front = s.drop_last();
        assert forall|i: int| 0 <= i < front.len() implies p(#[trigger] front[i]) == q(
            front[i],
        ) by {
            assert(front[i] == s[i]);
        }
        lemma_filter_agree(front, p, q);
        assert(p(s.last()) == q(s.last())) by {
            assert(s.last() == s[s.len() - 1]);
        }
    }
}

/// What a filter keeps are requests of `s` on which the predicate holds, and
/// pairwise distinct requests stay pairwise distinct.
pub proof fn lemma_filter_subsequence(s: Seq<Request>, p: spec_fn(Request) -> bool)
    ensures
        s.filter(p).len() <= s.len(),
        forall|request: Request| #[trigger]
            s.filter(p).contains(request) ==> s.contains(request) && p(request),
        forall|request: Request|
            s.contains(request) && p(request) ==> #[trigger] s.filter(p).contains(request),
        s.no_duplicates() ==> s.filter(p).no_duplicates(),
    decreases s.len(),
{
    reveal(Seq::filter);
    if s.len() > 0 {
        let front = s.drop_last();
        let last = s.last();
        let out = s.filter(p);
        lemma_filter_subsequence(front, p);
        assert forall|request: Request| #[trigger] out.contains(request) implies s.contains(
            request,
        ) && p(request) by {
            let j = choose|j: int| 0 <= j < out.len() && out[j] == request;
            if p(last) && j == out.len() - 1 {
                assert(s[s.len() - 1] == request);
            } else {
                assert(front.filter(p)[j] == request);
                assert(front.filter(p).contains(request));
                let k = choose|k: int| 0 <= k < front.len() && front[k] == request;
                assert(s[k] == request);
            }
        }
        assert forall|request: Request| s.contains(request) && p(request) implies #[trigger]
            out.contains(request) by {
            let k = choose|k: int| 0 <= k < s.len() && s[k] == request;
            if k == s.len() - 1 {
                assert(out[out.len() - 1] == request);
            } else {
                assert(front[k] == request);
                assert(front.filter(p).contains(request));
                let j = choose|j: int|
                    0 <= j < front.filter(p).len() && front.filter(p)[j] == request;
                assert(out[j] == request);
            }
        }
        if s.no_duplicates() {
            assert(front.no_duplicates()) by {
                assert forall|i: int, j: int|
                    0 <= i < front.len() && 0 <= j < front.len() && i != j implies front[i]
                    != front[j] by {
                    assert(front[i] == s[i] && front[j] == s[j]);
                }
            }
            if p(last) {
                assert(!front.filter(p).contains(last)) by {
                    if front.filter(p).contains(last) {
                        let k = choose|k: int| 0 <= k < front.len() && front[k] == last;
                        assert(s[k] == s[s.len() - 1]);
                    }
                }
                assert forall|i: int, j: int|
                    0 <= i < out.len() && 0 <= j < out.len() && i != j implies out[i]
                    != out[j] by {
                    if i < out.len() - 1 {
                        assert(front.filter(p).contains(out[i])) by {
                            assert(front.filter(p)[i] == out[i]);
                        }
                    }
                    if j < out.len() - 1 {
                        assert(front.filter(p).contains(out[j])) by {
                            assert(front.filter(p)[j] == out[j]);
                        }
                    }
                }
            }
        }
    }
}

/// Keeping the requests on which a predicate holds is a no-op where it holds
/// of every request, and then nothing is removed.
pub proof fn lemma_filter_all(s: Seq<Request>, p: spec_fn(Request) -> bool)
    requires
        forall|i: int| 0 <= i < s.len() ==> p(#[trigger] s[i]),
    ensures
        s.filter(p) == s,
        s.filter(negation(p)) == Seq::<Request>::empty(),
    decreases s.len(),
{
    reveal(Seq::filter);
    if s.len() > 0 {
        let front = s.drop_last();
        assert forall|i: int| 0 <= i < front.len() implies p(#[trigger] front[i]) by {
            assert(front[i] == s[i]);
        }
        lemma_filter_all(front, p);
        assert(p(s.last())) by {
            assert(s.last() == s[s.len() - 1]);
        }
        assert(front.push(s.last()) =~= s);
    } else {
        assert(s =~= Seq::<Request>::empty());
    }
}

/// Keeping the requests on which a predicate holds empties the sequence where
/// it holds of no request, and then the whole sequence is removed.
pub proof fn lemma_filter_none(s: Seq<Request>, p: spec_fn(Request) -> bool)
    requires
        forall|i: int| 0 <= i < s.len() ==> !p(#[trigger] s[i]),
    ensures
        s.filter(p) == Seq::<Request>::empty(),
        s.filter(negation(p)) == s,
{
    let not_p = negation(p);
    assert forall|i: int| 0 <= i < s.len() implies not_p(#[trigger] s[i]) by {}
    lemma_filter_all(s, not_p);
    lemma_filter_agree(s, negation(not_p), p);
}

/// One operation on a queue: an attempt to push a request, or a pop.
pub enum QueueOp {
    /// `push_unique` of the request.
    Push(Request),
    /// `pop`.
    Pop,
}

/// The content of a queue with room for `limit` requests that was empty and
/// then went through `ops`, first operation first.
pub open spec fn content_after(limit: nat, ops: Seq<QueueOp>) -> Seq<Request>
    decreases ops.len(),
{
    if ops.len() == 0 {
        Seq::empty()
    } else {
        let before = content_after(limit, ops.drop_last());
        match ops.last() {
            QueueOp::Push(request) => pushed(before, limit, request),
            QueueOp::Pop => popped(before),
        }
    }
}

/// The requests that the pushes among `ops` got accepted, in the order of
/// the pushes.
pub open spec fn accepted_by(limit: nat, ops: Seq<QueueOp>) -> Seq<Request>
    decreases ops.len(),
{
    if ops.len() == 0 {
        Seq::empty()
    } else {
        let earlier = accepted_by(limit, ops.drop_last());
        match ops.last() {
            QueueOp::Push(request) => if accepts(
                content_after(limit, ops.drop_last()),
                limit,
                request,
            ) {
                earlier.push(request)
            } else {
                earlier
            },
            QueueOp::Pop => earlier,
        }
    }
}

/// The requests that the pops among `ops` returned, in the order of the
/// pops.
pub open spec fn served_by(limit: nat, ops: Seq<QueueOp>) -> Seq<Request>
    decreases ops.len(),
{
    if ops.len() == 0 {
        Seq::empty()
    } else {
        let earlier = served_by(limit, ops.drop_last());
        match ops.last() {
            QueueOp::Push(_) => earlier,
            QueueOp::Pop => match head(content_after(limit, ops.drop_last())) {
                Some(request) => earlier.push(request),
                None => earlier,
            },
        }
    }
}

/// First in, first out: after any sequence of pushes and pops on an empty
/// queue, the requests that were popped, followed by those still queued, are
/// the accepted requests in the order of their acceptance. The queue stays
/// within its capacity and free of duplicates throughout.
pub proof fn lemma_fifo(limit: nat, ops: Seq<QueueOp>)
    ensures
        served_by(limit, ops) + content_after(limit, ops) == accepted_by(limit, ops),
        well_formed(content_after(limit, ops), limit),
    decreases ops.len(),
{
    if ops.len() > 0 {
        let earlier = ops.drop_last();
        lemma_fifo(limit, earlier);
        let before = content_after(limit, earlier);
        let served = served_by(limit, earlier);
        match ops.last() {
            QueueOp::Push(request) => {
                lemma_pushed_well_formed(before, limit, request);
                if accepts(before, limit, request) {
                    assert(served + before.push(request) =~= (served + before).push(request));
                }
            },
            QueueOp::Pop => {
                lemma_popped_well_formed(before, limit);
                if before.len() > 0 {
                    assert(served.push(before[0]) + before.drop_first() =~= served + before);
                }
            },
        }
    } else {
        assert(served_by(limit, ops) + content_after(limit, ops) =~= accepted_by(limit, ops));
    }
}

/// A push keeps a queue well formed.
pub proof fn lemma_pushed_well_formed(s: Seq<Request>, limit: nat, request: Request)
    requires
        well_formed(s, limit),
    ensures
        well_formed(pushed(s, limit, request), limit),
{
    if accepts(s, limit, request) {
        let after = s.push(request);
        assert forall|i: int, j: int|
            0 <= i < after.len() && 0 <= j < after.len() && i != j implies after[i]
            != after[j] by {
            if i < s.len() {
                assert(s.contains(after[i])) by {
                    assert(s[i] == after[i]);
                }
            }
            if j < s.len() {
                assert(s.contains(after[j])) by {
                    assert(s[j] == after[j]);
                }
            }
        }
    }
}

/// A pop keeps a queue well formed.
pub proof fn lemma_popped_well_formed(s: Seq<Request>, limit: nat)
    requires
        well_formed(s, limit),
    ensures
        well_formed(popped(s), limit),
{
    if s.len() > 0 {
        let after = s.drop_first();
        assert forall|i: int, j: int|
            0 <= i < after.len() && 0 <= j < after.len() && i != j implies after[i]
            != after[j] by {
            assert(after[i] == s[i + 1] && after[j] == s[j + 1]);
        }
    }
}

/// A request pushed onto an empty queue that has room for at least one
/// request is the next one popped, and the pop leaves the queue empty.
pub proof fn lemma_push_then_pop(limit: nat, request: Request)
    requires
        limit >= 1,
    ensures
        accepts(Seq::empty(), limit, request),
        head(pushed(Seq::empty(), limit, request)) == Some(request),
        popped(pushed(Seq::empty(), limit, request)) == Seq::<Request>::empty(),
{
    let empty = Seq::<Request>::empty();
    assert(popped(empty.push(request)) =~= empty);
}

/// Pushing the same request twice in a row: the second push is refused and
/// leaves the queue, and so its size, as the first push left it.
pub proof fn lemma_push_twice(s: Seq<Request>, limit: nat, request: Request)
    requires
        well_formed(s, limit),
    ensures
        !accepts(pushed(s, limit, request), limit, request),
        pushed(pushed(s, limit, request), limit, request) == pushed(s, limit, request),
{
    if accepts(s, limit, request) {
        let after = s.push(request);
        assert(after[s.len() as int] == request);
    }
}

} // verus!
