use std::collections::VecDeque;
use vstd::prelude::*;

verus! {

/// The callbacks that drive `bfs`, with what they promise.
///
/// `visited` is what `is_visited` answers; `marked` holds of the very states that `mark_visited`
/// was called on (a handler may count more states as visited than it marked); `valid` is the
/// domain the handler works on; `successors` is what `neighbors` returns; `capacity` bounds how
/// many more states can still be marked; `visits` and `expansions` list the states passed to
/// `on_visited` and to `neighbors`; `expands`, `stop_requested` and `recorded_parent` say what
/// `on_visited`, `should_stop` and `parent` answer; `key` and `layer` describe a graded search.
pub trait BfsHandler: Sized {
    type State;

    /// Whether the handler can work with `state`.
    spec fn valid(&self, state: Self::State) -> bool;

    /// Whether `state` counts as visited.
    spec fn visited(&self, state: Self::State) -> bool;

    /// Whether `state` itself was marked.
    spec fn marked(&self, state: Self::State) -> bool;

    /// The states that `state` leads to, in order.
    spec fn successors(&self, state: Self::State) -> Seq<Self::State>;

    /// How many more states can be marked, at most.
    spec fn capacity(&self) -> nat;

    /// The states passed to `on_visited` so far, in order.
    spec fn visits(&self) -> Seq<Self::State>;

    /// The states passed to `neighbors` so far, in order.
    spec fn expansions(&self) -> Seq<Self::State>;

    /// Whether the search goes on from `state` once it is taken from the queue.
    open spec fn expands(&self, state: Self::State) -> bool {
        true
    }

    /// The layer of a state: a state marked from another lies one layer above it, and marking
    /// moves no other state. `bfs` reaches each key first through a state of the lowest layer
    /// (see `graded_search`).
    spec fn layer(&self, state: Self::State) -> int;

    /// The key under which a state counts as visited.
    open spec fn key(state: Self::State) -> int {
        0
    }

    /// Whether the handler has asked for the search to end.
    open spec fn stop_requested(&self) -> bool {
        false
    }

    /// The state that `state` was reached from, where the handler records one.
    spec fn recorded_parent(&self, state: Self::State) -> Option<Self::State>;

    /// Whether `other` has the same setup as `self`: the part of the handler that the search
    /// leaves alone, such as the graph it walks.
    spec fn same_setup(&self, other: Self) -> bool;

    /// Every handler has its own setup.
    proof fn lemma_same_setup_reflexive(&self)
        ensures
            self.same_setup(*self),
    ;

    /// Keeping the setup twice keeps it.
    proof fn lemma_same_setup_transitive(&self, b: Self, c: Self)
        requires
            self.same_setup(b),
            b.same_setup(c),
        ensures
            self.same_setup(c),
    ;

    /// A marked state counts as visited.
    proof fn lemma_marked_is_visited(&self, state: Self::State)
        requires
            self.marked(state),
        ensures
            self.visited(state),
    ;

    /// The states reachable from `state` in one transition.
    fn neighbors(&mut self, state: &Self::State) -> (r: Vec<Self::State>)
        requires
            old(self).valid(*state),
            old(self).marked(*state),
            old(self).expands(*state),
        ensures
            r@ == old(self).successors(*state),
            forall|i: int| 0 <= i < r.len() ==> final(self).valid(#[trigger] r@[i]),
            forall|t: Self::State| #[trigger] final(self).visited(t) == old(self).visited(t),
            forall|t: Self::State| #[trigger] final(self).marked(t) == old(self).marked(t),
            forall|t: Self::State| old(self).valid(t) ==> #[trigger] final(self).valid(t),
            forall|t: Self::State| #[trigger] final(self).successors(t) == old(self).successors(t),
            forall|t: Self::State| #[trigger] final(self).expands(t) == old(self).expands(t),
            forall|t: Self::State| #[trigger] final(self).layer(t) == old(self).layer(t),
            final(self).visits() == old(self).visits(),
            final(self).expansions() == old(self).expansions().push(*state),
            final(self).capacity() <= old(self).capacity(),
            old(self).same_setup(*final(self)),
    ;

    /// Marks `state` as visited; `from` is the state it was reached from (`None` for a start).
    fn mark_visited(&mut self, state: &Self::State, from: Option<&Self::State>)
        requires
            old(self).valid(*state),
            !old(self).visited(*state),
            from matches Some(p) ==> old(self).marked(*p) && old(self).expands(*p)
                && old(self).successors(*p).contains(*state),
        ensures
            final(self).visited(*state),
            forall|t: Self::State| #[trigger]
                final(self).marked(t) == (old(self).marked(t) || t == *state),
            forall|t: Self::State| old(self).visited(t) ==> #[trigger] final(self).visited(t),
            forall|t: Self::State| old(self).valid(t) ==> #[trigger] final(self).valid(t),
            forall|t: Self::State| #[trigger] final(self).successors(t) == old(self).successors(t),
            forall|t: Self::State| #[trigger] final(self).expands(t) == old(self).expands(t),
            from matches Some(p) ==> final(self).layer(*state) == old(self).layer(*p) + 1,
            from is None ==> final(self).layer(*state) == old(self).layer(*state),
            forall|t: Self::State| t != *state ==> #[trigger] final(self).layer(t) == old(self).layer(t),
            final(self).visits() == old(self).visits(),
            final(self).expansions() == old(self).expansions(),
            final(self).capacity() < old(self).capacity(),
            old(self).same_setup(*final(self)),
    ;

    /// Whether `state` counts as visited.
    fn is_visited(&self, state: &Self::State) -> (r: bool)
        requires
            self.valid(*state),
        ensures
            r == self.visited(*state),
    ;

    /// Called when `state` is taken from the queue, unless the handler has asked to stop; `false`
    /// means the search does not go on from it.
    fn on_visited(&mut self, state: &Self::State) -> (r: bool)
        requires
            old(self).valid(*state),
            old(self).marked(*state),
            !old(self).stop_requested(),
        ensures
            r == old(self).expands(*state),
            forall|t: Self::State| #[trigger] final(self).visited(t) == old(self).visited(t),
            forall|t: Self::State| #[trigger] final(self).marked(t) == old(self).marked(t),
            forall|t: Self::State| old(self).valid(t) ==> #[trigger] final(self).valid(t),
            forall|t: Self::State| #[trigger] final(self).successors(t) == old(self).successors(t),
            forall|t: Self::State| #[trigger] final(self).expands(t) == old(self).expands(t),
            forall|t: Self::State| #[trigger] final(self).layer(t) == old(self).layer(t),
            final(self).visits() == old(self).visits().push(*state),
            final(self).expansions() == old(self).expansions(),
            final(self).capacity() <= old(self).capacity(),
            old(self).same_setup(*final(self)),
    ;

    /// `true` ends the whole search.
    fn should_stop(&self) -> (r: bool)
        ensures
            r == self.stop_requested(),
    ;

    /// The state that `state` was reached from; `None` where there is none or the handler does
    /// not record them.
    fn parent(&self, state: &Self::State) -> (r: Option<Self::State>)
        ensures
            r == self.recorded_parent(*state),
    ;
}

/// Whether `t` was marked during a search that turned `before` into `after`.
pub open spec fn newly_marked<H: BfsHandler>(before: H, after: H, t: H::State) -> bool {
    after.marked(t) && !before.marked(t)
}

/// Whether every successor of `t` is visited in `h`.
pub open spec fn successors_visited<H: BfsHandler>(h: H, t: H::State) -> bool {
    forall|i: int| 0 <= i < h.successors(t).len() ==> h.visited(#[trigger] h.successors(t)[i])
}

/// Whether `t` is a start or a successor of a state that was passed to `neighbors` during the
/// search from `before` to `after`.
pub open spec fn reached_from_search<H: BfsHandler>(
    before: H,
    after: H,
    starts: Seq<H::State>,
    t: H::State,
) -> bool {
    starts.contains(t) || exists|p: H::State| #[trigger]
        new_expansions(before, after).contains(p) && after.successors(p).contains(t)
}

/// Whether, for every handler of type `H`, a state counts as visited exactly when a marked state
/// has its key.
#[verifier::opaque]
pub open spec fn visited_by_key<H: BfsHandler>() -> bool {
    forall|h: H, s: H::State|
        #[trigger] h.visited(s) <==> exists|m: H::State| #[trigger] h.marked(m) && H::key(m) == H::key(s)
}

/// Whether a search from `starts` on `h0` is graded: states count as visited by key, nothing is
/// marked yet, and all starts lie in one layer.
pub open spec fn graded_search<H: BfsHandler>(h0: H, starts: Seq<H::State>) -> bool {
    &&& visited_by_key::<H>()
    &&& forall|t: H::State| !h0.marked(t)
    &&& forall|i: int| 0 <= i < starts.len() ==> h0.layer(#[trigger] starts[i]) == h0.layer(starts[0])
}

/// Whether a state with the key of `s` is marked in `h`, in a layer no higher than `bound`.
pub open spec fn key_marked_within<H: BfsHandler>(h: H, s: H::State, bound: int) -> bool {
    exists|m: H::State| #[trigger] h.marked(m) && H::key(m) == H::key(s) && h.layer(m) <= bound
}

/// Whether the key of every successor of `t` is marked in `h` in a layer at most one above `t`.
pub open spec fn relaxed<H: BfsHandler>(h: H, t: H::State) -> bool {
    forall|i: int|
        0 <= i < h.successors(t).len() ==> key_marked_within(
            h,
            #[trigger] h.successors(t)[i],
            h.layer(t) + 1,
        )
}

/// Whether every state marked in `h1` is still marked in `h2`, in the same layer.
pub open spec fn marks_kept<H: BfsHandler>(h1: H, h2: H) -> bool {
    forall|m: H::State| #[trigger] h1.marked(m) ==> h2.marked(m) && h2.layer(m) == h1.layer(m)
}

proof fn lemma_key_marked_kept<H: BfsHandler>(h1: H, h2: H, s: H::State, bound: int)
    requires
        key_marked_within(h1, s, bound),
        marks_kept(h1, h2),
    ensures
        key_marked_within(h2, s, bound),
{
    let m = choose|m: H::State| #[trigger]
        h1.marked(m) && H::key(m) == H::key(s) && h1.layer(m) <= bound;
    assert(h2.marked(m));
}

proof fn lemma_relaxed_kept<H: BfsHandler>(h1: H, h2: H, t: H::State)
    requires
        relaxed(h1, t),
        h1.marked(t),
        marks_kept(h1, h2),
        forall|s: H::State| #[trigger] h2.successors(s) == h1.successors(s),
    ensures
        relaxed(h2, t),
{
    assert forall|i: int| 0 <= i < h2.successors(t).len() implies key_marked_within(
        h2,
        #[trigger] h2.successors(t)[i],
        h2.layer(t) + 1,
    ) by {
        assert(h1.successors(t)[i] == h2.successors(t)[i]);
        assert(key_marked_within(h1, h1.successors(t)[i], h1.layer(t) + 1));
        lemma_key_marked_kept(h1, h2, h1.successors(t)[i], h1.layer(t) + 1);
    }
}

/// The states passed to `on_visited` during a search that turned `before` into `after`, in order.
pub open spec fn new_visits<H: BfsHandler>(before: H, after: H) -> Seq<H::State> {
    after.visits().skip(before.visits().len() as int)
}

/// The states passed to `neighbors` during a search that turned `before` into `after`, in order.
pub open spec fn new_expansions<H: BfsHandler>(before: H, after: H) -> Seq<H::State> {
    after.expansions().skip(before.expansions().len() as int)
}

/// Whether every state marked during the search from `before` to `after` lies in layer `base` or
/// above, and above it unless it is one of `starts`.
pub open spec fn starts_lowest<H: BfsHandler>(
    before: H,
    after: H,
    starts: Seq<H::State>,
    base: int,
) -> bool {
    forall|t: H::State| #[trigger]
        newly_marked(before, after, t) ==> base <= after.layer(t) && (starts.contains(t) || base
            < after.layer(t))
}

/// Whether the layers in `h` of the states of `s` never fall from one to the next.
pub open spec fn layers_rise<H: BfsHandler>(h: H, s: Seq<H::State>) -> bool {
    forall|i: int, j: int| 0 <= i < j < s.len() ==> h.layer(s[i]) <= h.layer(s[j])
}

/// The front part of a sequence that repeats no state and whose layers rise does the same.
proof fn lemma_prefix_part<H: BfsHandler>(h: H, a: Seq<H::State>, b: Seq<H::State>)
    ensures
        (a + b).no_duplicates() ==> a.no_duplicates(),
        layers_rise(h, a + b) ==> layers_rise(h, a),
{
    assert forall|i: int| 0 <= i < a.len() implies #[trigger] a[i] == (a + b)[i] by {
    }
}

/// Appending a state that is not marked to a sequence of marked states, none twice, repeats none;
/// where it lies in a layer no lower than theirs, the layers still rise.
proof fn lemma_append_fresh<H: BfsHandler>(h1: H, h2: H, w: Seq<H::State>, next: H::State)
    requires
        w.no_duplicates(),
        forall|i: int| 0 <= i < w.len() ==> h1.marked(#[trigger] w[i]),
        !h1.marked(next),
        marks_kept(h1, h2),
    ensures
        w.push(next).no_duplicates(),
        layers_rise(h1, w) && (forall|i: int| 0 <= i < w.len() ==> h1.layer(#[trigger] w[i])
            <= h2.layer(next)) ==> layers_rise(h2, w.push(next)),
{
    let v = w.push(next);
    assert forall|i: int, j: int| 0 <= i < v.len() && 0 <= j < v.len() && i != j implies v[i]
        != v[j] by {
        if i < w.len() && j < w.len() {
            assert(v[i] == w[i] && v[j] == w[j]);
        } else if i < w.len() {
            assert(h1.marked(w[i]));
        } else if j < w.len() {
            assert(h1.marked(w[j]));
        }
    }
    if layers_rise(h1, w) && (forall|i: int| 0 <= i < w.len() ==> h1.layer(#[trigger] w[i])
        <= h2.layer(next)) {
        assert forall|i: int, j: int| 0 <= i < j < v.len() implies h2.layer(v[i]) <= h2.layer(
            v[j],
        ) by {
            assert(v[i] == w[i]);
            assert(h1.marked(w[i]));
            if j < w.len() {
                assert(v[j] == w[j]);
                assert(h1.marked(w[j]));
            }
        }
    }
}

/// Whether `path` is a chain of successors in `h` that begins at one of `starts`.
pub open spec fn successor_chain<H: BfsHandler>(
    h: H,
    starts: Seq<H::State>,
    path: Seq<H::State>,
) -> bool {
    &&& path.len() >= 1
    &&& starts.contains(path[0])
    &&& forall|i: int|
        0 <= i < path.len() - 1 ==> h.successors(path[i]).contains(#[trigger] path[i + 1])
}

/// A search that was not stopped, where every state expands, nothing was visited before, and a
/// state counts as visited exactly when it was marked, visits every state that a chain of
/// successors leads to from a start.
pub proof fn lemma_search_complete<H: BfsHandler>(
    h0: H,
    h: H,
    starts: Seq<H::State>,
    path: Seq<H::State>,
    j: int,
)
    requires
        forall|t: H::State| #[trigger] h.visited(t) == h.marked(t),
        forall|t: H::State| !#[trigger] h0.visited(t),
        forall|t: H::State| h0.marked(t) ==> #[trigger] h0.visited(t),
        forall|t: H::State| #[trigger] h.expands(t),
        forall|i: int| 0 <= i < starts.len() ==> h.visited(#[trigger] starts[i]),
        forall|t: H::State| #[trigger]
            newly_marked(h0, h, t) && h.expands(t) ==> successors_visited(h, t),
        successor_chain(h, starts, path),
        0 <= j < path.len(),
    ensures
        h.visited(path[j]),
    decreases j,
{
    if j == 0 {
        let i = choose|i: int| 0 <= i < starts.len() && starts[i] == path[0];
        assert(h.visited(starts[i]));
    } else {
        lemma_search_complete(h0, h, starts, path, j - 1);
        let p = path[j - 1];
        assert(h.marked(p));
        assert(!h0.visited(p));
        assert(!h0.marked(p));
        assert(newly_marked(h0, h, p));
        assert(h.successors(path[j - 1]).contains(path[(j - 1) + 1]));
        let k = choose|k: int| 0 <= k < h.successors(p).len() && h.successors(p)[k] == path[j];
        assert(h.visited(h.successors(p)[k]));
    }
}

/// The elements of `v` in reverse order.
fn reversed<T>(v: Vec<T>) -> (r: Vec<T>)
    ensures
        r.len() == v.len(),
        forall|j: int| 0 <= j < v.len() ==> r@[j] == v@[v.len() - 1 - j],
{
    let ghost orig = v@;
    let mut v = v;
    let mut r: Vec<T> = Vec::new();
    while v.len() > 0
        invariant
            v.len() + r.len() == orig.len(),
            forall|j: int| 0 <= j < v.len() ==> v@[j] == orig[j],
            forall|j: int| 0 <= j < r.len() ==> r@[j] == orig[orig.len() - 1 - j],
        decreases v.len(),
    {
        let x = v.pop().unwrap();
        r.push(x);
    }
    r
}

/// Whether `h` keeps what a search from `h0` never changes: valid and visited states stay so, the
/// successors and the setup stay the same, and no state starts to expand.
pub open spec fn kept_from<H: BfsHandler>(h0: H, h: H) -> bool {
    &&& forall|t: H::State| h0.valid(t) ==> #[trigger] h.valid(t)
    &&& forall|t: H::State| h0.visited(t) ==> #[trigger] h.visited(t)
    &&& forall|t: H::State| #[trigger] h.successors(t) == h0.successors(t)
    &&& h0.same_setup(h)
    &&& forall|t: H::State| #[trigger] h.expands(t) == h0.expands(t)
}

/// Whether the layers in `h` of the queue `q` lie between `front` and `front + 1`, in order.
pub open spec fn queue_layered<H: BfsHandler>(h: H, q: Seq<H::State>, front: int) -> bool {
    &&& forall|j: int| 0 <= j < q.len() ==> front <= #[trigger] h.layer(q[j]) <= front + 1
    &&& forall|i: int, j: int| 0 <= i < j < q.len() ==> h.layer(q[i]) <= h.layer(q[j])
}

/// Whether `ix` gives, for each element of the queue `q`, its index among `starts`, the indices
/// falling from front to back.
pub open spec fn queue_indices<T>(q: Seq<T>, starts: Seq<T>, ix: Seq<int>) -> bool {
    &&& ix.len() == q.len()
    &&& forall|j: int| 0 <= j < q.len() ==> 0 <= #[trigger] ix[j] < starts.len() && q[j] == starts[ix[j]]
    &&& forall|i: int, j: int| 0 <= i < j < q.len() ==> ix[i] > ix[j]
}

/// Whether the queue `q` holds starts in reverse order: each was put in front of the ones before.
pub open spec fn queued_in_reverse<T>(q: Seq<T>, starts: Seq<T>) -> bool {
    exists|ix: Seq<int>| #[trigger] queue_indices(q, starts, ix)
}

/// Marks the starts that are not visited yet, going through them in order, and queues each in
/// front of those queued before it.
fn queue_starts<H: BfsHandler>(handler: &mut H, starts: Vec<H::State>) -> (que: VecDeque<H::State>)
    requires
        forall|i: int| 0 <= i < starts.len() ==> old(handler).valid(#[trigger] starts@[i]),
    ensures
        forall|i: int| 0 <= i < starts.len() ==> final(handler).visited(#[trigger] starts@[i]),
        kept_from(*old(handler), *final(handler)),
        forall|j: int|
            0 <= j < que@.len() ==> #[trigger] newly_marked(*old(handler), *final(handler), que@[j])
                && final(handler).valid(que@[j]) && !old(handler).visited(que@[j]),
        forall|t: H::State| #[trigger]
            newly_marked(*old(handler), *final(handler), t) ==> que@.contains(t),
        queued_in_reverse(que@, starts@),
        starts.len() > 0 && !old(handler).visited(starts@[0]) ==> final(handler).marked(starts@[0]),
        que@.len() == 0 ==> *final(handler) == *old(handler),
        (forall|i: int| 0 <= i < starts.len() ==> old(handler).visited(#[trigger] starts@[i]))
            ==> que@.len() == 0,
        forall|t: H::State| #[trigger] final(handler).layer(t) == old(handler).layer(t),
        final(handler).visits() == old(handler).visits(),
        final(handler).expansions() == old(handler).expansions(),
        que@.no_duplicates(),
{
    let ghost h0 = *handler;
    let ghost orig = starts@;
    proof {
        h0.lemma_same_setup_reflexive();
    }
    let ghost mut ix: Seq<int> = Seq::empty();
    let n = starts.len();
    let mut pending = reversed(starts);
    let mut que: VecDeque<H::State> = VecDeque::new();
    while pending.len() > 0
        invariant
            pending.len() <= n,
            n == orig.len(),
            forall|j: int| 0 <= j < pending.len() ==> pending@[j] == orig[n - 1 - j],
            forall|i: int| 0 <= i < n ==> h0.valid(#[trigger] orig[i]),
            forall|i: int| 0 <= i < n - pending.len() ==> handler.visited(#[trigger] orig[i]),
            kept_from(h0, *handler),
            forall|j: int|
                0 <= j < que@.len() ==> #[trigger] newly_marked(h0, *handler, que@[j])
                    && handler.valid(que@[j]),
            forall|t: H::State| #[trigger]
                newly_marked(h0, *handler, t) ==> que@.contains(t) && orig.contains(t),
            forall|j: int| 0 <= j < que@.len() ==> !h0.visited(#[trigger] que@[j]),
            queue_indices(que@, orig, ix),
            forall|j: int| 0 <= j < ix.len() ==> #[trigger] ix[j] < n - pending.len(),
            que@.len() == 0 ==> *handler == h0,
            pending.len() == n ==> *handler == h0,
            pending.len() < n && !h0.visited(orig[0]) ==> handler.marked(orig[0]),
            forall|t: H::State| #[trigger] handler.layer(t) == h0.layer(t),
            handler.visits() == h0.visits(),
            handler.expansions() == h0.expansions(),
            que@.no_duplicates(),
        decreases pending.len(),
    {
        match pending.pop() {
            None => {
                assert(false);
            },
            Some(start) => {
                let ghost k = n - 1 - pending.len();
                assert(start == orig[k]);
                if handler.is_visited(&start) {
                    continue;
                }
                let ghost before = *handler;
                let ghost old_que = que@;
                proof {
                    if h0.marked(start) {
                        h0.lemma_marked_is_visited(start);
                    }
                }
                handler.mark_visited(&start, None);
                proof {
                    h0.lemma_same_setup_transitive(before, *handler);
                }
                que.push_front(start);
                assert(que@ == seq![start] + old_que);
                assert forall|a: int, b: int|
                    0 <= a < que@.len() && 0 <= b < que@.len() && a != b implies que@[a] != que@[b] by {
                    if a > 0 && b > 0 {
                        assert(que@[a] == old_que[a - 1] && que@[b] == old_que[b - 1]);
                    } else if a > 0 {
                        assert(que@[a] == old_que[a - 1]);
                        assert(newly_marked(h0, before, old_que[a - 1]));
                        before.lemma_marked_is_visited(old_que[a - 1]);
                    } else {
                        assert(que@[b] == old_que[b - 1]);
                        assert(newly_marked(h0, before, old_que[b - 1]));
                        before.lemma_marked_is_visited(old_que[b - 1]);
                    }
                }
                proof {
                    let old_ix = ix;
                    ix = seq![k] + old_ix;
                    assert forall|j: int| 0 <= j < que@.len() implies 0 <= #[trigger] ix[j] < orig.len()
                        && que@[j] == orig[ix[j]] by {
                        if j > 0 {
                            assert(ix[j] == old_ix[j - 1]);
                            assert(que@[j] == old_que[j - 1]);
                        }
                    }
                    assert forall|a: int, b: int| 0 <= a < b < que@.len() implies ix[a] > ix[b] by {
                        assert(ix[b] == old_ix[b - 1]);
                        if a > 0 {
                            assert(ix[a] == old_ix[a - 1]);
                        }
                    }
                }
                assert forall|j: int| 0 <= j < que@.len() implies !h0.visited(#[trigger] que@[j]) by {
                    if j > 0 {
                        assert(que@[j] == old_que[j - 1]);
                    }
                }
                assert forall|t: H::State| #[trigger]
                    newly_marked(h0, *handler, t) implies que@.contains(t) && orig.contains(t) by {
                    if t == start {
                        assert(que@[0] == t);
                    } else {
                        assert(newly_marked(h0, before, t));
                        let j = choose|j: int| 0 <= j < old_que.len() && old_que[j] == t;
                        assert(que@[j + 1] == t);
                    }
                }
                assert forall|j: int| 0 <= j < que@.len() implies #[trigger] newly_marked(
                    h0,
                    *handler,
                    que@[j],
                ) && handler.valid(que@[j]) by {
                    if j > 0 {
                        assert(que@[j] == old_que[j - 1]);
                        assert(newly_marked(h0, before, old_que[j - 1]));
                    }
                }
            },
        }
    }
    proof {
        if forall|i: int| 0 <= i < n ==> h0.visited(#[trigger] orig[i]) {
            if que@.len() > 0 {
                assert(!h0.visited(que@[0]));
                assert(que@[0] == orig[ix[0]]);
            }
        }
    }
    que
}

/// Marks each successor of `state` in `next_states` that is not visited yet, from `state`, and
/// queues it at the back, going through them in order.
#[verifier::rlimit(40)]
#[verifier::spinoff_prover]
fn queue_successors<H: BfsHandler>(
    handler: &mut H,
    que: &mut VecDeque<H::State>,
    state: &H::State,
    next_states: Vec<H::State>,
    Ghost(h0): Ghost<H>,
    Ghost(orig): Ghost<Seq<H::State>>,
    Ghost(front): Ghost<int>,
    Ghost(base): Ghost<int>,
)
    requires
        next_states@ == h0.successors(*state),
        forall|j: int| 0 <= j < next_states.len() ==> old(handler).valid(#[trigger] next_states@[j]),
        newly_marked(h0, *old(handler), *state),
        new_expansions(h0, *old(handler)).contains(*state),
        old(handler).valid(*state),
        h0.expands(*state),
        orig.len() > 0 && !h0.visited(orig[0]) ==> old(handler).marked(orig[0]),
        forall|i: int| 0 <= i < orig.len() ==> old(handler).visited(#[trigger] orig[i]),
        kept_from(h0, *old(handler)),
        forall|j: int|
            0 <= j < old(que)@.len() ==> #[trigger] newly_marked(h0, *old(handler), old(que)@[j])
                && old(handler).valid(old(que)@[j]),
        forall|t: H::State| #[trigger]
            newly_marked(h0, *old(handler), t) ==> reached_from_search(h0, *old(handler), orig, t),
        forall|t: H::State| #[trigger]
            newly_marked(h0, *old(handler), t) && t != *state ==> old(que)@.contains(t)
                || !old(handler).expands(t) || (successors_visited(*old(handler), t) && new_expansions(h0, *old(handler)).contains(t) && (graded_search(h0, orig) ==> relaxed(*old(handler), t))),
        graded_search(h0, orig) ==> old(handler).layer(*state) == front,
        graded_search(h0, orig) ==> queue_layered(*old(handler), old(que)@, front),
        graded_search(h0, orig) ==> forall|t: H::State| #[trigger]
            newly_marked(h0, *old(handler), t) ==> old(handler).layer(t) <= front + 1,
        graded_search(h0, orig) ==> forall|i: int|
            0 <= i < orig.len() ==> key_marked_within(*old(handler), #[trigger] orig[i], base),
        graded_search(h0, orig) ==> starts_lowest(h0, *old(handler), orig, base),
        h0.visits().is_prefix_of(old(handler).visits()),
        h0.expansions().is_prefix_of(old(handler).expansions()),
        new_expansions(h0, *old(handler)).no_duplicates(),
        forall|i: int|
            0 <= i < new_expansions(h0, *old(handler)).len() ==> new_visits(
                h0,
                *old(handler),
            ).contains(#[trigger] new_expansions(h0, *old(handler))[i]),
        (new_visits(h0, *old(handler)) + old(que)@).no_duplicates(),
        forall|i: int|
            0 <= i < new_visits(h0, *old(handler)).len() ==> newly_marked(
                h0,
                *old(handler),
                #[trigger] new_visits(h0, *old(handler))[i],
            ),
        graded_search(h0, orig) ==> layers_rise(
            *old(handler),
            new_visits(h0, *old(handler)) + old(que)@,
        ),
    ensures
        forall|j: int|
            0 <= j < next_states.len() ==> final(handler).visited(#[trigger] next_states@[j]),
        newly_marked(h0, *final(handler), *state),
        new_expansions(h0, *final(handler)).contains(*state),
        final(handler).valid(*state),
        orig.len() > 0 && !h0.visited(orig[0]) ==> final(handler).marked(orig[0]),
        forall|i: int| 0 <= i < orig.len() ==> final(handler).visited(#[trigger] orig[i]),
        kept_from(h0, *final(handler)),
        forall|j: int|
            0 <= j < final(que)@.len() ==> #[trigger] newly_marked(h0, *final(handler), final(que)@[j])
                && final(handler).valid(final(que)@[j]),
        forall|t: H::State| #[trigger]
            newly_marked(h0, *final(handler), t) ==> reached_from_search(
                h0,
                *final(handler),
                orig,
                t,
            ),
        forall|t: H::State| #[trigger]
            newly_marked(h0, *final(handler), t) && t != *state ==> final(que)@.contains(t)
                || !final(handler).expands(t) || (successors_visited(*final(handler), t) && new_expansions(h0, *final(handler)).contains(t) && (graded_search(h0, orig) ==> relaxed(*final(handler), t))),
        final(handler).capacity() + final(que)@.len() <= old(handler).capacity() + old(que)@.len(),
        graded_search(h0, orig) ==> final(handler).layer(*state) == front,
        graded_search(h0, orig) ==> queue_layered(*final(handler), final(que)@, front),
        graded_search(h0, orig) ==> forall|t: H::State| #[trigger]
            newly_marked(h0, *final(handler), t) ==> final(handler).layer(t) <= front + 1,
        graded_search(h0, orig) ==> forall|i: int|
            0 <= i < orig.len() ==> key_marked_within(*final(handler), #[trigger] orig[i], base),
        graded_search(h0, orig) ==> starts_lowest(h0, *final(handler), orig, base),
        h0.visits().is_prefix_of(final(handler).visits()),
        h0.expansions().is_prefix_of(final(handler).expansions()),
        new_expansions(h0, *final(handler)) == new_expansions(h0, *old(handler)),
        new_visits(h0, *final(handler)) == new_visits(h0, *old(handler)),
        new_expansions(h0, *final(handler)).no_duplicates(),
        forall|i: int|
            0 <= i < new_expansions(h0, *final(handler)).len() ==> new_visits(
                h0,
                *final(handler),
            ).contains(#[trigger] new_expansions(h0, *final(handler))[i]),
        (new_visits(h0, *final(handler)) + final(que)@).no_duplicates(),
        forall|i: int|
            0 <= i < new_visits(h0, *final(handler)).len() ==> newly_marked(
                h0,
                *final(handler),
                #[trigger] new_visits(h0, *final(handler))[i],
            ),
        graded_search(h0, orig) ==> layers_rise(
            *final(handler),
            new_visits(h0, *final(handler)) + final(que)@,
        ),
        graded_search(h0, orig) ==> forall|j: int|
            0 <= j < next_states.len() ==> key_marked_within(
                *final(handler),
                #[trigger] next_states@[j],
                front + 1,
            ),
{
    let ghost g = graded_search(h0, orig);
    let ghost n: int = orig.len() as int;
    let ghost succ = next_states@;
    let ghost cap0 = handler.capacity() + que@.len();
    let ghost exps0 = new_expansions(h0, *handler);
    let ghost vis0 = new_visits(h0, *handler);
    let len = next_states.len();
    let mut pending = reversed(next_states);
    while pending.len() > 0
        invariant
            n == orig.len(),
            g == graded_search(h0, orig),
            len == succ.len(),
            succ == h0.successors(*state),
            pending.len() <= len,
            forall|j: int| 0 <= j < pending.len() ==> pending@[j] == succ[len - 1 - j],
            forall|j: int|
                0 <= j < len - pending.len() ==> handler.visited(#[trigger] succ[j]),
            forall|j: int|
                0 <= j < pending.len() ==> handler.valid(#[trigger] succ[len - 1 - j]),
            newly_marked(h0, *handler, *state),
            new_expansions(h0, *handler).contains(*state),
            handler.valid(*state),
            h0.expands(*state),
            n > 0 && !h0.visited(orig[0]) ==> handler.marked(orig[0]),
            forall|i: int| 0 <= i < n ==> handler.visited(#[trigger] orig[i]),
            kept_from(h0, *handler),
            forall|j: int|
                0 <= j < que@.len() ==> #[trigger] newly_marked(h0, *handler, que@[j])
                    && handler.valid(que@[j]),
            forall|t: H::State| #[trigger]
                newly_marked(h0, *handler, t) ==> reached_from_search(
                    h0,
                    *handler,
                    orig,
                    t,
                ),
            forall|t: H::State| #[trigger]
                newly_marked(h0, *handler, t) && t != *state ==> que@.contains(t)
                    || !handler.expands(t) || (successors_visited(*handler, t) && new_expansions(h0, *handler).contains(t) && (g ==> relaxed(*handler, t))),
            handler.capacity() + que@.len() <= cap0,
            new_expansions(h0, *handler) == exps0,
            new_visits(h0, *handler) == vis0,
            g ==> handler.layer(*state) == front,
            g ==> queue_layered(*handler, que@, front),
            g ==> forall|t: H::State| #[trigger]
                newly_marked(h0, *handler, t) ==> handler.layer(t) <= front + 1,
            g ==> forall|i: int|
                0 <= i < n ==> key_marked_within(*handler, #[trigger] orig[i], base),
            g ==> starts_lowest(h0, *handler, orig, base),
            h0.visits().is_prefix_of(handler.visits()),
        h0.expansions().is_prefix_of(handler.expansions()),
        new_expansions(h0, *handler).no_duplicates(),
        forall|i: int|
            0 <= i < new_expansions(h0, *handler).len() ==> new_visits(h0, *handler).contains(
                #[trigger] new_expansions(h0, *handler)[i],
            ),
            (new_visits(h0, *handler) + que@).no_duplicates(),
            forall|i: int|
                0 <= i < new_visits(h0, *handler).len() ==> newly_marked(
                    h0,
                    *handler,
                    #[trigger] new_visits(h0, *handler)[i],
                ),
            g ==> layers_rise(*handler, new_visits(h0, *handler) + que@),
            g ==> forall|j: int|
                0 <= j < len - pending.len() ==> key_marked_within(
                    *handler,
                    #[trigger] succ[j],
                    front + 1,
                ),
        decreases pending.len(),
    {
        match pending.pop() {
            None => {
                assert(false);
            },
            Some(next) => {
                let ghost i = len - 1 - pending.len();
                assert(next == succ[i]);
                if handler.is_visited(&next) {
                    proof {
                        if g {
                            reveal(visited_by_key);
                            assert(handler.visited(next));
                            let m = choose|m: H::State| #[trigger]
                                handler.marked(m) && H::key(m) == H::key(next);
                            assert(newly_marked(h0, *handler, m));
                            assert(key_marked_within(*handler, succ[i], front + 1));
                        }
                    }
                    continue;
                }
                let ghost h_mark = *handler;
                let ghost q_mark = que@;
                assert(h_mark.successors(*state)[i] == next);
                handler.mark_visited(&next, Some(state));
                proof {
                    h0.lemma_same_setup_transitive(h_mark, *handler);
                    assert forall|m: H::State| #[trigger] h_mark.marked(m) implies handler.marked(
                        m,
                    ) && handler.layer(m) == h_mark.layer(m) by {
                        h_mark.lemma_marked_is_visited(m);
                    }
                    assert(marks_kept(h_mark, *handler));
                }
                que.push_back(next);
                assert(que@ == q_mark.push(next));
                assert(que@[q_mark.len() as int] == next);
                proof {
                    let w = new_visits(h0, h_mark) + q_mark;
                    assert(new_visits(h0, *handler) == new_visits(h0, h_mark));
                    assert(new_visits(h0, *handler) + que@ =~= w.push(next));
                    assert forall|k: int| 0 <= k < w.len() implies h_mark.marked(
                        #[trigger] w[k],
                    ) by {
                        if k < new_visits(h0, h_mark).len() {
                            assert(w[k] == new_visits(h0, h_mark)[k]);
                            assert(newly_marked(h0, h_mark, new_visits(h0, h_mark)[k]));
                        } else {
                            assert(w[k] == q_mark[k - new_visits(h0, h_mark).len()]);
                            assert(newly_marked(
                                h0,
                                h_mark,
                                q_mark[k - new_visits(h0, h_mark).len()],
                            ));
                        }
                    }
                    if h_mark.marked(next) {
                        h_mark.lemma_marked_is_visited(next);
                    }
                    if g {
                        assert forall|k: int| 0 <= k < w.len() implies h_mark.layer(
                            #[trigger] w[k],
                        ) <= handler.layer(next) by {
                            assert(h_mark.marked(w[k]));
                            assert(newly_marked(h0, h_mark, w[k]));
                        }
                    }
                    lemma_append_fresh(h_mark, *handler, w, next);
                    assert forall|k: int| 0 <= k < new_visits(h0, *handler).len() implies newly_marked(
                        h0,
                        *handler,
                        #[trigger] new_visits(h0, *handler)[k],
                    ) by {
                        assert(newly_marked(h0, h_mark, new_visits(h0, h_mark)[k]));
                    }
                }
                assert forall|t: H::State| #[trigger]
                    newly_marked(h0, *handler, t) implies reached_from_search(
                    h0,
                    *handler,
                    orig,
                    t,
                ) by {
                    assert(new_expansions(h0, *handler) == new_expansions(h0, h_mark));
                    if t == next {
                        assert(handler.successors(*state).contains(next));
                        assert(new_expansions(h0, *handler).contains(*state));
                    } else {
                        assert(newly_marked(h0, h_mark, t));
                        assert(reached_from_search(h0, h_mark, orig, t));
                    }
                }
                assert forall|t: H::State| #[trigger]
                    newly_marked(h0, *handler, t) && t != *state implies que@.contains(t)
                    || !handler.expands(t) || (successors_visited(*handler, t) && new_expansions(h0, *handler).contains(t) && (g ==> relaxed(*handler, t))) by {
                    if t != next {
                        assert(newly_marked(h0, h_mark, t));
                        if q_mark.contains(t) {
                            let j = choose|j: int| 0 <= j < q_mark.len() && q_mark[j] == t;
                            assert(que@[j] == t);
                        } else if handler.expands(t) {
                            assert(successors_visited(h_mark, t));
                            assert(new_expansions(h0, *handler) == new_expansions(h0, h_mark));
                            if g {
                                lemma_relaxed_kept(h_mark, *handler, t);
                            }
                        }
                    }
                }
                assert forall|j: int|
                    0 <= j < que@.len() implies #[trigger] newly_marked(
                    h0,
                    *handler,
                    que@[j],
                ) && handler.valid(que@[j]) by {
                    if j < q_mark.len() {
                        assert(que@[j] == q_mark[j]);
                        assert(newly_marked(h0, h_mark, q_mark[j]));
                    } else {
                        assert(que@[j] == next);
                        if h0.marked(next) {
                            h0.lemma_marked_is_visited(next);
                        }
                    }
                }
                proof {
                    if g {
                        assert(h_mark.marked(*state));
                        assert(handler.layer(*state) == front);
                        assert(handler.layer(next) == front + 1);
                        assert forall|j: int| 0 <= j < que@.len() implies front
                            <= #[trigger] handler.layer(que@[j]) <= front + 1 by {
                            if j < q_mark.len() {
                                assert(que@[j] == q_mark[j]);
                                assert(newly_marked(h0, h_mark, q_mark[j]));
                            }
                        }
                        assert forall|a: int, b: int| 0 <= a < b < que@.len() implies handler.layer(
                            que@[a],
                        ) <= handler.layer(que@[b]) by {
                            assert(que@[a] == q_mark[a]);
                            assert(newly_marked(h0, h_mark, q_mark[a]));
                            if b < q_mark.len() {
                                assert(que@[b] == q_mark[b]);
                                assert(newly_marked(h0, h_mark, q_mark[b]));
                            }
                        }
                        assert forall|t: H::State| #[trigger]
                            newly_marked(h0, *handler, t) implies handler.layer(t) <= front
                            + 1 by {
                            if t != next {
                                assert(newly_marked(h0, h_mark, t));
                            }
                        }
                        assert(newly_marked(h0, h_mark, *state));
                        assert forall|t: H::State| #[trigger]
                            newly_marked(h0, *handler, t) implies base <= handler.layer(t)
                            && (orig.contains(t) || base < handler.layer(t)) by {
                            if t != next {
                                assert(newly_marked(h0, h_mark, t));
                            }
                        }
                        assert forall|k: int| 0 <= k < n implies key_marked_within(
                            *handler,
                            #[trigger] orig[k],
                            base,
                        ) by {
                            lemma_key_marked_kept(h_mark, *handler, orig[k], base);
                        }
                        assert forall|j: int|
                            0 <= j < len - pending.len() implies key_marked_within(
                            *handler,
                            #[trigger] succ[j],
                            front + 1,
                        ) by {
                            if j == i {
                                assert(handler.marked(next));
                            } else {
                                assert(key_marked_within(h_mark, succ[j], front + 1));
                                lemma_key_marked_kept(h_mark, *handler, succ[j], front + 1);
                            }
                        }
                    }
                }
            },
        }
    }
}

/// Breadth-first search driven by `handler`, from several start states.
///
/// A state is marked visited when it is put in the queue, so no state is queued twice, and it is
/// marked from the state whose successor it is (`None` for a start). The starts are queued in
/// reverse order, in front of one another (`queue_starts`). Before a state taken from the queue is
/// passed to `on_visited`, `should_stop` is asked, and `true` ends the search there; a state for
/// which `on_visited` answers `false` gets no transitions. Where every start is visited already,
/// the handler is left as it was.
///
/// Afterwards every start is visited; every state marked on the way is a start or a successor of
/// a state passed to `neighbors` on the way; the states passed to `on_visited` were all marked on
/// the way, none of them twice, and those passed to `neighbors` were passed to `on_visited` first,
/// none of them twice; unless the handler asked to stop, every state marked on the way that
/// expands was passed to `neighbors`, so exactly once, and has all its successors visited; and
/// where the search is graded, the starts are marked in their layer and every other state above
/// it, the states reach `on_visited` layer by layer, and the key of each successor of an expanded
/// state is marked in a layer at most one above it, so that each key is first reached at its
/// lowest layer.
#[verifier::rlimit(40)]
#[verifier::spinoff_prover]
pub fn bfs<H: BfsHandler>(handler: &mut H, starts: Vec<H::State>)
    requires
        forall|i: int| 0 <= i < starts.len() ==> old(handler).valid(#[trigger] starts@[i]),
    ensures
        forall|i: int| 0 <= i < starts.len() ==> final(handler).visited(#[trigger] starts@[i]),
        kept_from(*old(handler), *final(handler)),
        starts.len() > 0 && !old(handler).visited(starts@[0]) ==> final(handler).marked(starts@[0]),
        (forall|i: int| 0 <= i < starts.len() ==> old(handler).visited(#[trigger] starts@[i]))
            ==> *final(handler) == *old(handler),
        forall|t: H::State| #[trigger]
            newly_marked(*old(handler), *final(handler), t) ==> reached_from_search(
                *old(handler),
                *final(handler),
                starts@,
                t,
            ),
        !final(handler).stop_requested() ==> forall|t: H::State| #[trigger]
            newly_marked(*old(handler), *final(handler), t) && final(handler).expands(t)
                ==> successors_visited(*final(handler), t),
        !final(handler).stop_requested() ==> forall|t: H::State| #[trigger]
            newly_marked(*old(handler), *final(handler), t) && final(handler).expands(t)
                ==> new_expansions(*old(handler), *final(handler)).contains(t),
        graded_search(*old(handler), starts@) && !final(handler).stop_requested() ==> forall|
            t: H::State,
        | #[trigger]
            newly_marked(*old(handler), *final(handler), t) && final(handler).expands(t)
                ==> relaxed(*final(handler), t),
        graded_search(*old(handler), starts@) ==> forall|i: int|
            0 <= i < starts.len() ==> key_marked_within(
                *final(handler),
                #[trigger] starts@[i],
                old(handler).layer(starts@[0]),
            ),
        old(handler).visits().is_prefix_of(final(handler).visits()),
        new_visits(*old(handler), *final(handler)).no_duplicates(),
        forall|i: int|
            0 <= i < new_visits(*old(handler), *final(handler)).len() ==> newly_marked(
                *old(handler),
                *final(handler),
                #[trigger] new_visits(*old(handler), *final(handler))[i],
            ),
        graded_search(*old(handler), starts@) ==> layers_rise(
            *final(handler),
            new_visits(*old(handler), *final(handler)),
        ),
        graded_search(*old(handler), starts@) ==> starts_lowest(
            *old(handler),
            *final(handler),
            starts@,
            old(handler).layer(starts@[0]),
        ),
        old(handler).expansions().is_prefix_of(final(handler).expansions()),
        new_expansions(*old(handler), *final(handler)).no_duplicates(),
        forall|i: int|
            0 <= i < new_expansions(*old(handler), *final(handler)).len() ==> new_visits(
                *old(handler),
                *final(handler),
            ).contains(#[trigger] new_expansions(*old(handler), *final(handler))[i]),
{
    let ghost h0 = *handler;
    let ghost orig = starts@;
    let ghost g = graded_search(h0, orig);
    proof {
        h0.lemma_same_setup_reflexive();
    }
    let n = starts.len();
    let mut que = queue_starts(handler, starts);
    let ghost none_queued = que@.len() == 0;
    assert(new_visits(h0, *handler) + que@ =~= que@);
    assert(h0.visits().is_prefix_of(handler.visits()));
    assert(h0.expansions().is_prefix_of(handler.expansions()));
    assert(new_expansions(h0, *handler) =~= Seq::<H::State>::empty());
    assert forall|t: H::State| #[trigger]
        newly_marked(h0, *handler, t) implies reached_from_search(h0, *handler, orig, t) by {
        let j = choose|j: int| 0 <= j < que@.len() && que@[j] == t;
        let ix = choose|ix: Seq<int>| #[trigger] queue_indices(que@, orig, ix);
        assert(orig[ix[j]] == t);
    }
    assert forall|t: H::State| #[trigger] newly_marked(h0, *handler, t) implies orig.contains(t) by {
        let j = choose|j: int| 0 <= j < que@.len() && que@[j] == t;
        let ix = choose|ix: Seq<int>| #[trigger] queue_indices(que@, orig, ix);
        assert(orig[ix[j]] == t);
    }
    let ghost base: int = h0.layer(orig[0]);
    let ghost mut front: int = base - 1;
    proof {
        if g {
            assert forall|t: H::State| #[trigger] newly_marked(h0, *handler, t) implies handler.layer(
                t,
            ) == front + 1 by {
                let i = choose|i: int| 0 <= i < orig.len() && orig[i] == t;
                assert(h0.layer(orig[i]) == h0.layer(orig[0]));
            }
            assert forall|j: int| 0 <= j < que@.len() implies front <= #[trigger] handler.layer(
                que@[j],
            ) <= front + 1 by {
                assert(newly_marked(h0, *handler, que@[j]));
            }
            assert(starts_lowest(h0, *handler, orig, base));
            assert forall|i: int| 0 <= i < n implies key_marked_within(
                *handler,
                #[trigger] orig[i],
                base,
            ) by {
                reveal(visited_by_key);
                assert(handler.visited(orig[i]));
                let m = choose|m: H::State| #[trigger]
                    handler.marked(m) && H::key(m) == H::key(orig[i]);
                assert(newly_marked(h0, *handler, m));
                let k = choose|k: int| 0 <= k < orig.len() && orig[k] == m;
                assert(h0.layer(orig[k]) == h0.layer(orig[0]));
            }
            assert forall|i: int, j: int| 0 <= i < j < que@.len() implies handler.layer(que@[i])
                <= handler.layer(que@[j]) by {
                assert(newly_marked(h0, *handler, que@[i]));
                assert(newly_marked(h0, *handler, que@[j]));
            }
            assert(layers_rise(*handler, new_visits(h0, *handler) + que@));
        }
    }
    loop
        invariant_except_break
            (new_visits(h0, *handler) + que@).no_duplicates(),
            g ==> layers_rise(*handler, new_visits(h0, *handler) + que@),
            forall|t: H::State| #[trigger]
                newly_marked(h0, *handler, t) ==> que@.contains(t) || !handler.expands(t)
                    || (successors_visited(*handler, t) && new_expansions(h0, *handler).contains(t)),
            g ==> forall|t: H::State| #[trigger]
                newly_marked(h0, *handler, t) ==> que@.contains(t) || !handler.expands(t)
                    || relaxed(*handler, t),
        invariant
            n == orig.len(),
            g == graded_search(h0, orig),
            forall|i: int| 0 <= i < n ==> handler.visited(#[trigger] orig[i]),
            kept_from(h0, *handler),
            forall|j: int|
                0 <= j < que@.len() ==> #[trigger] newly_marked(h0, *handler, que@[j])
                    && handler.valid(que@[j]),
            forall|t: H::State| #[trigger]
                newly_marked(h0, *handler, t) ==> reached_from_search(h0, *handler, orig, t),
            n > 0 && !h0.visited(orig[0]) ==> handler.marked(orig[0]),
            g ==> queue_layered(*handler, que@, front),
            g ==> forall|t: H::State| #[trigger]
                newly_marked(h0, *handler, t) ==> handler.layer(t) <= front + 1,
            g ==> forall|i: int| 0 <= i < n ==> key_marked_within(*handler, #[trigger] orig[i], base),
            g ==> starts_lowest(h0, *handler, orig, base),
            none_queued ==> *handler == h0 && que@.len() == 0,
            h0.visits().is_prefix_of(handler.visits()),
            h0.expansions().is_prefix_of(handler.expansions()),
            new_expansions(h0, *handler).no_duplicates(),
            forall|i: int|
                0 <= i < new_expansions(h0, *handler).len() ==> new_visits(h0, *handler).contains(
                    #[trigger] new_expansions(h0, *handler)[i],
                ),
            forall|i: int|
                0 <= i < new_visits(h0, *handler).len() ==> newly_marked(
                    h0,
                    *handler,
                    #[trigger] new_visits(h0, *handler)[i],
                ),
        ensures
            none_queued ==> *handler == h0,
            h0.visits().is_prefix_of(handler.visits()),
            h0.expansions().is_prefix_of(handler.expansions()),
            new_expansions(h0, *handler).no_duplicates(),
            forall|i: int|
                0 <= i < new_expansions(h0, *handler).len() ==> new_visits(h0, *handler).contains(
                    #[trigger] new_expansions(h0, *handler)[i],
                ),
            new_visits(h0, *handler).no_duplicates(),
            forall|i: int|
                0 <= i < new_visits(h0, *handler).len() ==> newly_marked(
                    h0,
                    *handler,
                    #[trigger] new_visits(h0, *handler)[i],
                ),
            g ==> layers_rise(*handler, new_visits(h0, *handler)),
            g ==> forall|i: int| 0 <= i < n ==> key_marked_within(*handler, #[trigger] orig[i], base),
            g ==> starts_lowest(h0, *handler, orig, base),
            handler.stop_requested() || forall|t: H::State| #[trigger]
                newly_marked(h0, *handler, t) && handler.expands(t) ==> successors_visited(
                    *handler,
                    t,
                ) && new_expansions(h0, *handler).contains(t),
            handler.stop_requested() || (g ==> forall|t: H::State| #[trigger]
                newly_marked(h0, *handler, t) && handler.expands(t) ==> relaxed(*handler, t)),
        decreases handler.capacity() + que@.len(),
    {
        let ghost q_before = que@;
        let ghost h_before = *handler;
        proof {
            lemma_prefix_part(*handler, new_visits(h0, *handler), que@);
        }
        match que.pop_front() {
            None => break,
            Some(state) => {
                assert(q_before[0] == state);
                if handler.should_stop() {
                    break;
                }
                let ghost old_front = front;
                proof {
                    front = handler.layer(state);
                    if g {
                        assert forall|j: int| 0 <= j < que@.len() implies front
                            <= #[trigger] handler.layer(que@[j]) <= front + 1 by {
                            assert(que@[j] == q_before[j + 1]);
                            assert(handler.layer(q_before[0]) <= handler.layer(q_before[j + 1]));
                            assert(old_front <= handler.layer(q_before[0]));
                        }
                        assert forall|i: int, j: int| 0 <= i < j < que@.len() implies handler.layer(
                            que@[i],
                        ) <= handler.layer(que@[j]) by {
                            assert(que@[i] == q_before[i + 1]);
                            assert(que@[j] == q_before[j + 1]);
                        }
                        assert(old_front <= front);
                    }
                }
                assert(newly_marked(h0, *handler, state));
                let ghost h_popped = *handler;
                let keep_going = handler.on_visited(&state);
                proof {
                    h0.lemma_same_setup_transitive(h_popped, *handler);
                    assert(marks_kept(h_popped, *handler));
                    assert(new_visits(h0, *handler) =~= new_visits(h0, h_popped).push(state));
                    assert(new_visits(h0, *handler) + que@ =~= new_visits(h0, h_popped) + q_before);
                    assert(h0.visits().is_prefix_of(handler.visits()));
                    assert forall|i: int| 0 <= i < new_visits(h0, *handler).len() implies newly_marked(
                        h0,
                        *handler,
                        #[trigger] new_visits(h0, *handler)[i],
                    ) by {
                        if i < new_visits(h0, h_popped).len() {
                            assert(new_visits(h0, *handler)[i] == new_visits(h0, h_popped)[i]);
                        }
                    }
                    if g {
                        assert(layers_rise(*handler, new_visits(h0, *handler) + que@));
                    }
                    assert(new_expansions(h0, *handler) == new_expansions(h0, h_popped));
                    assert forall|i: int| 0 <= i < new_expansions(h0, *handler).len() implies new_visits(
                        h0,
                        *handler,
                    ).contains(#[trigger] new_expansions(h0, *handler)[i]) by {
                        let e = new_expansions(h0, h_popped)[i];
                        assert(new_visits(h0, h_popped).contains(e));
                        let k = choose|k: int|
                            0 <= k < new_visits(h0, h_popped).len() && new_visits(h0, h_popped)[k] == e;
                        assert(new_visits(h0, *handler)[k] == e);
                    }
                    if g {
                        assert forall|i: int| 0 <= i < n implies key_marked_within(
                            *handler,
                            #[trigger] orig[i],
                            base,
                        ) by {
                            lemma_key_marked_kept(h_popped, *handler, orig[i], base);
                        }
                        assert(queue_layered(*handler, que@, front));
                    }
                }
                assert forall|j: int| 0 <= j < que@.len() implies #[trigger] newly_marked(
                    h0,
                    *handler,
                    que@[j],
                ) && handler.valid(que@[j]) by {
                    assert(que@[j] == q_before[j + 1]);
                    assert(newly_marked(h0, h_before, q_before[j + 1]));
                }
                assert forall|t: H::State| #[trigger]
                    newly_marked(h0, *handler, t) implies reached_from_search(
                    h0,
                    *handler,
                    orig,
                    t,
                ) by {
                    assert(newly_marked(h0, h_before, t));
                    assert(reached_from_search(h0, h_before, orig, t));
                    if !orig.contains(t) {
                        let p = choose|p: H::State| #[trigger]
                            new_expansions(h0, h_before).contains(p) && h_before.successors(p).contains(t);
                        assert(new_expansions(h0, *handler) == new_expansions(h0, h_before));
                    }
                }
                assert(g ==> forall|t: H::State| #[trigger]
                    newly_marked(h0, *handler, t) ==> handler.layer(t) <= front + 1) by {
                    if g {
                        assert forall|t: H::State| #[trigger]
                            newly_marked(h0, *handler, t) implies handler.layer(t) <= front + 1 by {
                            assert(newly_marked(h0, h_before, t));
                        }
                    }
                }
                assert(g ==> starts_lowest(h0, *handler, orig, base)) by {
                    if g {
                        assert forall|t: H::State| #[trigger]
                            newly_marked(h0, *handler, t) implies base <= handler.layer(t) && (
                            orig.contains(t) || base < handler.layer(t)) by {
                            assert(newly_marked(h0, h_before, t));
                        }
                    }
                }
                if !keep_going {
                    assert forall|t: H::State| #[trigger]
                        newly_marked(h0, *handler, t) implies que@.contains(t) || !handler.expands(
                        t,
                    ) || (successors_visited(*handler, t) && new_expansions(h0, *handler).contains(t) && (g ==> relaxed(*handler, t))) by {
                        assert(newly_marked(h0, h_before, t));
                        if t != state && q_before.contains(t) {
                            let j = choose|j: int| 0 <= j < q_before.len() && q_before[j] == t;
                            assert(que@[j - 1] == t);
                        } else if t != state && handler.expands(t) {
                            assert(new_expansions(h0, *handler) == new_expansions(h0, h_before));
                            if g {
                                lemma_relaxed_kept(h_before, *handler, t);
                            }
                        }
                    }
                    assert forall|j: int| 0 <= j < que@.len() implies #[trigger] newly_marked(
                        h0,
                        *handler,
                        que@[j],
                    ) && handler.valid(que@[j]) by {
                        assert(que@[j] == q_before[j + 1]);
                        assert(newly_marked(h0, h_before, q_before[j + 1]));
                    }
                    continue;
                }
                let ghost h_expanding = *handler;
                let next_states = handler.neighbors(&state);
                proof {
                    h0.lemma_same_setup_transitive(h_expanding, *handler);
                    assert(marks_kept(h_expanding, *handler));
                    assert(new_visits(h0, *handler) == new_visits(h0, h_expanding));
                    assert(new_expansions(h0, *handler) =~= new_expansions(h0, h_before).push(state));
                    assert(new_expansions(h0, *handler)[new_expansions(h0, h_before).len() as int]
                        == state);
                    let nvb = new_visits(h0, h_before);
                    assert(new_visits(h0, *handler) =~= nvb.push(state));
                    assert((nvb + q_before)[nvb.len() as int] == state);
                    assert forall|i: int, j: int|
                        0 <= i < new_expansions(h0, *handler).len() && 0 <= j < new_expansions(
                            h0,
                            *handler,
                        ).len() && i != j implies new_expansions(h0, *handler)[i] != new_expansions(
                        h0,
                        *handler,
                    )[j] by {
                        let eb = new_expansions(h0, h_before);
                        if i < eb.len() && j < eb.len() {
                            assert(new_expansions(h0, *handler)[i] == eb[i]);
                            assert(new_expansions(h0, *handler)[j] == eb[j]);
                        } else {
                            let a = if i < eb.len() { i } else { j };
                            assert(new_expansions(h0, *handler)[a] == eb[a]);
                            assert(nvb.contains(eb[a]));
                            let k = choose|k: int| 0 <= k < nvb.len() && nvb[k] == eb[a];
                            assert((nvb + q_before)[k] == nvb[k]);
                        }
                    }
                    assert forall|i: int| 0 <= i < new_expansions(h0, *handler).len() implies new_visits(
                        h0,
                        *handler,
                    ).contains(#[trigger] new_expansions(h0, *handler)[i]) by {
                        let eb = new_expansions(h0, h_before);
                        if i < eb.len() {
                            assert(new_expansions(h0, *handler)[i] == eb[i]);
                            assert(nvb.contains(eb[i]));
                            let k = choose|k: int| 0 <= k < nvb.len() && nvb[k] == eb[i];
                            assert(new_visits(h0, *handler)[k] == eb[i]);
                        } else {
                            assert(new_visits(h0, *handler)[nvb.len() as int] == state);
                        }
                    }
                    if g {
                        assert(layers_rise(*handler, new_visits(h0, *handler) + que@));
                    }
                    assert(marks_kept(h_before, *handler));
                    if g {
                        assert forall|i: int| 0 <= i < n implies key_marked_within(
                            *handler,
                            #[trigger] orig[i],
                            base,
                        ) by {
                            lemma_key_marked_kept(h_expanding, *handler, orig[i], base);
                        }
                        assert(queue_layered(*handler, que@, front));
                    }
                }
                let ghost succ = next_states@;
                assert forall|j: int| 0 <= j < que@.len() implies #[trigger] newly_marked(
                    h0,
                    *handler,
                    que@[j],
                ) && handler.valid(que@[j]) by {
                    assert(newly_marked(h0, h_expanding, que@[j]));
                }
                assert forall|t: H::State| #[trigger]
                    newly_marked(h0, *handler, t) implies reached_from_search(
                    h0,
                    *handler,
                    orig,
                    t,
                ) by {
                    assert(newly_marked(h0, h_expanding, t));
                    assert(reached_from_search(h0, h_expanding, orig, t));
                    if !orig.contains(t) {
                        let p = choose|p: H::State| #[trigger]
                            new_expansions(h0, h_expanding).contains(p) && h_expanding.successors(p).contains(t);
                        let k = choose|k: int|
                            0 <= k < new_expansions(h0, h_expanding).len() && new_expansions(
                                h0,
                                h_expanding,
                            )[k] == p;
                        assert(new_expansions(h0, *handler) =~= new_expansions(h0, h_expanding).push(
                            state,
                        ));
                        assert(new_expansions(h0, *handler)[k] == p);
                        assert(new_expansions(h0, *handler).contains(p));
                        assert(handler.successors(p) == h_expanding.successors(p));
                    }
                }
                assert(succ == h0.successors(state));
                assert forall|t: H::State| #[trigger]
                    newly_marked(h0, *handler, t) && t != state implies que@.contains(t)
                    || !handler.expands(t) || (successors_visited(*handler, t) && new_expansions(h0, *handler).contains(t) && (g ==> relaxed(*handler, t))) by {
                    assert(newly_marked(h0, h_before, t));
                    if q_before.contains(t) {
                        let j = choose|j: int| 0 <= j < q_before.len() && q_before[j] == t;
                        assert(j != 0);
                        assert(que@[j - 1] == t);
                    } else if handler.expands(t) {
                        assert(successors_visited(h_before, t));
                        assert(new_expansions(h0, h_before).contains(t));
                        let k = choose|k: int|
                            0 <= k < new_expansions(h0, h_before).len() && new_expansions(
                                h0,
                                h_before,
                            )[k] == t;
                        assert(new_expansions(h0, *handler)[k] == t);
                        assert forall|i: int| 0 <= i < handler.successors(t).len() implies handler.visited(
                            #[trigger] handler.successors(t)[i],
                        ) by {
                            assert(h_before.visited(h_before.successors(t)[i]));
                        }
                        if g {
                            lemma_relaxed_kept(h_before, *handler, t);
                        }
                    }
                }
                proof {
                    if g {
                        assert forall|t: H::State| #[trigger]
                            newly_marked(h0, *handler, t) implies handler.layer(t) <= front + 1 by {
                            assert(newly_marked(h0, h_expanding, t));
                        }
                        assert forall|t: H::State| #[trigger]
                            newly_marked(h0, *handler, t) implies base <= handler.layer(t) && (
                            orig.contains(t) || base < handler.layer(t)) by {
                            assert(newly_marked(h0, h_expanding, t));
                        }
                    }
                }
                queue_successors(
                    handler,
                    &mut que,
                    &state,
                    next_states,
                    Ghost(h0),
                    Ghost(orig),
                    Ghost(front),
                    Ghost(base),
                );
                assert(successors_visited(*handler, state));
                proof {
                    if g {
                        assert forall|j: int| 0 <= j < handler.successors(state).len() implies key_marked_within(
                            *handler,
                            #[trigger] handler.successors(state)[j],
                            handler.layer(state) + 1,
                        ) by {
                            assert(handler.successors(state)[j] == succ[j]);
                        }
                    }
                }
                assert forall|t: H::State| #[trigger]
                    newly_marked(h0, *handler, t) implies que@.contains(t) || !handler.expands(t)
                    || (successors_visited(*handler, t) && new_expansions(h0, *handler).contains(t) && (g ==> relaxed(*handler, t))) by {
                    if t == state {
                        assert(successors_visited(*handler, state));
                    }
                }
            },
        }
    }
}

/// The `k`-th recorded ancestor of `state`: `state` itself for `k == 0`, then its parent, and so
/// on; `None` once the chain has ended.
pub open spec fn ancestor<H: BfsHandler>(h: H, state: H::State, k: nat) -> Option<H::State>
    decreases k,
{
    if k == 0 {
        Some(state)
    } else {
        match ancestor(h, state, (k - 1) as nat) {
            Some(p) => h.recorded_parent(p),
            None => None,
        }
    }
}

/// Whether following recorded parents from `state` comes to an end.
pub open spec fn parent_chain_ends<H: BfsHandler>(h: H, state: H::State) -> bool {
    exists|k: nat| #[trigger] ancestor(h, state, k) is None
}

/// Once the chain of ancestors has ended it stays ended.
pub proof fn lemma_ancestor_ended<H: BfsHandler>(h: H, state: H::State, j: nat, k: nat)
    requires
        j <= k,
        ancestor(h, state, j) is None,
    ensures
        ancestor(h, state, k) is None,
    decreases k - j,
{
    if j < k {
        lemma_ancestor_ended(h, state, j, (k - 1) as nat);
    }
}

/// The path from the first recorded ancestor of `target` down to `target`, following
/// `handler.parent`. Where `target` has no parent the path is `target` alone.
pub fn restore_path<H: BfsHandler>(handler: &H, target: H::State) -> (path: Vec<H::State>)
    requires
        parent_chain_ends(*handler, target),
    ensures
        path.len() >= 1,
        ancestor(*handler, target, path.len() as nat) is None,
        forall|j: int|
            0 <= j < path.len() ==> ancestor(*handler, target, (path.len() - 1 - j) as nat) == Some(
                #[trigger] path@[j],
            ),
        path@[path.len() - 1] == target,
        handler.recorded_parent(path@[0]) is None,
        forall|j: int|
            0 < j < path.len() ==> handler.recorded_parent(#[trigger] path@[j]) == Some(path@[j - 1]),
{
    let ghost end = choose|k: nat| #[trigger] ancestor(*handler, target, k) is None;
    let mut up = vec![target];
    proof {
        assert(ancestor(*handler, target, 0) == Some(up@[0]));
    }
    loop
        invariant
            up.len() >= 1,
            ancestor(*handler, target, end) is None,
            forall|j: int| 0 <= j < up.len() ==> ancestor(*handler, target, j as nat) == Some(#[trigger] up@[j]),
        ensures
            up.len() >= 1,
            ancestor(*handler, target, up.len() as nat) is None,
            forall|j: int| 0 <= j < up.len() ==> ancestor(*handler, target, j as nat) == Some(#[trigger] up@[j]),
        decreases end - up.len(),
    {
        proof {
            if end < up.len() {
                lemma_ancestor_ended(*handler, target, end, (up.len() - 1) as nat);
                assert(ancestor(*handler, target, (up.len() - 1) as nat) == Some(up@[up.len() - 1]));
            }
        }
        let last = up.len() - 1;
        match handler.parent(&up[last]) {
            Some(p) => {
                up.push(p);
            },
            None => {
                break;
            },
        }
    }
    let path = reversed(up);
    proof {
        let len = path.len();
        assert(ancestor(*handler, target, (len - 1) as nat) == Some(path@[0]));
        assert forall|j: int| 0 < j < len implies handler.recorded_parent(#[trigger] path@[j])
            == Some(path@[j - 1]) by {
            assert(ancestor(*handler, target, (len - 1 - j) as nat) == Some(path@[j]));
            assert(ancestor(*handler, target, (len - 1 - (j - 1)) as nat) == Some(path@[j - 1]));
            assert((len - 1 - (j - 1)) as nat == ((len - 1 - j) as nat + 1) as nat);
        }
    }
    path
}

} // verus!
