use crate::graph::bfs::{
    ancestor, graded_search, key_marked_within, newly_marked, parent_chain_ends, relaxed,
    restore_path, starts_lowest, successor_chain, visited_by_key, BfsHandler,
};
use vstd::prelude::*;

verus! {

/// How many entries of `s` are unset.
pub open spec fn unset_count(s: Seq<bool>) -> nat
    decreases s.len(),
{
    if s.len() == 0 {
        0
    } else {
        unset_count(s.drop_last()) + if s.last() {
            0nat
        } else {
            1nat
        }
    }
}

proof fn lemma_unset_count_set(s: Seq<bool>, u: int)
    requires
        0 <= u < s.len(),
        !s[u],
    ensures
        unset_count(s.update(u, true)) + 1 == unset_count(s),
    decreases s.len(),
{
    let e = s.update(u, true);
    if u == s.len() - 1 {
        assert(e.drop_last() =~= s.drop_last());
    } else {
        assert(e.drop_last() =~= s.drop_last().update(u, true));
        lemma_unset_count_set(s.drop_last(), u);
    }
}

/// A search over the adjacency lists of a graph that records, for each vertex, the vertex it was
/// reached from and the order in which vertices are taken from the queue; it can be told not to go
/// on from one vertex, and to stop once a given vertex has been taken.
pub struct PathRecorder {
    adj: Vec<Vec<usize>>,
    seen: Vec<bool>,
    parent: Vec<Option<usize>>,
    order: Vec<usize>,
    stop_at: Option<usize>,
    dead_end: Option<usize>,
    /// For each reached vertex, how many vertices were reached before it.
    rank: Ghost<Seq<nat>>,
    /// How many vertices have been reached.
    reached_count: Ghost<nat>,
    /// For each vertex, how many edges its chain of recorded parents has.
    depth: Ghost<Seq<int>>,
    /// The vertices whose adjacency lists were handed out, in order.
    expanded: Ghost<Seq<usize>>,
}

impl PathRecorder {
    /// Every recorded parent was reached before its child, the child is on its adjacency list and
    /// lies one edge deeper; a vertex without a parent lies at depth 0.
    #[verifier::type_invariant]
    spec fn parents_reached_earlier(self) -> bool {
        &&& self.rank@.len() == self.seen.len()
        &&& self.depth@.len() == self.seen.len()
        &&& self.parent.len() == self.seen.len()
        &&& forall|v: int|
            0 <= v < self.seen.len() && #[trigger] self.seen@[v] ==> self.rank@[v]
                < self.reached_count@
        &&& forall|v: int|
            0 <= v < self.parent.len() ==> (#[trigger] self.parent@[v] matches Some(p) ==> {
                &&& p < self.seen.len()
                &&& p < self.adj.len()
                &&& self.seen@[v]
                &&& self.seen@[p as int]
                &&& self.rank@[p as int] < self.rank@[v]
                &&& self.adj@[p as int]@.contains(v as usize)
                &&& self.depth@[v] == self.depth@[p as int] + 1
            })
        &&& forall|v: int|
            0 <= v < self.parent.len() && #[trigger] self.parent@[v] is None ==> self.depth@[v] == 0
    }

    spec fn wf(&self) -> bool {
        &&& self.adj.len() == self.seen.len()
        &&& self.adj.len() == self.parent.len()
        &&& forall|u: int, i: int|
            0 <= u < self.adj.len() && 0 <= i < self.adj@[u].len() ==> #[trigger] self.adj@[u]@[i]
                < self.adj.len()
    }

    /// The adjacency lists.
    pub closed spec fn graph(&self) -> Seq<Seq<usize>> {
        self.adj@.map_values(|l: Vec<usize>| l@)
    }

    /// Which vertices have been reached.
    pub closed spec fn reached(&self) -> Seq<bool> {
        self.seen@
    }

    /// The vertex each vertex was reached from.
    pub closed spec fn parents(&self) -> Seq<Option<usize>> {
        self.parent@
    }

    /// The vertices taken from the queue so far, in order.
    pub closed spec fn taken(&self) -> Seq<usize> {
        self.order@
    }

    /// The vertex whose taking from the queue ends the search, if any.
    pub closed spec fn stop_target(&self) -> Option<usize> {
        self.stop_at
    }

    /// The vertex the search does not go on from, if any.
    pub closed spec fn dead_end_vertex(&self) -> Option<usize> {
        self.dead_end
    }

    /// A recorder for `adj`, with nothing reached, which does not go on from `dead_end` and stops
    /// once `stop_at` has been taken from the queue, where these are given. `None` where an edge
    /// leads outside the graph.
    pub fn new(adj: Vec<Vec<usize>>, stop_at: Option<usize>, dead_end: Option<usize>) -> (r:
        Option<Self>)
        ensures
            r is Some <==> forall|u: int, i: int|
                0 <= u < adj@.len() && 0 <= i < adj@[u]@.len() ==> #[trigger] adj@[u]@[i]
                    < adj@.len(),
            r matches Some(rec) ==> {
                &&& rec.graph() == adj@.map_values(|l: Vec<usize>| l@)
                &&& rec.reached() == Seq::new(adj@.len(), |i: int| false)
                &&& rec.parents() == Seq::new(adj@.len(), |i: int| None::<usize>)
                &&& rec.taken() == Seq::<usize>::empty()
                &&& rec.stop_target() == stop_at
                &&& rec.dead_end_vertex() == dead_end
                &&& forall|v: usize| v < adj@.len() ==> #[trigger] rec.valid(v)
                &&& forall|v: usize| #[trigger] rec.layer(v) == 0
            },
    {
        let n = adj.len();
        let mut u: usize = 0;
        while u < n
            invariant
                n == adj.len(),
                u <= n,
                forall|w: int, i: int|
                    0 <= w < u && 0 <= i < adj@[w]@.len() ==> #[trigger] adj@[w]@[i] < n,
            decreases n - u,
        {
            let row = &adj[u];
            let mut i: usize = 0;
            while i < row.len()
                invariant
                    n == adj.len(),
                    u < n,
                    row@ == adj@[u as int]@,
                    i <= row.len(),
                    forall|w: int, j: int|
                        0 <= w < u && 0 <= j < adj@[w]@.len() ==> #[trigger] adj@[w]@[j] < n,
                    forall|j: int| 0 <= j < i ==> #[trigger] row@[j] < n,
                decreases row.len() - i,
            {
                if row[i] >= n {
                    assert(adj@[u as int]@[i as int] >= n);
                    return None;
                }
                i = i + 1;
            }
            u = u + 1;
        }
        let mut seen: Vec<bool> = Vec::new();
        let mut parent: Vec<Option<usize>> = Vec::new();
        while seen.len() < n
            invariant
                seen.len() == parent.len(),
                seen.len() <= n,
                forall|i: int| 0 <= i < seen.len() ==> !#[trigger] seen@[i],
                forall|i: int| 0 <= i < parent.len() ==> #[trigger] parent@[i] is None,
            decreases n - seen.len(),
        {
            seen.push(false);
            parent.push(None);
        }
        assert(seen@ =~= Seq::new(n as nat, |i: int| false));
        assert(parent@ =~= Seq::new(n as nat, |i: int| None::<usize>));
        Some(
            PathRecorder {
                adj,
                seen,
                parent,
                order: Vec::new(),
                stop_at,
                dead_end,
                rank: Ghost(Seq::new(n as nat, |i: int| 0nat)),
                reached_count: Ghost(0),
                depth: Ghost(Seq::new(n as nat, |i: int| 0int)),
                expanded: Ghost(Seq::empty()),
            },
        )
    }

    /// Whether vertex `v` has been reached.
    pub fn is_reached(&self, v: usize) -> (r: bool)
        ensures
            r == (v < self.reached().len() && self.reached()[v as int]),
    {
        v < self.seen.len() && self.seen[v]
    }

    /// The recorder's contents, leaving an empty one in its place.
    fn take(&mut self) -> (r: PathRecorder)
        ensures
            r == *old(self),
            r.parents_reached_earlier(),
    {
        proof {
            use_type_invariant(&*self);
        }
        let mut r = PathRecorder {
            adj: Vec::new(),
            seen: Vec::new(),
            parent: Vec::new(),
            order: Vec::new(),
            stop_at: None,
            dead_end: None,
            rank: Ghost(Seq::empty()),
            reached_count: Ghost(0),
            depth: Ghost(Seq::empty()),
            expanded: Ghost(Seq::empty()),
        };
        std::mem::swap(self, &mut r);
        r
    }

    /// The path of recorded parents that ends at `target`: it starts at a vertex without a parent,
    /// in layer 0 and reached where `target` is, each next vertex is on the adjacency list of the
    /// one before, and it has one vertex more than the layer of `target`.
    pub fn path_to(&self, target: usize) -> (path: Vec<usize>)
        ensures
            path.len() >= 1,
            path.len() == self.layer(target) + 1,
            self.layer(path@[0]) == 0,
            (target as int) < self.reached().len() && self.reached()[target as int] ==> (
            path@[0] as int) < self.reached().len() && self.reached()[path@[0] as int],
            path@[path.len() - 1] == target,
            self.recorded_parent(path@[0]) is None,
            forall|j: int|
                0 < j < path.len() ==> self.recorded_parent(#[trigger] path@[j]) == Some(path@[j - 1]),
            forall|j: int|
                0 < j < path.len() ==> self.graph()[path@[j - 1] as int].contains(#[trigger] path@[j]),
    {
        proof {
            use_type_invariant(self);
            self.lemma_chain_ends(target);
        }
        let path = restore_path(self, target);
        proof {
            let len = path.len();
            self.lemma_ancestor_layer(target, (len - 1) as nat);
            if (target as int) < self.seen.len() && self.seen@[target as int] {
                self.lemma_ancestor_rank(target, (len - 1) as nat);
            }
            assert(ancestor(*self, target, (len - 1 - 0) as nat) == Some(path@[0]));
            if (path@[0] as int) < self.parent.len() {
                assert(self.parent@[path@[0] as int] is None);
            }
            assert forall|j: int| 0 < j < path.len() implies self.graph()[path@[j - 1] as int].contains(
                #[trigger] path@[j],
            ) by {
                assert(self.recorded_parent(path@[j]) == Some(path@[j - 1]));
                assert(self.parent@[path@[j] as int] == Some(path@[j - 1]));
            }
        }
        path
    }

    /// Following recorded parents from any vertex comes to an end, as parents are reached earlier.
    proof fn lemma_chain_ends(&self, target: usize)
        requires
            self.parents_reached_earlier(),
        ensures
            parent_chain_ends(*self, target),
    {
        if target < self.seen.len() && self.seen@[target as int] {
            let r = self.rank@[target as int];
            self.lemma_ancestor_rank(target, r + 1);
            assert(ancestor(*self, target, r + 1) is None);
        } else {
            assert(self.recorded_parent(target) is None);
            reveal_with_fuel(ancestor, 2);
            assert(ancestor(*self, target, 1) is None);
        }
    }

    /// The `j`-th ancestor of a vertex lies `j` layers below it.
    proof fn lemma_ancestor_layer(&self, target: usize, j: nat)
        requires
            self.parents_reached_earlier(),
        ensures
            ancestor(*self, target, j) matches Some(w) ==> self.layer(w) == self.layer(target) - j,
        decreases j,
    {
        if j > 0 {
            self.lemma_ancestor_layer(target, (j - 1) as nat);
            match ancestor(*self, target, (j - 1) as nat) {
                Some(w) => {
                    if (w as int) < self.parent.len() {
                        assert(self.parent@[w as int] matches Some(p) ==> self.depth@[w as int]
                            == self.depth@[p as int] + 1);
                    }
                },
                None => {},
            }
        }
    }

    /// The `j`-th ancestor of a reached vertex is reached at least `j` places earlier.
    proof fn lemma_ancestor_rank(&self, target: usize, j: nat)
        requires
            self.parents_reached_earlier(),
            target < self.seen.len(),
            self.seen@[target as int],
        ensures
            ancestor(*self, target, j) matches Some(w) ==> w < self.seen.len() && self.seen@[w as int]
                && self.rank@[w as int] + j <= self.rank@[target as int],
        decreases j,
    {
        if j > 0 {
            self.lemma_ancestor_rank(target, (j - 1) as nat);
            match ancestor(*self, target, (j - 1) as nat) {
                Some(w) => {
                    assert(self.parent@[w as int] matches Some(p) ==> self.rank@[p as int] < self.rank@[w as int]);
                },
                None => {},
            }
        }
    }

    /// The vertices taken from the queue so far, in order.
    pub fn taken_order(&self) -> (r: Vec<usize>)
        ensures
            r@ == self.taken(),
    {
        self.order.clone()
    }
}

impl BfsHandler for PathRecorder {
    type State = usize;

    closed spec fn valid(&self, state: usize) -> bool {
        self.wf() && state < self.adj.len()
    }

    closed spec fn visited(&self, state: usize) -> bool {
        state < self.seen.len() && self.seen@[state as int]
    }

    closed spec fn marked(&self, state: usize) -> bool {
        state < self.seen.len() && self.seen@[state as int]
    }

    closed spec fn successors(&self, state: usize) -> Seq<usize> {
        self.adj@[state as int]@
    }

    closed spec fn capacity(&self) -> nat {
        unset_count(self.seen@)
    }

    closed spec fn visits(&self) -> Seq<usize> {
        self.order@
    }

    closed spec fn expansions(&self) -> Seq<usize> {
        self.expanded@
    }

    closed spec fn layer(&self, state: usize) -> int {
        if (state as int) < self.depth@.len() {
            self.depth@[state as int]
        } else {
            0
        }
    }

    open spec fn key(state: usize) -> int {
        state as int
    }

    closed spec fn expands(&self, state: usize) -> bool {
        self.dead_end != Some(state)
    }

    closed spec fn stop_requested(&self) -> bool {
        self.stop_at matches Some(t) && self.order@.contains(t)
    }

    closed spec fn recorded_parent(&self, state: usize) -> Option<usize> {
        if state < self.parent.len() {
            self.parent@[state as int]
        } else {
            None
        }
    }

    closed spec fn same_setup(&self, other: PathRecorder) -> bool {
        &&& self.adj@ == other.adj@
        &&& self.seen.len() == other.seen.len()
        &&& self.parent.len() == other.parent.len()
        &&& self.stop_at == other.stop_at
        &&& self.dead_end == other.dead_end
    }

    proof fn lemma_same_setup_reflexive(&self) {
    }

    proof fn lemma_same_setup_transitive(&self, b: PathRecorder, c: PathRecorder) {
    }

    proof fn lemma_marked_is_visited(&self, state: usize) {
    }

    fn neighbors(&mut self, state: &usize) -> (r: Vec<usize>)
        ensures
            r@ == old(self).graph()[*state as int],
    {
        proof {
            use_type_invariant(&*self);
        }
        let r = self.adj[*state].clone();
        assert(r@ =~= self.adj@[*state as int]@);
        self.expanded = Ghost(self.expanded@.push(*state));
        r
    }

    fn mark_visited(&mut self, state: &usize, from: Option<&usize>)
        ensures
            final(self).reached() == old(self).reached().update(*state as int, true),
            final(self).parents() == old(self).parents().update(
                *state as int,
                match from {
                    Some(p) => Some(*p),
                    None => None,
                },
            ),
            final(self).taken() == old(self).taken(),
            final(self).graph() == old(self).graph(),
            final(self).stop_target() == old(self).stop_target(),
            final(self).dead_end_vertex() == old(self).dead_end_vertex(),
    {
        proof {
            use_type_invariant(&*self);
        }
        let v = *state;
        let p = match from {
            Some(u) => Some(*u),
            None => None,
        };
        let ghost d: int = match from {
            Some(u) => self.depth@[*u as int] + 1,
            None => 0,
        };
        proof {
            lemma_unset_count_set(self.seen@, v as int);
            assert(self.parent@[v as int] is None);
            assert(self.depth@[v as int] == 0);
        }
        let PathRecorder {
            adj,
            mut seen,
            mut parent,
            order,
            stop_at,
            dead_end,
            rank,
            reached_count,
            depth,
            expanded,
        } = self.take();
        let ghost count = reached_count@;
        seen.set(v, true);
        parent.set(v, p);
        *self = PathRecorder {
            adj,
            seen,
            parent,
            order,
            stop_at,
            dead_end,
            rank: Ghost(rank@.update(v as int, count)),
            reached_count: Ghost(count + 1),
            depth: Ghost(depth@.update(v as int, d)),
            expanded,
        };
    }

    fn is_visited(&self, state: &usize) -> (r: bool) {
        self.seen[*state]
    }

    fn on_visited(&mut self, state: &usize) -> (r: bool)
        ensures
            r == (old(self).dead_end_vertex() != Some(*state)),
            final(self).taken() == old(self).taken().push(*state),
            final(self).stop_target() == old(self).stop_target(),
            final(self).dead_end_vertex() == old(self).dead_end_vertex(),
            final(self).reached() == old(self).reached(),
            final(self).parents() == old(self).parents(),
            final(self).graph() == old(self).graph(),
    {
        let PathRecorder {
            adj,
            seen,
            parent,
            mut order,
            stop_at,
            dead_end,
            rank,
            reached_count,
            depth,
            expanded,
        } = self.take();
        order.push(*state);
        let go_on = match dead_end {
            Some(d) => d != *state,
            None => true,
        };
        *self = PathRecorder {
            adj,
            seen,
            parent,
            order,
            stop_at,
            dead_end,
            rank,
            reached_count,
            depth,
            expanded,
        };
        go_on
    }

    fn should_stop(&self) -> (r: bool)
        ensures
            r == (self.stop_target() matches Some(t) && self.taken().contains(t)),
    {
        match self.stop_at {
            Some(t) => contains(&self.order, t),
            None => false,
        }
    }

    fn parent(&self, state: &usize) -> (r: Option<usize>)
        ensures
            r == if (*state as int) < self.parents().len() {
                self.parents()[*state as int]
            } else {
                None
            },
    {
        if *state < self.parent.len() {
            self.parent[*state]
        } else {
            None
        }
    }
}

/// The states a recorder hands out for a vertex are exactly that vertex's adjacency list, every
/// entry in order.
pub proof fn lemma_handed_out_is_adjacency(h: PathRecorder, u: usize)
    requires
        (u as int) < h.graph().len(),
    ensures
        h.successors(u) == h.graph()[u as int],
{
}

/// Recorders with the same setup search the same graph.
pub proof fn lemma_same_setup_same_graph(a: PathRecorder, b: PathRecorder)
    requires
        a.same_setup(b),
    ensures
        b.graph() == a.graph(),
{
    assert(b.graph() =~= a.graph());
}

/// A search from vertices of a recorder on which nothing was reached yet, one that was not stopped
/// and skipped no vertex, reaches every vertex of a walk in its graph from a start, and the vertex
/// `j` edges along the walk lies in a layer no higher than `j`, so the path that `path_to` gives
/// for it has at most `j + 1` vertices. The conditions on `h` are what `bfs` ensures of a search
/// from `h0` over `starts`.
pub proof fn lemma_graph_walks_shortest(
    h0: PathRecorder,
    h: PathRecorder,
    starts: Seq<usize>,
    walk: Seq<usize>,
    j: int,
)
    requires
        forall|i: int| 0 <= i < h0.reached().len() ==> !h0.reached()[i],
        forall|v: usize| #[trigger] h0.layer(v) == 0,
        graded_search(h0, starts) ==> forall|i: int|
            0 <= i < starts.len() ==> key_marked_within(h, #[trigger] starts[i], h0.layer(starts[0])),
        graded_search(h0, starts) && !h.stop_requested() ==> forall|t: usize| #[trigger]
            newly_marked(h0, h, t) && h.expands(t) ==> relaxed(h, t),
        !h.stop_requested(),
        h.dead_end_vertex() is None,
        walk.len() >= 1,
        starts.contains(walk[0]),
        forall|i: int| 0 <= i < walk.len() ==> (#[trigger] walk[i] as int) < h.graph().len(),
        forall|i: int|
            0 <= i < walk.len() - 1 ==> h.graph()[walk[i] as int].contains(#[trigger] walk[i + 1]),
        0 <= j < walk.len(),
    ensures
        (walk[j] as int) < h.reached().len(),
        h.reached()[walk[j] as int],
        h.layer(walk[j]) <= j,
{
    assert forall|i: int| 0 <= i < walk.len() - 1 implies h.successors(walk[i]).contains(
        #[trigger] walk[i + 1],
    ) by {
        assert((walk[i] as int) < h.graph().len());
        lemma_handed_out_is_adjacency(h, walk[i]);
    }
    lemma_recorded_paths_shortest(h0, h, starts, walk, j);
}

/// A search over a recorder on which nothing was reached yet is graded.
proof fn lemma_fresh_search_graded(h0: PathRecorder, starts: Seq<usize>)
    requires
        forall|i: int| 0 <= i < h0.reached().len() ==> !h0.reached()[i],
        forall|v: usize| #[trigger] h0.layer(v) == 0,
    ensures
        graded_search(h0, starts),
        forall|t: usize| !h0.marked(t),
{
    reveal(visited_by_key);
    assert forall|g: PathRecorder, s: usize| #[trigger] g.visited(s) <==> exists|m: usize|
        #[trigger] g.marked(m) && PathRecorder::key(m) == PathRecorder::key(s) by {
        if g.visited(s) {
            assert(g.marked(s));
        }
    }
    assert forall|t: usize| !h0.marked(t) by {
        if (t as int) < h0.reached().len() {
            assert(!h0.reached()[t as int]);
        }
    }
}

/// After a search over a recorder on which nothing was reached yet, a reached vertex in layer 0,
/// such as the first vertex of every path that `path_to` gives for a reached vertex, is a start.
/// The condition on `h` is what `bfs` ensures of a search from `h0` over `starts`.
pub proof fn lemma_layer_zero_is_start(
    h0: PathRecorder,
    h: PathRecorder,
    starts: Seq<usize>,
    v: usize,
)
    requires
        forall|i: int| 0 <= i < h0.reached().len() ==> !h0.reached()[i],
        forall|u: usize| #[trigger] h0.layer(u) == 0,
        graded_search(h0, starts) ==> starts_lowest(h0, h, starts, h0.layer(starts[0])),
        (v as int) < h.reached().len(),
        h.reached()[v as int],
        h.layer(v) == 0,
    ensures
        starts.contains(v),
{
    lemma_fresh_search_graded(h0, starts);
    assert(h.marked(v));
    assert(newly_marked(h0, h, v));
}

/// A search from vertices of a recorder on which nothing was reached yet, one that was not stopped
/// and skipped no vertex, records shortest paths: every vertex of a walk from a start is reached,
/// and the vertex `j` edges along the walk lies in a layer no higher than `j`, so the path that
/// `path_to` gives for it has at most `j + 1` vertices. The conditions on `h` are what `bfs`
/// ensures of a search from `h0` over `starts`.
pub proof fn lemma_recorded_paths_shortest(
    h0: PathRecorder,
    h: PathRecorder,
    starts: Seq<usize>,
    walk: Seq<usize>,
    j: int,
)
    requires
        forall|i: int| 0 <= i < h0.reached().len() ==> !h0.reached()[i],
        forall|v: usize| #[trigger] h0.layer(v) == 0,
        graded_search(h0, starts) ==> forall|i: int|
            0 <= i < starts.len() ==> key_marked_within(h, #[trigger] starts[i], h0.layer(starts[0])),
        graded_search(h0, starts) && !h.stop_requested() ==> forall|t: usize| #[trigger]
            newly_marked(h0, h, t) && h.expands(t) ==> relaxed(h, t),
        !h.stop_requested(),
        h.dead_end_vertex() is None,
        successor_chain(h, starts, walk),
        0 <= j < walk.len(),
    ensures
        (walk[j] as int) < h.reached().len(),
        h.reached()[walk[j] as int],
        h.layer(walk[j]) <= j,
    decreases j,
{
    lemma_fresh_search_graded(h0, starts);
    if j == 0 {
        let i = choose|i: int| 0 <= i < starts.len() && starts[i] == walk[0];
        assert(key_marked_within(h, starts[i], 0));
        let m = choose|m: usize| #[trigger]
            h.marked(m) && PathRecorder::key(m) == PathRecorder::key(starts[i]) && h.layer(m) <= 0;
        assert(m == walk[0]);
    } else {
        lemma_recorded_paths_shortest(h0, h, starts, walk, j - 1);
        let u = walk[j - 1];
        assert(h.marked(u));
        assert(newly_marked(h0, h, u));
        assert(h.expands(u));
        assert(relaxed(h, u));
        assert(h.successors(walk[j - 1]).contains(walk[(j - 1) + 1]));
        let k = choose|k: int| 0 <= k < h.successors(u).len() && h.successors(u)[k] == walk[j];
        assert(key_marked_within(h, h.successors(u)[k], h.layer(u) + 1));
        let m = choose|m: usize| #[trigger]
            h.marked(m) && PathRecorder::key(m) == PathRecorder::key(walk[j]) && h.layer(m) <= h.layer(
                u,
            ) + 1;
        assert(m == walk[j]);
    }
}

fn contains(v: &Vec<usize>, x: usize) -> (r: bool)
    ensures
        r == v@.contains(x),
{
    let mut i: usize = 0;
    while i < v.len()
        invariant
            i <= v.len(),
            forall|j: int| 0 <= j < i ==> v@[j] != x,
        decreases v.len() - i,
    {
        if v[i] == x {
            return true;
        }
        i = i + 1;
    }
    false
}

} // verus!
