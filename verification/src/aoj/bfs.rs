use crate::graph::bfs::{
    bfs, graded_search, key_marked_within, new_expansions, new_visits, newly_marked,
    reached_from_search, relaxed, successors_visited, visited_by_key, BfsHandler,
};
use vstd::prelude::*;

verus! {

/// How many entries of `d` are filled in.
pub open spec fn filled(d: Seq<Option<i32>>) -> nat
    decreases d.len(),
{
    if d.len() == 0 {
        0
    } else {
        filled(d.drop_last()) + if d.last() is Some {
            1nat
        } else {
            0nat
        }
    }
}

proof fn lemma_filled_bound(d: Seq<Option<i32>>)
    ensures
        filled(d) <= d.len(),
    decreases d.len(),
{
    if d.len() > 0 {
        lemma_filled_bound(d.drop_last());
    }
}

proof fn lemma_filled_set(d: Seq<Option<i32>>, u: int, x: i32)
    requires
        0 <= u < d.len(),
        d[u] is None,
    ensures
        filled(d.update(u, Some(x))) == filled(d) + 1,
    decreases d.len(),
{
    let e = d.update(u, Some(x));
    if u == d.len() - 1 {
        assert(e.drop_last() =~= d.drop_last());
    } else {
        assert(e.drop_last() =~= d.drop_last().update(u, Some(x)));
        lemma_filled_set(d.drop_last(), u, x);
    }
}

/// Whether `path` is a walk in `g` that starts at vertex 0: each vertex is a vertex of `g` and
/// each next one is on the adjacency list of the one before.
pub open spec fn walk_from_zero_along(g: Seq<Seq<usize>>, path: Seq<int>) -> bool {
    &&& path.len() >= 1
    &&& path[0] == 0
    &&& forall|i: int| 0 <= i < path.len() ==> 0 <= #[trigger] path[i] < g.len()
    &&& forall|i: int|
        0 <= i < path.len() - 1 ==> g[path[i]].contains(#[trigger] path[i + 1] as usize)
}

/// Whether `v` can be reached from vertex 0 of `g` by a walk of exactly `k` edges.
pub open spec fn walk_from_zero(g: Seq<Seq<usize>>, v: int, k: nat) -> bool {
    exists|path: Seq<int>|
        #[trigger] walk_from_zero_along(g, path) && path.len() == k + 1 && path.last() == v
}

/// The adjacency lists of `graph`, as sequences.
pub open spec fn adjacency(graph: Seq<Vec<usize>>) -> Seq<Seq<usize>> {
    graph.map_values(|l: Vec<usize>| l@)
}

/// Whether every edge of `g` ends at a vertex of `g`.
pub open spec fn edges_in_range(g: Seq<Seq<usize>>) -> bool {
    forall|u: int, i: int| 0 <= u < g.len() && 0 <= i < g[u].len() ==> #[trigger] g[u][i] < g.len()
}

/// A search over a graph that records, for each vertex, the depth at which it was first reached.
pub struct S {
    graph: Vec<Vec<usize>>,
    dist: Vec<Option<i32>>,
    /// The states taken from the queue so far.
    taken: Ghost<Seq<(usize, i32)>>,
    /// The states whose successors were handed out so far.
    expanded: Ghost<Seq<(usize, i32)>>,
}

impl S {
    spec fn wf(&self) -> bool {
        &&& self.graph.len() == self.dist.len()
        &&& self.dist.len() <= i32::MAX
        &&& edges_in_range(adjacency(self.graph@))
        &&& forall|u: int|
            0 <= u < self.dist.len() ==> (#[trigger] self.dist@[u] matches Some(e) ==> 0 <= e
                < filled(self.dist@))
    }
}

impl BfsHandler for S {
    type State = (usize, i32);

    closed spec fn valid(&self, state: (usize, i32)) -> bool {
        &&& self.wf()
        &&& state.0 < self.dist.len()
        &&& 0 <= state.1 <= filled(self.dist@)
    }

    closed spec fn visited(&self, state: (usize, i32)) -> bool {
        state.0 < self.dist.len() && self.dist@[state.0 as int] is Some
    }

    closed spec fn marked(&self, state: (usize, i32)) -> bool {
        state.0 < self.dist.len() && self.dist@[state.0 as int] == Some(state.1)
    }

    closed spec fn successors(&self, state: (usize, i32)) -> Seq<(usize, i32)> {
        self.graph@[state.0 as int]@.map_values(|v: usize| (v, (state.1 + 1) as i32))
    }

    closed spec fn capacity(&self) -> nat {
        (self.dist.len() - filled(self.dist@)) as nat
    }

    closed spec fn visits(&self) -> Seq<(usize, i32)> {
        self.taken@
    }

    closed spec fn expansions(&self) -> Seq<(usize, i32)> {
        self.expanded@
    }

    closed spec fn recorded_parent(&self, state: (usize, i32)) -> Option<(usize, i32)> {
        None
    }

    open spec fn layer(&self, state: (usize, i32)) -> int {
        state.1 as int
    }

    open spec fn key(state: (usize, i32)) -> int {
        state.0 as int
    }

    closed spec fn same_setup(&self, other: S) -> bool {
        self.graph@ == other.graph@ && self.dist.len() == other.dist.len()
    }

    proof fn lemma_same_setup_reflexive(&self) {
    }

    proof fn lemma_same_setup_transitive(&self, b: S, c: S) {
    }

    proof fn lemma_marked_is_visited(&self, state: (usize, i32)) {
    }

    fn neighbors(&mut self, state: &(usize, i32)) -> (r: Vec<(usize, i32)>) {
        let (u, d) = *state;
        assert(self.dist@[u as int] matches Some(e) && e == d);
        proof {
            lemma_filled_bound(self.dist@);
        }
        let row = &self.graph[u];
        let mut out: Vec<(usize, i32)> = Vec::new();
        let mut i: usize = 0;
        while i < row.len()
            invariant
                self.wf(),
                u < self.graph.len(),
                row@ == self.graph@[u as int]@,
                0 <= d < filled(self.dist@),
                filled(self.dist@) <= self.dist.len(),
                i <= row.len(),
                out.len() == i,
                forall|j: int| 0 <= j < i ==> out@[j] == (row@[j], (d + 1) as i32),
            decreases row.len() - i,
        {
            assert(adjacency(self.graph@)[u as int][i as int] == row@[i as int]);
            out.push((row[i], d + 1));
            i = i + 1;
        }
        assert(out@ =~= self.successors(*state));
        self.expanded = Ghost(self.expanded@.push(*state));
        assert forall|j: int| 0 <= j < out.len() implies self.valid(#[trigger] out@[j]) by {
            assert(adjacency(self.graph@)[u as int][j] == row@[j]);
        }
        out
    }

    fn mark_visited(&mut self, state: &(usize, i32), from: Option<&(usize, i32)>) {
        let (u, d) = *state;
        proof {
            if let Some(p) = from {
                let i = choose|i: int|
                    0 <= i < self.successors(*p).len() && self.successors(*p)[i] == *state;
                lemma_filled_bound(self.dist@);
                assert(self.dist@[p.0 as int] == Some(p.1));
                assert(self.successors(*p)[i] == (self.graph@[p.0 as int]@[i], (p.1 + 1) as i32));
            }
            lemma_filled_set(self.dist@, u as int, d);
            lemma_filled_bound(self.dist@.update(u as int, Some(d)));
        }
        self.dist.set(u, Some(d));
    }

    fn is_visited(&self, state: &(usize, i32)) -> (r: bool) {
        self.dist[state.0].is_some()
    }

    fn on_visited(&mut self, state: &(usize, i32)) -> (r: bool) {
        self.taken = Ghost(self.taken@.push(*state));
        true
    }

    fn should_stop(&self) -> (r: bool) {
        false
    }

    fn parent(&self, _state: &(usize, i32)) -> (r: Option<(usize, i32)>) {
        None
    }
}

/// Every vertex marked at depth `d` is reached from vertex 0 by a walk of `d` edges.
proof fn lemma_marked_walks(
    h0: S,
    h: S,
    starts: Seq<(usize, i32)>,
    u: usize,
    d: i32,
) -> (path: Seq<int>)
    requires
        h.wf(),
        starts == seq![(0usize, 0i32)],
        forall|t: (usize, i32)| !h0.marked(t),
        forall|t: (usize, i32)| #[trigger]
            newly_marked(h0, h, t) ==> reached_from_search(h0, h, starts, t),
        forall|i: int|
            0 <= i < new_expansions(h0, h).len() ==> new_visits(h0, h).contains(
                #[trigger] new_expansions(h0, h)[i],
            ),
        forall|i: int|
            0 <= i < new_visits(h0, h).len() ==> newly_marked(h0, h, #[trigger] new_visits(h0, h)[i]),
        h.marked((u, d)),
    ensures
        d >= 0,
        walk_from_zero_along(adjacency(h.graph@), path),
        path.len() == d + 1,
        path.last() == u,
    decreases d,
{
    let g = adjacency(h.graph@);
    assert(newly_marked(h0, h, (u, d)));
    assert(h.dist@[u as int] == Some(d));
    assert(g.len() == h.graph@.len());
    if starts.contains((u, d)) {
        assert(starts[0] == (u, d));
        seq![0int]
    } else {
        let p = choose|p: (usize, i32)| #[trigger]
            new_expansions(h0, h).contains(p) && h.successors(p).contains((u, d));
        let j = choose|j: int| 0 <= j < new_expansions(h0, h).len() && new_expansions(h0, h)[j] == p;
        assert(new_visits(h0, h).contains(new_expansions(h0, h)[j]));
        let k = choose|k: int| 0 <= k < new_visits(h0, h).len() && new_visits(h0, h)[k] == p;
        assert(newly_marked(h0, h, new_visits(h0, h)[k]));
        let i = choose|i: int| 0 <= i < h.successors(p).len() && h.successors(p)[i] == (u, d);
        assert(h.successors(p)[i] == (h.graph@[p.0 as int]@[i], (p.1 + 1) as i32));
        assert(h.dist@[p.0 as int] == Some(p.1));
        assert(0 <= p.1 < filled(h.dist@));
        lemma_filled_bound(h.dist@);
        assert(d == p.1 + 1);
        let prefix = lemma_marked_walks(h0, h, starts, p.0, p.1);
        assert(g[p.0 as int][i] == u);
        let path = prefix.push(u as int);
        assert(path[path.len() - 2] == p.0);
        assert forall|j: int| 0 <= j < path.len() - 1 implies g[path[j]].contains(
            #[trigger] path[j + 1] as usize,
        ) by {
            if j < path.len() - 2 {
                assert(path[j] == prefix[j] && path[j + 1] == prefix[j + 1]);
            } else {
                assert(g[path[j]][i] == u);
            }
        }
        assert forall|j: int| 0 <= j < path.len() implies 0 <= #[trigger] path[j] < g.len() by {
            if j < path.len() - 1 {
                assert(path[j] == prefix[j]);
            }
        }
        path
    }
}

/// Every vertex on a walk from vertex 0 is visited, when vertex 0 is and the successors of every
/// marked vertex are visited.
proof fn lemma_walks_visited(h0: S, h: S, path: Seq<int>, j: int)
    requires
        h.wf(),
        h.visited((0usize, 0i32)),
        walk_from_zero_along(adjacency(h.graph@), path),
        0 <= j < path.len(),
        forall|t: (usize, i32)| !h0.marked(t),
        forall|t: (usize, i32)| #[trigger]
            newly_marked(h0, h, t) && h.expands(t) ==> successors_visited(h, t),
    ensures
        h.dist@[path[j]] is Some,
    decreases j,
{
    let g = adjacency(h.graph@);
    assert(g.len() == h.graph@.len());
    assert(0 <= path[j] < g.len());
    if j > 0 {
        lemma_walks_visited(h0, h, path, j - 1);
        let p = path[j - 1];
        assert(0 <= p < g.len());
        let e = h.dist@[p].unwrap();
        let t = (p as usize, e);
        assert(newly_marked(h0, h, t));
        assert(successors_visited(h, t));
        assert(g[path[j - 1]].contains(path[(j - 1) + 1] as usize));
        assert(g[p].contains(path[j] as usize));
        let i = choose|i: int| 0 <= i < g[p].len() && g[p][i] == path[j] as usize;
        assert(h.successors(t)[i] == (path[j] as usize, (e + 1) as i32));
    }
}

/// For each vertex of `graph`, the number of edges on a shortest walk to it from vertex 0, found
/// by breadth-first search; -1 for a vertex that no walk reaches.
pub fn solve(graph: Vec<Vec<usize>>) -> (dist: Vec<i32>)
    requires
        1 <= graph.len() <= i32::MAX,
        edges_in_range(adjacency(graph@)),
    ensures
        dist.len() == graph.len(),
        dist@[0] == 0,
        forall|v: int|
            0 <= v < dist.len() ==> (#[trigger] dist@[v] >= 0 ==> walk_from_zero(
                adjacency(graph@),
                v,
                dist@[v] as nat,
            )) && (dist@[v] == -1 <==> forall|k: nat| !walk_from_zero(adjacency(graph@), v, k)),
        forall|v: int, k: nat|
            0 <= v < dist.len() && #[trigger] walk_from_zero(adjacency(graph@), v, k) ==> dist@[v]
                <= k,
        forall|v: int|
            0 <= v < dist.len() ==> #[trigger] dist@[v] >= -1 && (dist@[v] >= 0 <==> exists|k: nat|
                walk_from_zero(adjacency(graph@), v, k)),
{
    let n = graph.len();
    let mut dist: Vec<Option<i32>> = Vec::new();
    while dist.len() < n
        invariant
            dist.len() <= n,
            forall|u: int| 0 <= u < dist.len() ==> dist@[u] is None,
        decreases n - dist.len(),
    {
        dist.push(None);
    }
    let ghost g = adjacency(graph@);
    let mut s = S { graph, dist, taken: Ghost(Seq::empty()), expanded: Ghost(Seq::empty()) };
    proof {
        assert(filled(s.dist@) == 0) by {
            lemma_filled_none(s.dist@);
        }
    }
    let ghost h0 = s;
    let starts = vec![(0usize, 0i32)];
    assert(starts@ == seq![(0usize, 0i32)]);
    assert(s.valid(starts@[0]));
    proof {
        lemma_graded(h0, starts@);
    }
    bfs(&mut s, starts);
    assert(s.visited((0usize, 0i32)));
    assert(s.graph@ == h0.graph@ && s.dist.len() == n);
    assert(s.valid((0usize, 0i32)));
    assert(s.marked((0usize, 0i32)));
    assert(adjacency(s.graph@) == g);
    assert forall|v: int| 0 <= v < n implies match #[trigger] s.dist@[v] {
        Some(e) => e >= 0 && walk_from_zero(g, v, e as nat),
        None => forall|k: nat| !walk_from_zero(g, v, k),
    } by {
        match s.dist@[v] {
            Some(e) => {
                assert(s.marked((v as usize, e)));
                let path = lemma_marked_walks(h0, s, seq![(0usize, 0i32)], v as usize, e);
                assert(walk_from_zero_along(g, path));
            },
            None => {
                assert forall|k: nat| !walk_from_zero(g, v, k) by {
                    if walk_from_zero(g, v, k) {
                        let path = choose|path: Seq<int>|
                            #[trigger] walk_from_zero_along(g, path) && path.len() == k + 1
                                && path.last() == v;
                        lemma_walks_visited(h0, s, path, k as int);
                    }
                }
            },
        }
    }
    assert forall|v: int, k: nat| 0 <= v < n && #[trigger] walk_from_zero(g, v, k) implies (
    s.dist@[v] matches Some(e) && e <= k) by {
        let path = choose|path: Seq<int>|
            #[trigger] walk_from_zero_along(g, path) && path.len() == k + 1 && path.last() == v;
        lemma_walk_bound(h0, s, path, k as int);
    }
    let mut out: Vec<i32> = Vec::new();
    let mut i: usize = 0;
    while i < n
        invariant
            n == s.dist.len(),
            s.graph@ == h0.graph@,
            i <= n,
            out.len() == i,
            forall|j: int| 0 <= j < i ==> #[trigger] out@[j] == match s.dist@[j] {
                Some(e) => e,
                None => -1i32,
            },
        decreases n - i,
    {
        let d = match s.dist[i] {
            Some(e) => e,
            None => -1,
        };
        out.push(d);
        i = i + 1;
    }
    out
}

/// A search over `S` from `(0, 0)` is graded: a vertex counts as visited by its index, and
/// nothing is marked yet.
proof fn lemma_graded(h0: S, starts: Seq<(usize, i32)>)
    requires
        starts == seq![(0usize, 0i32)],
        forall|u: int| 0 <= u < h0.dist.len() ==> h0.dist@[u] is None,
    ensures
        graded_search(h0, starts),
{
    reveal(visited_by_key);
    assert forall|h: S, s: (usize, i32)|
        #[trigger] h.visited(s) <==> exists|m: (usize, i32)| #[trigger] h.marked(m) && S::key(m)
            == S::key(s) by {
        if h.visited(s) {
            let m = (s.0, h.dist@[s.0 as int].unwrap());
            assert(h.marked(m));
        }
    }
    assert forall|t: (usize, i32)| !h0.marked(t) by {
        if t.0 < h0.dist.len() {
            assert(h0.dist@[t.0 as int] is None);
        }
    }
}

/// Along a walk from vertex 0, every vertex is marked at a depth no greater than its place on the
/// walk, when every marked state is relaxed.
proof fn lemma_walk_bound(h0: S, h: S, path: Seq<int>, j: int)
    requires
        h.wf(),
        h.dist@[0] == Some(0i32),
        walk_from_zero_along(adjacency(h.graph@), path),
        0 <= j < path.len(),
        forall|t: (usize, i32)| !h0.marked(t),
        forall|t: (usize, i32)| #[trigger]
            newly_marked(h0, h, t) && h.expands(t) ==> relaxed(h, t),
    ensures
        h.dist@[path[j]] matches Some(e) && e <= j,
    decreases j,
{
    let g = adjacency(h.graph@);
    assert(g.len() == h.graph@.len());
    assert(0 <= path[j] < g.len());
    if j > 0 {
        lemma_walk_bound(h0, h, path, j - 1);
        let p = path[j - 1];
        let e = h.dist@[p].unwrap();
        let t = (p as usize, e);
        assert(newly_marked(h0, h, t));
        assert(relaxed(h, t));
        assert(g[path[j - 1]].contains(path[(j - 1) + 1] as usize));
        let i = choose|i: int| 0 <= i < g[p].len() && g[p][i] == path[j] as usize;
        assert(h.successors(t)[i] == (path[j] as usize, (e + 1) as i32));
        assert(key_marked_within(h, h.successors(t)[i], h.layer(t) + 1));
        let m = choose|m: (usize, i32)| #[trigger]
            h.marked(m) && S::key(m) == S::key(h.successors(t)[i]) && h.layer(m) <= h.layer(t)
                + 1;
        assert(m.0 as int == path[j]);
    }
}

proof fn lemma_filled_none(d: Seq<Option<i32>>)
    requires
        forall|u: int| 0 <= u < d.len() ==> d[u] is None,
    ensures
        filled(d) == 0,
    decreases d.len(),
{
    if d.len() > 0 {
        lemma_filled_none(d.drop_last());
    }
}

} // verus!
