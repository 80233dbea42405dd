use vstd::prelude::*;
use crate::flight::{Flight, labels, contains_label};
use crate::chain::{is_walk, pred_map, lemma_walk_unique};
use crate::graph::{Adjacency, AdjacencyGraph, succ, graph_of, has_origin, origin_slot};

verus! {

/// A pending descent: a label and the position of the next destination to look at.
pub type Frame = (Seq<char>, nat);

/// A descent in progress: the labels visited so far, in order, and the pending frames.
pub type Descent = (Seq<Seq<char>>, Seq<Frame>);

/// One step of a depth-first descent. The top frame either looks at its next
/// destination, visiting it and descending into it when it is new, or is done and leaves.
pub open spec fn descend_step(g: Adjacency, st: Descent) -> Descent {
    let path = st.0;
    let stack = st.1;
    if stack.len() == 0 {
        st
    } else {
        let l = stack.last().0;
        let j = stack.last().1;
        let ds = succ(g, l);
        if j >= ds.len() {
            (path, stack.drop_last())
        } else {
            let d = ds[j as int];
            let rest = stack.update(stack.len() - 1, (l, (j + 1) as nat));
            if path.contains(d) {
                (path, rest)
            } else {
                (path.push(d), rest.push((d, 0nat)))
            }
        }
    }
}

/// The descent after `k` steps.
pub open spec fn descend_run(g: Adjacency, st: Descent, k: nat) -> Descent
    decreases k,
{
    if k == 0 {
        st
    } else {
        descend_run(g, descend_step(g, st), (k - 1) as nat)
    }
}

/// Whether the descent has no pending frame left after `k` steps.
pub open spec fn settles(g: Adjacency, st: Descent, k: nat) -> bool {
    descend_run(g, st, k).1.len() == 0
}

/// A number of steps after which the descent has settled, where there is one.
pub open spec fn settle_steps(g: Adjacency, st: Descent) -> nat {
    choose|k: nat| settles(g, st, k)
}

/// The visitation order after a complete descent into `l`, with `p` visited before.
pub open spec fn descent(g: Adjacency, p: Seq<Seq<char>>, l: Seq<char>) -> Seq<Seq<char>> {
    let st = (p.push(l), seq![(l, 0nat)]);
    descend_run(g, st, settle_steps(g, st)).0
}

/// The visitation order after the first `n` origins have been taken in turn, each one
/// not yet visited starting a descent.
pub open spec fn traversal_from(g: Adjacency, n: nat) -> Seq<Seq<char>>
    decreases n,
{
    if n == 0 {
        Seq::empty()
    } else {
        let p = traversal_from(g, (n - 1) as nat);
        if n - 1 >= g.len() || p.contains(g[n - 1].0) {
            p
        } else {
            descent(g, p, g[n - 1].0)
        }
    }
}

/// The full visitation order of the adjacency list.
pub open spec fn traversal(g: Adjacency) -> Seq<Seq<char>> {
    traversal_from(g, g.len())
}

/// Every label of the adjacency list, origins and destinations, with repeats.
pub open spec fn universe(g: Adjacency) -> Seq<Seq<char>>
    decreases g.len(),
{
    if g.len() == 0 {
        Seq::empty()
    } else {
        universe(g.drop_last()) + seq![g.last().0] + g.last().1
    }
}

/// The labels of the adjacency list not yet visited.
pub open spec fn unvisited(g: Adjacency, p: Seq<Seq<char>>) -> Set<Seq<char>> {
    universe(g).to_set().difference(p.to_set())
}

/// Destinations that a frame has still to look at, plus one for leaving.
pub open spec fn frame_work(g: Adjacency, f: Frame) -> nat {
    if f.1 <= succ(g, f.0).len() {
        (succ(g, f.0).len() - f.1 + 1) as nat
    } else {
        1
    }
}

/// The work left on a whole stack.
pub open spec fn stack_work(g: Adjacency, s: Seq<Frame>) -> nat
    decreases s.len(),
{
    if s.len() == 0 {
        0
    } else {
        stack_work(g, s.drop_last()) + frame_work(g, s.last())
    }
}

/// The abstract frames of an executable stack.
pub open spec fn frames(s: Seq<(String, usize)>) -> Seq<Frame> {
    s.map_values(|f: (String, usize)| (f.0@, f.1 as nat))
}

proof fn lemma_universe(g: Adjacency, i: int)
    requires
        0 <= i < g.len(),
    ensures
        universe(g).contains(g[i].0),
        forall|j: int| 0 <= j < g[i].1.len() ==> universe(g).contains(#[trigger] g[i].1[j]),
    decreases g.len(),
{
    let u = universe(g);
    let before = universe(g.drop_last());
    if i == g.len() - 1 {
        assert(u[before.len() as int] == g[i].0);
        assert forall|j: int| 0 <= j < g[i].1.len() implies u.contains(#[trigger] g[i].1[j]) by {
            assert(u[before.len() + 1 + j] == g[i].1[j]);
        }
    } else {
        lemma_universe(g.drop_last(), i);
        assert(before.contains(g[i].0));
        let k = choose|k: int| 0 <= k < before.len() && before[k] == g[i].0;
        assert(u[k] == g[i].0);
        assert forall|j: int| 0 <= j < g[i].1.len() implies u.contains(#[trigger] g[i].1[j]) by {
            assert(before.contains(g.drop_last()[i].1[j]));
            let k = choose|k: int| 0 <= k < before.len() && before[k] == g[i].1[j];
            assert(u[k] == g[i].1[j]);
        }
    }
}

proof fn lemma_succ_in_universe(g: Adjacency, l: Seq<char>, j: int)
    requires
        0 <= j < succ(g, l).len(),
    ensures
        universe(g).contains(succ(g, l)[j]),
{
    assert(has_origin(g, l));
    let i = origin_slot(g, l);
    lemma_universe(g, i);
    assert(universe(g).contains(g[i].1[j]));
}

proof fn lemma_run_add(g: Adjacency, st: Descent, a: nat, b: nat)
    ensures
        descend_run(g, st, a + b) == descend_run(g, descend_run(g, st, a), b),
    decreases a,
{
    if a > 0 {
        lemma_run_add(g, descend_step(g, st), (a - 1) as nat, b);
        assert((a - 1) as nat + b == (a + b - 1) as nat);
    }
}

proof fn lemma_run_settled(g: Adjacency, st: Descent, k: nat)
    requires
        st.1.len() == 0,
    ensures
        descend_run(g, st, k) == st,
    decreases k,
{
    if k > 0 {
        lemma_run_settled(g, st, (k - 1) as nat);
    }
}

/// Once a descent has settled it stays as it is: every settled run gives the same state.
pub proof fn lemma_settles_unique(g: Adjacency, st: Descent, k1: nat, k2: nat)
    requires
        settles(g, st, k1),
        settles(g, st, k2),
    ensures
        descend_run(g, st, k1) == descend_run(g, st, k2),
{
    if k1 <= k2 {
        lemma_run_add(g, st, k1, (k2 - k1) as nat);
        lemma_run_settled(g, descend_run(g, st, k1), (k2 - k1) as nat);
        assert(k1 + (k2 - k1) as nat == k2);
    } else {
        lemma_run_add(g, st, k2, (k1 - k2) as nat);
        lemma_run_settled(g, descend_run(g, st, k2), (k1 - k2) as nat);
        assert(k2 + (k1 - k2) as nat == k1);
    }
}

proof fn lemma_run_next(g: Adjacency, st: Descent, k: nat)
    ensures
        descend_run(g, st, k + 1) == descend_step(g, descend_run(g, st, k)),
{
    lemma_run_add(g, st, k, 1);
    let mid = descend_run(g, st, k);
    assert(descend_run(g, descend_step(g, mid), 0) == descend_step(g, mid));
}

proof fn lemma_stack_work_top(g: Adjacency, s: Seq<Frame>, f: Frame)
    requires
        s.len() > 0,
    ensures
        stack_work(g, s.update(s.len() - 1, f)) == stack_work(g, s.drop_last()) + frame_work(g, f),
        stack_work(g, s) == stack_work(g, s.drop_last()) + frame_work(g, s.last()),
{
    let t = s.update(s.len() - 1, f);
    assert(t.drop_last() =~= s.drop_last());
}

/// Depth-first descent from `airport`: visits it, then each destination listed for it in
/// order, descending into each one not visited yet. `path` is the visitation order and
/// at the same time the set of visited labels.
pub fn dfs(graph: &AdjacencyGraph, airport: &String, path: &mut Vec<String>)
    requires
        graph.wf(),
        !labels(old(path)@).contains(airport@),
    ensures
        labels(final(path)@) == descent(graph@, labels(old(path)@), airport@),
        labels(old(path)@).no_duplicates() ==> labels(final(path)@).no_duplicates(),
{
    let ghost g = graph@;
    let ghost nodup = labels(path@).no_duplicates();
    let ghost before = labels(path@);
    let mut stack: Vec<(String, usize)> = Vec::new();
    path.push(airport.clone());
    stack.push((airport.clone(), 0));
    let ghost st0: Descent = (before.push(airport@), seq![(airport@, 0nat)]);
    assert(labels(path@) =~= st0.0);
    assert(frames(stack@) =~= st0.1);
    let ghost mut k: nat = 0;
    while stack.len() > 0
        invariant
            graph.wf(),
            g == graph@,
            st0 == (before.push(airport@), seq![(airport@, 0nat)]),
            descend_run(g, st0, k) == (labels(path@), frames(stack@)),
            nodup ==> labels(path@).no_duplicates(),
        decreases unvisited(g, labels(path@)).len(), stack_work(g, frames(stack@)),
    {
        let ghost cur = (labels(path@), frames(stack@));
        let top = stack.len() - 1;
        let l = stack[top].0.clone();
        let j = stack[top].1;
        assert(cur.1.last() == (l@, j as nat));
        proof {
            lemma_run_next(g, st0, k);
            lemma_stack_work_top(g, cur.1, (l@, (j + 1) as nat));
        }
        match graph.successor(&l, j) {
            None => {
                stack.pop();
                assert(frames(stack@) =~= cur.1.drop_last());
            },
            Some(d) => {
                stack.set(top, (l, j + 1));
                assert(frames(stack@) =~= cur.1.update(cur.1.len() - 1, (l@, (j + 1) as nat)));
                if !contains_label(path, &d) {
                    let ghost rest = frames(stack@);
                    path.push(d.clone());
                    stack.push((d, 0));
                    assert(labels(path@) =~= cur.0.push(d@));
                    assert(frames(stack@) =~= rest.push((d@, 0nat)));
                    proof {
                        lemma_succ_in_universe(g, l@, j as int);
                        lemma_unvisited_push(g, cur.0, d@);
                    }
                }
            },
        }
        proof {
            k = k + 1;
        }
    }
    proof {
        assert(settles(g, st0, k));
        lemma_settles_unique(g, st0, k, settle_steps(g, st0));
    }
}

/// Visits every label reachable from the batch's origins: origins in order of first
/// appearance, each not yet visited starting a depth-first descent.
pub fn calculate_flight_path(flights: &Vec<Flight>) -> (r: Vec<String>)
    ensures
        labels(r@) == traversal(graph_of(flights@)),
        labels(r@).no_duplicates(),
{
    let graph = AdjacencyGraph::build(flights);
    let ghost g = graph@;
    let mut path: Vec<String> = Vec::new();
    let mut i: usize = 0;
    assert(labels(path@) =~= Seq::<Seq<char>>::empty());
    while i < graph.origin_count()
        invariant
            graph.wf(),
            g == graph@,
            i <= g.len(),
            labels(path@) == traversal_from(g, i as nat),
            labels(path@).no_duplicates(),
        decreases g.len() - i,
    {
        let o = graph.origin(i);
        if !contains_label(&path, o) {
            dfs(&graph, o, &mut path);
        }
        i = i + 1;
    }
    path
}

/// An empty batch has no origin, so its traversal visits nothing.
pub proof fn lemma_empty_batch_traversal(b: Seq<Flight>)
    requires
        b.len() == 0,
    ensures
        traversal(graph_of(b)) == Seq::<Seq<char>>::empty(),
{
    assert(graph_of(b).len() == 0);
}

/// Whether `r` follows segments from an origin: it starts at an origin and each label is
/// listed among the destinations of the one before.
pub open spec fn is_route(g: Adjacency, r: Seq<Seq<char>>) -> bool {
    &&& r.len() > 0
    &&& has_origin(g, r[0])
    &&& forall|i: int| 0 <= i < r.len() - 1 ==> succ(g, #[trigger] r[i]).contains(r[i + 1])
}

/// Whether some route from an origin ends at `x`.
pub open spec fn reachable(g: Adjacency, x: Seq<char>) -> bool {
    exists|r: Seq<Seq<char>>| is_route(g, r) && r.last() == x
}

/// The labels reachable from some origin.
pub open spec fn reachable_set(g: Adjacency) -> Set<Seq<char>> {
    Set::new(|x: Seq<char>| reachable(g, x))
}

/// Whether `p` holds the first `j` destinations listed for `v`.
pub open spec fn covered(g: Adjacency, p: Seq<Seq<char>>, v: Seq<char>, j: nat) -> bool {
    forall|t: int| 0 <= t < j && t < succ(g, v).len() ==> p.contains(#[trigger] succ(g, v)[t])
}

/// Whether `p` holds every destination listed for `v`.
pub open spec fn closed(g: Adjacency, p: Seq<Seq<char>>, v: Seq<char>) -> bool {
    covered(g, p, v, succ(g, v).len())
}

/// Whether some frame of the stack is for `v`.
pub open spec fn on_stack(s: Seq<Frame>, v: Seq<char>) -> bool {
    exists|q: int| 0 <= q < s.len() && s[q].0 == v
}

/// Whether every label of `a` is in `b`.
pub open spec fn includes(a: Seq<Seq<char>>, b: Seq<Seq<char>>) -> bool {
    forall|x: Seq<char>| a.contains(x) ==> b.contains(x)
}

/// What holds of every state of a descent: the visited labels are distinct and
/// reachable, each frame's label is visited and its destinations looked at so far are
/// visited, and each visited label not on the stack has all its destinations visited.
pub open spec fn descent_inv(g: Adjacency, st: Descent) -> bool {
    let p = st.0;
    let s = st.1;
    &&& p.no_duplicates()
    &&& forall|x: Seq<char>| p.contains(x) ==> reachable(g, x)
    &&& forall|q: int| 0 <= q < s.len() ==> p.contains(#[trigger] s[q].0)
    &&& forall|q: int| 0 <= q < s.len() ==> covered(g, p, (#[trigger] s[q]).0, s[q].1)
    &&& forall|v: Seq<char>| p.contains(v) ==> closed(g, p, v) || on_stack(s, v)
}

proof fn lemma_covered_grows(g: Adjacency, p: Seq<Seq<char>>, p2: Seq<Seq<char>>, v: Seq<char>, j: nat)
    requires
        covered(g, p, v, j),
        includes(p, p2),
    ensures
        covered(g, p2, v, j),
{
    assert forall|t: int| 0 <= t < j && t < succ(g, v).len() implies p2.contains(
        #[trigger] succ(g, v)[t],
    ) by {
        assert(p.contains(succ(g, v)[t]));
    }
}

proof fn lemma_push_includes(p: Seq<Seq<char>>, d: Seq<char>)
    ensures
        includes(p, p.push(d)),
        p.push(d).contains(d),
        forall|x: Seq<char>| p.push(d).contains(x) ==> p.contains(x) || x == d,
{
    assert forall|x: Seq<char>| p.contains(x) implies p.push(d).contains(x) by {
        let i = choose|i: int| 0 <= i < p.len() && p[i] == x;
        assert(p.push(d)[i] == x);
    }
    assert(p.push(d)[p.len() as int] == d);
    assert forall|x: Seq<char>| p.push(d).contains(x) implies p.contains(x) || x == d by {
        let i = choose|i: int| 0 <= i < p.push(d).len() && p.push(d)[i] == x;
        if i < p.len() {
            assert(p[i] == x);
        }
    }
}

proof fn lemma_unvisited_push(g: Adjacency, p: Seq<Seq<char>>, d: Seq<char>)
    requires
        universe(g).contains(d),
        !p.contains(d),
    ensures
        unvisited(g, p.push(d)).len() < unvisited(g, p).len(),
{
    broadcast use vstd::seq_lib::seq_to_set_is_finite;

    lemma_push_includes(p, d);
    assert(p.push(d).to_set() =~= p.to_set().insert(d));
    assert(universe(g).to_set().contains(d));
    assert(unvisited(g, p).contains(d));
    assert(unvisited(g, p.push(d)) =~= unvisited(g, p).remove(d));
}

/// Every descent settles: the unvisited labels, then the work left on the stack, shrink.
proof fn lemma_descent_settles(g: Adjacency, st: Descent)
    ensures
        exists|k: nat| settles(g, st, k),
    decreases unvisited(g, st.0).len(), stack_work(g, st.1),
{
    let p = st.0;
    let s = st.1;
    if s.len() == 0 {
        assert(settles(g, st, 0));
    } else {
        let l = s.last().0;
        let j = s.last().1;
        lemma_stack_work_top(g, s, (l, (j + 1) as nat));
        if j < succ(g, l).len() {
            let d = succ(g, l)[j as int];
            if !p.contains(d) {
                lemma_succ_in_universe(g, l, j as int);
                lemma_unvisited_push(g, p, d);
            }
        }
        let nx = descend_step(g, st);
        lemma_descent_settles(g, nx);
        let k = choose|k: nat| settles(g, nx, k);
        assert(descend_run(g, st, k + 1) == descend_run(g, nx, k));
        assert(settles(g, st, k + 1));
    }
}

proof fn lemma_step_inv(g: Adjacency, st: Descent)
    requires
        descent_inv(g, st),
    ensures
        descent_inv(g, descend_step(g, st)),
        includes(st.0, descend_step(g, st).0),
{
    let p = st.0;
    let s = st.1;
    let nx = descend_step(g, st);
    if s.len() == 0 {
        return;
    }
    let top = s.len() - 1;
    let l = s.last().0;
    let j = s.last().1;
    if j >= succ(g, l).len() {
        assert forall|v: Seq<char>| p.contains(v) implies closed(g, p, v) || on_stack(nx.1, v) by {
            if !closed(g, p, v) {
                let q = choose|q: int| 0 <= q < s.len() && s[q].0 == v;
                if q < top {
                    assert(nx.1[q].0 == v);
                } else {
                    assert(covered(g, p, s[q].0, s[q].1));
                }
            }
        }
        assert forall|q: int| 0 <= q < nx.1.len() implies covered(g, p, (#[trigger] nx.1[q]).0, nx.1[q].1) by {
            assert(nx.1[q] == s[q]);
        }
        assert forall|q: int| 0 <= q < nx.1.len() implies p.contains(#[trigger] nx.1[q].0) by {
            assert(nx.1[q] == s[q]);
        }
    } else {
        let d = succ(g, l)[j as int];
        let rest = s.update(top, (l, (j + 1) as nat));
        let p2 = nx.0;
        let s2 = nx.1;
        lemma_push_includes(p, d);
        assert(includes(p, p2));
        assert(p2.contains(d));
        assert forall|q: int| 0 <= q < rest.len() implies covered(g, p2, (#[trigger] rest[q]).0, rest[q].1) by {
            if q < top {
                assert(rest[q] == s[q]);
                lemma_covered_grows(g, p, p2, s[q].0, s[q].1);
            } else {
                lemma_covered_grows(g, p, p2, s[q].0, s[q].1);
                assert forall|t: int| 0 <= t < j + 1 && t < succ(g, l).len() implies p2.contains(
                    #[trigger] succ(g, l)[t],
                ) by {
                    if t < j {
                        assert(covered(g, p2, s[q].0, s[q].1));
                    }
                }
            }
        }
        assert forall|q: int| 0 <= q < rest.len() implies p2.contains(#[trigger] rest[q].0) by {
            assert(p.contains(s[q].0));
        }
        if !p.contains(d) {
            assert(s2 == rest.push((d, 0nat)));
            assert forall|q: int| 0 <= q < s2.len() implies covered(g, p2, (#[trigger] s2[q]).0, s2[q].1) by {
                if q < rest.len() {
                    assert(s2[q] == rest[q]);
                }
            }
            assert forall|q: int| 0 <= q < s2.len() implies p2.contains(#[trigger] s2[q].0) by {
                if q < rest.len() {
                    assert(s2[q] == rest[q]);
                }
            }
            assert(reachable(g, d)) by {
                assert(p.contains(s[top].0));
                let r = choose|r: Seq<Seq<char>>| is_route(g, r) && r.last() == l;
                let r2 = r.push(d);
                assert(succ(g, l).contains(d));
                assert forall|i: int| 0 <= i < r2.len() - 1 implies succ(g, #[trigger] r2[i]).contains(
                    r2[i + 1],
                ) by {
                    if i < r.len() - 1 {
                        assert(r2[i] == r[i] && r2[i + 1] == r[i + 1]);
                    }
                }
                assert(is_route(g, r2) && r2.last() == d);
            }
        }
        assert forall|v: Seq<char>| p2.contains(v) implies closed(g, p2, v) || on_stack(s2, v) by {
            if p.contains(v) {
                if closed(g, p, v) {
                    lemma_covered_grows(g, p, p2, v, succ(g, v).len());
                } else {
                    let q = choose|q: int| 0 <= q < s.len() && s[q].0 == v;
                    assert(s2[q].0 == v);
                }
            } else {
                assert(v == d);
                assert(s2[s2.len() - 1].0 == d);
            }
        }
    }
}

proof fn lemma_run_inv(g: Adjacency, st: Descent, k: nat)
    requires
        descent_inv(g, st),
    ensures
        descent_inv(g, descend_run(g, st, k)),
        includes(st.0, descend_run(g, st, k).0),
    decreases k,
{
    if k > 0 {
        lemma_step_inv(g, st);
        lemma_run_inv(g, descend_step(g, st), (k - 1) as nat);
    }
}

proof fn lemma_descent_props(g: Adjacency, p0: Seq<Seq<char>>, l: Seq<char>)
    requires
        p0.no_duplicates(),
        forall|v: Seq<char>| p0.contains(v) ==> closed(g, p0, v) && reachable(g, v),
        reachable(g, l),
        !p0.contains(l),
    ensures
        descent(g, p0, l).no_duplicates(),
        forall|v: Seq<char>| #[trigger]
            descent(g, p0, l).contains(v) ==> closed(g, descent(g, p0, l), v) && reachable(g, v),
        includes(p0, descent(g, p0, l)),
        descent(g, p0, l).contains(l),
{
    let st0: Descent = (p0.push(l), seq![(l, 0nat)]);
    let p1 = st0.0;
    lemma_push_includes(p0, l);
    assert(p1.no_duplicates()) by {
        assert forall|i: int, j: int| 0 <= i < p1.len() && 0 <= j < p1.len() && i != j implies p1[i]
            != p1[j] by {
            if i < p0.len() && j < p0.len() {
            } else if i < p0.len() {
                assert(p0.contains(p0[i]));
            } else if j < p0.len() {
                assert(p0.contains(p0[j]));
            }
        }
    }
    assert forall|v: Seq<char>| p1.contains(v) implies closed(g, p1, v) || on_stack(st0.1, v) by {
        if p0.contains(v) {
            lemma_covered_grows(g, p0, p1, v, succ(g, v).len());
        } else {
            assert(st0.1[0].0 == v);
        }
    }
    assert(descent_inv(g, st0));
    lemma_descent_settles(g, st0);
    let k = settle_steps(g, st0);
    lemma_run_inv(g, st0, k);
    let fin = descend_run(g, st0, k);
    assert forall|v: Seq<char>| #[trigger] fin.0.contains(v) implies closed(g, fin.0, v)
        && reachable(g, v) by {
        assert(!on_stack(fin.1, v));
    }
    assert forall|x: Seq<char>| p0.contains(x) implies fin.0.contains(x) by {
        assert(p1.contains(x));
    }
}

proof fn lemma_traversal_from(g: Adjacency, n: nat)
    ensures
        traversal_from(g, n).no_duplicates(),
        forall|v: Seq<char>| #[trigger]
            traversal_from(g, n).contains(v) ==> closed(g, traversal_from(g, n), v) && reachable(
                g,
                v,
            ),
        forall|i: int| 0 <= i < n && i < g.len() ==> traversal_from(g, n).contains(#[trigger] g[i].0),
    decreases n,
{
    if n > 0 {
        let m = (n - 1) as nat;
        lemma_traversal_from(g, m);
        let p = traversal_from(g, m);
        if m < g.len() && !p.contains(g[m as int].0) {
            let o = g[m as int].0;
            let r = seq![o];
            assert(is_route(g, r) && r.last() == o);
            lemma_descent_props(g, p, o);
            assert forall|i: int| 0 <= i < n && i < g.len() implies traversal_from(g, n).contains(
                #[trigger] g[i].0,
            ) by {
                if i < m {
                    assert(p.contains(g[i].0));
                }
            }
        }
    }
}

proof fn lemma_route_visited(g: Adjacency, p: Seq<Seq<char>>, r: Seq<Seq<char>>)
    requires
        is_route(g, r),
        forall|v: Seq<char>| #[trigger] p.contains(v) ==> closed(g, p, v),
        forall|i: int| 0 <= i < g.len() ==> p.contains(#[trigger] g[i].0),
    ensures
        p.contains(r.last()),
    decreases r.len(),
{
    if r.len() == 1 {
        let i = choose|i: int| 0 <= i < g.len() && g[i].0 == r[0];
        assert(p.contains(g[i].0));
    } else {
        let r0 = r.drop_last();
        assert forall|i: int| 0 <= i < r0.len() - 1 implies succ(g, #[trigger] r0[i]).contains(
            r0[i + 1],
        ) by {
            assert(r0[i] == r[i] && r0[i + 1] == r[i + 1]);
        }
        lemma_route_visited(g, p, r0);
        let prev = r[r.len() - 2];
        assert(succ(g, r[r.len() - 2]).contains(r[r.len() - 1]));
        assert(closed(g, p, prev));
        let t = choose|t: int| 0 <= t < succ(g, prev).len() && succ(g, prev)[t] == r.last();
        assert(p.contains(succ(g, prev)[t]));
    }
}

/// The traversal of a batch visits every label reachable from one of its origins exactly
/// once, and nothing else: its length is the number of such labels.
pub proof fn lemma_traversal_visits_reachable_once(b: Seq<Flight>)
    ensures
        traversal(graph_of(b)).no_duplicates(),
        forall|x: Seq<char>|
            traversal(graph_of(b)).contains(x) <==> reachable(graph_of(b), x),
        traversal(graph_of(b)).len() == reachable_set(graph_of(b)).len(),
{
    let g = graph_of(b);
    let p = traversal(g);
    lemma_traversal_from(g, g.len());
    assert forall|x: Seq<char>| reachable(g, x) implies p.contains(x) by {
        let r = choose|r: Seq<Seq<char>>| is_route(g, r) && r.last() == x;
        lemma_route_visited(g, p, r);
    }
    assert(p.to_set() =~= reachable_set(g));
    p.unique_seq_to_set();
}

/// Both computations are functions of the batch alone: two traversals of one batch give
/// the same path, and so do two complete backward walks from its first origin.
pub proof fn lemma_repeatable(
    b: Seq<Flight>,
    t1: Seq<Seq<char>>,
    t2: Seq<Seq<char>>,
    c1: Seq<Seq<char>>,
    c2: Seq<Seq<char>>,
)
    requires
        b.len() > 0,
        t1 == traversal(graph_of(b)),
        t2 == traversal(graph_of(b)),
        is_walk(pred_map(b), b[0].source@, c1),
        is_walk(pred_map(b), b[0].source@, c2),
    ensures
        t1 == t2,
        c1 == c2,
{
    lemma_walk_unique(pred_map(b), b[0].source@, c1, c2);
}

} // verus!
