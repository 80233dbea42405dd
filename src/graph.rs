use vstd::prelude::*;
use crate::flight::{Flight, labels, position_of};

verus! {

/// An adjacency list in the abstract: each origin with its destinations, origins in the
/// order of their first appearance.
pub type Adjacency = Seq<(Seq<char>, Seq<Seq<char>>)>;

/// The distinct origins of a batch, in the order of their first appearance.
pub open spec fn origins_of(b: Seq<Flight>) -> Seq<Seq<char>>
    decreases b.len(),
{
    if b.len() == 0 {
        Seq::empty()
    } else {
        let before = origins_of(b.drop_last());
        if before.contains(b.last().source@) {
            before
        } else {
            before.push(b.last().source@)
        }
    }
}

/// The destinations of the segments leaving `l`, in batch order, duplicates kept.
pub open spec fn dests_of(b: Seq<Flight>, l: Seq<char>) -> Seq<Seq<char>>
    decreases b.len(),
{
    if b.len() == 0 {
        Seq::empty()
    } else {
        let before = dests_of(b.drop_last(), l);
        if b.last().source@ == l {
            before.push(b.last().destination@)
        } else {
            before
        }
    }
}

/// The adjacency list that a batch describes.
pub open spec fn graph_of(b: Seq<Flight>) -> Adjacency {
    origins_of(b).map_values(|o: Seq<char>| (o, dests_of(b, o)))
}

/// Whether no origin of the adjacency list appears twice.
pub open spec fn keys_distinct(g: Adjacency) -> bool {
    forall|i: int, j: int| 0 <= i < g.len() && 0 <= j < g.len() && i != j ==> g[i].0 != g[j].0
}

/// Whether `l` is an origin of the adjacency list.
pub open spec fn has_origin(g: Adjacency, l: Seq<char>) -> bool {
    exists|i: int| 0 <= i < g.len() && g[i].0 == l
}

/// A position of `l` among the origins, where it is one.
pub open spec fn origin_slot(g: Adjacency, l: Seq<char>) -> int {
    choose|i: int| 0 <= i < g.len() && g[i].0 == l
}

/// The destinations listed for `l`; empty where `l` is no origin.
pub open spec fn succ(g: Adjacency, l: Seq<char>) -> Seq<Seq<char>> {
    if has_origin(g, l) {
        g[origin_slot(g, l)].1
    } else {
        Seq::empty()
    }
}

/// Where origins are distinct, the destinations listed for an origin are those beside it.
pub proof fn lemma_succ_at(g: Adjacency, i: int)
    requires
        keys_distinct(g),
        0 <= i < g.len(),
    ensures
        succ(g, g[i].0) == g[i].1,
{
    assert(has_origin(g, g[i].0));
    let k = origin_slot(g, g[i].0);
    assert(g[k].0 == g[i].0);
}

proof fn lemma_dests_of_non_origin(b: Seq<Flight>, l: Seq<char>)
    requires
        !origins_of(b).contains(l),
    ensures
        dests_of(b, l) == Seq::<Seq<char>>::empty(),
    decreases b.len(),
{
    if b.len() > 0 {
        let before = origins_of(b.drop_last());
        if before.contains(l) {
            if before.contains(b.last().source@) {
            } else {
                let k = choose|k: int| 0 <= k < before.len() && before[k] == l;
                assert(before.push(b.last().source@)[k] == l);
            }
        }
        lemma_dests_of_non_origin(b.drop_last(), l);
        if b.last().source@ == l {
            if !before.contains(b.last().source@) {
                assert(before.push(b.last().source@)[before.len() as int] == l);
            }
        }
    }
}

/// A batch's origins are listed once each.
pub proof fn lemma_origins_distinct(b: Seq<Flight>)
    ensures
        origins_of(b).no_duplicates(),
        keys_distinct(graph_of(b)),
    decreases b.len(),
{
    if b.len() > 0 {
        lemma_origins_distinct(b.drop_last());
    }
}

/// Origins with their destination lists, built from a batch of segments.
pub struct AdjacencyGraph {
    origins: Vec<String>,
    destinations: Vec<Vec<String>>,
}

impl View for AdjacencyGraph {
    type V = Adjacency;

    closed spec fn view(&self) -> Adjacency {
        Seq::new(
            self.origins@.len(),
            |i: int| (self.origins@[i]@, labels(self.destinations@[i]@)),
        )
    }
}

impl AdjacencyGraph {
    /// The number of origins.
    pub fn origin_count(&self) -> (r: usize)
        requires
            self.wf(),
        ensures
            r == self@.len(),
    {
        self.origins.len()
    }

    /// The origin at position `i`, in order of first appearance.
    pub fn origin(&self, i: usize) -> (r: &String)
        requires
            self.wf(),
            i < self@.len(),
        ensures
            r@ == self@[i as int].0,
    {
        &self.origins[i]
    }

    /// The `j`-th destination listed for `l`, if the list is that long.
    pub fn successor(&self, l: &String, j: usize) -> (r: Option<String>)
        requires
            self.wf(),
        ensures
            match r {
                Some(d) => j < succ(self@, l@).len() && d@ == succ(self@, l@)[j as int],
                None => j >= succ(self@, l@).len(),
            },
            succ(self@, l@).len() <= usize::MAX,
    {
        match position_of(&self.origins, l) {
            Some(p) => {
                proof {
                    lemma_succ_at(self@, p as int);
                }
                if j < self.destinations[p].len() {
                    assert(labels(self.destinations@[p as int]@)[j as int]
                        == self.destinations@[p as int]@[j as int]@);
                    Some(self.destinations[p][j].clone())
                } else {
                    None
                }
            },
            None => {
                assert(!has_origin(self@, l@)) by {
                    if has_origin(self@, l@) {
                        let i = choose|i: int| 0 <= i < self@.len() && self@[i].0 == l@;
                        assert(labels(self.origins@)[i] == l@);
                    }
                }
                None
            },
        }
    }

    /// Whether the internal vectors agree in length and hold each origin once.
    pub closed spec fn wf(&self) -> bool {
        self.origins@.len() == self.destinations@.len() && keys_distinct(self@)
    }

    /// One pass over the batch: each destination is appended to the list of its origin.
    pub fn build(flights: &Vec<Flight>) -> (g: AdjacencyGraph)
        ensures
            g.wf(),
            g@ == graph_of(flights@),
    {
        let mut g = AdjacencyGraph { origins: Vec::new(), destinations: Vec::new() };
        let mut i: usize = 0;
        assert(flights@.take(0) =~= Seq::<Flight>::empty());
        assert(g@ =~= graph_of(flights@.take(0)));
        while i < flights.len()
            invariant
                0 <= i <= flights.len(),
                g.wf(),
                g@ == graph_of(flights@.take(i as int)),
            decreases flights.len() - i,
        {
            let ghost prev = flights@.take(i as int);
            let ghost next = flights@.take(i + 1);
            assert(next.drop_last() =~= prev);
            let f = &flights[i];
            let ghost src = f.source@;
            proof {
                lemma_origins_distinct(prev);
                assert forall|k: int| 0 <= k < g.origins@.len() implies labels(g.origins@)[k]
                    == origins_of(prev)[k] by {
                    assert(g@[k] == graph_of(prev)[k]);
                }
                assert(labels(g.origins@) =~= origins_of(prev));
            }
            match position_of(&g.origins, &f.source) {
                Some(p) => {
                    let ghost old_g = g@;
                    let ghost old_d = g.destinations@;
                    let ghost old_o = g.origins@;
                    g.destinations[p].push(f.destination.clone());
                    assert(g.origins@ == old_o);
                    assert(origins_of(prev).contains(src)) by {
                        assert(origins_of(prev)[p as int] == src);
                    }
                    assert(origins_of(next) == origins_of(prev));
                    assert forall|k: int| 0 <= k < g@.len() implies g@[k] == graph_of(next)[k] by {
                        assert(old_g[k] == graph_of(prev)[k]);
                        if k == p {
                            assert(dests_of(next, src) == dests_of(prev, src).push(
                                f.destination@,
                            ));
                            assert(labels(g.destinations@[k]@) =~= old_g[k].1.push(
                                f.destination@,
                            ));
                        } else {
                            assert(g.destinations@[k] == old_d[k]);
                            assert(old_g[k].0 != old_g[p as int].0);
                            assert(dests_of(next, old_g[k].0) == dests_of(prev, old_g[k].0));
                        }
                    }
                    assert(g@ =~= graph_of(next));
                },
                None => {
                    let ghost old_g = g@;
                    let ghost old_o = g.origins@;
                    let ghost old_d = g.destinations@;
                    let mut list: Vec<String> = Vec::new();
                    list.push(f.destination.clone());
                    g.origins.push(f.source.clone());
                    g.destinations.push(list);
                    proof {
                        lemma_dests_of_non_origin(prev, src);
                        assert(labels(list@) =~= seq![f.destination@]);
                    }
                    assert forall|k: int| 0 <= k < g@.len() implies g@[k] == graph_of(next)[k] by {
                        if k < g@.len() - 1 {
                            assert(origins_of(prev)[k] != src);
                            assert(old_g[k] == graph_of(prev)[k]);
                            assert(g.origins@[k] == old_o[k] && g.destinations@[k] == old_d[k]);
                        } else {
                            assert(dests_of(next, src) =~= seq![f.destination@]);
                        }
                    }
                    assert(g@ =~= graph_of(next));
                },
            }
            proof {
                lemma_origins_distinct(next);
            }
            i = i + 1;
        }
        assert(flights@.take(flights@.len() as int) =~= flights@);
        g
    }
}

} // verus!
