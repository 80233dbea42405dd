use vstd::prelude::*;
use crate::flight::{Flight, labels, contains_label, position_of, lemma_distinct_within};

verus! {

/// The destination-to-origin lookup that a batch describes: a later segment overwrites
/// an earlier one with the same destination.
pub open spec fn pred_map(b: Seq<Flight>) -> Map<Seq<char>, Seq<char>>
    decreases b.len(),
{
    if b.len() == 0 {
        Map::empty()
    } else {
        pred_map(b.drop_last()).insert(b.last().destination@, b.last().source@)
    }
}

/// A position at which `d` occurs in `keys`.
spec fn slot(keys: Seq<Seq<char>>, d: Seq<char>) -> int {
    choose|i: int| 0 <= i < keys.len() && keys[i] == d
}

/// Destination-to-origin lookup, one entry per destination.
pub struct PredecessorMap {
    destinations: Vec<String>,
    origins: Vec<String>,
}

impl View for PredecessorMap {
    type V = Map<Seq<char>, Seq<char>>;

    closed spec fn view(&self) -> Map<Seq<char>, Seq<char>> {
        Map::new(
            |d: Seq<char>| labels(self.destinations@).contains(d),
            |d: Seq<char>| labels(self.origins@)[slot(labels(self.destinations@), d)],
        )
    }
}

impl PredecessorMap {
    /// Whether the internal vectors agree in length and hold each destination once.
    pub closed spec fn wf(&self) -> bool {
        &&& self.destinations@.len() == self.origins@.len()
        &&& labels(self.destinations@).no_duplicates()
    }

    /// The number of entries.
    pub closed spec fn size(&self) -> nat {
        self.destinations@.len()
    }

    proof fn lemma_entry(&self, p: int)
        requires
            self.wf(),
            0 <= p < self.destinations@.len(),
        ensures
            self@.contains_key(self.destinations@[p]@),
            self@[self.destinations@[p]@] == self.origins@[p]@,
    {
        let d = self.destinations@[p]@;
        assert(labels(self.destinations@)[p] == d);
        let i = slot(labels(self.destinations@), d);
        assert(labels(self.destinations@)[i] == d);
        assert(labels(self.origins@)[i] == self.origins@[i]@);
    }

    pub fn new() -> (m: PredecessorMap)
        ensures
            m.wf(),
            m@ == Map::<Seq<char>, Seq<char>>::empty(),
    {
        let m = PredecessorMap { destinations: Vec::new(), origins: Vec::new() };
        assert(m@ =~= Map::<Seq<char>, Seq<char>>::empty());
        m
    }

    /// Maps `destination` to `origin`, replacing any earlier entry for `destination`.
    pub fn insert(&mut self, destination: String, origin: String)
        requires
            old(self).wf(),
        ensures
            final(self).wf(),
            final(self)@ == old(self)@.insert(destination@, origin@),
    {
        let ghost before = self@;
        match position_of(&self.destinations, &destination) {
            Some(p) => {
                let ghost old_o = self.origins@;
                self.origins.set(p, origin);
                assert(labels(self.destinations@)[p as int] == destination@);
                assert forall|d: Seq<char>| #[trigger]
                    self@.contains_key(d) implies self@[d] == before.insert(
                    destination@,
                    origin@,
                )[d] by {
                    let i = slot(labels(self.destinations@), d);
                    assert(labels(self.destinations@)[i] == d);
                    assert(labels(self.origins@)[i] == self.origins@[i]@);
                    if d != destination@ {
                        assert(i != p);
                        assert(self.origins@[i] == old_o[i]);
                    }
                }
                assert(self@ =~= before.insert(destination@, origin@));
            },
            None => {
                let ghost old_d = self.destinations@;
                let ghost old_o = self.origins@;
                self.destinations.push(destination);
                self.origins.push(origin);
                let ghost n = old_d.len() as int;
                assert(labels(self.destinations@) =~= labels(old_d).push(destination@));
                assert forall|d: Seq<char>| #[trigger]
                    self@.contains_key(d) implies self@[d] == before.insert(
                    destination@,
                    origin@,
                )[d] by {
                    let i = slot(labels(self.destinations@), d);
                    assert(labels(self.destinations@)[i] == d);
                    assert(labels(self.origins@)[i] == self.origins@[i]@);
                    if i < n {
                        assert(labels(old_d)[i] == d);
                        let j = slot(labels(old_d), d);
                        assert(labels(old_d)[j] == d);
                        assert(self.origins@[i] == old_o[i]);
                        assert(labels(old_o)[j] == old_o[j]@);
                    }
                }
                assert forall|d: Seq<char>| #[trigger]
                    before.insert(destination@, origin@).contains_key(d) implies self@.contains_key(
                    d,
                ) by {
                    if d != destination@ {
                        let j = choose|j: int| 0 <= j < old_d.len() && labels(old_d)[j] == d;
                        assert(labels(self.destinations@)[j] == d);
                    } else {
                        assert(labels(self.destinations@)[n] == d);
                    }
                }
                assert(self@ =~= before.insert(destination@, origin@));
            },
        }
    }

    /// The origin recorded for `destination`, if any.
    pub fn get(&self, destination: &String) -> (r: Option<&String>)
        requires
            self.wf(),
        ensures
            match r {
                Some(o) => self@.contains_key(destination@) && o@ == self@[destination@],
                None => !self@.contains_key(destination@),
            },
    {
        match position_of(&self.destinations, destination) {
            Some(p) => {
                proof {
                    self.lemma_entry(p as int);
                }
                Some(&self.origins[p])
            },
            None => None,
        }
    }

    /// One pass over the batch: each segment maps its destination to its origin, the
    /// later segment winning.
    pub fn build(flights: &Vec<Flight>) -> (m: PredecessorMap)
        ensures
            m.wf(),
            m@ == pred_map(flights@),
    {
        let mut m = PredecessorMap::new();
        let mut i: usize = 0;
        assert(flights@.take(0) =~= Seq::<Flight>::empty());
        while i < flights.len()
            invariant
                0 <= i <= flights.len(),
                m.wf(),
                m@ == pred_map(flights@.take(i as int)),
            decreases flights.len() - i,
        {
            assert(flights@.take(i + 1).drop_last() =~= flights@.take(i as int));
            m.insert(flights[i].destination.clone(), flights[i].source.clone());
            i = i + 1;
        }
        assert(flights@.take(flights@.len() as int) =~= flights@);
        m
    }
}

/// Why no itinerary could be reconstructed.
#[derive(Debug, Clone, Copy, PartialEq, Eq, Structural)]
pub enum ChainError {
    /// The batch holds no segment, so there is no start label.
    EmptyBatch,
    /// The backward walk came back to a label it had already passed.
    UnboundedWalk,
}

/// The label reached from `s` after `n` backward steps through `m`.
pub open spec fn back(m: Map<Seq<char>, Seq<char>>, s: Seq<char>, n: nat) -> Seq<char>
    decreases n,
{
    if n == 0 {
        s
    } else {
        m[back(m, s, (n - 1) as nat)]
    }
}

/// Whether each of the first `n` labels of the walk has a predecessor.
pub open spec fn steps_defined(m: Map<Seq<char>, Seq<char>>, s: Seq<char>, n: nat) -> bool {
    forall|i: nat| i < n ==> m.contains_key(#[trigger] back(m, s, i))
}

/// Whether the walk from `s` comes back to a label it has already passed.
pub open spec fn walk_cycles(m: Map<Seq<char>, Seq<char>>, s: Seq<char>) -> bool {
    exists|n: nat, i: nat| i < n && steps_defined(m, s, n) && back(m, s, i) == back(m, s, n)
}

/// Whether `p` is the whole walk from `s`: each label followed by its predecessor, up to
/// a label that has none.
pub open spec fn is_walk(m: Map<Seq<char>, Seq<char>>, s: Seq<char>, p: Seq<Seq<char>>) -> bool {
    &&& p.len() > 0
    &&& forall|i: int| 0 <= i < p.len() ==> p[i] == back(m, s, i as nat)
    &&& steps_defined(m, s, (p.len() - 1) as nat)
    &&& !m.contains_key(p.last())
}

/// Walks from `start` through the predecessor of each label until a label without one;
/// stops with `UnboundedWalk` instead where the walk would revisit a label.
pub fn walk_back(m: &PredecessorMap, start: &String) -> (r: Result<Vec<String>, ChainError>)
    requires
        m.wf(),
    ensures
        r is Ok ==> is_walk(m@, start@, labels(r->Ok_0@)),
        r is Ok ==> !walk_cycles(m@, start@),
        r is Err ==> r->Err_0 is UnboundedWalk,
        r is Err ==> walk_cycles(m@, start@),
{
    let ghost s = start@;
    let mut path: Vec<String> = Vec::new();
    path.push(start.clone());
    let mut cur = start.clone();
    assert(labels(path@) =~= seq![s]);
    loop
        invariant
            m.wf(),
            s == start@,
            1 <= path@.len() <= m.size() + 1,
            forall|i: int| 0 <= i < path@.len() ==> path@[i]@ == back(m@, s, i as nat),
            steps_defined(m@, s, (path@.len() - 1) as nat),
            labels(path@).no_duplicates(),
            cur@ == back(m@, s, (path@.len() - 1) as nat),
        decreases m.size() + 1 - path@.len(),
    {
        let ghost n = path@.len();
        match m.get(&cur) {
            None => {
                proof {
                    assert(labels(path@).last() == cur@);
                    assert forall|i: int| 0 <= i < labels(path@).len() implies labels(path@)[i]
                        == back(m@, s, i as nat) by {
                        assert(labels(path@)[i] == path@[i]@);
                    }
                    if walk_cycles(m@, s) {
                        let (k, i) = choose|k: nat, i: nat|
                            i < k && steps_defined(m@, s, k) && back(m@, s, i) == back(m@, s, k);
                        if k >= n {
                            assert(m@.contains_key(back(m@, s, (n - 1) as nat)));
                        } else {
                            assert(labels(path@)[i as int] == labels(path@)[k as int]);
                        }
                    }
                }
                return Ok(path);
            },
            Some(o) => {
                if contains_label(&path, o) {
                    proof {
                        let i = choose|i: int| 0 <= i < n && labels(path@)[i] == o@;
                        assert(back(m@, s, n as nat) == o@);
                        assert(back(m@, s, i as nat) == path@[i]@);
                        assert forall|j: nat| j < n implies m@.contains_key(
                            #[trigger] back(m@, s, j),
                        ) by {
                            if j == n - 1 {
                                assert(back(m@, s, j) == cur@);
                            }
                        }
                        assert(steps_defined(m@, s, n as nat));
                        assert(i < n && steps_defined(m@, s, n as nat) && back(m@, s, i as nat)
                            == back(m@, s, n as nat));
                    }
                    return Err(ChainError::UnboundedWalk);
                }
                proof {
                    assert forall|i: int| 0 <= i < n implies labels(m.destinations@).contains(
                        #[trigger] labels(path@)[i],
                    ) by {
                        assert(m@.contains_key(back(m@, s, i as nat)));
                    }
                    lemma_distinct_within(labels(path@), labels(m.destinations@));
                }
                let ghost before = labels(path@);
                let next = o.clone();
                path.push(o.clone());
                cur = next;
                assert(labels(path@) =~= before.push(o@));
                assert forall|j: nat| j < n implies m@.contains_key(#[trigger] back(m@, s, j)) by {
                    if j == n - 1 {
                        assert(back(m@, s, j) == before[j as int]);
                    }
                }
                assert(steps_defined(m@, s, n as nat));
            },
        }
    }
}

/// Reconstructs an itinerary by walking backward from the origin of the batch's first
/// segment through the predecessor of each label. The path starts at that origin and
/// ends at the earliest label reached.
pub fn flight_path(flights: &Vec<Flight>) -> (r: Result<Vec<String>, ChainError>)
    ensures
        r is Ok ==> flights@.len() > 0 && is_walk(
            pred_map(flights@),
            flights@[0].source@,
            labels(r->Ok_0@),
        ) && !walk_cycles(pred_map(flights@), flights@[0].source@),
        r matches Err(ChainError::EmptyBatch) <==> flights@.len() == 0,
        r matches Err(ChainError::UnboundedWalk) ==> flights@.len() > 0 && walk_cycles(
            pred_map(flights@),
            flights@[0].source@,
        ),
{
    if flights.len() == 0 {
        return Err(ChainError::EmptyBatch);
    }
    let m = PredecessorMap::build(flights);
    walk_back(&m, &flights[0].source)
}

/// A complete backward walk is determined by its map and its start: two walks from the
/// same start through the same map are the same sequence.
pub proof fn lemma_walk_unique(
    m: Map<Seq<char>, Seq<char>>,
    s: Seq<char>,
    p1: Seq<Seq<char>>,
    p2: Seq<Seq<char>>,
)
    requires
        is_walk(m, s, p1),
        is_walk(m, s, p2),
    ensures
        p1 == p2,
{
    if p1.len() < p2.len() {
        assert(m.contains_key(back(m, s, (p1.len() - 1) as nat)));
    } else if p2.len() < p1.len() {
        assert(m.contains_key(back(m, s, (p2.len() - 1) as nat)));
    }
    assert(p1 =~= p2);
}

/// Two segments that lead from one label to another and back make the backward walk
/// from the first origin come round again.
pub proof fn lemma_round_trip_cycles(b: Seq<Flight>)
    requires
        b.len() == 2,
        b[0].destination@ == b[1].source@,
        b[1].destination@ == b[0].source@,
    ensures
        walk_cycles(pred_map(b), b[0].source@),
{
    let m = pred_map(b);
    let s = b[0].source@;
    assert(b.drop_last().drop_last() =~= Seq::<Flight>::empty());
    assert(b.drop_last().last() == b[0]);
    assert(pred_map(b.drop_last().drop_last()) == Map::<Seq<char>, Seq<char>>::empty());
    assert(pred_map(b.drop_last()) == Map::<Seq<char>, Seq<char>>::empty().insert(
        b[0].destination@,
        s,
    ));
    assert(m == Map::<Seq<char>, Seq<char>>::empty().insert(b[0].destination@, s).insert(
        b[1].destination@,
        b[1].source@,
    ));
    assert(back(m, s, 0) == s);
    assert(back(m, s, 1) == b[1].source@);
    assert(back(m, s, 2) == s);
    assert(steps_defined(m, s, 2));
    assert(0 < 2nat && steps_defined(m, s, 2) && back(m, s, 0) == back(m, s, 2));
}

} // verus!
