use vstd::prelude::*;

verus! {

/// One directed hop from an origin label to a destination label.
#[derive(Clone, Debug)]
pub struct Flight {
    pub source: String,
    pub destination: String,
}

impl Flight {
    pub fn new(source: String, destination: String) -> (r: Flight)
        ensures
            r.source@ == source@,
            r.destination@ == destination@,
    {
        Flight { source, destination }
    }
}

/// A fixed illustrative list of segments: SFO to EWR, ATL to EWR, SFO to ATL.
pub fn flights() -> (r: Vec<Flight>)
    ensures
        r@.len() == 3,
        r@[0].source@ == "SFO"@ && r@[0].destination@ == "EWR"@,
        r@[1].source@ == "ATL"@ && r@[1].destination@ == "EWR"@,
        r@[2].source@ == "SFO"@ && r@[2].destination@ == "ATL"@,
{
    let mut r: Vec<Flight> = Vec::new();
    r.push(Flight::new("SFO".to_owned(), "EWR".to_owned()));
    r.push(Flight::new("ATL".to_owned(), "EWR".to_owned()));
    r.push(Flight::new("SFO".to_owned(), "ATL".to_owned()));
    r
}

/// The character sequences of a sequence of strings.
pub open spec fn labels(v: Seq<String>) -> Seq<Seq<char>> {
    v.map_values(|s: String| s@)
}

/// Whether `v` holds a string equal to `l`.
pub fn contains_label(v: &Vec<String>, l: &String) -> (r: bool)
    ensures
        r == labels(v@).contains(l@),
{
    let mut i: usize = 0;
    while i < v.len()
        invariant
            0 <= i <= v.len(),
            forall|k: int| 0 <= k < i ==> v@[k]@ != l@,
        decreases v.len() - i,
    {
        if v[i] == *l {
            assert(labels(v@)[i as int] == l@);
            return true;
        }
        i = i + 1;
    }
    proof {
        if labels(v@).contains(l@) {
            let k = choose|k: int| 0 <= k < labels(v@).len() && labels(v@)[k] == l@;
            assert(v@[k]@ == l@);
        }
    }
    false
}

/// The first position in `v` of a string equal to `l`, if there is one.
pub fn position_of(v: &Vec<String>, l: &String) -> (r: Option<usize>)
    ensures
        match r {
            Some(i) => i < v@.len() && v@[i as int]@ == l@ && !labels(v@).take(i as int).contains(l@),
            None => !labels(v@).contains(l@),
        },
{
    let mut i: usize = 0;
    while i < v.len()
        invariant
            0 <= i <= v.len(),
            forall|k: int| 0 <= k < i ==> v@[k]@ != l@,
        decreases v.len() - i,
    {
        if v[i] == *l {
            proof {
                if labels(v@).take(i as int).contains(l@) {
                    let k = choose|k: int| 0 <= k < i && labels(v@).take(i as int)[k] == l@;
                    assert(v@[k]@ == l@);
                }
            }
            return Some(i);
        }
        i = i + 1;
    }
    proof {
        if labels(v@).contains(l@) {
            let k = choose|k: int| 0 <= k < labels(v@).len() && labels(v@)[k] == l@;
            assert(v@[k]@ == l@);
        }
    }
    None
}

/// A sequence without repeats, all of whose items occur in `b`, is no longer than `b`.
pub proof fn lemma_distinct_within(a: Seq<Seq<char>>, b: Seq<Seq<char>>)
    requires
        a.no_duplicates(),
        forall|i: int| 0 <= i < a.len() ==> b.contains(#[trigger] a[i]),
    ensures
        a.len() <= b.len(),
{
    broadcast use vstd::seq_lib::seq_to_set_is_finite;

    a.unique_seq_to_set();
    b.lemma_cardinality_of_set();
    assert(a.to_set().subset_of(b.to_set())) by {
        assert forall|x: Seq<char>| a.to_set().contains(x) implies b.to_set().contains(x) by {
            let i = choose|i: int| 0 <= i < a.len() && a[i] == x;
            assert(b.contains(a[i]));
        }
    }
    vstd::set_lib::lemma_len_subset(a.to_set(), b.to_set());
}

} // verus!
