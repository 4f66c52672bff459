use vstd::prelude::*;

verus! {

/// A hash set of stored pairs, for looking at what a database holds
/// without regard to order.
#[verifier::external_body]
#[derive(Debug)]
pub struct DumpSet {
    set: hashbrown::HashSet<(Vec<u8>, Vec<u8>)>,
}

/// The pairs that a `DumpSet` holds.
pub uninterp spec fn dump_entries(s: DumpSet) -> Set<(Seq<u8>, Seq<u8>)>;

/// `hashbrown::HashSet::new`: a set that holds nothing.
#[verifier::external_body]
fn set_new() -> (s: DumpSet)
    ensures
        dump_entries(s) == Set::<(Seq<u8>, Seq<u8>)>::empty(),
{
    DumpSet { set: hashbrown::HashSet::new() }
}

/// `hashbrown::HashSet::insert`: afterwards the set holds the pair besides
/// what it held; the result tells whether the pair is new.
#[verifier::external_body]
fn set_insert(s: &mut DumpSet, key: Vec<u8>, val: Vec<u8>) -> (fresh: bool)
    ensures
        fresh == !dump_entries(*old(s)).contains((key@, val@)),
        dump_entries(*final(s)) == dump_entries(*old(s)).insert((key@, val@)),
{
    s.set.insert((key, val))
}

/// `hashbrown::HashSet::contains`: whether the set holds the pair.
#[verifier::external_body]
fn set_contains(s: &DumpSet, key: Vec<u8>, val: Vec<u8>) -> (r: bool)
    ensures
        r == dump_entries(*s).contains((key@, val@)),
{
    s.set.contains(&(key, val))
}

/// `hashbrown::HashSet::is_empty`: whether the set holds nothing.
#[verifier::external_body]
fn set_is_empty(s: &DumpSet) -> (r: bool)
    ensures
        r == (dump_entries(*s) == Set::<(Seq<u8>, Seq<u8>)>::empty()),
{
    s.set.is_empty()
}

/// `==` of `hashbrown::HashSet`: whether both sets hold the same pairs.
#[verifier::external_body]
fn set_equal(a: &DumpSet, b: &DumpSet) -> (r: bool)
    ensures
        r == (dump_entries(*a) == dump_entries(*b)),
{
    a.set == b.set
}

impl DumpSet {
    pub fn new() -> (s: DumpSet)
        ensures
            dump_entries(s) == Set::<(Seq<u8>, Seq<u8>)>::empty(),
    {
        set_new()
    }

    /// Puts the pair in; tells whether it is new.
    pub fn insert(&mut self, key: Vec<u8>, val: Vec<u8>) -> (fresh: bool)
        ensures
            fresh == !dump_entries(*old(self)).contains((key@, val@)),
            dump_entries(*final(self)) == dump_entries(*old(self)).insert((key@, val@)),
    {
        set_insert(self, key, val)
    }

    /// The set that holds exactly the pairs of the list.
    pub fn from_pairs(pairs: Vec<(Vec<u8>, Vec<u8>)>) -> (s: DumpSet)
        ensures
            forall|e: (Seq<u8>, Seq<u8>)|
                dump_entries(s).contains(e) <==> exists|i: int|
                    0 <= i < pairs@.len() && ((#[trigger] pairs@[i]).0@, pairs@[i].1@) == e,
    {
        let mut set = set_new();
        let mut i: usize = 0;
        while i < pairs.len()
            invariant
                i <= pairs.len(),
                forall|e: (Seq<u8>, Seq<u8>)|
                    dump_entries(set).contains(e) <==> exists|k: int|
                        0 <= k < i && ((#[trigger] pairs@[k]).0@, pairs@[k].1@) == e,
            decreases pairs.len() - i,
        {
            let ghost before = dump_entries(set);
            let key = crate::order::copy_bytes(pairs[i].0.as_slice());
            let val = crate::order::copy_bytes(pairs[i].1.as_slice());
            set_insert(&mut set, key, val);
            proof {
                assert forall|e: (Seq<u8>, Seq<u8>)|
                    dump_entries(set).contains(e) <==> exists|k: int|
                        0 <= k < i + 1 && ((#[trigger] pairs@[k]).0@, pairs@[k].1@) == e by {
                    let here = (pairs@[i as int].0@, pairs@[i as int].1@);
                    assert(dump_entries(set).contains(e) <==> (before.contains(e) || e == here));
                    if before.contains(e) {
                        let k = choose|k: int|
                            0 <= k < i && ((#[trigger] pairs@[k]).0@, pairs@[k].1@) == e;
                        assert(0 <= k < i + 1 && (pairs@[k].0@, pairs@[k].1@) == e);
                    }
                    if exists|k: int|
                        0 <= k < i + 1 && ((#[trigger] pairs@[k]).0@, pairs@[k].1@) == e {
                        let k = choose|k: int|
                            0 <= k < i + 1 && ((#[trigger] pairs@[k]).0@, pairs@[k].1@) == e;
                        if k < i {
                            assert(before.contains(e));
                        }
                    }
                }
            }
            i += 1;
        }
        set
    }

    /// Whether the set holds the pair.
    pub fn contains(&self, key: Vec<u8>, val: Vec<u8>) -> (r: bool)
        ensures
            r == dump_entries(*self).contains((key@, val@)),
    {
        set_contains(self, key, val)
    }

    pub fn is_empty(&self) -> (r: bool)
        ensures
            r == (dump_entries(*self) == Set::<(Seq<u8>, Seq<u8>)>::empty()),
    {
        set_is_empty(self)
    }
}

impl PartialEq for DumpSet {
    fn eq(&self, other: &DumpSet) -> (r: bool) {
        set_equal(self, other)
    }
}

impl vstd::std_specs::cmp::PartialEqSpecImpl for DumpSet {
    open spec fn obeys_eq_spec() -> bool {
        true
    }

    open spec fn eq_spec(&self, other: &DumpSet) -> bool {
        dump_entries(*self) == dump_entries(*other)
    }
}

} // verus!
