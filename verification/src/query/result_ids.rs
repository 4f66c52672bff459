use crate::object::bytes::{as_unsigned64, to_unsigned64};
use vstd::prelude::*;

verus! {

#[verifier::external_type_specification]
#[verifier::external_body]
#[verifier::reject_recursive_types(V)]
pub struct ExIntMap<V>(intmap::IntMap<V>);

/// The keys that an `IntMap` holds.
pub uninterp spec fn map_keys(m: intmap::IntMap<()>) -> Set<u64>;

/// `intmap::IntMap::new`: a map that holds no key.
#[verifier::external_body]
fn map_new() -> (m: intmap::IntMap<()>)
    ensures
        map_keys(m) == Set::<u64>::empty(),
{
    intmap::IntMap::new()
}

/// `intmap::IntMap::insert`: puts the key in unless the map holds it
/// already, and tells whether it did put it in.
#[verifier::external_body]
fn map_insert(m: &mut intmap::IntMap<()>, key: u64) -> (fresh: bool)
    ensures
        fresh == !map_keys(*old(m)).contains(key),
        map_keys(*final(m)) == map_keys(*old(m)).insert(key),
{
    m.insert(key, ())
}

/// The ids that a query has yielded so far, kept only where repeats are
/// possible.
pub struct ResultIds {
    ids: Option<intmap::IntMap<()>>,
}

impl ResultIds {
    /// Whether ids are kept at all.
    pub closed spec fn tracking(&self) -> bool {
        self.ids is Some
    }

    /// The ids kept so far; none where none are kept.
    pub closed spec fn seen(&self) -> Set<i64> {
        match self.ids {
            Some(m) => Set::new(|id: i64| map_keys(m).contains(as_unsigned64(id as int) as u64)),
            None => Set::empty(),
        }
    }

    pub fn new(track: bool) -> (r: ResultIds)
        ensures
            r.tracking() == track,
            r.seen() == Set::<i64>::empty(),
    {
        let r = if track {
            ResultIds { ids: Some(map_new()) }
        } else {
            ResultIds { ids: None }
        };
        assert(r.seen() =~= Set::<i64>::empty());
        r
    }

    /// Whether `id` may be yielded: always where no ids are kept; else
    /// only the first time, and the id is kept from then on.
    pub fn accept(&mut self, id: i64) -> (fresh: bool)
        ensures
            final(self).tracking() == old(self).tracking(),
            old(self).tracking() ==> fresh == !old(self).seen().contains(id) && final(self).seen()
                == old(self).seen().insert(id),
            !old(self).tracking() ==> fresh && final(self).seen() == old(self).seen(),
    {
        let key = to_unsigned64(id);
        match self.ids.take() {
            Some(mut m) => {
                let ghost before = map_keys(m);
                let fresh = map_insert(&mut m, key);
                self.ids = Some(m);
                proof {
                    assert forall|x: i64|
                        self.seen().contains(x) == old(self).seen().insert(id).contains(x) by {
                        if as_unsigned64(x as int) == as_unsigned64(id as int) {
                            assert(x == id);
                        }
                    }
                    assert(self.seen() =~= old(self).seen().insert(id));
                }
                fresh
            },
            None => {
                self.ids = None;
                true
            },
        }
    }
}

} // verus!
