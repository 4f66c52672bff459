use crate::error::IsarError;
use crate::key::{spec_int_key, spec_key_of, IntKey};
use crate::query::result_ids::ResultIds;
use crate::store::{pairs_of, spec_scan, Db, Entry, Pair};
use vstd::prelude::*;

verus! {

/// The id of the object stored in a pair of a collection's data.
pub open spec fn id_of(e: Pair) -> i64 {
    spec_key_of(e.0).id
}

/// The ids of the objects of a sequence of pairs.
pub open spec fn ids_of(s: Seq<Pair>) -> Set<i64> {
    Set::new(|id: i64| exists|i: int| 0 <= i < s.len() && id_of(#[trigger] s[i]) == id)
}

/// Of the pairs `s`, those whose id is not in `seen` and has not come
/// earlier in `s`, in their order.
pub open spec fn accepted(s: Seq<Pair>, seen: Set<i64>) -> Seq<Pair>
    decreases s.len(),
{
    if s.len() == 0 {
        Seq::empty()
    } else {
        let rest = accepted(s.drop_last(), seen);
        let id = id_of(s.last());
        if seen.contains(id) || ids_of(s.drop_last()).contains(id) {
            rest
        } else {
            rest.push(s.last())
        }
    }
}

/// What a scan yields of its candidates: all of them where no ids are
/// kept, else those that are new.
pub open spec fn yielded(s: Seq<Pair>, tracking: bool, seen: Set<i64>) -> Seq<Pair> {
    if tracking {
        accepted(s, seen)
    } else {
        s
    }
}

/// The ids kept after a scan over the candidates `s`.
pub open spec fn seen_after(s: Seq<Pair>, tracking: bool, seen: Set<i64>) -> Set<i64> {
    if tracking {
        seen.union(ids_of(s))
    } else {
        seen
    }
}

/// Whether every pair has a well-formed id key.
pub open spec fn keys_sound(s: Seq<Pair>) -> bool {
    forall|i: int| 0 <= i < s.len() ==> (#[trigger] s[i]).0.len() == 10
}

/// Passes the candidates on that `result_ids` accepts. A candidate whose
/// key is no id key is a corruption.
pub fn accept_entries(candidates: Vec<Entry>, result_ids: &mut ResultIds) -> (r: Result<
    Vec<Entry>,
    IsarError,
>)
    ensures
        final(result_ids).tracking() == old(result_ids).tracking(),
        r is Ok <==> keys_sound(pairs_of(candidates@)),
        r matches Err(e) ==> e is DbCorrupted,
        r matches Ok(out) ==> pairs_of(out@) == yielded(
            pairs_of(candidates@),
            old(result_ids).tracking(),
            old(result_ids).seen(),
        ) && final(result_ids).seen() == seen_after(
            pairs_of(candidates@),
            old(result_ids).tracking(),
            old(result_ids).seen(),
        ),
{
    let ghost all = pairs_of(candidates@);
    let ghost seen0 = result_ids.seen();
    let ghost tracking = result_ids.tracking();
    let mut out: Vec<Entry> = Vec::new();
    let mut i: usize = 0;
    proof {
        assert(ids_of(all.take(0)) =~= Set::<i64>::empty());
        assert(seen0.union(ids_of(all.take(0))) =~= seen0);
        assert(pairs_of(out@) =~= all.take(0));
    }
    while i < candidates.len()
        invariant
            i <= candidates.len(),
            all == pairs_of(candidates@),
            seen0 == old(result_ids).seen(),
            tracking == old(result_ids).tracking(),
            result_ids.tracking() == tracking,
            keys_sound(all.take(i as int)),
            pairs_of(out@) == yielded(all.take(i as int), tracking, seen0),
            result_ids.seen() == seen_after(all.take(i as int), tracking, seen0),
        decreases candidates.len() - i,
    {
        let ghost before = pairs_of(out@);
        let ghost head = all.take(i as int);
        let ghost upto = all.take(i + 1);
        let ghost e = all[i as int];
        proof {
            assert(upto.drop_last() =~= head);
            assert(upto.last() == e);
            assert(e == candidates@[i as int].pair());
        }
        let key = match IntKey::from_bytes(candidates[i].key.as_slice()) {
            Some(key) => key,
            None => {
                proof {
                    assert(all[i as int].0.len() != 10);
                }
                return Err(IsarError::DbCorrupted { message: "Malformed id key.".to_string() });
            },
        };
        proof {
            crate::key::lemma_key_of(key);
            assert(id_of(e) == key.id);
            assert(keys_sound(upto)) by {
                assert forall|k: int| 0 <= k < upto.len() implies (#[trigger] upto[k]).0.len()
                    == 10 by {
                    if k < i {
                        assert(head[k] == upto[k]);
                    }
                }
            }
            assert(ids_of(upto) =~= ids_of(head).insert(key.id)) by {
                assert forall|x: i64| ids_of(upto).contains(x) == ids_of(head).insert(
                    key.id,
                ).contains(x) by {
                    if ids_of(upto).contains(x) {
                        let w = choose|w: int| 0 <= w < upto.len() && id_of(#[trigger] upto[w]) == x;
                        if w < i {
                            assert(head[w] == upto[w]);
                        }
                    }
                    if ids_of(head).contains(x) {
                        let w = choose|w: int| 0 <= w < head.len() && id_of(#[trigger] head[w]) == x;
                        assert(upto[w] == head[w]);
                    }
                    if x == key.id {
                        assert(id_of(upto[i as int]) == x);
                    }
                }
            }
        }
        if result_ids.accept(key.id) {
            out.push(
                Entry {
                    key: crate::order::copy_bytes(candidates[i].key.as_slice()),
                    val: crate::order::copy_bytes(candidates[i].val.as_slice()),
                },
            );
            proof {
                assert(pairs_of(out@) =~= before.push(e));
                if !tracking {
                    assert(upto =~= head.push(e));
                }
            }
        }
        proof {
            if tracking {
                assert(result_ids.seen() =~= seen0.union(ids_of(upto)));
            }
        }
        i += 1;
    }
    proof {
        assert(all.take(i as int) =~= all);
    }
    Ok(out)
}

/// A scan of the objects of a collection by id: those whose id lies
/// between `lower` and `upper`, both included. Where `lower` is above
/// `upper` the range is empty.
#[derive(Clone, Copy, Debug)]
pub struct IdWhereClause {
    pub prefix: u16,
    pub lower: i64,
    pub upper: i64,
    pub ascending: bool,
}

impl IdWhereClause {
    /// Whether the id lies in the range.
    pub open spec fn spec_contains(&self, id: i64) -> bool {
        self.lower <= id <= self.upper
    }

    /// Whether some id lies in both ranges.
    pub open spec fn spec_overlapping(&self, other: &Self) -> bool {
        exists|id: i64| self.spec_contains(id) && other.spec_contains(id)
    }

    /// The pairs of `data` that the scan visits, in its order.
    pub open spec fn candidates(&self, data: Seq<Pair>) -> Seq<Pair> {
        if self.lower > self.upper {
            Seq::empty()
        } else {
            spec_scan(
                data,
                spec_int_key(self.prefix, self.lower),
                spec_int_key(self.prefix, self.upper),
                false,
                self.ascending,
            )
        }
    }

    /// The range between two ids, each bound included or not.
    pub fn new(
        prefix: u16,
        lower: i64,
        include_lower: bool,
        upper: i64,
        include_upper: bool,
        ascending: bool,
    ) -> (wc: IdWhereClause)
        ensures
            wc.prefix == prefix,
            wc.ascending == ascending,
            forall|id: i64|
                wc.spec_contains(id) <==> ((lower < id || (include_lower && lower == id)) && (id
                    < upper || (include_upper && upper == id))),
    {
        if (!include_lower && lower == i64::MAX) || (!include_upper && upper == i64::MIN) {
            return IdWhereClause { prefix, lower: 1, upper: 0, ascending };
        }
        let lo: i64 = if include_lower {
            lower
        } else {
            lower + 1
        };
        let hi: i64 = if include_upper {
            upper
        } else {
            upper - 1
        };
        IdWhereClause { prefix, lower: lo, upper: hi, ascending }
    }

    pub fn is_empty(&self) -> (r: bool)
        ensures
            r == (forall|id: i64| !self.spec_contains(id)),
    {
        if self.lower > self.upper {
            true
        } else {
            assert(self.spec_contains(self.lower));
            false
        }
    }

    pub fn id_matches(&self, id: i64) -> (r: bool)
        ensures
            r == self.spec_contains(id),
    {
        self.lower <= id && id <= self.upper
    }

    pub fn is_overlapping(&self, other: &Self) -> (r: bool)
        ensures
            r == self.spec_overlapping(other),
    {
        let lo: i64 = if self.lower > other.lower {
            self.lower
        } else {
            other.lower
        };
        let hi: i64 = if self.upper < other.upper {
            self.upper
        } else {
            other.upper
        };
        if lo <= hi {
            assert(self.spec_contains(lo) && other.spec_contains(lo));
            true
        } else {
            false
        }
    }

    /// The objects in range that `result_ids` accepts, in the order of
    /// the scan, as pairs of id key and bytes.
    pub fn iter(&self, data: &Db, result_ids: &mut ResultIds) -> (r: Result<Vec<Entry>, IsarError>)
        ensures
            final(result_ids).tracking() == old(result_ids).tracking(),
            r is Ok <==> keys_sound(self.candidates(data@)),
            r matches Err(e) ==> e is DbCorrupted,
            r matches Ok(out) ==> pairs_of(out@) == yielded(
                self.candidates(data@),
                old(result_ids).tracking(),
                old(result_ids).seen(),
            ) && final(result_ids).seen() == seen_after(
                self.candidates(data@),
                old(result_ids).tracking(),
                old(result_ids).seen(),
            ),
    {
        let hits = if self.lower > self.upper {
            let none: Vec<Entry> = Vec::new();
            assert(pairs_of(none@) =~= Seq::<Pair>::empty());
            none
        } else {
            let lower = IntKey::new(self.prefix, self.lower).as_bytes();
            let upper = IntKey::new(self.prefix, self.upper).as_bytes();
            data.scan(lower.as_slice(), upper.as_slice(), false, self.ascending)
        };
        accept_entries(hits, result_ids)
    }
}

} // verus!
