use crate::error::IsarError;
use crate::index::decode_ids;
use crate::key::{lemma_int_key_order, lemma_key_prefix, spec_int_key, spec_prefix, IntKey};
use crate::order::is_prefix;
use crate::store::{lemma_scan_point, pairs_of, spec_scan, Db, Entry, Pair};
use vstd::prelude::*;

verus! {

/// A kind of directed edge between the objects of two collections. Every
/// edge is stored twice in the links database: forward, under the link's
/// id and the source object, and backward, under the backlink's id and
/// the target object.
#[derive(Clone, Copy, Debug, PartialEq, Eq, Structural)]
pub struct Link {
    pub id: u16,
    pub col_id: u16,
    pub backlink_id: u16,
    pub target_col_id: u16,
}

impl Link {
    /// The forward and the backward entries live under different ids.
    pub open spec fn wf(&self) -> bool {
        self.id != self.backlink_id
    }

    /// The pair that stores the edge from `oid` to `target`.
    pub open spec fn forward_pair(&self, oid: i64, target: i64) -> Pair {
        (spec_int_key(self.id, oid), spec_int_key(self.target_col_id, target))
    }

    /// The pair that stores the inverse of the edge from `oid` to `target`.
    pub open spec fn backward_pair(&self, oid: i64, target: i64) -> Pair {
        (spec_int_key(self.backlink_id, target), spec_int_key(self.col_id, oid))
    }

    /// Whether the edge from `oid` to `target` is stored forward.
    pub open spec fn linked(&self, links: Seq<Pair>, oid: i64, target: i64) -> bool {
        links.contains(self.forward_pair(oid, target))
    }

    /// Whether the edge from `oid` to `target` is stored backward.
    pub open spec fn back_linked(&self, links: Seq<Pair>, oid: i64, target: i64) -> bool {
        links.contains(self.backward_pair(oid, target))
    }

    /// Whether the pair lies in the key space of the link or of its backlink.
    pub open spec fn owns(&self, e: Pair) -> bool {
        is_prefix(spec_prefix(self.id), e.0) || is_prefix(spec_prefix(self.backlink_id), e.0)
    }

    /// Every edge that is stored one way is stored the other way too.
    pub open spec fn symmetric(&self, links: Seq<Pair>) -> bool {
        forall|s: i64, t: i64|
            #![trigger self.forward_pair(s, t)]
            #![trigger self.backward_pair(s, t)]
            self.linked(links, s, t) <==> self.back_linked(links, s, t)
    }

    /// Whether every forward entry of `oid` names a target of the target
    /// collection and has its inverse stored.
    pub open spec fn intact_from(&self, links: Seq<Pair>, oid: i64) -> bool {
        forall|v: Seq<u8>| #[trigger]
            links.contains((spec_int_key(self.id, oid), v)) ==> exists|t: i64|
                v == spec_int_key(self.target_col_id, t) && self.back_linked(links, oid, t)
    }

    /// Whether the pair is a forward entry of `oid`, or the inverse of one
    /// that is stored in `links`.
    pub open spec fn touches(&self, links: Seq<Pair>, oid: i64, e: Pair) -> bool {
        e.0 == spec_int_key(self.id, oid) || exists|t: i64|
            e == #[trigger] self.backward_pair(oid, t) && self.linked(links, oid, t)
    }

    /// The same edges seen from their targets.
    pub open spec fn spec_backlink(&self) -> Link {
        Link {
            id: self.backlink_id,
            backlink_id: self.id,
            col_id: self.target_col_id,
            target_col_id: self.col_id,
        }
    }

    /// Every entry in the key space of the link and of its backlink is
    /// well-formed and has its inverse stored.
    pub open spec fn consistent(&self, links: Seq<Pair>) -> bool {
        &&& forall|oid: i64| #[trigger] self.intact_from(links, oid)
        &&& forall|t: i64| #[trigger] self.spec_backlink().intact_from(links, t)
    }

    /// Whether the two links share neither a link id nor a backlink id.
    pub open spec fn disjoint(&self, other: &Link) -> bool {
        &&& self.id != other.id
        &&& self.id != other.backlink_id
        &&& self.backlink_id != other.id
        &&& self.backlink_id != other.backlink_id
    }

    /// Links that are consistent are symmetric: an edge is stored forward
    /// exactly when it is stored backward.
    pub proof fn lemma_consistent_symmetric(&self, links: Seq<Pair>)
        requires
            self.consistent(links),
        ensures
            self.symmetric(links),
    {
        assert forall|s: i64, t: i64|
            #![trigger self.forward_pair(s, t)]
            #![trigger self.backward_pair(s, t)]
            self.linked(links, s, t) <==> self.back_linked(links, s, t) by {
            if self.linked(links, s, t) {
                assert(self.intact_from(links, s));
                let v = spec_int_key(self.target_col_id, t);
                assert(links.contains((spec_int_key(self.id, s), v)));
                let t2 = choose|t2: i64|
                    v == spec_int_key(self.target_col_id, t2) && self.back_linked(links, s, t2);
                lemma_int_key_order(self.target_col_id, t, self.target_col_id, t2);
            }
            if self.back_linked(links, s, t) {
                let b = self.spec_backlink();
                assert(b.intact_from(links, t));
                let w = spec_int_key(self.col_id, s);
                assert(links.contains((spec_int_key(b.id, t), w)));
                let s2 = choose|s2: i64|
                    w == spec_int_key(b.target_col_id, s2) && b.back_linked(links, t, s2);
                lemma_int_key_order(self.col_id, s, self.col_id, s2);
                assert(b.backward_pair(t, s2) == self.forward_pair(s2, t));
            }
        }
    }

    /// A link is consistent exactly when its backlink is.
    pub proof fn lemma_backlink_consistent(&self, links: Seq<Pair>)
        ensures
            self.consistent(links) == self.spec_backlink().consistent(links),
    {
        assert(self.spec_backlink().spec_backlink() == *self);
    }

    /// What a link touches when edges from an object are removed lies in
    /// its own key space.
    pub proof fn lemma_touches_owned(&self, links: Seq<Pair>, oid: i64, e: Pair)
        requires
            self.touches(links, oid, e),
        ensures
            self.owns(e),
    {
        if e.0 == spec_int_key(self.id, oid) {
            lemma_key_prefix(self.id, oid, self.id);
        } else {
            let t = choose|t: i64|
                e == #[trigger] self.backward_pair(oid, t) && self.linked(links, oid, t);
            lemma_key_prefix(self.backlink_id, t, self.backlink_id);
        }
    }

    /// In a part of the stored pairs in which the link is consistent, the
    /// edges from an object touch a stored pair exactly when they do in
    /// the whole.
    pub proof fn lemma_touches_within(&self, whole: Seq<Pair>, part: Seq<Pair>, oid: i64, e: Pair)
        requires
            self.consistent(part),
            forall|x: Pair| #[trigger] part.contains(x) ==> whole.contains(x),
            part.contains(e),
        ensures
            self.touches(part, oid, e) <==> self.touches(whole, oid, e),
    {
        if self.touches(part, oid, e) && e.0 != spec_int_key(self.id, oid) {
            let t = choose|t: i64|
                e == #[trigger] self.backward_pair(oid, t) && self.linked(part, oid, t);
            assert(whole.contains(self.forward_pair(oid, t)));
            assert(e == self.backward_pair(oid, t) && self.linked(whole, oid, t));
        }
        if self.touches(whole, oid, e) && e.0 != spec_int_key(self.id, oid) {
            let t = choose|t: i64|
                e == #[trigger] self.backward_pair(oid, t) && self.linked(whole, oid, t);
            self.lemma_consistent_symmetric(part);
            assert(self.back_linked(part, oid, t));
            assert(e == self.backward_pair(oid, t) && self.linked(part, oid, t));
        }
    }

    /// The edges from an object touch no pair of an edge between two
    /// other objects, whatever link that edge belongs to.
    pub proof fn lemma_touches_apart(
        &self,
        links: Seq<Pair>,
        oid: i64,
        other: &Link,
        source: i64,
        target: i64,
    )
        requires
            source != oid,
            target != oid,
        ensures
            !self.touches(links, oid, other.forward_pair(source, target)),
            !self.touches(links, oid, other.backward_pair(source, target)),
    {
        let f = other.forward_pair(source, target);
        let b = other.backward_pair(source, target);
        lemma_int_key_order(other.id, source, self.id, oid);
        lemma_int_key_order(other.backlink_id, target, self.id, oid);
        assert forall|t: i64| f != #[trigger] self.backward_pair(oid, t) by {
            lemma_int_key_order(other.target_col_id, target, self.col_id, oid);
        }
        assert forall|t: i64| b != #[trigger] self.backward_pair(oid, t) by {
            lemma_int_key_order(other.col_id, source, self.col_id, oid);
        }
    }

    /// A change that leaves the key space of a consistent link alone
    /// leaves the link consistent.
    pub proof fn lemma_untouched_consistent(&self, before: Seq<Pair>, after: Seq<Pair>)
        requires
            self.consistent(before),
            forall|e: Pair| self.owns(e) ==> (#[trigger] before.contains(e) <==> after.contains(e)),
        ensures
            self.consistent(after),
    {
        let b = self.spec_backlink();
        assert forall|oid: i64| #[trigger] self.intact_from(after, oid) by {
            assert(self.intact_from(before, oid));
            assert forall|v: Seq<u8>| #[trigger]
                after.contains((spec_int_key(self.id, oid), v)) implies exists|t: i64|
                v == spec_int_key(self.target_col_id, t) && self.back_linked(after, oid, t) by {
                let e = (spec_int_key(self.id, oid), v);
                lemma_key_prefix(self.id, oid, self.id);
                assert(before.contains(e));
                let t = choose|t: i64|
                    v == spec_int_key(self.target_col_id, t) && self.back_linked(before, oid, t);
                lemma_key_prefix(self.backlink_id, t, self.backlink_id);
                assert(after.contains(self.backward_pair(oid, t)));
            }
        }
        assert forall|t: i64| #[trigger] b.intact_from(after, t) by {
            assert(b.intact_from(before, t));
            assert forall|v: Seq<u8>| #[trigger]
                after.contains((spec_int_key(b.id, t), v)) implies exists|s: i64|
                v == spec_int_key(b.target_col_id, s) && b.back_linked(after, t, s) by {
                let e = (spec_int_key(b.id, t), v);
                lemma_key_prefix(b.id, t, b.id);
                assert(before.contains(e));
                let s = choose|s: i64|
                    v == spec_int_key(b.target_col_id, s) && b.back_linked(before, t, s);
                lemma_key_prefix(b.backlink_id, s, b.backlink_id);
                assert(after.contains(b.backward_pair(t, s)));
            }
        }
    }

    /// Removing the edges that start at an object, both ways, leaves a
    /// consistent link consistent.
    pub proof fn lemma_delete_all_consistent(&self, before: Seq<Pair>, after: Seq<Pair>, oid: i64)
        requires
            self.wf(),
            self.consistent(before),
            forall|e: Pair| #[trigger]
                after.contains(e) <==> (before.contains(e) && !self.touches(before, oid, e)),
        ensures
            self.consistent(after),
    {
        let b = self.spec_backlink();
        assert forall|o: i64| #[trigger] self.intact_from(after, o) by {
            assert(self.intact_from(before, o));
            assert forall|v: Seq<u8>| #[trigger]
                after.contains((spec_int_key(self.id, o), v)) implies exists|t: i64|
                v == spec_int_key(self.target_col_id, t) && self.back_linked(after, o, t) by {
                let e = (spec_int_key(self.id, o), v);
                assert(before.contains(e));
                let t = choose|t: i64|
                    v == spec_int_key(self.target_col_id, t) && self.back_linked(before, o, t);
                let inv = self.backward_pair(o, t);
                lemma_int_key_order(self.backlink_id, t, self.id, oid);
                if self.touches(before, oid, inv) {
                    let t2 = choose|t2: i64|
                        inv == #[trigger] self.backward_pair(oid, t2) && self.linked(
                            before,
                            oid,
                            t2,
                        );
                    lemma_int_key_order(self.col_id, o, self.col_id, oid);
                    assert(self.touches(before, oid, e));
                }
                assert(after.contains(inv));
            }
        }
        assert forall|t: i64| #[trigger] b.intact_from(after, t) by {
            assert(b.intact_from(before, t));
            assert forall|v: Seq<u8>| #[trigger]
                after.contains((spec_int_key(b.id, t), v)) implies exists|s: i64|
                v == spec_int_key(b.target_col_id, s) && b.back_linked(after, t, s) by {
                let e = (spec_int_key(b.id, t), v);
                assert(before.contains(e));
                let s = choose|s: i64|
                    v == spec_int_key(b.target_col_id, s) && b.back_linked(before, t, s);
                let fwd = b.backward_pair(t, s);
                assert(fwd == self.forward_pair(s, t));
                if self.touches(before, oid, fwd) {
                    lemma_int_key_order(self.id, s, self.id, oid);
                    if fwd.0 == spec_int_key(self.id, oid) {
                        assert(e == self.backward_pair(oid, t));
                        assert(self.linked(before, oid, t));
                        assert(self.touches(before, oid, e));
                    } else {
                        let t2 = choose|t2: i64|
                            fwd == #[trigger] self.backward_pair(oid, t2) && self.linked(
                                before,
                                oid,
                                t2,
                            );
                        lemma_int_key_order(self.id, s, self.backlink_id, t2);
                    }
                }
                assert(after.contains(fwd));
            }
        }
    }

    /// Storing an edge both ways leaves a consistent link consistent.
    pub proof fn lemma_create_consistent(
        &self,
        before: Seq<Pair>,
        after: Seq<Pair>,
        oid: i64,
        target: i64,
    )
        requires
            self.wf(),
            self.consistent(before),
            forall|e: Pair| #[trigger]
                after.contains(e) <==> (before.contains(e) || e == self.forward_pair(oid, target)
                    || e == self.backward_pair(oid, target)),
        ensures
            self.consistent(after),
    {
        let b = self.spec_backlink();
        assert forall|o: i64| #[trigger] self.intact_from(after, o) by {
            assert(self.intact_from(before, o));
            assert forall|v: Seq<u8>| #[trigger]
                after.contains((spec_int_key(self.id, o), v)) implies exists|t: i64|
                v == spec_int_key(self.target_col_id, t) && self.back_linked(after, o, t) by {
                let e = (spec_int_key(self.id, o), v);
                lemma_int_key_order(self.id, o, self.backlink_id, target);
                lemma_int_key_order(self.id, o, self.id, oid);
                if before.contains(e) {
                    let t = choose|t: i64|
                        v == spec_int_key(self.target_col_id, t) && self.back_linked(before, o, t);
                    assert(after.contains(self.backward_pair(o, t)));
                } else {
                    assert(e == self.forward_pair(oid, target));
                    assert(after.contains(self.backward_pair(o, target)));
                }
            }
        }
        assert forall|t: i64| #[trigger] b.intact_from(after, t) by {
            assert(b.intact_from(before, t));
            assert forall|v: Seq<u8>| #[trigger]
                after.contains((spec_int_key(b.id, t), v)) implies exists|s: i64|
                v == spec_int_key(b.target_col_id, s) && b.back_linked(after, t, s) by {
                let e = (spec_int_key(b.id, t), v);
                lemma_int_key_order(self.backlink_id, t, self.id, oid);
                lemma_int_key_order(self.backlink_id, t, self.backlink_id, target);
                if before.contains(e) {
                    let s = choose|s: i64|
                        v == spec_int_key(b.target_col_id, s) && b.back_linked(before, t, s);
                    assert(after.contains(b.backward_pair(t, s)));
                    assert(v == spec_int_key(b.target_col_id, s) && b.back_linked(after, t, s));
                } else {
                    assert(e == self.backward_pair(oid, target));
                    assert(b.backward_pair(t, oid) == self.forward_pair(oid, target));
                    assert(after.contains(b.backward_pair(t, oid)));
                    assert(v == spec_int_key(b.target_col_id, oid) && b.back_linked(after, t, oid));
                }
            }
        }
    }

    /// Removing an edge both ways leaves a consistent link consistent.
    pub proof fn lemma_delete_consistent(
        &self,
        before: Seq<Pair>,
        after: Seq<Pair>,
        oid: i64,
        target: i64,
    )
        requires
            self.wf(),
            self.consistent(before),
            forall|e: Pair| #[trigger]
                after.contains(e) <==> (before.contains(e) && e != self.forward_pair(oid, target)
                    && e != self.backward_pair(oid, target)),
        ensures
            self.consistent(after),
    {
        let b = self.spec_backlink();
        assert forall|o: i64| #[trigger] self.intact_from(after, o) by {
            assert(self.intact_from(before, o));
            assert forall|v: Seq<u8>| #[trigger]
                after.contains((spec_int_key(self.id, o), v)) implies exists|t: i64|
                v == spec_int_key(self.target_col_id, t) && self.back_linked(after, o, t) by {
                let e = (spec_int_key(self.id, o), v);
                assert(before.contains(e));
                let t = choose|t: i64|
                    v == spec_int_key(self.target_col_id, t) && self.back_linked(before, o, t);
                let inv = self.backward_pair(o, t);
                lemma_int_key_order(self.backlink_id, t, self.id, oid);
                lemma_int_key_order(self.backlink_id, t, self.backlink_id, target);
                lemma_int_key_order(self.col_id, o, self.col_id, oid);
                assert(after.contains(inv));
            }
        }
        assert forall|t: i64| #[trigger] b.intact_from(after, t) by {
            assert(b.intact_from(before, t));
            assert forall|v: Seq<u8>| #[trigger]
                after.contains((spec_int_key(b.id, t), v)) implies exists|s: i64|
                v == spec_int_key(b.target_col_id, s) && b.back_linked(after, t, s) by {
                let e = (spec_int_key(b.id, t), v);
                assert(before.contains(e));
                let s = choose|s: i64|
                    v == spec_int_key(b.target_col_id, s) && b.back_linked(before, t, s);
                let fwd = b.backward_pair(t, s);
                assert(fwd == self.forward_pair(s, t));
                lemma_int_key_order(self.id, s, self.backlink_id, target);
                lemma_int_key_order(self.id, s, self.id, oid);
                lemma_int_key_order(self.target_col_id, t, self.target_col_id, target);
                if fwd == self.forward_pair(oid, target) {
                    assert(s == oid && t == target);
                    assert(e == self.backward_pair(oid, target));
                }
                assert(before.contains(fwd));
                assert(after.contains(fwd));
                assert(v == spec_int_key(b.target_col_id, s) && b.back_linked(after, t, s));
            }
        }
    }

    /// Whether the pair is the inverse of an edge from `oid` to one of the
    /// first `n` of `targets`.
    pub open spec fn inverse_among(&self, oid: i64, targets: Seq<i64>, n: int, e: Pair) -> bool {
        exists|k: int| 0 <= k < n && e == #[trigger] self.backward_pair(oid, targets[k])
    }

    /// Whether the two links share neither a link id nor a backlink id.
    pub fn is_disjoint(&self, other: &Link) -> (r: bool)
        ensures
            r == self.disjoint(other),
    {
        self.id != other.id && self.id != other.backlink_id && self.backlink_id != other.id
            && self.backlink_id != other.backlink_id
    }

    pub fn new(id: u16, backlink_id: u16, col_id: u16, target_col_id: u16) -> (l: Link)
        ensures
            l.id == id,
            l.backlink_id == backlink_id,
            l.col_id == col_id,
            l.target_col_id == target_col_id,
    {
        Link { id, col_id, backlink_id, target_col_id }
    }

    pub fn get_target_col_id(&self) -> (r: u16)
        ensures
            r == self.target_col_id,
    {
        self.target_col_id
    }

    /// The same edges seen from their targets.
    pub fn to_backlink(&self) -> (l: Link)
        ensures
            l.id == self.backlink_id,
            l.backlink_id == self.id,
            l.col_id == self.target_col_id,
            l.target_col_id == self.col_id,
    {
        Link {
            id: self.backlink_id,
            backlink_id: self.id,
            col_id: self.target_col_id,
            target_col_id: self.col_id,
        }
    }

    pub fn link_key(&self, oid: i64) -> (k: IntKey)
        ensures
            k == (IntKey { prefix: self.id, id: oid }),
    {
        IntKey::new(self.id, oid)
    }

    pub fn link_target_key(&self, oid: i64) -> (k: IntKey)
        ensures
            k == (IntKey { prefix: self.target_col_id, id: oid }),
    {
        IntKey::new(self.target_col_id, oid)
    }

    pub fn bl_key(&self, oid: i64) -> (k: IntKey)
        ensures
            k == (IntKey { prefix: self.backlink_id, id: oid }),
    {
        IntKey::new(self.backlink_id, oid)
    }

    pub fn bl_target_key(&self, oid: i64) -> (k: IntKey)
        ensures
            k == (IntKey { prefix: self.col_id, id: oid }),
    {
        IntKey::new(self.col_id, oid)
    }

    /// The id keys of the targets of `oid`, in ascending order.
    pub fn iter_ids(&self, links: &Db, oid: i64) -> (r: Result<Vec<IntKey>, IsarError>)
        ensures
            ({
                let key = spec_int_key(self.id, oid);
                let hits = spec_scan(links@, key, key, false, true);
                &&& r is Ok <==> forall|i: int| 0 <= i < hits.len() ==> (#[trigger] hits[i]).1.len() == 10
                &&& r matches Err(e) ==> e is DbCorrupted
                &&& r matches Ok(ids) ==> ids.len() == hits.len() && forall|i: int|
                    0 <= i < ids.len() ==> (#[trigger] ids[i]).spec_bytes() == hits[i].1
            }),
    {
        let key = self.link_key(oid).as_bytes();
        let entries = links.scan(key.as_slice(), key.as_slice(), false, true);
        proof {
            let hits = spec_scan(links@, key@, key@, false, true);
            assert forall|i: int| 0 <= i < entries.len() implies (#[trigger] entries[i]).val@
                == hits[i].1 by {
                assert(pairs_of(entries@)[i] == entries[i].pair());
            }
            assert(entries.len() == hits.len());
            if forall|i: int| 0 <= i < hits.len() ==> (#[trigger] hits[i]).1.len() == 10 {
                assert forall|i: int| 0 <= i < entries.len() implies (#[trigger] entries[i]).val@.len()
                    == 10 by {
                    assert(hits[i].1.len() == 10);
                }
            }
            if forall|i: int| 0 <= i < entries.len() ==> (#[trigger] entries[i]).val@.len() == 10 {
                assert forall|i: int| 0 <= i < hits.len() implies (#[trigger] hits[i]).1.len() == 10 by {
                    assert(entries[i].val@.len() == 10);
                }
            }
        }
        decode_ids(&entries)
    }

    /// The targets of `oid`: each with its id and its bytes in the target
    /// collection's data, in ascending order of id key.
    pub fn iter(&self, target_data: &Db, links: &Db, oid: i64) -> (r: Result<
        Vec<(IntKey, Vec<u8>)>,
        IsarError,
    >)
        requires
            target_data.wf(),
        ensures
            ({
                let key = spec_int_key(self.id, oid);
                let hits = spec_scan(links@, key, key, false, true);
                &&& r is Ok <==> forall|i: int|
                    0 <= i < hits.len() ==> (#[trigger] hits[i]).1.len() == 10 && target_data.has_key(
                        hits[i].1,
                    )
                &&& r matches Err(e) ==> e is DbCorrupted
                &&& r matches Ok(list) ==> list.len() == hits.len() && forall|i: int|
                    0 <= i < list.len() ==> (#[trigger] list[i]).0.spec_bytes() == hits[i].1
                        && target_data@.contains((hits[i].1, list[i].1@))
            }),
    {
        let ghost key = spec_int_key(self.id, oid);
        let ghost hits = spec_scan(links@, key, key, false, true);
        let ids = match self.iter_ids(links, oid) {
            Ok(ids) => ids,
            Err(e) => {
                return Err(e);
            },
        };
        let mut list: Vec<(IntKey, Vec<u8>)> = Vec::new();
        let mut i: usize = 0;
        while i < ids.len()
            invariant
                i <= ids.len(),
                target_data.wf(),
                key == spec_int_key(self.id, oid),
                hits == spec_scan(links@, key, key, false, true),
                ids.len() == hits.len(),
                forall|k: int| 0 <= k < ids.len() ==> (#[trigger] ids[k]).spec_bytes() == hits[k].1,
                forall|k: int| 0 <= k < hits.len() ==> (#[trigger] hits[k]).1.len() == 10,
                list.len() == i,
                forall|k: int| 0 <= k < i ==> target_data.has_key((#[trigger] hits[k]).1),
                forall|k: int|
                    0 <= k < i ==> (#[trigger] list[k]).0.spec_bytes() == hits[k].1
                        && target_data@.contains((hits[k].1, list[k].1@)),
            decreases ids.len() - i,
        {
            let id = ids[i];
            let id_bytes = id.as_bytes();
            match target_data.get(id_bytes.as_slice()) {
                Some(object) => {
                    list.push((id, crate::order::copy_bytes(object)));
                },
                None => {
                    assert(!target_data.has_key(hits[i as int].1));
                    return Err(
                        IsarError::DbCorrupted {
                            message: "Target object does not exist".to_string(),
                        },
                    );
                },
            }
            i += 1;
        }
        Ok(list)
    }

    /// Stores the edge from `oid` to `target_oid`, both ways, where both
    /// objects exist; tells whether they do. Storing an edge again changes
    /// nothing.
    pub fn create(
        &self,
        source_data: &Db,
        target_data: &Db,
        links: &mut Db,
        oid: i64,
        target_oid: i64,
    ) -> (r: Result<bool, IsarError>)
        requires
            source_data.wf(),
            target_data.wf(),
            old(links).wf(),
            old(links).allows_dup(),
        ensures
            final(links).wf(),
            final(links).allows_dup(),
            ({
                let both = source_data.has_key(spec_int_key(self.col_id, oid))
                    && target_data.has_key(spec_int_key(self.target_col_id, target_oid));
                &&& r == Ok::<bool, IsarError>(both)
                &&& both ==> final(links).set() == old(links).set().insert(
                    self.forward_pair(oid, target_oid),
                ).insert(self.backward_pair(oid, target_oid))
                &&& !both ==> final(links)@ == old(links)@
            }),
            self.wf() && self.consistent(old(links)@) ==> self.consistent(final(links)@),
            forall|e: Pair| !self.owns(e) ==> (old(links)@.contains(e) <==> final(links)@.contains(e)),
    {
        let id_key = IntKey::new(self.col_id, oid).as_bytes();
        let target_id_key = IntKey::new(self.target_col_id, target_oid).as_bytes();
        if source_data.get(id_key.as_slice()).is_none() || target_data.get(
            target_id_key.as_slice(),
        ).is_none() {
            return Ok(false);
        }
        let link_key = self.link_key(oid).as_bytes();
        let link_target_key = self.link_target_key(target_oid).as_bytes();
        links.put(link_key.as_slice(), link_target_key.as_slice());
        self.create_backlink(links, oid, target_oid);
        proof {
            let f = self.forward_pair(oid, target_oid);
            let b = self.backward_pair(oid, target_oid);
            assert forall|e: Pair| #[trigger]
                links@.contains(e) <==> (old(links)@.contains(e) || e == f || e == b) by {
                assert(links.set().contains(e) == links@.contains(e));
                assert(old(links).set().contains(e) == old(links)@.contains(e));
            }
            lemma_key_prefix(self.id, oid, self.id);
            lemma_key_prefix(self.backlink_id, target_oid, self.backlink_id);
            if self.wf() && self.consistent(old(links)@) {
                self.lemma_create_consistent(old(links)@, links@, oid, target_oid);
            }
        }
        Ok(true)
    }

    /// Removes the edge from `oid` to `target_oid`, both ways; tells whether
    /// it was stored. An edge that is stored forward only is a corruption.
    pub fn delete(&self, links: &mut Db, oid: i64, target_oid: i64) -> (r: Result<bool, IsarError>)
        requires
            self.wf(),
            old(links).wf(),
            old(links).allows_dup(),
        ensures
            final(links).wf(),
            final(links).allows_dup(),
            ({
                let forward = self.linked(old(links)@, oid, target_oid);
                let backward = self.back_linked(old(links)@, oid, target_oid);
                &&& !forward ==> r == Ok::<bool, IsarError>(false) && final(links)@ == old(links)@
                &&& forward && backward ==> r == Ok::<bool, IsarError>(true) && final(links).set()
                    == old(links).set().remove(self.forward_pair(oid, target_oid)).remove(
                    self.backward_pair(oid, target_oid),
                )
                &&& forward && !backward ==> (r matches Err(e) && e is DbCorrupted)
            }),
            self.consistent(old(links)@) ==> r is Ok && self.consistent(final(links)@),
            forall|e: Pair| !self.owns(e) ==> (old(links)@.contains(e) <==> final(links)@.contains(e)),
    {
        let link_key = self.link_key(oid).as_bytes();
        let link_target_key = self.link_target_key(target_oid).as_bytes();
        proof {
            lemma_key_prefix(self.id, oid, self.id);
            lemma_key_prefix(self.backlink_id, target_oid, self.backlink_id);
            if self.consistent(old(links)@) {
                self.lemma_consistent_symmetric(old(links)@);
            }
        }
        match links.find(link_key.as_slice(), link_target_key.as_slice()) {
            Some(p) => {
                links.delete_at(p);
                let ghost mid = links@;
                proof {
                    lemma_int_key_order(self.id, oid, self.backlink_id, target_oid);
                    assert(links.set().contains(self.backward_pair(oid, target_oid)) == old(
                        links,
                    ).set().contains(self.backward_pair(oid, target_oid)));
                    assert forall|e: Pair| #[trigger]
                        mid.contains(e) <==> (old(links)@.contains(e) && e != self.forward_pair(
                            oid,
                            target_oid,
                        )) by {
                        assert(links.set().contains(e) == links@.contains(e));
                    }
                }
                match self.delete_backlink(links, oid, target_oid) {
                    Ok(()) => {
                        proof {
                            assert forall|e: Pair| #[trigger]
                                links@.contains(e) <==> (old(links)@.contains(e) && e
                                    != self.forward_pair(oid, target_oid) && e
                                    != self.backward_pair(oid, target_oid)) by {
                                assert(links.set().contains(e) == links@.contains(e));
                                assert(mid.contains(e) <==> (old(links)@.contains(e) && e
                                    != self.forward_pair(oid, target_oid)));
                            }
                            if self.consistent(old(links)@) {
                                self.lemma_delete_consistent(old(links)@, links@, oid, target_oid);
                            }
                        }
                        Ok(true)
                    },
                    Err(e) => Err(e),
                }
            },
            None => Ok(false),
        }
    }

    /// Removes every edge that starts at `oid`, both ways. Where a forward
    /// entry of `oid` is malformed or lacks its inverse, that is a
    /// corruption, and nothing is removed.
    pub fn delete_all_for_object(&self, links: &mut Db, oid: i64) -> (r: Result<(), IsarError>)
        requires
            self.wf(),
            old(links).wf(),
            old(links).allows_dup(),
        ensures
            final(links).wf(),
            final(links).allows_dup(),
            r is Ok <==> self.intact_from(old(links)@, oid),
            r matches Err(e) ==> e is DbCorrupted && final(links)@ == old(links)@,
            r is Ok ==> final(links).set() == old(links).set().filter(
                |e: Pair| !self.touches(old(links)@, oid, e),
            ),
            self.consistent(old(links)@) ==> r is Ok && self.consistent(final(links)@),
            forall|e: Pair| !self.owns(e) ==> (old(links)@.contains(e) <==> final(links)@.contains(e)),
    {
        let ghost start = links@;
        let ghost key = spec_int_key(self.id, oid);
        let key_bytes = self.link_key(oid).as_bytes();
        let entries = links.scan(key_bytes.as_slice(), key_bytes.as_slice(), false, true);
        let ghost hits = spec_scan(start, key, key, false, true);
        proof {
            assert forall|i: int| 0 <= i < entries.len() implies (#[trigger] entries[i]).pair()
                == hits[i] by {
                assert(pairs_of(entries@)[i] == entries[i].pair());
            }
            assert forall|i: int| 0 <= i < entries.len() implies start.contains(
                (key, (#[trigger] entries[i]).val@),
            ) by {
                assert(hits.contains(hits[i]));
                lemma_scan_point(start, key, hits[i]);
            }
        }
        let mut targets: Vec<i64> = Vec::new();
        let mut i: usize = 0;
        while i < entries.len()
            invariant
                i <= entries.len(),
                links@ == start,
                links.wf(),
                links.allows_dup(),
                start == old(links)@,
                key == spec_int_key(self.id, oid),
                targets.len() == i,
                forall|k: int|
                    0 <= k < entries.len() ==> start.contains((key, (#[trigger] entries[k]).val@)),
                forall|k: int|
                    0 <= k < i ==> (#[trigger] entries[k]).val@ == spec_int_key(
                        self.target_col_id,
                        targets[k],
                    ) && self.back_linked(start, oid, targets[k]),
            decreases entries.len() - i,
        {
            let ghost v = entries[i as int].val@;
            assert(start.contains((key, v)));
            let target = match IntKey::from_bytes(entries[i].val.as_slice()) {
                Some(k) => k,
                None => {
                    proof {
                        assert forall|t: i64| v != spec_int_key(self.target_col_id, t) by {
                            lemma_int_key_order(self.target_col_id, t, self.target_col_id, t);
                        }
                        assert(!self.intact_from(start, oid));
                    }
                    return Err(
                        IsarError::DbCorrupted { message: "Malformed link target".to_string() },
                    );
                },
            };
            if target.prefix != self.target_col_id {
                proof {
                    assert forall|t: i64| v != spec_int_key(self.target_col_id, t) by {
                        lemma_int_key_order(target.prefix, target.id, self.target_col_id, t);
                    }
                    assert(!self.intact_from(start, oid));
                }
                return Err(
                    IsarError::DbCorrupted { message: "Link target of another collection".to_string() },
                );
            }
            let bl_key = self.bl_key(target.id).as_bytes();
            let bl_target_key = self.bl_target_key(oid).as_bytes();
            if links.find(bl_key.as_slice(), bl_target_key.as_slice()).is_none() {
                proof {
                    assert forall|t: i64|
                        v == spec_int_key(self.target_col_id, t) implies !self.back_linked(
                        start,
                        oid,
                        t,
                    ) by {
                        lemma_int_key_order(target.prefix, target.id, self.target_col_id, t);
                    }
                    assert(!self.intact_from(start, oid));
                }
                return Err(IsarError::DbCorrupted { message: "Backlink does not exist".to_string() });
            }
            targets.push(target.id);
            i += 1;
        }
        proof {
            assert forall|v: Seq<u8>| #[trigger] start.contains((key, v)) implies exists|t: i64|
                v == spec_int_key(self.target_col_id, t) && self.back_linked(start, oid, t) by {
                lemma_scan_point(start, key, (key, v));
                let k = choose|k: int| 0 <= k < hits.len() && hits[k] == (key, v);
                assert(entries[k].pair() == hits[k]);
                assert(v == spec_int_key(self.target_col_id, targets[k]) && self.back_linked(
                    start,
                    oid,
                    targets[k],
                ));
            }
            assert(self.intact_from(start, oid));
        }
        links.delete_key(key_bytes.as_slice());
        let ghost cut = links.set();
        assert(cut == old(links).set().filter(|e: Pair| e.0 != key));
        let mut j: usize = 0;
        assert forall|e: Pair| !self.inverse_among(oid, targets@, 0, e) by {}
        while j < targets.len()
            invariant
                j <= targets.len(),
                self.wf(),
                links.wf(),
                links.allows_dup(),
                key == spec_int_key(self.id, oid),
                forall|e: Pair| #[trigger]
                    links.set().contains(e) <==> (cut.contains(e) && !self.inverse_among(
                        oid,
                        targets@,
                        j as int,
                        e,
                    )),
            decreases targets.len() - j,
        {
            let ghost before = links.set();
            let bl_key = self.bl_key(targets[j]).as_bytes();
            let bl_target_key = self.bl_target_key(oid).as_bytes();
            links.delete_pair(bl_key.as_slice(), bl_target_key.as_slice());
            proof {
                let gone = self.backward_pair(oid, targets[j as int]);
                assert forall|e: Pair| #[trigger]
                    links.set().contains(e) <==> (cut.contains(e) && !self.inverse_among(
                        oid,
                        targets@,
                        j + 1,
                        e,
                    )) by {
                    assert(links.set().contains(e) <==> (before.contains(e) && e != gone));
                    assert(before.contains(e) <==> (cut.contains(e) && !self.inverse_among(
                        oid,
                        targets@,
                        j as int,
                        e,
                    )));
                    if self.inverse_among(oid, targets@, j + 1, e) {
                        let k = choose|k: int|
                            0 <= k < j + 1 && e == #[trigger] self.backward_pair(oid, targets@[k]);
                        if k < j {
                            assert(self.inverse_among(oid, targets@, j as int, e));
                        }
                    }
                    if self.inverse_among(oid, targets@, j as int, e) {
                        let k = choose|k: int|
                            0 <= k < j && e == #[trigger] self.backward_pair(oid, targets@[k]);
                        assert(self.inverse_among(oid, targets@, j + 1, e));
                    }
                    if e == gone {
                        assert(self.inverse_among(oid, targets@, j + 1, e));
                    }
                }
            }
            j += 1;
        }
        proof {
            let n = targets.len() as int;
            assert forall|e: Pair|
                links.set().contains(e) == old(links).set().filter(
                    |e: Pair| !self.touches(start, oid, e),
                ).contains(e) by {
                let listed = self.inverse_among(oid, targets@, n, e);
                let inverse = exists|t: i64|
                    e == #[trigger] self.backward_pair(oid, t) && self.linked(start, oid, t);
                assert(links.set().contains(e) <==> (cut.contains(e) && !listed));
                assert(cut.contains(e) <==> (start.contains(e) && e.0 != key));
                if listed {
                    let k = choose|k: int|
                        0 <= k < n && e == #[trigger] self.backward_pair(oid, targets@[k]);
                    assert(start.contains((key, entries[k].val@)));
                    assert(self.linked(start, oid, targets@[k]));
                    assert(inverse);
                }
                if inverse {
                    let t = choose|t: i64|
                        e == #[trigger] self.backward_pair(oid, t) && self.linked(start, oid, t);
                    let v = spec_int_key(self.target_col_id, t);
                    lemma_scan_point(start, key, (key, v));
                    let k = choose|k: int| 0 <= k < hits.len() && hits[k] == (key, v);
                    assert(entries[k].pair() == hits[k]);
                    lemma_int_key_order(self.target_col_id, t, self.target_col_id, targets@[k]);
                    assert(e == self.backward_pair(oid, targets@[k]));
                    assert(listed);
                }
                assert(self.touches(start, oid, e) <==> (e.0 == key || inverse));
            }
            assert(links.set() =~= old(links).set().filter(
                |e: Pair| !self.touches(start, oid, e),
            ));
            assert forall|e: Pair| #[trigger]
                links@.contains(e) <==> (start.contains(e) && !self.touches(start, oid, e)) by {
                assert(links.set().contains(e) == links@.contains(e));
                assert(old(links).set().contains(e) == start.contains(e));
            }
            assert forall|e: Pair| !self.owns(e) implies (start.contains(e) <==> links@.contains(
                e,
            )) by {
                if self.touches(start, oid, e) {
                    self.lemma_touches_owned(start, oid, e);
                }
            }
            if self.consistent(start) {
                self.lemma_delete_all_consistent(start, links@, oid);
            }
        }
        Ok(())
    }

    /// Stores the inverse of the edge from `oid` to `target_oid`.
    pub fn create_backlink(&self, links: &mut Db, oid: i64, target_oid: i64)
        requires
            old(links).wf(),
            old(links).allows_dup(),
        ensures
            final(links).wf(),
            final(links).allows_dup(),
            final(links).set() == old(links).set().insert(self.backward_pair(oid, target_oid)),
    {
        let bl_key = self.bl_key(target_oid).as_bytes();
        let bl_target_key = self.bl_target_key(oid).as_bytes();
        links.put(bl_key.as_slice(), bl_target_key.as_slice());
    }

    /// Removes the inverse of the edge from `oid` to `target_oid`; its
    /// absence is a corruption.
    pub fn delete_backlink(&self, links: &mut Db, oid: i64, target_oid: i64) -> (r: Result<
        (),
        IsarError,
    >)
        requires
            old(links).wf(),
            old(links).allows_dup(),
        ensures
            final(links).wf(),
            final(links).allows_dup(),
            r is Ok <==> self.back_linked(old(links)@, oid, target_oid),
            r matches Err(e) ==> e is DbCorrupted && final(links)@ == old(links)@,
            r is Ok ==> final(links).set() == old(links).set().remove(
                self.backward_pair(oid, target_oid),
            ),
    {
        let bl_key = self.bl_key(target_oid).as_bytes();
        let bl_target_key = self.bl_target_key(oid).as_bytes();
        match links.find(bl_key.as_slice(), bl_target_key.as_slice()) {
            Some(p) => {
                links.delete_at(p);
                Ok(())
            },
            None => Err(IsarError::DbCorrupted { message: "Backlink does not exist".to_string() }),
        }
    }

    /// Removes every pair of the link and of its backlink.
    pub fn clear(&self, links: &mut Db)
        requires
            old(links).wf(),
        ensures
            final(links).wf(),
            final(links).allows_dup() == old(links).allows_dup(),
            final(links).set() == old(links).set().filter(|e: Pair| !self.owns(e)),
            self.consistent(final(links)@),
            forall|e: Pair| !self.owns(e) ==> (old(links)@.contains(e) <==> final(links)@.contains(e)),
    {
        let ghost start = links.set();
        let link_prefix = prefix_bytes(self.id);
        Self::clear_internal(links, link_prefix.as_slice());
        let bl_prefix = prefix_bytes(self.backlink_id);
        Self::clear_internal(links, bl_prefix.as_slice());
        assert(links.set() =~= start.filter(|e: Pair| !self.owns(e)));
        proof {
            assert forall|e: Pair| #[trigger] links@.contains(e) implies !self.owns(e) by {
                assert(links.set().contains(e));
            }
            assert forall|e: Pair| !self.owns(e) implies (old(links)@.contains(e)
                <==> links@.contains(e)) by {
                assert(links.set().contains(e) == links@.contains(e));
                assert(start.contains(e) == old(links)@.contains(e));
            }
            self.lemma_empty_consistent(links@);
        }
    }

    /// Links that share no id own no pair in common; a link and its
    /// backlink own the same pairs.
    pub proof fn lemma_disjoint_owns(&self, other: &Link, e: Pair)
        ensures
            self.disjoint(other) && self.owns(e) ==> !other.owns(e),
            self.spec_backlink().owns(e) == self.owns(e),
    {
        let k = e.0;
        if self.disjoint(other) && self.owns(e) && other.owns(e) {
            let p = if crate::order::is_prefix(spec_prefix(self.id), k) {
                self.id
            } else {
                self.backlink_id
            };
            let q = if crate::order::is_prefix(spec_prefix(other.id), k) {
                other.id
            } else {
                other.backlink_id
            };
            crate::key::lemma_be_len(2, p as int);
            crate::key::lemma_be_len(2, q as int);
            crate::key::lemma_pow256_values();
            crate::key::lemma_be_order(2, p as int, q as int);
        }
    }

    /// Links with nothing stored in their key space are consistent.
    pub proof fn lemma_empty_consistent(&self, links: Seq<Pair>)
        requires
            forall|e: Pair| #[trigger] links.contains(e) ==> !self.owns(e),
        ensures
            self.consistent(links),
    {
        let b = self.spec_backlink();
        assert forall|oid: i64| #[trigger] self.intact_from(links, oid) by {
            assert forall|v: Seq<u8>| #[trigger]
                links.contains((spec_int_key(self.id, oid), v)) implies exists|t: i64|
                v == spec_int_key(self.target_col_id, t) && self.back_linked(links, oid, t) by {
                lemma_key_prefix(self.id, oid, self.id);
            }
        }
        assert forall|t: i64| #[trigger] b.intact_from(links, t) by {
            assert forall|v: Seq<u8>| #[trigger]
                links.contains((spec_int_key(b.id, t), v)) implies exists|s: i64|
                v == spec_int_key(b.target_col_id, s) && b.back_linked(links, t, s) by {
                lemma_key_prefix(b.id, t, b.id);
            }
        }
    }

    /// Removes every pair whose key starts with `prefix`.
    pub fn clear_internal(links: &mut Db, prefix: &[u8])
        requires
            old(links).wf(),
        ensures
            final(links).wf(),
            final(links).allows_dup() == old(links).allows_dup(),
            final(links).set() == old(links).set().filter(|e: Pair| !is_prefix(prefix@, e.0)),
    {
        links.delete_key_prefix(prefix);
    }
}

/// The two bytes that start every key under `prefix`.
pub fn prefix_bytes(prefix: u16) -> (b: Vec<u8>)
    ensures
        b@ == spec_prefix(prefix),
{
    let mut out: Vec<u8> = Vec::new();
    crate::key::push_be(&mut out, 2, prefix as u64);
    assert(out@ =~= spec_prefix(prefix));
    out
}

} // verus!
