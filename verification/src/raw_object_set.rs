use crate::error::IsarError;
use crate::query::id_where_clause::id_of;
use crate::query::query::Query;
use crate::txn::IsarTxn;
use vstd::prelude::*;

verus! {

/// An object as it is handed to a caller: its id and a copy of its
/// bytes, or no bytes where there is no object.
pub struct RawObject {
    id: i64,
    data: Option<Vec<u8>>,
}

/// A `RawObject` on its way to another thread. It owns what it holds, so
/// it can go there.
pub struct RawObjectSend(pub RawObject);

impl RawObject {
    /// The id that stands for "no id".
    pub const NO_ID: i64 = i64::MIN;

    pub closed spec fn spec_id(&self) -> i64 {
        self.id
    }

    /// The bytes held; `None` where no object is held.
    pub closed spec fn spec_object(&self) -> Option<Seq<u8>> {
        match self.data {
            Some(d) => Some(d@),
            None => None,
        }
    }

    pub fn new(id: i64, object: &[u8]) -> (r: RawObject)
        ensures
            r.spec_id() == id,
            r.spec_object() == Some(object@),
    {
        RawObject { id, data: Some(crate::order::copy_bytes(object)) }
    }

    pub fn set_object_id(&mut self, id: i64)
        ensures
            final(self).spec_id() == id,
            final(self).spec_object() == old(self).spec_object(),
    {
        self.id = id;
    }

    /// The id, unless it is the one that stands for "no id".
    pub fn get_object_id(&self) -> (r: Option<i64>)
        ensures
            r == if self.spec_id() == i64::MIN {
                None
            } else {
                Some(self.spec_id())
            },
    {
        if self.id != i64::MIN {
            Some(self.id)
        } else {
            None
        }
    }

    pub fn get_id(&self) -> (id: i64)
        ensures
            id == self.spec_id(),
    {
        self.id
    }

    pub fn set_id(&mut self, id: i64)
        ensures
            final(self).spec_id() == id,
            final(self).spec_object() == old(self).spec_object(),
    {
        self.id = id;
    }

    pub fn set_object(&mut self, object: Option<&[u8]>)
        ensures
            final(self).spec_id() == old(self).spec_id(),
            final(self).spec_object() == (match object {
                Some(o) => Some(o@),
                None => None,
            }),
    {
        match object {
            Some(o) => {
                self.data = Some(crate::order::copy_bytes(o));
            },
            None => {
                self.data = None;
            },
        }
    }

    /// The bytes held; none where no object is held.
    pub fn object_as_slice(&self) -> (r: &[u8])
        ensures
            r@ == (match self.spec_object() {
                Some(o) => o,
                None => Seq::<u8>::empty(),
            }),
    {
        match &self.data {
            Some(d) => d.as_slice(),
            None => {
                let none: &[u8] = &[];
                assert(none@ =~= Seq::<u8>::empty());
                none
            },
        }
    }

    /// How many bytes are held, up to the largest 32-bit number.
    pub fn get_length(&self) -> (n: u32)
        ensures
            n == (match self.spec_object() {
                Some(o) => if o.len() > u32::MAX {
                    u32::MAX as int
                } else {
                    o.len() as int
                },
                None => 0,
            }),
    {
        match &self.data {
            Some(d) => {
                if d.len() > 0xffff_ffff {
                    0xffff_ffff
                } else {
                    d.len() as u32
                }
            },
            None => 0,
        }
    }

    pub fn clear(&mut self)
        ensures
            final(self).spec_id() == i64::MIN,
            final(self).spec_object() is None,
    {
        self.id = i64::MIN;
        self.data = None;
    }
}

/// The objects that a query found, handed to a caller.
pub struct RawObjectSet {
    objects: Vec<RawObject>,
}

/// A `RawObjectSet` on its way to another thread.
pub struct RawObjectSetSend(pub RawObjectSet);

impl RawObjectSet {
    pub closed spec fn spec_objects(&self) -> Seq<RawObject> {
        self.objects@
    }

    pub fn new() -> (r: RawObjectSet)
        ensures
            r.spec_objects().len() == 0,
    {
        RawObjectSet { objects: Vec::new() }
    }

    /// Takes in what the query finds. A query that fails leaves the set
    /// as it was.
    pub fn fill_from_query(&mut self, query: &Query, txn: &IsarTxn) -> (r: Result<(), IsarError>)
        requires
            !txn.is_poisoned() ==> query.ready(&txn.data()),
        ensures
            r is Ok <==> !txn.is_poisoned() && query.sound(&txn.data()),
            r is Err ==> final(self).spec_objects() == old(self).spec_objects(),
            r is Ok ==> {
                let found = query.spec_result(&txn.data());
                &&& final(self).spec_objects().len() == found.len()
                &&& forall|i: int|
                    0 <= i < found.len() ==> (#[trigger] final(self).spec_objects()[i]).spec_id()
                        == id_of(found[i]) && final(self).spec_objects()[i].spec_object() == Some(
                        found[i].1,
                    )
            },
    {
        let list = match query.find_all(txn) {
            Ok(list) => list,
            Err(e) => {
                return Err(e);
            },
        };
        let ghost found = query.spec_result(&txn.data());
        let mut objects: Vec<RawObject> = Vec::new();
        let mut i: usize = 0;
        while i < list.len()
            invariant
                i <= list.len(),
                list.len() == found.len(),
                forall|k: int|
                    0 <= k < list.len() ==> (#[trigger] list[k]).0 == id_of(found[k]) && list[k].1@
                        == found[k].1,
                objects@.len() == i,
                forall|k: int|
                    0 <= k < i ==> (#[trigger] objects@[k]).spec_id() == id_of(found[k])
                        && objects@[k].spec_object() == Some(found[k].1),
            decreases list.len() - i,
        {
            objects.push(RawObject::new(list[i].0, list[i].1.as_slice()));
            i += 1;
        }
        self.fill_from_vec(objects);
        Ok(())
    }

    pub fn fill_from_vec(&mut self, objects: Vec<RawObject>)
        ensures
            final(self).spec_objects() == objects@,
    {
        self.objects = objects;
    }

    pub fn clear(&mut self)
        ensures
            final(self).spec_objects().len() == 0,
    {
        self.objects = Vec::new();
    }

    /// How many objects the set holds, up to the largest 32-bit number.
    pub fn length(&self) -> (n: u32)
        ensures
            n == if self.spec_objects().len() > u32::MAX {
                u32::MAX as int
            } else {
                self.spec_objects().len() as int
            },
    {
        if self.objects.len() > 0xffff_ffff {
            0xffff_ffff
        } else {
            self.objects.len() as u32
        }
    }

    pub fn get_length(&self) -> (n: usize)
        ensures
            n == self.spec_objects().len(),
    {
        self.objects.len()
    }

    /// The object at place `i`.
    pub fn get_object(&self, i: usize) -> (r: Option<&RawObject>)
        ensures
            r is Some <==> i < self.spec_objects().len(),
            r matches Some(o) ==> *o == self.spec_objects()[i as int],
    {
        if i < self.objects.len() {
            Some(&self.objects[i])
        } else {
            None
        }
    }

    /// Puts `object` at place `i`; tells whether there is such a place.
    pub fn set_object(&mut self, i: usize, object: RawObject) -> (r: bool)
        ensures
            r == (i < old(self).spec_objects().len()),
            r ==> final(self).spec_objects() == old(self).spec_objects().update(i as int, object),
            !r ==> final(self).spec_objects() == old(self).spec_objects(),
    {
        if i < self.objects.len() {
            self.objects.set(i, object);
            true
        } else {
            false
        }
    }
}

} // verus!
