use crate::error::IsarError;
use crate::store::{Db, Pair};
use vstd::prelude::*;

verus! {

/// What one collection has stored: its objects by id key, one database
/// per index, and the largest id handed out so far.
pub struct CollectionData {
    pub data: Db,
    pub indexes: Vec<Db>,
    pub last_id: i64,
}

/// The stored state of one collection as plain values.
pub ghost struct CollectionView {
    pub data: Seq<Pair>,
    pub indexes: Seq<Seq<Pair>>,
    pub last_id: i64,
}

impl View for CollectionData {
    type V = CollectionView;

    open spec fn view(&self) -> CollectionView {
        CollectionView {
            data: self.data@,
            indexes: Seq::new(self.indexes@.len(), |i: int| self.indexes@[i]@),
            last_id: self.last_id,
        }
    }
}

impl CollectionData {
    /// The object database holds one value per key; every database is in order.
    pub open spec fn wf(&self) -> bool {
        &&& self.data.wf()
        &&& !self.data.allows_dup()
        &&& forall|i: int| 0 <= i < self.indexes@.len() ==> (#[trigger] self.indexes@[i]).wf()
    }

    /// Empty databases for a collection; `unique[i]` tells whether index
    /// `i` holds one value per key.
    pub fn new(unique: &Vec<bool>) -> (cd: CollectionData)
        ensures
            cd.wf(),
            cd.data@ == Seq::<Pair>::empty(),
            cd.indexes@.len() == unique@.len(),
            forall|i: int|
                0 <= i < unique@.len() ==> (#[trigger] cd.indexes@[i])@ == Seq::<Pair>::empty()
                    && cd.indexes@[i].allows_dup() == !unique@[i],
            cd.last_id == 0,
    {
        let mut indexes: Vec<Db> = Vec::new();
        let mut i: usize = 0;
        while i < unique.len()
            invariant
                i <= unique.len(),
                indexes.len() == i,
                forall|k: int|
                    0 <= k < i ==> (#[trigger] indexes@[k])@ == Seq::<Pair>::empty()
                        && indexes@[k].allows_dup() == !unique@[k] && indexes@[k].wf(),
            decreases unique.len() - i,
        {
            indexes.push(Db::new(!unique[i]));
            i += 1;
        }
        CollectionData { data: Db::new(false), indexes, last_id: 0 }
    }

    /// The same stored state in databases of its own.
    pub fn copy(&self) -> (cd: CollectionData)
        ensures
            cd@ == self@,
            cd.data.allows_dup() == self.data.allows_dup(),
            cd.indexes@.len() == self.indexes@.len(),
            forall|i: int|
                0 <= i < self.indexes@.len() ==> (#[trigger] cd.indexes@[i]).allows_dup()
                    == self.indexes@[i].allows_dup() && cd.indexes@[i]@ == self.indexes@[i]@,
    {
        let mut indexes: Vec<Db> = Vec::new();
        let mut i: usize = 0;
        while i < self.indexes.len()
            invariant
                i <= self.indexes.len(),
                indexes.len() == i,
                forall|k: int|
                    0 <= k < i ==> (#[trigger] indexes@[k])@ == self.indexes@[k]@
                        && indexes@[k].allows_dup() == self.indexes@[k].allows_dup(),
            decreases self.indexes.len() - i,
        {
            indexes.push(self.indexes[i].copy());
            i += 1;
        }
        let cd = CollectionData { data: self.data.copy(), indexes, last_id: self.last_id };
        assert(cd@.indexes =~= self@.indexes);
        cd
    }
}

/// Everything a transaction works on: the data of every collection, by
/// collection id, and the links database that they share.
pub struct TxnData {
    pub cols: Vec<CollectionData>,
    pub links: Db,
}

/// The stored state of an instance as plain values.
pub ghost struct TxnView {
    pub cols: Seq<CollectionView>,
    pub links: Seq<Pair>,
}

impl View for TxnData {
    type V = TxnView;

    open spec fn view(&self) -> TxnView {
        TxnView { cols: Seq::new(self.cols@.len(), |i: int| self.cols@[i]@), links: self.links@ }
    }
}

impl TxnData {
    /// Every database is in order, and the links database holds many
    /// values per key.
    pub open spec fn wf(&self) -> bool {
        &&& self.links.wf()
        &&& self.links.allows_dup()
        &&& forall|i: int| 0 <= i < self.cols@.len() ==> (#[trigger] self.cols@[i]).wf()
    }

    /// The same stored state in databases of its own.
    pub fn copy(&self) -> (d: TxnData)
        ensures
            d@ == self@,
            d.links.allows_dup() == self.links.allows_dup(),
            d.cols@.len() == self.cols@.len(),
            forall|c: int|
                0 <= c < self.cols@.len() ==> {
                    let a = #[trigger] d.cols@[c];
                    let b = self.cols@[c];
                    &&& a@ == b@
                    &&& a.data.allows_dup() == b.data.allows_dup()
                    &&& a.indexes@.len() == b.indexes@.len()
                    &&& forall|i: int|
                        0 <= i < b.indexes@.len() ==> (#[trigger] a.indexes@[i]).allows_dup()
                            == b.indexes@[i].allows_dup() && a.indexes@[i]@ == b.indexes@[i]@
                },
    {
        let mut cols: Vec<CollectionData> = Vec::new();
        let mut c: usize = 0;
        while c < self.cols.len()
            invariant
                c <= self.cols.len(),
                cols.len() == c,
                forall|k: int|
                    0 <= k < c ==> {
                        let a = #[trigger] cols@[k];
                        let b = self.cols@[k];
                        &&& a@ == b@
                        &&& a.data.allows_dup() == b.data.allows_dup()
                        &&& a.indexes@.len() == b.indexes@.len()
                        &&& forall|i: int|
                            0 <= i < b.indexes@.len() ==> (#[trigger] a.indexes@[i]).allows_dup()
                                == b.indexes@[i].allows_dup() && a.indexes@[i]@ == b.indexes@[i]@
                    },
            decreases self.cols.len() - c,
        {
            cols.push(self.cols[c].copy());
            c += 1;
        }
        let d = TxnData { cols, links: self.links.copy() };
        assert(d@.cols =~= self@.cols);
        d
    }
}

/// A transaction: a private working copy of the stored state. A write
/// transaction hands its state out to each operation and takes it back
/// when the operation succeeds; one that failed keeps it, and the
/// transaction is poisoned from then on: only `abort` is left.
pub struct IsarTxn {
    write: bool,
    data: Option<TxnData>,
}

impl IsarTxn {
    /// Whether the transaction may change the stored state.
    pub closed spec fn is_write(&self) -> bool {
        self.write
    }

    /// Whether an operation failed and kept the state.
    pub closed spec fn is_poisoned(&self) -> bool {
        self.data is None
    }

    /// The working copy; meaningful unless the transaction is poisoned.
    pub closed spec fn data(&self) -> TxnData {
        self.data->Some_0
    }

    pub fn new(data: TxnData, write: bool) -> (txn: IsarTxn)
        ensures
            txn.is_write() == write,
            !txn.is_poisoned(),
            txn.data() == data,
    {
        IsarTxn { write, data: Some(data) }
    }

    pub fn write(&self) -> (r: bool)
        ensures
            r == self.is_write(),
    {
        self.write
    }

    pub fn poisoned(&self) -> (r: bool)
        ensures
            r == self.is_poisoned(),
    {
        self.data.is_none()
    }

    /// The state, for reading.
    pub fn get_read_txn(&self) -> (r: Result<&TxnData, IsarError>)
        ensures
            r is Ok <==> !self.is_poisoned(),
            r matches Ok(d) ==> *d == self.data(),
            r matches Err(e) ==> e is TransactionPoisoned,
    {
        match &self.data {
            Some(d) => Ok(d),
            None => Err(IsarError::TransactionPoisoned),
        }
    }

    /// Hands the state out for an operation that changes it. Until it is
    /// put back the transaction counts as poisoned.
    pub fn take_write_txn(&mut self) -> (r: Result<TxnData, IsarError>)
        ensures
            final(self).is_write() == old(self).is_write(),
            r is Ok <==> old(self).is_write() && !old(self).is_poisoned(),
            r matches Ok(d) ==> d == old(self).data() && final(self).is_poisoned(),
            r matches Err(e) ==> *final(self) == *old(self) && if old(self).is_poisoned() {
                e is TransactionPoisoned
            } else {
                e is IllegalArgument
            },
    {
        if self.data.is_none() {
            return Err(IsarError::TransactionPoisoned);
        }
        if !self.write {
            return Err(
                IsarError::IllegalArgument { message: "Write transaction required.".to_string() },
            );
        }
        let data = self.data.take();
        Ok(data.unwrap())
    }

    /// Takes the state back after an operation that succeeded.
    pub fn put_write_txn(&mut self, data: TxnData)
        ensures
            final(self).is_write() == old(self).is_write(),
            !final(self).is_poisoned(),
            final(self).data() == data,
    {
        self.data = Some(data);
    }

    /// Ends the transaction and hands over its state, to become the stored
    /// state. A poisoned transaction cannot be committed.
    pub fn commit(self) -> (r: Result<TxnData, IsarError>)
        ensures
            r is Ok <==> !self.is_poisoned(),
            r matches Ok(d) ==> d == self.data(),
            r matches Err(e) ==> e is TransactionPoisoned,
    {
        match self.data {
            Some(d) => Ok(d),
            None => Err(IsarError::TransactionPoisoned),
        }
    }

    /// Ends the transaction and drops its state.
    pub fn abort(self) {
    }
}

} // verus!
