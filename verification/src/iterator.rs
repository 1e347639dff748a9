use vstd::prelude::*;
use crate::sorting::{ascending, sort_indices};

verus! {

/// Returned by `kdtree_iterator_get_next` once every entry has been read.
pub const KDTREE_END: u64 = 0xffff_ffff_ffff_ffff;

/// The results of a search: the reported point indices and a read position.
pub struct KdtreeIterator {
    data: Vec<u64>,
    current: usize,
}

impl KdtreeIterator {
    /// The read position never passes the end of the entries.
    #[verifier::type_invariant]
    spec fn position_in_bounds(self) -> bool {
        self.current <= self.data.len()
    }

    /// The reported indices, in the order in which they were added.
    pub closed spec fn items(self) -> Seq<u64> {
        self.data@
    }

    /// How many entries have been read since the last search or rewind.
    pub closed spec fn position(self) -> nat {
        self.current as nat
    }

    /// A new iterator with no entries.
    pub fn iterator_new() -> (iter: KdtreeIterator)
        ensures
            iter.items() == Seq::<u64>::empty(),
            iter.position() == 0,
    {
        KdtreeIterator { data: Vec::new(), current: 0 }
    }

    /// Empties the iterator so that its memory serves a new search.
    pub fn iterator_reset(&mut self)
        ensures
            final(self).items() == Seq::<u64>::empty(),
            final(self).position() == 0,
    {
        let mut taken = KdtreeIterator { data: Vec::new(), current: 0 };
        std::mem::swap(self, &mut taken);
        let mut data = taken.data;
        data.clear();
        *self = KdtreeIterator { data, current: 0 };
    }

    /// Appends an index to the entries.
    pub fn iterator_push(&mut self, value: u64)
        ensures
            final(self).items() == old(self).items().push(value),
            final(self).position() == old(self).position(),
    {
        proof {
            use_type_invariant(&*self);
        }
        let mut taken = KdtreeIterator { data: Vec::new(), current: 0 };
        std::mem::swap(self, &mut taken);
        proof {
            use_type_invariant(&taken);
        }
        let current = taken.current;
        let mut data = taken.data;
        data.push(value);
        *self = KdtreeIterator { data, current };
    }

    /// The number of entries.
    pub fn size(&self) -> (n: usize)
        ensures
            n == self.items().len(),
    {
        self.data.len()
    }

    /// The read position.
    pub fn current(&self) -> (n: usize)
        ensures
            n == self.position(),
    {
        self.current
    }
}

/// Returns the next entry and advances the read position, or returns
/// `KDTREE_END` when every entry has been read.
pub fn kdtree_iterator_get_next(iter: &mut KdtreeIterator) -> (v: u64)
    ensures
        old(iter).position() < old(iter).items().len() ==> {
            &&& v == old(iter).items()[old(iter).position() as int]
            &&& final(iter).position() == old(iter).position() + 1
        },
        old(iter).position() >= old(iter).items().len() ==> {
            &&& v == KDTREE_END
            &&& final(iter).position() == old(iter).position()
        },
        final(iter).items() == old(iter).items(),
        (v, final(iter).position()) == next_entry(old(iter).items(), old(iter).position()),
{
    proof {
        use_type_invariant(&*iter);
    }
    if iter.current == iter.data.len() {
        return KDTREE_END;
    }
    let v = iter.data[iter.current];
    iter.current = iter.current + 1;
    v
}

/// One read of the entries `items` at position `pos`: the entry there and
/// the next position, or `KDTREE_END` and the same position past the end.
pub open spec fn next_entry(items: Seq<u64>, pos: nat) -> (u64, nat) {
    if pos < items.len() {
        (items[pos as int], pos + 1)
    } else {
        (KDTREE_END, pos)
    }
}

/// The values returned by `k` successive reads starting at position `pos`.
pub open spec fn read_entries(items: Seq<u64>, pos: nat, k: nat) -> Seq<u64>
    decreases k,
{
    if k == 0 {
        Seq::empty()
    } else {
        let (v, next) = next_entry(items, pos);
        seq![v] + read_entries(items, next, (k - 1) as nat)
    }
}

/// Reading on from position `pos` returns the remaining entries in order,
/// then `KDTREE_END` on every further read.
pub proof fn lemma_read_from(items: Seq<u64>, pos: nat, extra: nat)
    requires
        pos <= items.len(),
    ensures
        read_entries(items, pos, (items.len() - pos + extra) as nat) == items.subrange(
            pos as int,
            items.len() as int,
        ) + Seq::new(extra, |i: int| KDTREE_END),
    decreases items.len() - pos + extra,
{
    if pos < items.len() {
        lemma_read_from(items, pos + 1, extra);
        assert(seq![items[pos as int]] + items.subrange(pos + 1int, items.len() as int)
            =~= items.subrange(pos as int, items.len() as int));
        assert(seq![items[pos as int]] + (items.subrange(pos + 1int, items.len() as int) + Seq::new(
            extra,
            |i: int| KDTREE_END,
        )) =~= items.subrange(pos as int, items.len() as int) + Seq::new(
            extra,
            |i: int| KDTREE_END,
        ));
    } else if extra > 0 {
        lemma_read_from(items, pos, (extra - 1) as nat);
        assert(seq![KDTREE_END] + Seq::new((extra - 1) as nat, |i: int| KDTREE_END) =~= Seq::new(
            extra,
            |i: int| KDTREE_END,
        ));
        assert(items.subrange(pos as int, items.len() as int) =~= Seq::<u64>::empty());
    } else {
        assert(items.subrange(pos as int, items.len() as int) + Seq::new(extra, |i: int| KDTREE_END)
            =~= Seq::<u64>::empty());
    }
}

/// Reading a fresh or rewound iterator returns every entry once, in order,
/// and then `KDTREE_END` on every further read.
pub proof fn lemma_read_all_entries(items: Seq<u64>, extra: nat)
    ensures
        read_entries(items, 0, items.len() + extra) == items + Seq::new(
            extra,
            |i: int| KDTREE_END,
        ),
{
    lemma_read_from(items, 0, extra);
    assert(items.subrange(0, items.len() as int) =~= items);
}

/// Moves the read position back to the first entry.
pub fn kdtree_iterator_rewind(iter: &mut KdtreeIterator)
    ensures
        final(iter).items() == old(iter).items(),
        final(iter).position() == 0,
{
    iter.current = 0;
}

/// Sorts the entries in ascending order; the read position is kept.
pub fn kdtree_iterator_sort(iter: &mut KdtreeIterator)
    ensures
        final(iter).items().to_multiset() == old(iter).items().to_multiset(),
        ascending(final(iter).items()),
        final(iter).position() == old(iter).position(),
{
    let mut taken = KdtreeIterator { data: Vec::new(), current: 0 };
    std::mem::swap(iter, &mut taken);
    proof {
        use_type_invariant(&taken);
    }
    let current = taken.current;
    let mut data = taken.data;
    let ghost before = data@;
    sort_indices(&mut data);
    proof {
        data@.to_multiset_ensures();
        before.to_multiset_ensures();
    }
    *iter = KdtreeIterator { data, current };
}

/// Releases the iterator and leaves `None` in its place.
pub fn kdtree_iterator_delete(iter_ptr: &mut Option<KdtreeIterator>)
    ensures
        final(iter_ptr).is_none(),
{
    *iter_ptr = None;
}

} // verus!
