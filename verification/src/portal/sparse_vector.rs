//! A vector of fixed length in which most positions may be unset.
use vstd::prelude::*;

verus! {

/// `N` positions, each set to an item or unset.
#[derive(Debug, Clone, Copy, PartialEq, Eq)]
pub struct SparseVector<T, const N: usize> {
    pub(crate) items: [Option<T>; N],
}

/// The items that are set, in the order of their positions.
pub open spec fn set_items<T>(items: Seq<Option<T>>) -> Seq<T>
    decreases items.len(),
{
    if items.len() == 0 {
        Seq::empty()
    } else {
        match items.last() {
            Some(item) => set_items(items.drop_last()).push(item),
            None => set_items(items.drop_last()),
        }
    }
}

/// The items that are set, each with its position, in the order of their positions.
pub open spec fn enumerated_set_items<T>(items: Seq<Option<T>>) -> Seq<(usize, T)>
    decreases items.len(),
{
    if items.len() == 0 {
        Seq::empty()
    } else {
        match items.last() {
            Some(item) => enumerated_set_items(items.drop_last()).push(
                ((items.len() - 1) as usize, item),
            ),
            None => enumerated_set_items(items.drop_last()),
        }
    }
}

impl<T: Copy, const N: usize> SparseVector<T, N> {
    /// The positions, set or unset.
    pub open(crate) spec fn items(self) -> Seq<Option<T>> {
        self.items@
    }

    pub fn new(items: [Option<T>; N]) -> (r: Self)
        ensures
            r.items() == items@,
    {
        SparseVector { items }
    }

    /// The vector has `N` positions.
    pub proof fn lemma_len(self)
        ensures
            self.items().len() == N,
    {
    }

    /// What position `i` holds.
    pub fn get(&self, i: usize) -> (r: Option<T>)
        requires
            i < N,
        ensures
            r == self.items()[i as int],
    {
        self.items[i]
    }

    /// The items that are set, in the order of their positions.
    pub fn iter_set_items(&self) -> (r: Vec<T>)
        ensures
            r@ == set_items(self.items()),
    {
        let mut found: Vec<T> = Vec::new();
        let mut i: usize = 0;
        while i < N
            invariant
                i <= N,
                found@ == set_items(self.items().subrange(0, i as int)),
            decreases N - i,
        {
            assert(self.items().subrange(0, i + 1).drop_last() =~= self.items().subrange(
                0,
                i as int,
            ));
            match self.items[i] {
                Some(item) => {
                    found.push(item);
                },
                None => {},
            }
            i += 1;
        }
        assert(self.items().subrange(0, N as int) =~= self.items());
        found
    }

    /// The items that are set, each with its position, in the order of their positions.
    pub fn iter_enumerated_set_items(&self) -> (r: Vec<(usize, T)>)
        ensures
            r@ == enumerated_set_items(self.items()),
    {
        let mut found: Vec<(usize, T)> = Vec::new();
        let mut i: usize = 0;
        while i < N
            invariant
                i <= N,
                found@ == enumerated_set_items(self.items().subrange(0, i as int)),
            decreases N - i,
        {
            assert(self.items().subrange(0, i + 1).drop_last() =~= self.items().subrange(
                0,
                i as int,
            ));
            match self.items[i] {
                Some(item) => {
                    found.push((i, item));
                },
                None => {},
            }
            i += 1;
        }
        assert(self.items().subrange(0, N as int) =~= self.items());
        found
    }
}

} // verus!
