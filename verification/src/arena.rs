use vstd::prelude::*;

verus! {

/// An append-only arena. Nodes of the bounding-volume hierarchy are pushed
/// here and refer to one another by the index that `push` hands back.
pub struct AtomicArena<T> {
    pub storage: Vec<T>,
}

impl<T> View for AtomicArena<T> {
    type V = Seq<T>;

    open spec fn view(&self) -> Seq<T> {
        self.storage@
    }
}

impl<T> AtomicArena<T> {
    /// A fresh arena, sized for the number of nodes the caller expects to push.
    pub fn new(size: usize) -> (a: Self)
        ensures
            a@ == Seq::<T>::empty(),
    {
        let storage: Vec<T> = Vec::with_capacity(size);
        AtomicArena { storage }
    }

    /// The number of values pushed so far.
    pub fn len(&self) -> (n: usize)
        ensures
            n == self@.len(),
    {
        self.storage.len()
    }

    /// Append a value; the returned index refers to it from now on.
    pub fn push(&mut self, v: T) -> (idx: usize)
        ensures
            final(self)@ == old(self)@.push(v),
            idx == old(self)@.len(),
    {
        let idx = self.storage.len();
        self.storage.push(v);
        idx
    }

    /// Look a value up by index; indices at or past `len` hold nothing.
    pub fn get(&self, i: usize) -> (r: Option<&T>)
        ensures
            match r {
                Some(v) => i < self@.len() && *v == self@[i as int],
                None => i >= self@.len(),
            },
    {
        if i < self.storage.len() {
            Some(&self.storage[i])
        } else {
            None
        }
    }
}

} // verus!
