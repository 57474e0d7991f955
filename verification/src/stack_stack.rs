use vstd::prelude::*;

verus! {

/// A stack of stacks in which only the top stack can be modified.
///
/// The values of all layers are kept in one flat sequence, in insertion
/// order; `marks` records, for every layer above the bottom one, the offset
/// at which that layer starts.  The bottom layer always exists.
#[derive(Debug, Clone)]
pub struct StackStack<T> {
    values: Vec<T>,
    tops: Vec<usize>,
}

impl<T> View for StackStack<T> {
    type V = Seq<Seq<T>>;

    /// The layers from bottom to top, each in insertion order.
    open spec fn view(&self) -> Seq<Seq<T>> {
        Seq::new(self.marks().len() + 1, |l: int| self.layer(l))
    }
}

impl<T> StackStack<T> {
    /// All values of all layers, oldest first.
    pub closed spec fn flat(&self) -> Seq<T> {
        self.values@
    }

    /// The start offsets of the layers above the bottom one.
    pub closed spec fn marks(&self) -> Seq<int> {
        Seq::new(self.tops@.len(), |i: int| self.tops@[i] as int)
    }

    /// Offsets never decrease and never point past the values.
    pub open spec fn wf(&self) -> bool {
        &&& forall|i: int, j: int|
            0 <= i <= j < self.marks().len() ==> self.marks()[i] <= self.marks()[j]
        &&& forall|i: int|
            0 <= i < self.marks().len() ==> 0 <= #[trigger] self.marks()[i] <= self.flat().len()
    }

    /// Number of layers above the bottom one.
    pub open spec fn depth(&self) -> nat {
        self.marks().len()
    }

    /// Offset at which layer `l` starts.
    pub open spec fn lo(&self, l: int) -> int {
        if l <= 0 {
            0
        } else {
            self.marks()[l - 1]
        }
    }

    /// Offset at which layer `l` ends.
    pub open spec fn hi(&self, l: int) -> int {
        if l >= self.marks().len() {
            self.flat().len() as int
        } else {
            self.marks()[l]
        }
    }

    /// The contents of layer `l`.
    pub open spec fn layer(&self, l: int) -> Seq<T> {
        self.flat().subrange(self.lo(l), self.hi(l))
    }

    /// The contents of the top layer.
    pub open spec fn top(&self) -> Seq<T> {
        self.layer(self.depth() as int)
    }

    /// A stack holding only an empty bottom layer.
    pub fn new() -> (s: Self)
        ensures
            s.wf(),
            s.flat() == Seq::<T>::empty(),
            s.marks() == Seq::<int>::empty(),
            s@ == seq![Seq::<T>::empty()],
    {
        let s = StackStack { values: Vec::new(), tops: Vec::new() };
        assert(s.marks() =~= Seq::<int>::empty());
        assert(s@ =~~= seq![Seq::<T>::empty()]);
        s
    }

    /// Push a value onto the top layer.
    pub fn push_value(&mut self, x: T)
        requires
            old(self).wf(),
        ensures
            final(self).wf(),
            final(self).flat() == old(self).flat().push(x),
            final(self).marks() == old(self).marks(),
            final(self).top() == old(self).top().push(x),
            final(self)@ == old(self)@.update(old(self)@.len() - 1, old(self)@.last().push(x)),
    {
        self.values.push(x);
        assert(self.marks() =~= old(self).marks());
        assert(self.top() =~= old(self).top().push(x));
        proof {
            let want = old(self)@.update(old(self)@.len() - 1, old(self)@.last().push(x));
            assert forall|l: int| 0 <= l < self@.len() implies self@[l] =~= want[l] by {
                if l >= 1 {
                    assert(0 <= self.marks()[l - 1] <= old(self).flat().len());
                }
                if l < self.depth() {
                    assert(0 <= self.marks()[l] <= old(self).flat().len());
                    if l >= 1 {
                        assert(self.marks()[l - 1] <= self.marks()[l]);
                    }
                }
            }
            assert(self@ =~= want);
        }
    }

    /// Open a new, empty top layer.
    pub fn push_stack(&mut self)
        requires
            old(self).wf(),
        ensures
            final(self).wf(),
            final(self).flat() == old(self).flat(),
            final(self).marks() == old(self).marks().push(old(self).flat().len() as int),
            final(self).top() == Seq::<T>::empty(),
            final(self)@ == old(self)@.push(Seq::<T>::empty()),
    {
        let n = self.values.len();
        self.tops.push(n);
        assert(self.marks() =~= old(self).marks().push(n as int));
        assert forall|i: int, j: int| 0 <= i <= j < self.marks().len() implies self.marks()[i]
            <= self.marks()[j] by {
            if j < old(self).marks().len() {
                assert(self.marks()[i] == old(self).marks()[i]);
                assert(self.marks()[j] == old(self).marks()[j]);
            } else if i < old(self).marks().len() {
                assert(self.marks()[i] == old(self).marks()[i]);
            }
        }
        assert(self.top() =~= Seq::<T>::empty());
        proof {
            let want = old(self)@.push(Seq::<T>::empty());
            assert forall|l: int| 0 <= l < self@.len() implies self@[l] =~= want[l] by {
                if l < old(self).depth() {
                    assert(self.marks()[l] == old(self).marks()[l]);
                }
                if 1 <= l <= old(self).depth() {
                    assert(self.marks()[l - 1] == old(self).marks()[l - 1]);
                }
            }
            assert(self@ =~= want);
        }
    }

    /// The top layer, oldest value first.
    pub fn peek_stack(&self) -> (s: &[T])
        requires
            self.wf(),
        ensures
            s@ == self.top(),
            s@ == self@.last(),
    {
        let top_start: usize = if self.tops.len() == 0 {
            0
        } else {
            self.tops[self.tops.len() - 1]
        };
        assert(self.depth() > 0 ==> self.marks()[self.depth() - 1] == top_start);
        assert(self.depth() > 0 ==> self.marks()[self.depth() - 1] <= self.flat().len());
        vstd::slice::slice_subrange(self.values.as_slice(), top_start, self.values.len())
    }

    /// Remove the top layer and hand back its values, newest first.
    pub fn pop_stack_iter(&mut self) -> (popped: Vec<T>)
        requires
            old(self).wf(),
            old(self).depth() > 0,
        ensures
            final(self).wf(),
            final(self).marks() == old(self).marks().drop_last(),
            final(self).flat() == old(self).flat().take(old(self).marks().last()),
            popped@ == old(self).top().reverse(),
            popped@ == old(self)@.last().reverse(),
            final(self)@ == old(self)@.drop_last(),
    {
        let top_start = self.tops.pop().unwrap();
        assert(old(self).marks()[old(self).marks().len() - 1] == top_start);
        let mut popped: Vec<T> = Vec::new();
        let ghost before = self.values@;
        while self.values.len() > top_start
            invariant
                top_start <= before.len(),
                self.tops@ == old(self).tops@.drop_last(),
                before == old(self).values@,
                top_start <= self.values@.len() <= before.len(),
                self.values@ == before.take(self.values@.len() as int),
                popped@.len() == before.len() - self.values@.len(),
                forall|k: int|
                    0 <= k < popped@.len() ==> popped@[k] == before[before.len() - 1 - k],
            decreases self.values.len(),
        {
            let ghost prev = self.values@;
            let x = self.values.pop().unwrap();
            popped.push(x);
            assert(self.values@ =~= before.take(self.values@.len() as int));
        }
        assert(self.values@ =~= before.take(top_start as int));
        assert(self.marks() =~= old(self).marks().drop_last());
        assert(top_start == old(self).marks().last());
        assert(popped@ =~= old(self).top().reverse());
        proof {
            let want = old(self)@.drop_last();
            assert forall|l: int| 0 <= l < self@.len() implies self@[l] =~= want[l] by {
                assert(0 <= old(self).marks()[l] <= old(self).flat().len());
                assert(old(self).marks()[l] <= old(self).marks()[old(self).depth() - 1]);
                if l >= 1 {
                    assert(0 <= old(self).marks()[l - 1] <= old(self).marks()[l]);
                }
                if l < self.depth() {
                    assert(self.marks()[l] == old(self).marks()[l]);
                }
                if l >= 1 {
                    assert(self.marks()[l - 1] == old(self).marks()[l - 1]);
                }
            }
            assert(self@ =~= want);
        }
        popped
    }

    /// Number of layers above the bottom one.
    pub fn len(&self) -> (n: usize)
        ensures
            n == self.depth(),
            n == self@.len() - 1,
    {
        self.tops.len()
    }
}

} // verus!
