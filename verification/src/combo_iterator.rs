use vstd::prelude::*;

verus! {

/// A zip over two sequences of values: each call to `next` yields the pair of
/// elements at the current position and stops as soon as either sequence is
/// exhausted.
pub struct ComboIterator0<T0, T1> {
    it0: Vec<T0>,
    it1: Vec<T1>,
    pos: usize,
}

impl<T0: Copy, T1: Copy> ComboIterator0<T0, T1> {
    /// The first underlying sequence.
    pub closed spec fn seq0(&self) -> Seq<T0> {
        self.it0@
    }

    /// The second underlying sequence.
    pub closed spec fn seq1(&self) -> Seq<T1> {
        self.it1@
    }

    /// The current position; pairs before it have been yielded.
    pub closed spec fn pos(&self) -> int {
        self.pos as int
    }

    pub fn new(it0: Vec<T0>, it1: Vec<T1>) -> (it: ComboIterator0<T0, T1>)
        ensures
            it.seq0() == it0@,
            it.seq1() == it1@,
            it.pos() == 0,
    {
        ComboIterator0 { it0, it1, pos: 0 }
    }

    pub fn next(&mut self) -> (r: Option<(T0, T1)>)
        ensures
            final(self).seq0() == old(self).seq0(),
            final(self).seq1() == old(self).seq1(),
            if old(self).pos() < old(self).seq0().len() && old(self).pos() < old(self).seq1().len() {
                r == Some((old(self).seq0()[old(self).pos()], old(self).seq1()[old(self).pos()]))
                    && final(self).pos() == old(self).pos() + 1
            } else {
                r is None && final(self).pos() == old(self).pos()
            },
    {
        if self.pos < self.it0.len() && self.pos < self.it1.len() {
            let v0 = self.it0[self.pos];
            let v1 = self.it1[self.pos];
            self.pos = self.pos + 1;
            Some((v0, v1))
        } else {
            None
        }
    }
}

} // verus!
