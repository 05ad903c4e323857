//! Small tools of the search: a first-in first-out queue and the random
//! number generator.

use vstd::prelude::*;

pub mod rnd;

verus! {

/// A first-in first-out queue of mask and depth pairs, held as two stacks.
pub struct Queue {
    st_in: Vec<(u128, u16)>,
    st_out: Vec<(u128, u16)>,
}

impl View for Queue {
    type V = Seq<(u128, u16)>;

    /// The waiting entries, the one that leaves next first.
    closed spec fn view(&self) -> Seq<(u128, u16)> {
        self.st_out@.reverse() + self.st_in@
    }
}

impl Default for Queue {
    fn default() -> (q: Queue)
        ensures
            q@ == Seq::<(u128, u16)>::empty(),
    {
        let q = Queue { st_in: Vec::new(), st_out: Vec::new() };
        assert(q@ =~= Seq::<(u128, u16)>::empty());
        q
    }
}

impl Queue {
    /// Puts `v` behind all waiting entries.
    pub fn push_back(&mut self, v: (u128, u16))
        ensures
            final(self)@ == old(self)@.push(v),
    {
        self.st_in.push(v);
        assert(self@ =~= old(self)@.push(v));
    }

    /// Takes out the entry that has waited longest, if there is one.
    pub fn pop_front(&mut self) -> (front: Option<(u128, u16)>)
        ensures
            match front {
                Some(v) => old(self)@.len() > 0 && v == old(self)@[0] && final(self)@ == old(
                    self,
                )@.drop_first(),
                None => old(self)@.len() == 0 && final(self)@ == old(self)@,
            },
    {
        if self.st_out.is_empty() {
            if self.st_in.is_empty() {
                return None;
            }
            let ghost waiting = self.st_in@;
            while self.st_in.len() > 0
                invariant
                    self.st_in@ + self.st_out@.reverse() == waiting,
                decreases self.st_in.len(),
            {
                let ghost before_in = self.st_in@;
                let ghost before_out = self.st_out@;
                let v = self.st_in.pop().unwrap();
                self.st_out.push(v);
                assert(self.st_in@ + self.st_out@.reverse() =~= before_in + before_out.reverse());
            }
            assert(self.st_out@.reverse() =~= waiting);
            assert(old(self)@ =~= waiting);
        }
        let ghost stack = self.st_out@;
        let front = self.st_out.pop();
        assert(self@ =~= (stack.reverse() + self.st_in@).drop_first());
        front
    }
}

} // verus!
