use vstd::prelude::*;

verus! {

/// A cursor over a sequence of items that can look at the next two items
/// without consuming them.
///
/// The two upcoming items are held in `buf0` and `buf1`; everything after
/// them still waits in `items`, from index `next` on.
pub struct Peekable2<T: Copy> {
    items: Vec<T>,
    next: usize,
    buf0: Option<T>,
    buf1: Option<T>,
}

impl<T: Copy> Peekable2<T> {
    /// The buffers are filled from the front: an empty slot is only ever
    /// followed by empty slots and an exhausted source.
    #[verifier::type_invariant]
    pub closed spec fn wf(&self) -> bool {
        &&& self.next <= self.items@.len()
        &&& self.buf0 is None ==> self.buf1 is None
        &&& self.buf1 is None ==> self.next == self.items@.len()
    }

    /// The items that have not been consumed yet, in the order in which
    /// `next` will hand them out.
    pub closed spec fn view(&self) -> Seq<T> {
        let rest = self.items@.subrange(self.next as int, self.items@.len() as int);
        match (self.buf0, self.buf1) {
            (Some(a), Some(b)) => seq![a, b] + rest,
            (Some(a), None) => seq![a],
            _ => Seq::empty(),
        }
    }

    /// The item that the next call of `next` returns, if there is one.
    pub fn peek0(&self) -> (r: Option<&T>)
        ensures
            self@.len() == 0 ==> r is None,
            self@.len() > 0 ==> r == Some(&self@[0]),
    {
        proof {
            use_type_invariant(self);
        }
        self.buf0.as_ref()
    }

    /// The item after the one that `peek0` shows, if there is one.
    pub fn peek1(&self) -> (r: Option<&T>)
        ensures
            self@.len() <= 1 ==> r is None,
            self@.len() > 1 ==> r == Some(&self@[1]),
    {
        proof {
            use_type_invariant(self);
        }
        self.buf1.as_ref()
    }

    /// Consumes and returns the current item. Once the cursor is exhausted
    /// it stays exhausted: every later call returns `None`.
    pub fn next(&mut self) -> (r: Option<T>)
        ensures
            old(self)@.len() == 0 ==> r is None && final(self)@ == old(self)@,
            old(self)@.len() > 0 ==> r == Some(old(self)@[0]) && final(self)@ == old(
                self,
            )@.drop_first(),
    {
        proof {
            use_type_invariant(&*self);
        }
        let popped = self.buf0;
        let refill = if self.next < self.items.len() {
            Some(self.items[self.next])
        } else {
            None
        };
        let step: usize = if self.next < self.items.len() {
            1
        } else {
            0
        };
        let ghost before = self@;
        self.buf0 = self.buf1;
        self.buf1 = refill;
        self.next = self.next + step;
        proof {
            assert(self@ =~= if before.len() > 0 {
                before.drop_first()
            } else {
                before
            });
        }
        popped
    }
}

/// Starts a cursor at the front of `items`.
pub fn peekable2<T: Copy>(items: Vec<T>) -> (p: Peekable2<T>)
    ensures
        p@ == items@,
{
    let n = items.len();
    let buf0 = if n > 0 {
        Some(items[0])
    } else {
        None
    };
    let buf1 = if n > 1 {
        Some(items[1])
    } else {
        None
    };
    let next: usize = if n > 1 {
        2
    } else {
        n
    };
    let p = Peekable2 { items, next, buf0, buf1 };
    proof {
        assert(p@ =~= items@);
    }
    p
}

} // verus!
