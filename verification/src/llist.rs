//! A singly linked list that is used as a stack.
use vstd::prelude::*;

verus! {

/// A cell of the list: an element and the rest of the list, or the end.
enum LCell<T> {
    Cell(T, Box<LCell<T>>),
    Nil,
}

/// The linked list. Its view is the sequence of its elements, the head
/// first.
pub struct LList<T> {
    size: usize,
    head: LCell<T>,
}

impl<T> LCell<T> {
    /// The elements from this cell to the end of the list.
    spec fn elements(self) -> Seq<T>
        decreases self,
    {
        match self {
            LCell::Nil => Seq::empty(),
            LCell::Cell(d, next) => seq![d] + next.elements(),
        }
    }
}

impl<T> View for LList<T> {
    type V = Seq<T>;

    closed spec fn view(&self) -> Seq<T> {
        self.head.elements()
    }
}

/// Replaces every element from `cell` on by what `f` makes of it.
fn map_cells<T, F: Fn(&T) -> T>(cell: &mut LCell<T>, f: &F)
    requires
        forall|i: int| 0 <= i < old(cell).elements().len() ==> f.requires((&old(cell).elements()[i],)),
    ensures
        final(cell).elements().len() == old(cell).elements().len(),
        forall|i: int|
            0 <= i < old(cell).elements().len() ==> f.ensures(
                (&old(cell).elements()[i],),
                #[trigger] final(cell).elements()[i],
            ),
    decreases *old(cell),
{
    match cell {
        LCell::Nil => {},
        LCell::Cell(d, n) => {
            let ghost before = n.elements();
            let ghost first = *d;
            proof {
                assert(old(cell).elements()[0] == first);
                assert forall|i: int| 0 <= i < before.len() implies f.requires((&before[i],)) by {
                    assert(old(cell).elements()[i + 1] == before[i]);
                }
            }
            let x = f(d);
            *d = x;
            map_cells(&mut **n, f);
            proof {
                let after = n.elements();
                assert forall|i: int| 0 <= i < old(cell).elements().len() implies f.ensures(
                    (&old(cell).elements()[i],),
                    #[trigger] (seq![x] + after)[i],
                ) by {
                    if i > 0 {
                        assert(old(cell).elements()[i] == before[i - 1]);
                        assert((seq![x] + after)[i] == after[i - 1]);
                    }
                }
            }
        },
    }
}

impl<T> LList<T> {
    /// The invariant of the type: the recorded size is the number of
    /// elements.
    pub closed spec fn wf(&self) -> bool {
        self.size == self.head.elements().len()
    }

    /// A list without elements.
    pub fn new() -> (l: LList<T>)
        ensures
            l.wf(),
            l@ == Seq::<T>::empty(),
    {
        LList { size: 0, head: LCell::Nil }
    }

    /// Whether the list has no element.
    pub fn is_empty(&self) -> (r: bool)
        requires
            self.wf(),
        ensures
            r == (self@.len() == 0),
    {
        self.size == 0
    }

    /// Number of elements, in constant time.
    pub fn size(&self) -> (r: usize)
        requires
            self.wf(),
        ensures
            r == self@.len(),
    {
        self.size
    }

    /// Puts `d` in front of the list.
    pub fn push(&mut self, d: T)
        requires
            old(self).wf(),
            old(self)@.len() < usize::MAX,
        ensures
            final(self).wf(),
            final(self)@ == seq![d] + old(self)@,
    {
        self.size = self.size + 1;
        let mut lc = LCell::Nil;
        core::mem::swap(&mut self.head, &mut lc);
        self.head = LCell::Cell(d, Box::new(lc));
    }

    /// Takes the head off the list and returns it.
    pub fn pop(&mut self) -> (d: T)
        requires
            old(self).wf(),
            old(self)@.len() > 0,
        ensures
            final(self).wf(),
            d == old(self)@[0],
            final(self)@ == old(self)@.skip(1),
    {
        let mut lc = LCell::Nil;
        core::mem::swap(&mut self.head, &mut lc);
        match lc {
            LCell::Nil => {
                proof {
                    assert(old(self).head.elements().len() == 0);
                }
                unreached()
            },
            LCell::Cell(data, next) => {
                proof {
                    assert(old(self)@.skip(1) =~= next.elements());
                }
                self.head = *next;
                self.size = self.size - 1;
                data
            },
        }
    }

    /// The first element.
    pub fn head(&self) -> (d: &T)
        requires
            self.wf(),
            self@.len() > 0,
        ensures
            *d == self@[0],
    {
        match &self.head {
            LCell::Nil => {
                proof {
                    assert(self.head.elements().len() == 0);
                }
                unreached()
            },
            LCell::Cell(data, _) => data,
        }
    }

    /// Reverses the list in place.
    pub fn reverse(&mut self)
        requires
            old(self).wf(),
        ensures
            final(self).wf(),
            final(self)@ == old(self)@.reverse(),
    {
        let mut rl: LList<T> = LList::new();
        let ghost all = self@;
        while !self.is_empty()
            invariant
                self.wf(),
                rl.wf(),
                all.len() <= usize::MAX,
                rl@.len() + self@.len() == all.len(),
                rl@.reverse() + self@ == all,
            decreases self@.len(),
        {
            let ghost s0 = self@;
            let ghost r0 = rl@;
            let d = self.pop();
            rl.push(d);
            proof {
                assert(rl@.reverse() =~= r0.reverse().push(d));
                assert(rl@.reverse() + self@ =~= r0.reverse() + s0);
            }
        }
        proof {
            assert(rl@.reverse() =~= all);
            assert(rl@ =~= rl@.reverse().reverse());
        }
        self.head = rl.head;
        self.size = rl.size;
    }

    /// Takes all elements off the list.
    pub fn clear(&mut self)
        requires
            old(self).wf(),
        ensures
            final(self).wf(),
            final(self)@ == Seq::<T>::empty(),
    {
        self.head = LCell::Nil;
        self.size = 0;
    }

    /// Replaces every element by what `f` makes of it.
    pub fn map<F>(&mut self, f: F) where F: Fn(&T) -> T
        requires
            old(self).wf(),
            forall|i: int| 0 <= i < old(self)@.len() ==> f.requires((&old(self)@[i],)),
        ensures
            final(self).wf(),
            final(self)@.len() == old(self)@.len(),
            forall|i: int|
                0 <= i < old(self)@.len() ==> f.ensures((&old(self)@[i],), #[trigger] final(self)@[i]),
    {
        proof {
            assert forall|i: int| 0 <= i < self.head.elements().len() implies f.requires(
                (&self.head.elements()[i],),
            ) by {
                assert(f.requires((&self@[i],)));
            }
        }
        map_cells(&mut self.head, &f);
    }

    /// Starts a walk over the elements, the head first.
    pub fn into_iter(&self) -> (it: LLIterator<'_, T>)
        ensures
            it@ == self@,
    {
        LLIterator { head: &self.head }
    }

    /// A list of the elements of `items`, the first of them at the head.
    pub fn from_iter(items: Vec<T>) -> (l: LList<T>)
        ensures
            l.wf(),
            l@ == items@,
    {
        let mut l: LList<T> = LList::new();
        let ghost all = items@;
        assert(items.len() <= usize::MAX);
        for e in it: items.into_iter()
            invariant
                it.seq() == all,
                all.len() <= usize::MAX,
                l.wf(),
                l@.len() == it.index(),
                forall|j: int| 0 <= j < l@.len() ==> l@[j] == all[it.index() - 1 - j],
        {
            l.push(e);
        }
        proof {
            assert(l@ =~= all.reverse());
            assert(all.reverse().reverse() =~= all);
        }
        l.reverse();
        l
    }
}

/// A walk over a list. It holds the cell that it has come to. Its view is
/// the sequence of the elements still to come.
pub struct LLIterator<'a, T> {
    head: &'a LCell<T>,
}

impl<'a, T> View for LLIterator<'a, T> {
    type V = Seq<T>;

    closed spec fn view(&self) -> Seq<T> {
        self.head.elements()
    }
}

impl<'a, T> LLIterator<'a, T> {
    /// Hands out the next element, or `None` at the end of the list.
    pub fn next(&mut self) -> (r: Option<&'a T>)
        ensures
            old(self)@.len() == 0 ==> r is None && final(self)@ == old(self)@,
            old(self)@.len() > 0 ==> r == Some(&old(self)@[0]),
            old(self)@.len() > 0 ==> final(self)@ == old(self)@.skip(1),
    {
        match self.head {
            LCell::Nil => None,
            LCell::Cell(data, next) => {
                proof {
                    assert(old(self)@.skip(1) =~= next.elements());
                }
                self.head = &**next;
                Some(data)
            },
        }
    }
}

} // verus!
