use std::rc::Rc;
use vstd::laws_eq::obeys_concrete_eq;
use vstd::prelude::*;

verus! {

/// Relies on `Rc::clone`: it makes another pointer to the same allocation,
/// so the new pointer refers to the very same value.
#[verifier::external_body]
pub(crate) fn clone_rc<T>(r: &Rc<T>) -> (res: Rc<T>)
    ensures
        res == *r,
{
    Rc::clone(r)
}

/// A cons cell: one element and a shared pointer to the rest of the chain.
#[derive(Debug, PartialEq, Eq, PartialOrd, Ord)]
struct Cons<T> {
    head: T,
    tail: Option<Rc<Cons<T>>>,
}

/// The elements of a cons chain, front to back.
spec fn chain_seq<T>(c: Option<Rc<Cons<T>>>) -> Seq<T>
    decreases c,
{
    match c {
        Some(cell) => seq![cell.head].add(chain_seq(cell.tail)),
        None => Seq::empty(),
    }
}

/// Another handle on the same chain; nothing is copied.
fn share<T>(c: &Option<Rc<Cons<T>>>) -> (r: Option<Rc<Cons<T>>>)
    ensures
        r == *c,
{
    match c {
        Some(cell) => Some(clone_rc(cell)),
        None => None,
    }
}

/// Two keys or elements compared with `==`; when the type's `==` is plain
/// equality, the answer is exact.
pub(crate) fn same<T: PartialEq>(a: &T, b: &T) -> (r: bool)
    ensures
        obeys_concrete_eq::<T>() ==> r == (*a == *b),
{
    proof {
        reveal(obeys_concrete_eq);
    }
    *a == *b
}

/// A persistent singly linked list. Handles share their tails, and no
/// operation changes a chain that some handle already refers to.
#[derive(Debug, PartialEq, Eq, PartialOrd, Ord)]
pub struct List<T> {
    cons: Option<Rc<Cons<T>>>,
    size: usize,
}

impl<T> View for List<T> {
    type V = Seq<T>;

    closed spec fn view(&self) -> Seq<T> {
        chain_seq(self.cons)
    }
}

impl<T> List<T> {
    /// The cached length agrees with the chain.
    pub closed spec fn wf(&self) -> bool {
        self.size == chain_seq(self.cons).len()
    }

    pub fn new() -> (r: Self)
        ensures
            r.wf(),
            r@ == Seq::<T>::empty(),
    {
        List { cons: None, size: 0 }
    }

    pub fn len(&self) -> (r: usize)
        requires
            self.wf(),
        ensures
            r == self@.len(),
    {
        self.size
    }

    pub fn is_empty(&self) -> (r: bool)
        requires
            self.wf(),
        ensures
            r == (self@.len() == 0),
    {
        self.size == 0
    }

    /// A new handle whose first element is `head` and whose rest is this
    /// list's chain, shared.
    pub fn push_front(&self, head: T) -> (r: Self)
        requires
            self.wf(),
            self@.len() < usize::MAX,
        ensures
            r.wf(),
            r@ == seq![head] + self@,
    {
        let tail = share(&self.cons);
        List { cons: Some(Rc::new(Cons { head, tail })), size: self.size + 1 }
    }

    /// Pushes the items to the front one after another, so that the last
    /// item ends up first.
    pub fn push_front_many(&self, items: Vec<T>) -> (r: Self)
        requires
            self.wf(),
            self@.len() + items@.len() <= usize::MAX,
        ensures
            r.wf(),
            r@ == items@.reverse() + self@,
    {
        let mut items = items;
        let ghost all = items@;
        let mut backwards: Vec<T> = Vec::new();
        while items.len() > 0
            invariant
                items@ + backwards@.reverse() == all,
                items@.len() + backwards@.len() == all.len(),
            decreases items.len(),
        {
            let item = items.pop().unwrap();
            proof {
                assert(seq![item].reverse() =~= seq![item]);
            }
            backwards.push(item);
            assert(items@ + backwards@.reverse() =~= all);
        }
        let mut list = List { cons: share(&self.cons), size: self.size };
        while backwards.len() > 0
            invariant
                list.wf(),
                backwards@.len() <= all.len(),
                forall|j: int|
                    0 <= j < backwards@.len() ==> #[trigger] backwards@[j] == all[all.len() - 1 - j],
                list@ == all.subrange(0, all.len() - backwards@.len()).reverse() + self@,
                self@.len() + all.len() <= usize::MAX,
            decreases backwards.len(),
        {
            let ghost k = all.len() - backwards@.len();
            let item = backwards.pop().unwrap();
            assert(item == all[k]);
            assert(all.subrange(0, k + 1).reverse() =~= seq![all[k]] + all.subrange(0, k).reverse());
            list = list.push_front(item);
        }
        assert(all.subrange(0, all.len() as int) =~= all);
        list
    }

    /// A handle on the rest of the chain, or an empty list when there is
    /// no first element.
    pub fn pop_front(&self) -> (r: Self)
        requires
            self.wf(),
        ensures
            r.wf(),
            r@ == (if self@.len() == 0 {
                self@
            } else {
                self@.drop_first()
            }),
    {
        match &self.cons {
            Some(cell) => {
                assert(self@.drop_first() =~= chain_seq(cell.tail));
                List { cons: share(&cell.tail), size: self.size - 1 }
            },
            None => List::new(),
        }
    }
    /// A fresh front-to-back walk over the elements.
    pub fn iter(&self) -> (r: ListIterator<'_, T>)
        ensures
            r@ == self@,
    {
        ListIterator { cursor: &self.cons }
    }

    /// Whether some element equals `value`.
    pub fn contains(&self, value: &T) -> (r: bool)
        where
            T: PartialEq,
        requires
            obeys_concrete_eq::<T>(),
        ensures
            r == self@.contains(*value),
    {
        let mut it = self.iter();
        let ghost all = self@;
        loop
            invariant
                obeys_concrete_eq::<T>(),
                all == self@,
                all.contains(*value) == it@.contains(*value),
            decreases it@.len(),
        {
            let ghost before = it@;
            match it.next() {
                Some(x) => {
                    if same(x, value) {
                        assert(before[0] == *value);
                        return true;
                    }
                    proof {
                        assert(before =~= seq![before[0]] + it@);
                        if it@.contains(*value) {
                            let j = choose|j: int| 0 <= j < it@.len() && it@[j] == *value;
                            assert(before[j + 1] == *value);
                        }
                    }
                },
                None => {
                    return false;
                },
            }
        }
    }

    /// The list built by pushing each item to the front in turn, starting
    /// from an empty list.
    pub fn from_vec(items: Vec<T>) -> (r: Self)
        ensures
            r.wf(),
            r@ == items@.reverse(),
    {
        let _count = items.len();
        let empty = List::new();
        let r = empty.push_front_many(items);
        assert(r@ =~= items@.reverse());
        r
    }
}

impl<T> Clone for List<T> {
    /// Another handle on the same chain.
    fn clone(&self) -> (r: Self)
        ensures
            r == *self,
    {
        List { cons: share(&self.cons), size: self.size }
    }
}

impl<T> Default for List<T> {
    fn default() -> (r: Self)
        ensures
            r.wf(),
            r@ == Seq::<T>::empty(),
    {
        List::new()
    }
}

/// A walk over a list's chain; each step hands out the next element.
pub struct ListIterator<'a, T> {
    cursor: &'a Option<Rc<Cons<T>>>,
}

impl<'a, T> View for ListIterator<'a, T> {
    type V = Seq<T>;

    /// The elements not yet handed out.
    closed spec fn view(&self) -> Seq<T> {
        chain_seq(*self.cursor)
    }
}

impl<'a, T> ListIterator<'a, T> {
    pub fn next(&mut self) -> (r: Option<&'a T>)
        ensures
            old(self)@.len() == 0 ==> r is None && final(self)@ == old(self)@,
            old(self)@.len() > 0 ==> r == Some(&old(self)@[0]) && final(self)@ == old(
                self,
            )@.drop_first(),
    {
        match self.cursor {
            Some(cell) => {
                self.cursor = &cell.tail;
                assert(old(self)@.drop_first() =~= chain_seq(cell.tail));
                Some(&cell.head)
            },
            None => None,
        }
    }
}

/// Pushing an element to the front and popping the front again gives back
/// the same sequence, and the length goes up by one and down by one.
pub proof fn lemma_push_then_pop<T>(l: List<T>, v: T)
    ensures
        (seq![v] + l@).len() == l@.len() + 1,
        (seq![v] + l@).len() != 0,
        (seq![v] + l@).drop_first() == l@,
        (seq![v] + l@).drop_first().len() == (seq![v] + l@).len() - 1,
{
    assert((seq![v] + l@).drop_first() =~= l@);
}

} // verus!
