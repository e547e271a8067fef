use vstd::prelude::*;

verus! {

/// One element of a doubly linked list: a value and the places of its two
/// neighbours in the list that holds it.
#[derive(Debug)]
pub struct Item<T> {
    pub value: T,
    next: Option<usize>,
    prev: Option<usize>,
}

impl<T> Item<T> {
    /// The value that the element holds.
    pub closed spec fn content(&self) -> T {
        self.value
    }

    /// The place of the element behind this one, if there is one.
    pub closed spec fn next_link(&self) -> Option<usize> {
        self.next
    }

    /// The place of the element before this one, if there is one.
    pub closed spec fn prev_link(&self) -> Option<usize> {
        self.prev
    }

    fn new(value: T) -> (item: Item<T>)
        ensures
            item.content() == value,
            item.next_link() is None,
            item.prev_link() is None,
    {
        Item { value, next: None, prev: None }
    }

    /// The place of the next element, to be handed to `DLL::get`.
    pub fn next(&self) -> (place: Option<usize>)
        ensures
            place == self.next_link(),
    {
        self.next
    }

    /// The place of the previous element, to be handed to `DLL::get`.
    pub fn prev(&self) -> (place: Option<usize>)
        ensures
            place == self.prev_link(),
    {
        self.prev
    }
}

/// The link from place `i` forwards in a list of `len` elements.
pub open spec fn link_after(i: int, len: int) -> Option<usize> {
    if i + 1 < len {
        Some((i + 1) as usize)
    } else {
        None
    }
}

/// The link from place `i` backwards.
pub open spec fn link_before(i: int) -> Option<usize> {
    if i > 0 {
        Some((i - 1) as usize)
    } else {
        None
    }
}

/// A doubly linked list. Its elements live in one arena and know their
/// neighbours by their places in it.
#[derive(Debug)]
pub struct DLL<T> {
    items: Vec<Item<T>>,
    head: Option<usize>,
    tail: Option<usize>,
    len: usize,
}

impl<T> DLL<T> {
    #[verifier::type_invariant]
    spec fn inv(self) -> bool {
        &&& self.len == self.items@.len()
        &&& self.head == if self.len == 0 {
            None
        } else {
            Some(0usize)
        }
        &&& self.tail == link_before(self.len as int)
        &&& forall|i: int|
            0 <= i < self.items@.len() ==> (#[trigger] self.items@[i]).next == link_after(
                i,
                self.items@.len() as int,
            ) && self.items@[i].prev == link_before(i)
    }

    /// The elements of the list from head to tail.
    pub closed spec fn elements(self) -> Seq<Item<T>> {
        self.items@
    }

    /// The values of the list from head to tail.
    pub open spec fn view(self) -> Seq<T> {
        Seq::new(self.elements().len(), |i: int| self.elements()[i].content())
    }

    /// Every element is linked to the one behind it and to the one before it.
    pub open spec fn linked(self) -> bool {
        forall|i: int|
            0 <= i < self.elements().len() ==> (#[trigger] self.elements()[i]).next_link()
                == link_after(i, self.elements().len() as int) && self.elements()[i].prev_link()
                == link_before(i)
    }

    /// Builds the list that holds `values` in their order.
    pub fn new(values: Vec<T>) -> (list: DLL<T>)
        ensures
            list@ == values@,
            list.linked(),
    {
        let ghost given = values@;
        let mut values = values;
        let len = values.len();
        if len == 0 {
            let list = DLL { items: Vec::new(), head: None, tail: None, len: 0 };
            assert(list@ =~= given);
            return list;
        }
        // The values are taken from the back; the arena is filled from the back
        // and turned round at the end.
        let mut reversed: Vec<Item<T>> = Vec::new();
        while values.len() > 0
            invariant
                values@.len() + reversed@.len() == len,
                values@ == given.take(values@.len() as int),
                len == given.len(),
                forall|j: int|
                    0 <= j < reversed@.len() ==> (#[trigger] reversed@[j]).value == given[len - 1
                        - j] && reversed@[j].next == link_after(len - 1 - j, len as int)
                        && reversed@[j].prev == link_before(len - 1 - j),
            decreases values.len(),
        {
            let place = values.len() - 1;
            let value = values.pop().unwrap();
            let mut item = Item::new(value);
            if place + 1 < len {
                item.next = Some(place + 1);
            }
            if place > 0 {
                item.prev = Some(place - 1);
            }
            reversed.push(item);
            assert(values@ =~= given.take(place as int));
        }
        let mut items: Vec<Item<T>> = Vec::new();
        while reversed.len() > 0
            invariant
                items@.len() + reversed@.len() == len,
                len == given.len(),
                forall|j: int|
                    0 <= j < reversed@.len() ==> (#[trigger] reversed@[j]).value == given[len - 1
                        - j] && reversed@[j].next == link_after(len - 1 - j, len as int)
                        && reversed@[j].prev == link_before(len - 1 - j),
                forall|i: int|
                    0 <= i < items@.len() ==> (#[trigger] items@[i]).value == given[i]
                        && items@[i].next == link_after(i, len as int) && items@[i].prev
                        == link_before(i),
            decreases reversed.len(),
        {
            let ghost at = reversed@.len() - 1;
            let item = reversed.pop().unwrap();
            items.push(item);
        }
        let list = DLL { items, head: Some(0), tail: Some(len - 1), len };
        assert(list@ =~= given);
        list
    }

    /// The first element.
    pub fn head(&self) -> (item: Option<&Item<T>>)
        ensures
            self.elements().len() == 0 ==> item is None,
            self.elements().len() > 0 ==> item == Some(&self.elements()[0]),
            item matches Some(first) ==> first.content() == self@[0],
            item is Some <==> self@.len() > 0,
    {
        proof {
            use_type_invariant(self);
        }
        match self.head {
            Some(place) => Some(&self.items[place]),
            None => None,
        }
    }

    /// The last element.
    pub fn tail(&self) -> (item: Option<&Item<T>>)
        ensures
            self.elements().len() == 0 ==> item is None,
            self.elements().len() > 0 ==> item == Some(
                &self.elements()[self.elements().len() - 1],
            ),
            item matches Some(last) ==> last.content() == self@[self@.len() - 1],
            item is Some <==> self@.len() > 0,
    {
        proof {
            use_type_invariant(self);
        }
        match self.tail {
            Some(place) => Some(&self.items[place]),
            None => None,
        }
    }

    /// The number of elements.
    pub fn len(&self) -> (n: usize)
        ensures
            n == self.elements().len(),
            n == self@.len(),
    {
        proof {
            use_type_invariant(self);
        }
        self.len
    }

    /// The element at place `index`, reached from the head along the links.
    pub fn get(&self, index: usize) -> (item: Option<&Item<T>>)
        ensures
            index >= self.elements().len() ==> item is None,
            index < self.elements().len() ==> item == Some(&self.elements()[index as int]),
            item matches Some(found) ==> found.content() == self@[index as int],
            item is Some <==> index < self@.len(),
    {
        proof {
            use_type_invariant(self);
        }
        if index > self.len {
            return None;
        }
        let mut place = match self.head {
            Some(first) => first,
            None => {
                return None;
            },
        };
        let mut i: usize = 0;
        while i < index && i < self.len
            invariant
                self.len == self.items@.len(),
                place == i,
                i < self.len,
                i <= index,
                forall|k: int|
                    0 <= k < self.items@.len() ==> (#[trigger] self.items@[k]).next == link_after(
                        k,
                        self.items@.len() as int,
                    ),
            decreases index - i,
        {
            place = match self.items[place].next {
                Some(next) => next,
                None => {
                    return None;
                },
            };
            i = i + 1;
        }
        Some(&self.items[place])
    }
}

} // verus!
