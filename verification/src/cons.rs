use vstd::prelude::*;

verus! {

/// A list built from pairs: a value in front of a list. A list is linear:
/// it has one tail and no branches.
#[derive(Debug)]
pub enum List<T> {
    Cons(T, Box<List<T>>),
    Nil,
}

impl<T> List<T> {
    /// The values of the list, front first.
    pub open spec fn view(self) -> Seq<T>
        decreases self,
    {
        match self {
            List::Cons(x, rest) => seq![x] + rest.view(),
            List::Nil => Seq::empty(),
        }
    }

    /// The list of one value.
    pub fn new(val: T) -> (list: List<T>)
        ensures
            list == List::Cons(val, Box::new(List::Nil)),
            list@ == seq![val],
    {
        let list = List::Cons(val, Box::new(List::Nil));
        assert(list@ =~= seq![val]) by {
            reveal_with_fuel(List::view, 3);
        }
        list
    }

    /// The list with `val` in front of `list`.
    pub fn cons(val: T, list: List<T>) -> (longer: List<T>)
        ensures
            longer == List::Cons(val, Box::new(list)),
            longer@ == seq![val] + list@,
    {
        List::Cons(val, Box::new(list))
    }

    /// The first value of the list.
    pub fn car(list: &List<T>) -> (first: Result<&T, &'static str>)
        ensures
            match *list {
                List::Cons(x, _) => first == Ok::<&T, &'static str>(&x),
                List::Nil => first is Err && first->Err_0@ == "Cannot get car of Nil"@,
            },
    {
        match list {
            List::Cons(x, _) => Ok(x),
            List::Nil => Err("Cannot get car of Nil"),
        }
    }

    /// The list behind the first value.
    pub fn cdr(list: &List<T>) -> (rest: Result<&List<T>, &'static str>)
        ensures
            match *list {
                List::Cons(_, y) => rest == Ok::<&List<T>, &'static str>(&*y),
                List::Nil => rest is Err && rest->Err_0@ == "Cannot get cdr of Nil"@,
            },
    {
        match list {
            List::Cons(_, y) => Ok(&**y),
            List::Nil => Err("Cannot get cdr of Nil"),
        }
    }

    /// The second value of the list. The list must not be empty.
    pub fn cadr(list: &List<T>) -> (second: Result<&T, &'static str>)
        requires
            *list is Cons,
        ensures
            match *list->Cons_1 {
                List::Cons(x, _) => second == Ok::<&T, &'static str>(&x),
                List::Nil => second is Err && second->Err_0@ == "Cannot get car of Nil"@,
            },
    {
        match List::cdr(list) {
            Ok(rest) => List::car(rest),
            Err(e) => Err(e),
        }
    }
}

} // verus!
