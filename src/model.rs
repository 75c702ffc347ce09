use vstd::prelude::*;

verus! {

/// The contents of a list: its payloads, head first.
pub type Contents = Seq<Seq<char>>;

/// Contents after inserting `v` before the first element.
pub open spec fn pushed_front(s: Contents, v: Seq<char>) -> Contents {
    seq![v] + s
}

/// Contents after inserting `v` after the last element.
pub open spec fn pushed_back(s: Contents, v: Seq<char>) -> Contents {
    s.push(v)
}

/// What taking the first element yields, and what is left.
pub open spec fn front_popped(s: Contents) -> (Option<Seq<char>>, Contents) {
    if s.len() == 0 {
        (None, s)
    } else {
        (Some(s[0]), s.drop_first())
    }
}

/// What taking the last element yields, and what is left.
pub open spec fn back_popped(s: Contents) -> (Option<Seq<char>>, Contents) {
    if s.len() == 0 {
        (None, s)
    } else {
        (Some(s.last()), s.drop_last())
    }
}

/// Contents after the element at position `i` is unlinked.
pub open spec fn removed_at(s: Contents, i: int) -> Contents {
    s.remove(i)
}

/// The characters of an optional owned string.
pub open spec fn text_of(o: Option<String>) -> Option<Seq<char>> {
    match o {
        Some(x) => Some(x@),
        None => None,
    }
}

/// The characters of an optional borrowed string.
pub open spec fn text_of_ref(o: Option<&String>) -> Option<Seq<char>> {
    match o {
        Some(x) => Some(x@),
        None => None,
    }
}

/// The payloads separated by a comma and a space.
pub open spec fn joined(s: Contents) -> Seq<char>
    decreases s.len(),
{
    if s.len() == 0 {
        Seq::empty()
    } else if s.len() == 1 {
        s[0]
    } else {
        joined(s.drop_last()) + seq![',', ' '] + s.last()
    }
}

/// The payloads as one line in brackets: `[a, b, c]`.
pub open spec fn rendered(s: Contents) -> Seq<char> {
    seq!['['] + joined(s) + seq![']']
}

} // verus!
