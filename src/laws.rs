use vstd::prelude::*;

use crate::model::{back_popped, front_popped, pushed_back, pushed_front, removed_at, Contents};

verus! {

/// Which end of a list an insertion goes to.
pub enum End {
    Front,
    Back,
}

/// Contents of a list that starts empty and receives `ops` in order.
pub open spec fn after_pushes(ops: Seq<(End, Seq<char>)>) -> Contents
    decreases ops.len(),
{
    if ops.len() == 0 {
        Seq::empty()
    } else {
        let s = after_pushes(ops.drop_last());
        match ops.last().0 {
            End::Front => pushed_front(s, ops.last().1),
            End::Back => pushed_back(s, ops.last().1),
        }
    }
}

/// The values of `ops` that went to the given end, in the order they went.
pub open spec fn values_at(ops: Seq<(End, Seq<char>)>, front: bool) -> Contents
    decreases ops.len(),
{
    if ops.len() == 0 {
        Seq::empty()
    } else {
        let v = values_at(ops.drop_last(), front);
        if (ops.last().0 is Front) == front {
            v.push(ops.last().1)
        } else {
            v
        }
    }
}

/// After any run of insertions at either end, the list holds one element per
/// insertion: the front insertions, latest first, then the back insertions,
/// earliest first.
pub proof fn lemma_push_sequence(ops: Seq<(End, Seq<char>)>)
    ensures
        after_pushes(ops).len() == ops.len(),
        after_pushes(ops) == values_at(ops, true).reverse() + values_at(ops, false),
    decreases ops.len(),
{
    if ops.len() > 0 {
        let p = ops.drop_last();
        lemma_push_sequence(p);
        let f = values_at(p, true);
        let b = values_at(p, false);
        let v = ops.last().1;
        match ops.last().0 {
            End::Front => {
                assert(f.push(v).reverse() =~= seq![v] + f.reverse());
                assert(after_pushes(ops) =~= f.push(v).reverse() + b);
            },
            End::Back => {
                assert(after_pushes(ops) =~= f.reverse() + b.push(v));
            },
        }
    }
}

/// Taking the first element right after inserting `x` in front yields `x`
/// and gives back the earlier contents; from an empty list, an empty list.
pub proof fn lemma_push_front_pop_front(s: Contents, x: Seq<char>)
    ensures
        front_popped(pushed_front(s, x)) == (Some(x), s),
        s.len() == 0 ==> front_popped(pushed_front(s, x)).1.len() == 0,
{
    assert(pushed_front(s, x).drop_first() =~= s);
}

/// Taking the last element right after inserting `x` at the back yields `x`
/// and gives back the earlier contents; from an empty list, an empty list.
pub proof fn lemma_push_back_pop_back(s: Contents, x: Seq<char>)
    ensures
        back_popped(pushed_back(s, x)) == (Some(x), s),
        s.len() == 0 ==> back_popped(pushed_back(s, x)).1.len() == 0,
{
    assert(pushed_back(s, x).drop_last() =~= s);
}

/// Taking from either end of an empty list yields nothing and changes
/// nothing, however often it is done.
pub proof fn lemma_pop_empty(s: Contents)
    requires
        s.len() == 0,
    ensures
        front_popped(s) == (None::<Seq<char>>, s),
        back_popped(s) == (None::<Seq<char>>, s),
{
}

/// Unlinking the element at position `i` removes exactly that element and
/// keeps the others in their order; at the head it is taking the first
/// element, at the tail taking the last.
pub proof fn lemma_remove_at(s: Contents, i: int)
    requires
        0 <= i < s.len(),
    ensures
        removed_at(s, i).len() == s.len() - 1,
        forall|j: int| 0 <= j < i ==> removed_at(s, i)[j] == s[j],
        forall|j: int| i <= j < s.len() - 1 ==> removed_at(s, i)[j] == s[j + 1],
        i == 0 ==> front_popped(s) == (Some(s[i]), removed_at(s, i)),
        i == s.len() - 1 ==> back_popped(s) == (Some(s[i]), removed_at(s, i)),
{
    if i == 0 {
        assert(removed_at(s, i) =~= s.drop_first());
    }
    if i == s.len() - 1 {
        assert(removed_at(s, i) =~= s.drop_last());
    }
}

/// Contents after inserting each of `vs` in turn at the given end.
pub open spec fn pushed_all(s: Contents, vs: Contents, front: bool) -> Contents
    decreases vs.len(),
{
    if vs.len() == 0 {
        s
    } else {
        let t = pushed_all(s, vs.drop_last(), front);
        if front {
            pushed_front(t, vs.last())
        } else {
            pushed_back(t, vs.last())
        }
    }
}

/// What `n` takes from the given end yield, in order, and what is left.
pub open spec fn drained(s: Contents, n: nat, front: bool) -> (Seq<Option<Seq<char>>>, Contents)
    decreases n,
{
    if n == 0 {
        (Seq::empty(), s)
    } else {
        let (v, t) = if front { front_popped(s) } else { back_popped(s) };
        let (vs, rest) = drained(t, (n - 1) as nat, front);
        (seq![v] + vs, rest)
    }
}

proof fn lemma_pushed_all_from_empty(vs: Contents, front: bool)
    ensures
        pushed_all(Seq::empty(), vs, front) == if front { vs.reverse() } else { vs },
    decreases vs.len(),
{
    if vs.len() > 0 {
        lemma_pushed_all_from_empty(vs.drop_last(), front);
        if front {
            assert(seq![vs.last()] + vs.drop_last().reverse() =~= vs.reverse());
        } else {
            assert(vs.drop_last().push(vs.last()) =~= vs);
        }
    }
}

proof fn lemma_drain_all(s: Contents, front: bool)
    ensures
        drained(s, s.len(), front) == (
            if front { s } else { s.reverse() }.map_values(|v: Seq<char>| Some(v)),
            Seq::<Seq<char>>::empty(),
        ),
    decreases s.len(),
{
    if s.len() > 0 {
        let t = if front { s.drop_first() } else { s.drop_last() };
        lemma_drain_all(t, front);
        let (vs, rest) = drained(t, t.len(), front);
        if front {
            assert(seq![Some(s[0])] + vs =~= s.map_values(|v: Seq<char>| Some(v)));
        } else {
            assert(seq![Some(s.last())] + vs =~= s.reverse().map_values(|v: Seq<char>| Some(v)));
        }
    } else {
        assert(s.map_values(|v: Seq<char>| Some(v)) =~= Seq::empty());
        assert(s.reverse().map_values(|v: Seq<char>| Some(v)) =~= Seq::empty());
    }
}

/// Inserting `vs` one by one at one end of an empty list and then taking as
/// many from that same end yields them latest first and leaves the list
/// empty.
pub proof fn lemma_round_trip(vs: Contents, front: bool)
    ensures
        drained(pushed_all(Seq::empty(), vs, front), vs.len(), front) == (
            vs.reverse().map_values(|v: Seq<char>| Some(v)),
            Seq::<Seq<char>>::empty(),
        ),
{
    lemma_pushed_all_from_empty(vs, front);
    let s = pushed_all(Seq::empty(), vs, front);
    lemma_drain_all(s, front);
    if front {
        assert(s.len() == vs.len());
    } else {
        assert(s.reverse() == vs.reverse());
    }
}

/// A value just inserted at either end is present; once the only element
/// holding it is unlinked, it is absent.
pub proof fn lemma_contains(s: Contents, v: Seq<char>, i: int)
    ensures
        pushed_front(s, v).contains(v),
        pushed_back(s, v).contains(v),
        0 <= i < s.len() && s[i] == v && (forall|j: int| 0 <= j < s.len() && j != i ==> s[j] != v)
            ==> !removed_at(s, i).contains(v),
{
    assert(pushed_front(s, v)[0] == v);
    assert(pushed_back(s, v)[s.len() as int] == v);
    if 0 <= i < s.len() && s[i] == v && (forall|j: int| 0 <= j < s.len() && j != i ==> s[j] != v) {
        let r = removed_at(s, i);
        assert forall|k: int| 0 <= k < r.len() implies r[k] != v by {
            if k < i {
                assert(r[k] == s[k]);
            } else {
                assert(r[k] == s[k + 1]);
            }
        }
    }
}

} // verus!
