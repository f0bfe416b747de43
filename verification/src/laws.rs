//! What runs of pushes and pops make of a list, stated over the functions
//! of the model.

use vstd::prelude::*;
use crate::model::{back_of, front_of, with_back, with_front, without_back, without_front};

verus! {

/// The values after each value of `vals` in turn was put behind `s`.
pub open spec fn push_back_all<T>(s: Seq<T>, vals: Seq<T>) -> Seq<T>
    decreases vals.len(),
{
    if vals.len() == 0 {
        s
    } else {
        push_back_all(with_back(s, vals.first()), vals.drop_first())
    }
}

/// The values after each value of `vals` in turn was put in front of `s`.
pub open spec fn push_front_all<T>(s: Seq<T>, vals: Seq<T>) -> Seq<T>
    decreases vals.len(),
{
    if vals.len() == 0 {
        s
    } else {
        push_front_all(with_front(s, vals.first()), vals.drop_first())
    }
}

/// What `n` takes from the front of `s` yield, one after the other.
pub open spec fn pop_front_all<T>(s: Seq<T>, n: nat) -> Seq<Option<T>>
    decreases n,
{
    if n == 0 {
        Seq::empty()
    } else {
        seq![front_of(s)] + pop_front_all(without_front(s), (n - 1) as nat)
    }
}

/// The values left after `n` takes from the front of `s`.
pub open spec fn after_pop_front_all<T>(s: Seq<T>, n: nat) -> Seq<T>
    decreases n,
{
    if n == 0 {
        s
    } else {
        after_pop_front_all(without_front(s), (n - 1) as nat)
    }
}

/// What `n` takes from the back of `s` yield, one after the other.
pub open spec fn pop_back_all<T>(s: Seq<T>, n: nat) -> Seq<Option<T>>
    decreases n,
{
    if n == 0 {
        Seq::empty()
    } else {
        seq![back_of(s)] + pop_back_all(without_back(s), (n - 1) as nat)
    }
}

/// The values left after `n` takes from the back of `s`.
pub open spec fn after_pop_back_all<T>(s: Seq<T>, n: nat) -> Seq<T>
    decreases n,
{
    if n == 0 {
        s
    } else {
        after_pop_back_all(without_back(s), (n - 1) as nat)
    }
}

/// Each value of `vals` as the result of a take that found it.
pub open spec fn found<T>(vals: Seq<T>) -> Seq<Option<T>> {
    Seq::new(vals.len(), |i: int| Some(vals[i]))
}

/// Taking from either end of an empty list yields nothing and leaves it
/// empty.
pub proof fn lemma_empty_yields_nothing<T>()
    ensures
        front_of(Seq::<T>::empty()) == None::<T>,
        back_of(Seq::<T>::empty()) == None::<T>,
        without_front(Seq::<T>::empty()) == Seq::<T>::empty(),
        without_back(Seq::<T>::empty()) == Seq::<T>::empty(),
{
}

/// Pushing a run of values to the back appends them in the order pushed.
pub proof fn lemma_push_back_all<T>(s: Seq<T>, vals: Seq<T>)
    ensures
        push_back_all(s, vals) == s + vals,
    decreases vals.len(),
{
    if vals.len() == 0 {
        assert(s + vals =~= s);
    } else {
        lemma_push_back_all(with_back(s, vals.first()), vals.drop_first());
        assert(with_back(s, vals.first()) + vals.drop_first() =~= s + vals);
    }
}

/// Pushing a run of values to the front prepends them in the reverse of the
/// order pushed.
pub proof fn lemma_push_front_all<T>(s: Seq<T>, vals: Seq<T>)
    ensures
        push_front_all(s, vals) == vals.reverse() + s,
    decreases vals.len(),
{
    if vals.len() == 0 {
        assert(vals.reverse() + s =~= s);
    } else {
        lemma_push_front_all(with_front(s, vals.first()), vals.drop_first());
        assert(vals.drop_first().reverse() + with_front(s, vals.first()) =~= vals.reverse() + s);
    }
}

/// Taking `n` values from the front of a list that holds at least `n`
/// yields its first `n` values in order and leaves the others.
pub proof fn lemma_pop_front_all<T>(s: Seq<T>, n: nat)
    requires
        n <= s.len(),
    ensures
        pop_front_all(s, n) == found(s.take(n as int)),
        after_pop_front_all(s, n) == s.skip(n as int),
    decreases n,
{
    if n == 0 {
        assert(pop_front_all(s, n) =~= found(s.take(n as int)));
        assert(s.skip(0) =~= s);
    } else {
        lemma_pop_front_all(without_front(s), (n - 1) as nat);
        assert(seq![front_of(s)] + found(s.drop_first().take(n - 1)) =~= found(s.take(n as int)));
        assert(s.drop_first().skip(n - 1) =~= s.skip(n as int));
    }
}

/// Taking `n` values from the back of a list that holds at least `n`
/// yields its last `n` values, the last one first, and leaves the others.
pub proof fn lemma_pop_back_all<T>(s: Seq<T>, n: nat)
    requires
        n <= s.len(),
    ensures
        pop_back_all(s, n) == found(s.skip(s.len() - n).reverse()),
        after_pop_back_all(s, n) == s.take(s.len() - n),
    decreases n,
{
    if n == 0 {
        assert(pop_back_all(s, n) =~= found(s.skip(s.len() - n).reverse()));
        assert(s.take(s.len() as int) =~= s);
    } else {
        lemma_pop_back_all(without_back(s), (n - 1) as nat);
        let rest = s.drop_last();
        assert(seq![back_of(s)] + found(rest.skip(rest.len() - (n - 1)).reverse()) =~= found(
            s.skip(s.len() - n).reverse(),
        ));
        assert(rest.take(rest.len() - (n - 1)) =~= s.take(s.len() - n));
    }
}

/// Values pushed to the back of a list and taken from the back again come
/// out in the exact reverse of the order pushed, and the list holds what it
/// held before: nothing, where it was empty.
pub proof fn lemma_back_is_stack<T>(s: Seq<T>, vals: Seq<T>)
    ensures
        pop_back_all(push_back_all(s, vals), vals.len()) == found(vals.reverse()),
        after_pop_back_all(push_back_all(s, vals), vals.len()) == s,
{
    let full = push_back_all(s, vals);
    lemma_push_back_all(s, vals);
    lemma_pop_back_all(full, vals.len());
    assert(full.skip(full.len() - vals.len()) =~= vals);
    assert(full.take(full.len() - vals.len()) =~= s);
}

/// Values pushed to the front of a list and taken from the front again come
/// out in the exact reverse of the order pushed, and the list holds what it
/// held before: nothing, where it was empty.
pub proof fn lemma_front_is_stack<T>(s: Seq<T>, vals: Seq<T>)
    ensures
        pop_front_all(push_front_all(s, vals), vals.len()) == found(vals.reverse()),
        after_pop_front_all(push_front_all(s, vals), vals.len()) == s,
{
    let full = push_front_all(s, vals);
    lemma_push_front_all(s, vals);
    lemma_pop_front_all(full, vals.len());
    assert(full.take(vals.len() as int) =~= vals.reverse());
    assert(full.skip(vals.len() as int) =~= s);
}

/// Values pushed to the back of an empty list and taken from the front come
/// out in the order pushed; the list is then empty, and a further take from
/// either end yields nothing.
pub proof fn lemma_back_to_front_is_queue<T>(vals: Seq<T>)
    ensures
        pop_front_all(push_back_all(Seq::empty(), vals), vals.len()) == found(vals),
        after_pop_front_all(push_back_all(Seq::empty(), vals), vals.len()) == Seq::<T>::empty(),
        front_of(after_pop_front_all(push_back_all(Seq::empty(), vals), vals.len())) == None::<T>,
        back_of(after_pop_front_all(push_back_all(Seq::empty(), vals), vals.len())) == None::<T>,
{
    let s = push_back_all(Seq::empty(), vals);
    lemma_push_back_all(Seq::empty(), vals);
    assert(s =~= vals);
    lemma_pop_front_all(s, vals.len());
    assert(s.take(s.len() as int) =~= s);
    assert(s.skip(s.len() as int) =~= Seq::<T>::empty());
}

/// Values pushed to the front of an empty list and taken from the back come
/// out in the order pushed; the list is then empty, and a further take from
/// either end yields nothing.
pub proof fn lemma_front_to_back_is_queue<T>(vals: Seq<T>)
    ensures
        pop_back_all(push_front_all(Seq::empty(), vals), vals.len()) == found(vals),
        after_pop_back_all(push_front_all(Seq::empty(), vals), vals.len()) == Seq::<T>::empty(),
        front_of(after_pop_back_all(push_front_all(Seq::empty(), vals), vals.len())) == None::<T>,
        back_of(after_pop_back_all(push_front_all(Seq::empty(), vals), vals.len())) == None::<T>,
{
    let s = push_front_all(Seq::empty(), vals);
    lemma_push_front_all(Seq::empty(), vals);
    assert(s =~= vals.reverse());
    lemma_pop_back_all(s, vals.len());
    assert(s.skip(0) =~= s);
    assert(s.take(0) =~= Seq::<T>::empty());
    assert(vals.reverse().reverse() =~= vals);
}

} // verus!
