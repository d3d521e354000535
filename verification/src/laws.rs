use vstd::prelude::*;

use crate::list::spec_advance;
use crate::list::spec_consume_forward;
use crate::list::spec_move_to;
use crate::list::spec_push_next;
use crate::list::spec_push_prev;
use crate::list::spec_retreat;

verus! {

/// The pair (elements, cursor index) after applying `push_next` once per
/// element of `elems`, in order, starting from an empty list.
pub open spec fn pushed_next_all<T>(elems: Seq<T>) -> (Seq<T>, int)
    decreases elems.len(),
{
    if elems.len() == 0 {
        (Seq::empty(), 0)
    } else {
        let prior = pushed_next_all(elems.drop_last());
        spec_push_next(prior.0, prior.1, elems.last())
    }
}

/// The pair (elements, cursor index) after applying `push_prev` once per
/// element of `elems`, in order, starting from an empty list.
pub open spec fn pushed_prev_all<T>(elems: Seq<T>) -> (Seq<T>, int)
    decreases elems.len(),
{
    if elems.len() == 0 {
        (Seq::empty(), 0)
    } else {
        let prior = pushed_prev_all(elems.drop_last());
        spec_push_prev(prior.0, prior.1, elems.last())
    }
}

/// The elements handed out by consuming a list forward until it is empty,
/// starting with the cursor on the front element.
pub open spec fn drained_forward<T>(s: Seq<T>) -> Seq<T>
    decreases s.len(),
{
    if s.len() == 0 {
        Seq::empty()
    } else {
        seq![s[0]] + drained_forward(spec_consume_forward(s, 0).0.0)
    }
}

/// Law: any run of `push_next` calls from an empty list holds exactly the
/// pushed elements, in insertion order, with the cursor on the last one —
/// in particular the length equals the number of calls.
pub proof fn lemma_push_next_from_empty<T>(elems: Seq<T>)
    ensures
        pushed_next_all(elems).0 == elems,
        pushed_next_all(elems).1 == if elems.len() == 0 {
            0int
        } else {
            elems.len() - 1
        },
    decreases elems.len(),
{
    if elems.len() == 0 {
        assert(pushed_next_all(elems).0 =~= elems);
    } else {
        lemma_push_next_from_empty(elems.drop_last());
        let prior = pushed_next_all(elems.drop_last());
        if prior.0.len() == 0 {
            assert(pushed_next_all(elems).0 =~= elems);
        } else {
            prior.0.insert_ensures(prior.1 + 1, elems.last());
            assert(pushed_next_all(elems).0 =~= elems);
        }
    }
}

/// Law: any run of `push_prev` calls from an empty list holds exactly the
/// pushed elements in reverse insertion order, with the cursor on the last
/// one pushed, which stands at the front.
pub proof fn lemma_push_prev_from_empty<T>(elems: Seq<T>)
    ensures
        pushed_prev_all(elems).0 == elems.reverse(),
        pushed_prev_all(elems).1 == 0,
    decreases elems.len(),
{
    if elems.len() == 0 {
        assert(pushed_prev_all(elems).0 =~= elems.reverse());
    } else {
        lemma_push_prev_from_empty(elems.drop_last());
        let prior = pushed_prev_all(elems.drop_last());
        if prior.0.len() == 0 {
            assert(pushed_prev_all(elems).0 =~= elems.reverse());
        } else {
            prior.0.insert_ensures(0, elems.last());
            assert(pushed_prev_all(elems).0 =~= elems.reverse());
        }
    }
}

/// Law: from any position that is not at the relevant boundary, `advance`
/// followed by `retreat` — or `retreat` followed by `advance` — restores the
/// cursor index, and both steps report success. Since neither operation
/// touches the elements, the element under the cursor is restored with it.
pub proof fn lemma_advance_retreat_round_trip<T>(s: Seq<T>, i: int)
    requires
        0 <= i < s.len(),
    ensures
        i + 1 < s.len() ==> spec_retreat(s, spec_advance(s, i).0).0 == i && spec_retreat(
            s,
            spec_advance(s, i).0,
        ).1,
        i > 0 ==> spec_advance(s, spec_retreat(s, i).0).0 == i && spec_advance(
            s,
            spec_retreat(s, i).0,
        ).1,
{
}

/// Law: `move_to(k)` reaches exactly index `k` whenever `k` is a position
/// of the list.
pub proof fn lemma_move_to_in_range<T>(s: Seq<T>, i: int, k: int)
    requires
        0 <= k < s.len(),
    ensures
        spec_move_to(s, i, k).0 == k,
        spec_move_to(s, i, k).1,
{
}

/// Law: cutting a sequence anywhere — as `split_after` and `split_before`
/// do, at the cursor — partitions it: the two parts concatenated give back
/// the original sequence, and their lengths add up to the original length.
pub proof fn lemma_split_reconstruct<T>(s: Seq<T>, cut: int)
    requires
        0 <= cut <= s.len(),
    ensures
        s.subrange(0, cut) + s.subrange(cut, s.len() as int) == s,
        s.subrange(0, cut).len() + s.subrange(cut, s.len() as int).len() == s.len(),
{
    assert(s.subrange(0, cut) + s.subrange(cut, s.len() as int) =~= s);
}

/// Law: draining a list by forward consumption, with the cursor starting on
/// the front element, hands out exactly the elements in front-to-back
/// order; every step leaves the cursor at the front for the next one.
pub proof fn lemma_drain_forward<T>(s: Seq<T>)
    ensures
        drained_forward(s) == s,
        s.len() > 0 ==> spec_consume_forward(s, 0).0.1 == 0,
    decreases s.len(),
{
    if s.len() == 0 {
        assert(drained_forward(s) =~= s);
    } else {
        s.remove_ensures(0);
        lemma_drain_forward(s.remove(0));
        assert(drained_forward(s) =~= s);
    }
}

} // verus!
