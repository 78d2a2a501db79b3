//! Stop strings: where one of them stands in a text, and how much of the text's
//! end may still turn into one.

use crate::text::{matches_at, occurs_at};
use vstd::prelude::*;

verus! {

/// The texts that a vector of texts holds.
pub open spec fn texts(v: Seq<Vec<char>>) -> Seq<Seq<char>> {
    Seq::new(v.len(), |i: int| v[i]@)
}

/// The stop strings that are in force: all but the empty ones.
pub open spec fn in_force(stops: Seq<String>) -> Seq<Seq<char>>
    decreases stops.len(),
{
    if stops.len() == 0 {
        seq![]
    } else if stops.last()@.len() == 0 {
        in_force(stops.drop_last())
    } else {
        in_force(stops.drop_last()).push(stops.last()@)
    }
}

/// No stop string is empty.
pub open spec fn none_empty(stops: Seq<Seq<char>>) -> bool {
    forall|i: int| 0 <= i < stops.len() ==> #[trigger] stops[i].len() > 0
}

/// The last `k` characters of `text` are the first `k` of `stop`, and `stop`
/// goes on after them.
pub open spec fn partial_match(text: Seq<char>, stop: Seq<char>, k: int) -> bool {
    &&& 0 <= k < stop.len()
    &&& k <= text.len()
    &&& text.skip(text.len() - k) == stop.take(k)
}

/// The greatest partial match of at most `k` characters, or zero.
pub open spec fn longest_partial(text: Seq<char>, stop: Seq<char>, k: nat) -> nat
    decreases k,
{
    if k == 0 || partial_match(text, stop, k as int) {
        k
    } else {
        longest_partial(text, stop, (k - 1) as nat)
    }
}

/// How many characters at the end of `text` may be the beginning of a stop
/// string.
pub open spec fn overlap(text: Seq<char>, stops: Seq<Seq<char>>) -> nat
    decreases stops.len(),
{
    if stops.len() == 0 {
        0
    } else {
        let rest = overlap(text, stops.drop_last());
        let last = longest_partial(text, stops.last(), text.len());
        if last > rest {
            last
        } else {
            rest
        }
    }
}

/// One of the stop strings stands in `text` at `p`.
pub open spec fn stop_at(text: Seq<char>, stops: Seq<Seq<char>>, p: int) -> bool {
    exists|i: int| 0 <= i < stops.len() && #[trigger] occurs_at(text, stops[i], p)
}

/// The first position from `p` on at which a stop string stands in `text`.
pub open spec fn first_stop_from(text: Seq<char>, stops: Seq<Seq<char>>, p: nat) -> Option<nat>
    decreases text.len() + 1 - p,
{
    if p > text.len() {
        None
    } else if stop_at(text, stops, p as int) {
        Some(p)
    } else {
        first_stop_from(text, stops, p + 1)
    }
}

/// The first position at which a stop string stands in `text`.
pub open spec fn first_stop(text: Seq<char>, stops: Seq<Seq<char>>) -> Option<nat> {
    first_stop_from(text, stops, 0)
}

/// What `longest_partial` finds is a partial match, and no longer one exists
/// within the bound.
pub proof fn longest_partial_is_longest(text: Seq<char>, stop: Seq<char>, k: nat)
    requires
        stop.len() > 0,
    ensures
        longest_partial(text, stop, k) <= k,
        partial_match(text, stop, longest_partial(text, stop, k) as int),
        forall|j: int| j <= k && partial_match(text, stop, j) ==> j <= longest_partial(
            text,
            stop,
            k,
        ),
    decreases k,
{
    assert(text.skip(text.len() as int) =~= stop.take(0));
    if k > 0 && !partial_match(text, stop, k as int) {
        longest_partial_is_longest(text, stop, (k - 1) as nat);
    }
}

/// The overlap is the length of the longest end of the text that begins a stop
/// string.
pub proof fn overlap_is_longest(text: Seq<char>, stops: Seq<Seq<char>>)
    requires
        none_empty(stops),
    ensures
        overlap(text, stops) <= text.len(),
        overlap(text, stops) > 0 ==> exists|i: int|
            0 <= i < stops.len() && #[trigger] partial_match(
                text,
                stops[i],
                overlap(text, stops) as int,
            ),
        forall|i: int, k: int|
            0 <= i < stops.len() && #[trigger] partial_match(text, stops[i], k) ==> k <= overlap(
                text,
                stops,
            ),
    decreases stops.len(),
{
    if stops.len() > 0 {
        let init = stops.drop_last();
        assert(none_empty(init)) by {
            assert forall|i: int| 0 <= i < init.len() implies #[trigger] init[i].len() > 0 by {
                assert(init[i] == stops[i]);
            }
        }
        overlap_is_longest(text, init);
        assert(stops.last() == stops[stops.len() - 1]);
        longest_partial_is_longest(text, stops.last(), text.len());
        if overlap(text, init) > 0 {
            let i = choose|i: int|
                0 <= i < init.len() && #[trigger] partial_match(
                    text,
                    init[i],
                    overlap(text, init) as int,
                );
            assert(partial_match(text, stops[i], overlap(text, init) as int));
        }
        assert(partial_match(
            text,
            stops[stops.len() - 1],
            longest_partial(text, stops.last(), text.len()) as int,
        ));
        assert forall|i: int, k: int|
            0 <= i < stops.len() && #[trigger] partial_match(text, stops[i], k) implies k
            <= overlap(text, stops) by {
            if i < init.len() {
                assert(partial_match(text, init[i], k));
            }
        }
    }
}

/// What `first_stop_from` finds is the first position of a stop string.
pub proof fn first_stop_from_is_first(text: Seq<char>, stops: Seq<Seq<char>>, p: nat)
    ensures
        match first_stop_from(text, stops, p) {
            Some(cut) => {
                &&& p <= cut <= text.len()
                &&& stop_at(text, stops, cut as int)
                &&& forall|q: int| p <= q < cut ==> !stop_at(text, stops, q)
            },
            None => forall|q: int| p <= q ==> !stop_at(text, stops, q),
        },
    decreases text.len() + 1 - p,
{
    if p <= text.len() && !stop_at(text, stops, p as int) {
        first_stop_from_is_first(text, stops, p + 1);
    }
}

/// A text that goes on leaves no more of its earlier part in doubt than before.
pub proof fn overlap_grows_slowly(text: Seq<char>, more: Seq<char>, stops: Seq<Seq<char>>)
    requires
        none_empty(stops),
    ensures
        overlap(text + more, stops) <= overlap(text, stops) + more.len(),
{
    overlap_is_longest(text, stops);
    overlap_is_longest(text + more, stops);
    let k = overlap(text + more, stops) as int;
    if k > more.len() {
        let i = choose|i: int|
            0 <= i < stops.len() && #[trigger] partial_match(text + more, stops[i], k);
        let j = k - more.len();
        assert((text + more).skip((text + more).len() - k).take(j) =~= text.skip(text.len() - j));
        assert(stops[i].take(k).take(j) =~= stops[i].take(j));
        assert(partial_match(text, stops[i], j));
    }
}

/// Where a text without a stop string goes on and one comes to stand in it, that
/// string begins in the part that was in doubt, or after it.
pub proof fn stop_begins_in_overlap(text: Seq<char>, more: Seq<char>, stops: Seq<Seq<char>>)
    requires
        none_empty(stops),
        first_stop(text, stops) is None,
    ensures
        first_stop(text + more, stops) matches Some(cut) ==> cut >= text.len() - overlap(
            text,
            stops,
        ),
{
    overlap_is_longest(text, stops);
    first_stop_from_is_first(text, stops, 0);
    first_stop_from_is_first(text + more, stops, 0);
    if let Some(cut) = first_stop(text + more, stops) {
        let p = cut as int;
        let i = choose|i: int|
            0 <= i < stops.len() && #[trigger] occurs_at(text + more, stops[i], p);
        let stop = stops[i];
        if p < text.len() {
            if p + stop.len() <= text.len() {
                assert(text.subrange(p, p + stop.len()) =~= (text + more).subrange(
                    p,
                    p + stop.len(),
                ));
                assert(occurs_at(text, stops[i], p));
                assert(stop_at(text, stops, p));
            } else {
                let k = text.len() - p;
                assert(text.skip(text.len() - k) =~= (text + more).subrange(p, p + stop.len()).take(
                    k,
                ));
                assert(partial_match(text, stops[i], k));
            }
        }
    }
}

/// A text cut off where its first stop string begins holds no stop string.
pub proof fn cut_text_holds_no_stop(text: Seq<char>, stops: Seq<Seq<char>>)
    requires
        none_empty(stops),
        first_stop(text, stops) is Some,
    ensures
        first_stop(text.take(first_stop(text, stops)->0 as int), stops) is None,
{
    let cut = first_stop(text, stops)->0 as int;
    let kept = text.take(cut);
    first_stop_from_is_first(text, stops, 0);
    first_stop_from_is_first(kept, stops, 0);
    if let Some(q) = first_stop(kept, stops) {
        let p = q as int;
        let i = choose|i: int| 0 <= i < stops.len() && #[trigger] occurs_at(kept, stops[i], p);
        assert(stops[i].len() > 0);
        assert(kept.subrange(p, p + stops[i].len()) =~= text.subrange(p, p + stops[i].len()));
        assert(occurs_at(text, stops[i], p));
        assert(stop_at(text, stops, p));
    }
}

proof fn longest_partial_beyond(text: Seq<char>, stop: Seq<char>, k: nat, bound: nat)
    requires
        k <= bound,
        k >= text.len() || k + 1 >= stop.len(),
    ensures
        longest_partial(text, stop, bound) == longest_partial(text, stop, k),
    decreases bound - k,
{
    if k < bound {
        longest_partial_beyond(text, stop, k, (bound - 1) as nat);
    }
}

/// How many characters at the end of `text` may be the beginning of a stop
/// string.
pub fn pending_stop_overlap(text: &Vec<char>, stops: &Vec<Vec<char>>) -> (r: usize)
    requires
        none_empty(texts(stops@)),
    ensures
        r == overlap(text@, texts(stops@)),
        r <= text@.len(),
{
    let ghost all = texts(stops@);
    let mut hold: usize = 0;
    let mut i: usize = 0;
    while i < stops.len()
        invariant
            i <= stops@.len(),
            all == texts(stops@),
            none_empty(all),
            hold == overlap(text@, all.take(i as int)),
            hold <= text@.len(),
        decreases stops@.len() - i,
    {
        let stop = &stops[i];
        assert(stop@ == all[i as int]);
        let mut k: usize = if stop.len() - 1 < text.len() {
            stop.len() - 1
        } else {
            text.len()
        };
        proof {
            longest_partial_beyond(text@, stop@, k as nat, text@.len());
        }
        let mut found = false;
        while k > 0 && !found
            invariant
                k <= text@.len(),
                k < stop@.len(),
                longest_partial(text@, stop@, k as nat) == longest_partial(
                    text@,
                    stop@,
                    text@.len(),
                ),
                found ==> longest_partial(text@, stop@, k as nat) == k,
            decreases
                k,
                if found {
                    0int
                } else {
                    1int
                },
        {
            let head = vstd::slice::slice_subrange(stop.as_slice(), 0, k);
            assert(text@.skip(text@.len() - k) =~= text@.subrange(text@.len() - k, text@.len() as int));
            assert(head@ =~= stop@.take(k as int));
            if matches_at(text.as_slice(), head, text.len() - k) {
                found = true;
            } else {
                k -= 1;
            }
        }
        if k > hold {
            hold = k;
        }
        assert(all.take(i + 1).drop_last() == all.take(i as int));
        i += 1;
    }
    assert(all.take(i as int) == all);
    hold
}

/// Whether one of the stop strings stands in `text` at `p`.
fn is_stop_at(text: &Vec<char>, stops: &Vec<Vec<char>>, p: usize) -> (r: bool)
    ensures
        r == stop_at(text@, texts(stops@), p as int),
{
    let ghost all = texts(stops@);
    let mut i: usize = 0;
    while i < stops.len()
        invariant
            i <= stops@.len(),
            all == texts(stops@),
            forall|j: int| 0 <= j < i ==> !#[trigger] occurs_at(text@, all[j], p as int),
        decreases stops@.len() - i,
    {
        assert(all[i as int] == stops@[i as int]@);
        if matches_at(text.as_slice(), stops[i].as_slice(), p) {
            assert(occurs_at(text@, all[i as int], p as int));
            return true;
        }
        i += 1;
    }
    false
}

/// The first position at which a stop string stands in `text`.
pub fn find_stop(text: &Vec<char>, stops: &Vec<Vec<char>>) -> (r: Option<usize>)
    ensures
        match r {
            Some(cut) => first_stop(text@, texts(stops@)) == Some(cut as nat) && cut <= text@.len(),
            None => first_stop(text@, texts(stops@)) is None,
        },
{
    let mut p: usize = 0;
    loop
        invariant
            p <= text@.len(),
            first_stop(text@, texts(stops@)) == first_stop_from(
                text@,
                texts(stops@),
                p as nat,
            ),
        decreases text@.len() - p,
    {
        if is_stop_at(text, stops, p) {
            return Some(p);
        }
        if p == text.len() {
            assert(first_stop_from(text@, texts(stops@), (p + 1) as nat) is None);
            return None;
        }
        p += 1;
    }
}

/// The stop strings in force are those that were given and are not empty.
pub proof fn stops_in_force_are_those_given(stops: Seq<String>, text: Seq<char>)
    ensures
        in_force(stops).contains(text) <==> text.len() > 0 && exists|i: int|
            0 <= i < stops.len() && #[trigger] stops[i]@ == text,
    decreases stops.len(),
{
    if stops.len() > 0 {
        let init = stops.drop_last();
        stops_in_force_are_those_given(init, text);
        let (all, head) = (in_force(stops), in_force(init));
        if exists|i: int| 0 <= i < init.len() && #[trigger] init[i]@ == text {
            let i = choose|i: int| 0 <= i < init.len() && #[trigger] init[i]@ == text;
            assert(stops[i]@ == text);
            if text.len() > 0 {
                let k = choose|k: int| 0 <= k < head.len() && head[k] == text;
                assert(all[k] == text);
            }
        }
        if stops.last()@ == text && text.len() > 0 {
            assert(stops[stops.len() - 1]@ == text);
            assert(all[all.len() - 1] == text);
        }
        if exists|i: int| 0 <= i < stops.len() && #[trigger] stops[i]@ == text {
            let i = choose|i: int| 0 <= i < stops.len() && #[trigger] stops[i]@ == text;
            if i < init.len() {
                assert(init[i]@ == text);
            }
        }
        if all.contains(text) {
            let k = choose|k: int| 0 <= k < all.len() && all[k] == text;
            if k < head.len() {
                assert(head[k] == text);
                assert(head.contains(text));
            }
        }
    }
}

} // verus!
