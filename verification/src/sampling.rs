//! The choice of the next token.

use std::collections::HashSet;
use vstd::prelude::*;

verus! {

/// How the next token is drawn. The two fractions are held as the bits of
/// their values in single precision.
#[derive(Clone, Copy, Debug)]
pub struct SamplingConfig {
    pub temperature: u32,
    pub top_k: usize,
    pub top_p: u32,
}

/// One, in single precision.
pub const RECOMMENDED_TEMPERATURE: u32 = 0x3f80_0000;

pub const RECOMMENDED_TOP_K: usize = 64;

/// Nineteen twentieths, in single precision.
pub const RECOMMENDED_TOP_P: u32 = 0x3f73_3333;

/// The settings that are recommended for the model.
pub open spec fn recommended() -> SamplingConfig {
    SamplingConfig {
        temperature: RECOMMENDED_TEMPERATURE,
        top_k: RECOMMENDED_TOP_K,
        top_p: RECOMMENDED_TOP_P,
    }
}

impl SamplingConfig {
    /// The settings that are recommended for the model.
    pub fn gemma_recommended() -> (r: Self)
        ensures
            r == recommended(),
            r.temperature == 0x3f80_0000,
            r.top_k == 64,
            r.top_p == 0x3f73_3333,
    {
        SamplingConfig {
            temperature: RECOMMENDED_TEMPERATURE,
            top_k: RECOMMENDED_TOP_K,
            top_p: RECOMMENDED_TOP_P,
        }
    }
}

/// The place of a single-precision number, given by its bits, in the total order
/// of such numbers: negative ones by falling bits, then the others by rising
/// bits.
pub open spec fn place(bits: u32) -> u32 {
    if bits >= 0x8000_0000 {
        (0xffff_ffff - bits) as u32
    } else {
        (bits + 0x8000_0000) as u32
    }
}

/// Token `a` is ranked before token `b`: its logit is greater, or equal and it
/// comes first.
pub open spec fn ranked_before(logits: Seq<u32>, a: usize, b: usize) -> bool {
    ||| place(logits[a as int]) > place(logits[b as int])
    ||| place(logits[a as int]) == place(logits[b as int]) && a < b
}

/// `ids` are the first tokens of the ranking, in order.
pub open spec fn are_first(logits: Seq<u32>, ids: Seq<usize>) -> bool {
    &&& forall|i: int| 0 <= i < ids.len() ==> #[trigger] ids[i] < logits.len()
    &&& forall|i: int, j: int|
        0 <= i < j < ids.len() ==> ranked_before(logits, #[trigger] ids[i], #[trigger] ids[j])
    &&& forall|i: int, id: usize|
        0 <= i < ids.len() && id < logits.len() && !ids.contains(id) ==> #[trigger] ranked_before(
            logits,
            ids[i],
            id,
        )
}

/// `<[T]>::sort_unstable`, on pairs of numbers, puts them into rising order, by
/// the first and then by the second.
#[verifier::external_body]
fn sort_pairs(pairs: &mut Vec<(u32, usize)>)
    ensures
        final(pairs)@.to_multiset() == old(pairs)@.to_multiset(),
        forall|i: int, j: int|
            0 <= i < j < final(pairs)@.len() ==> !pair_less(
                #[trigger] final(pairs)@[j],
                #[trigger] final(pairs)@[i],
            ),
{
    pairs.sort_unstable();
}

/// `<[T]>::select_nth_unstable`, on pairs of numbers, puts the pair that stands
/// at `n` in rising order there, no greater ones before it and no lesser ones
/// after it.
#[verifier::external_body]
fn select_pair(pairs: &mut Vec<(u32, usize)>, n: usize)
    requires
        n < old(pairs)@.len(),
    ensures
        final(pairs)@.to_multiset() == old(pairs)@.to_multiset(),
        forall|i: int|
            0 <= i < n ==> !pair_less(final(pairs)@[n as int], #[trigger] final(pairs)@[i]),
        forall|j: int|
            n < j < final(pairs)@.len() ==> !pair_less(
                #[trigger] final(pairs)@[j],
                final(pairs)@[n as int],
            ),
{
    pairs.select_nth_unstable(n);
}

/// The order of pairs: by the first number, then by the second.
pub open spec fn pair_less(a: (u32, usize), b: (u32, usize)) -> bool {
    a.0 < b.0 || (a.0 == b.0 && a.1 < b.1)
}

/// A token with its logit, so that lesser pairs are ranked first.
pub open spec fn pair_of(logits: Seq<u32>, id: usize) -> (u32, usize) {
    ((0xffff_ffff - place(logits[id as int])) as u32, id)
}

/// The pairs are those of tokens, each token at most once.
spec fn token_pairs(logits: Seq<u32>, pairs: Seq<(u32, usize)>) -> bool {
    &&& forall|i: int|
        0 <= i < pairs.len() ==> (#[trigger] pairs[i]).1 < logits.len() && pairs[i] == pair_of(
            logits,
            pairs[i].1,
        )
    &&& pairs.no_duplicates()
}

fn key_of(bits: u32) -> (r: u32)
    ensures
        r == 0xffff_ffff - place(bits),
{
    if bits >= 0x8000_0000 {
        bits
    } else {
        0x7fff_ffff - bits
    }
}

fn all_pairs(logits: &Vec<u32>) -> (r: Vec<(u32, usize)>)
    ensures
        r@.len() == logits@.len(),
        forall|i: int| 0 <= i < r@.len() ==> #[trigger] r@[i] == pair_of(logits@, i as usize),
        token_pairs(logits@, r@),
{
    let mut pairs: Vec<(u32, usize)> = Vec::new();
    let mut i: usize = 0;
    while i < logits.len()
        invariant
            i <= logits@.len(),
            pairs@.len() == i,
            forall|j: int| 0 <= j < i ==> #[trigger] pairs@[j] == pair_of(logits@, j as usize),
        decreases logits@.len() - i,
    {
        pairs.push((key_of(logits[i]), i));
        i += 1;
    }
    pairs
}

/// Rearranging pairs keeps them those of tokens, and the same ones.
proof fn rearranged(logits: Seq<u32>, a: Seq<(u32, usize)>, b: Seq<(u32, usize)>)
    requires
        token_pairs(logits, a),
        a.to_multiset() == b.to_multiset(),
    ensures
        token_pairs(logits, b),
        a.len() == b.len(),
        forall|x: (u32, usize)| a.contains(x) <==> b.contains(x),
{
    broadcast use vstd::seq_lib::group_to_multiset_ensures;

    assert(a.len() == a.to_multiset().len());
    assert(b.len() == b.to_multiset().len());
    assert forall|x: (u32, usize)| a.contains(x) <==> b.contains(x) by {
        assert(a.contains(x) <==> a.to_multiset().count(x) > 0);
        assert(b.contains(x) <==> b.to_multiset().count(x) > 0);
    }
    assert forall|i: int| 0 <= i < b.len() implies (#[trigger] b[i]).1 < logits.len() && b[i]
        == pair_of(logits, b[i].1) by {
        assert(b.contains(b[i]));
        assert(a.contains(b[i]));
        let k = choose|k: int| 0 <= k < a.len() && a[k] == b[i];
        assert(a[k].1 < logits.len());
    }
    a.lemma_multiset_has_no_duplicates();
    b.lemma_multiset_has_no_duplicates_conv();
}

/// How many tokens of the ranking are looked at.
pub open spec fn width(top_k: usize, banned: nat, tokens: nat) -> nat {
    if top_k == 0 || top_k + banned >= tokens {
        tokens
    } else {
        (top_k + banned) as nat
    }
}

/// `ids` without the banned ones.
pub open spec fn allowed(ids: Seq<usize>, banned: Set<usize>) -> Seq<usize>
    decreases ids.len(),
{
    if ids.len() == 0 {
        seq![]
    } else if banned.contains(ids.last()) {
        allowed(ids.drop_last(), banned)
    } else {
        allowed(ids.drop_last(), banned).push(ids.last())
    }
}

/// The candidates among the first tokens of a ranking: those that are not
/// banned, or all where that leaves none, and of these the first `top_k`.
pub open spec fn shortlist(ids: Seq<usize>, top_k: usize, banned: Set<usize>) -> Seq<usize> {
    let kept = if allowed(ids, banned).len() == 0 {
        ids
    } else {
        allowed(ids, banned)
    };
    if top_k > 0 && top_k < kept.len() {
        kept.take(top_k as int)
    } else {
        kept
    }
}

/// `r` are the candidates that a ranking of `logits` gives.
pub open spec fn are_candidates(
    logits: Seq<u32>,
    top_k: usize,
    banned: Set<usize>,
    r: Seq<usize>,
) -> bool {
    exists|ids: Seq<usize>|
        {
            &&& #[trigger] are_first(logits, ids)
            &&& ids.len() == width(top_k, banned.len(), logits.len())
            &&& r == shortlist(ids, top_k, banned)
        }
}

/// The tokens of pairs.
spec fn ids_of(pairs: Seq<(u32, usize)>) -> Seq<usize> {
    Seq::new(pairs.len(), |i: int| pairs[i].1)
}

proof fn pairs_order_tokens(logits: Seq<u32>, a: usize, b: usize)
    requires
        a != b,
        !pair_less(pair_of(logits, b), pair_of(logits, a)),
    ensures
        ranked_before(logits, a, b),
{
}

/// Sorted pairs, of which no pair left out is less than one that is in, are the
/// first of the ranking.
proof fn sorted_pairs_are_first(
    logits: Seq<u32>,
    all: Seq<(u32, usize)>,
    kept: Seq<(u32, usize)>,
)
    requires
        token_pairs(logits, kept),
        forall|id: usize| id < logits.len() ==> all.contains(#[trigger] pair_of(logits, id)),
        forall|i: int, j: int|
            0 <= i < j < kept.len() ==> !pair_less(#[trigger] kept[j], #[trigger] kept[i]),
        forall|x: (u32, usize), i: int|
            0 <= i < kept.len() && #[trigger] all.contains(x) && !kept.contains(x) ==> !pair_less(
                x,
                #[trigger] kept[i],
            ),
    ensures
        are_first(logits, ids_of(kept)),
{
    let ids = ids_of(kept);
    assert forall|i: int, j: int| 0 <= i < j < ids.len() implies ranked_before(
        logits,
        #[trigger] ids[i],
        #[trigger] ids[j],
    ) by {
        assert(kept[i] == pair_of(logits, kept[i].1));
        assert(kept[j] == pair_of(logits, kept[j].1));
        assert(kept[i] != kept[j]);
        assert(!pair_less(kept[j], kept[i]));
        pairs_order_tokens(logits, ids[i], ids[j]);
    }
    assert forall|i: int, id: usize|
        0 <= i < ids.len() && id < logits.len() && !ids.contains(
            id,
        ) implies #[trigger] ranked_before(logits, ids[i], id) by {
        let x = pair_of(logits, id);
        assert(all.contains(x));
        assert(!kept.contains(x)) by {
            if kept.contains(x) {
                let k = choose|k: int| 0 <= k < kept.len() && kept[k] == x;
                assert(ids[k] == id);
            }
        }
        assert(kept[i] == pair_of(logits, kept[i].1));
        assert(!pair_less(x, kept[i]));
        assert(ids[i] != id);
        pairs_order_tokens(logits, ids[i], id);
    }
}

/// The first `keep` tokens of the ranking.
fn first_ranked(logits: &Vec<u32>, keep: usize) -> (r: Vec<usize>)
    requires
        0 < keep <= logits@.len(),
    ensures
        are_first(logits@, r@),
        r@.len() == keep,
{
    let mut pairs = all_pairs(logits);
    let ghost all = pairs@;
    assert forall|id: usize| id < logits@.len() implies all.contains(
        #[trigger] pair_of(logits@, id),
    ) by {
        assert(all[id as int] == pair_of(logits@, id));
    }
    if keep < logits.len() {
        select_pair(&mut pairs, keep - 1);
    }
    let ghost chosen = pairs@;
    proof {
        rearranged(logits@, all, chosen);
    }
    pairs.truncate(keep);
    let ghost kept = pairs@;
    assert(kept =~= chosen.take(keep as int));
    assert(token_pairs(logits@, kept)) by {
        assert forall|i: int| 0 <= i < kept.len() implies (#[trigger] kept[i]).1 < logits@.len()
            && kept[i] == pair_of(logits@, kept[i].1) by {
            assert(kept[i] == chosen[i]);
        }
    }
    assert forall|x: (u32, usize), i: int|
        0 <= i < kept.len() && #[trigger] all.contains(x) && !kept.contains(
            x,
        ) implies !pair_less(x, #[trigger] kept[i]) by {
        assert(chosen.contains(x));
        let j = choose|j: int| 0 <= j < chosen.len() && chosen[j] == x;
        if j < keep {
            assert(kept[j] == x);
        }
        let mid = chosen[keep - 1];
        assert(!pair_less(x, mid));
        assert(kept[i] == chosen[i]);
        if i < keep - 1 {
            assert(!pair_less(mid, chosen[i]));
        }
    }
    sort_pairs(&mut pairs);
    proof {
        rearranged(logits@, kept, pairs@);
        assert forall|x: (u32, usize), i: int|
            0 <= i < pairs@.len() && #[trigger] all.contains(x) && !pairs@.contains(
                x,
            ) implies !pair_less(x, #[trigger] pairs@[i]) by {
            assert(pairs@.contains(pairs@[i]));
            let k = choose|k: int| 0 <= k < kept.len() && kept[k] == pairs@[i];
            assert(!pair_less(x, kept[k]));
        }
        sorted_pairs_are_first(logits@, all, pairs@);
    }
    let mut ids: Vec<usize> = Vec::new();
    let mut i: usize = 0;
    while i < pairs.len()
        invariant
            i <= pairs@.len(),
            ids@.len() == i,
            forall|j: int| 0 <= j < i ==> #[trigger] ids@[j] == pairs@[j].1,
        decreases pairs@.len() - i,
    {
        ids.push(pairs[i].1);
        i += 1;
    }
    assert(ids@ =~= ids_of(pairs@));
    ids
}

fn drop_banned(ids: &Vec<usize>, banned: &HashSet<usize>) -> (r: Vec<usize>)
    ensures
        r@ == allowed(ids@, banned@),
{
    broadcast use vstd::std_specs::hash::group_hash_axioms;

    let mut out: Vec<usize> = Vec::new();
    let mut i: usize = 0;
    while i < ids.len()
        invariant
            i <= ids@.len(),
            out@ == allowed(ids@.take(i as int), banned@),
        decreases ids@.len() - i,
    {
        assert(ids@.take(i + 1).drop_last() == ids@.take(i as int));
        if !banned.contains(&ids[i]) {
            out.push(ids[i]);
        }
        i += 1;
    }
    assert(ids@.take(i as int) == ids@);
    out
}

/// The tokens that the next one is drawn from, the most likely first.
pub fn rank(logits: &Vec<u32>, top_k: usize, banned: &HashSet<usize>) -> (r: Vec<usize>)
    requires
        logits@.len() > 0,
    ensures
        are_candidates(logits@, top_k, banned@, r@),
        are_best(logits@, top_k, banned@, r@),
        r@.len() > 0,
        forall|i: int| 0 <= i < r@.len() ==> #[trigger] r@[i] < logits@.len(),
{
    let mut keep: usize = logits.len();
    if top_k > 0 && top_k.saturating_add(banned.len()) < keep {
        keep = top_k + banned.len();
    }
    let ids = first_ranked(logits, keep);
    let ghost first = ids@;
    let mut kept = drop_banned(&ids, banned);
    proof {
        allowed_are_among(first, banned@);
    }
    if kept.len() == 0 {
        kept = ids;
    }
    if top_k > 0 && top_k < kept.len() {
        kept.truncate(top_k);
    }
    assert(kept@ =~= shortlist(first, top_k, banned@));
    assert(are_first(logits@, first));
    proof {
        candidates_are_the_best(logits@, top_k, banned@, kept@);
    }
    kept
}

/// The tokens that are left are among those there were, and not banned.
proof fn allowed_are_among(ids: Seq<usize>, banned: Set<usize>)
    ensures
        forall|i: int|
            0 <= i < allowed(ids, banned).len() ==> {
                &&& ids.contains(#[trigger] allowed(ids, banned)[i])
                &&& !banned.contains(allowed(ids, banned)[i])
            },
        allowed(ids, banned).len() == 0 ==> forall|i: int|
            0 <= i < ids.len() ==> banned.contains(#[trigger] ids[i]),
    decreases ids.len(),
{
    if ids.len() > 0 {
        let init = ids.drop_last();
        allowed_are_among(init, banned);
        let out = allowed(ids, banned);
        assert forall|i: int| 0 <= i < out.len() implies {
            &&& ids.contains(#[trigger] out[i])
            &&& !banned.contains(out[i])
        } by {
            if i < allowed(init, banned).len() {
                assert(out[i] == allowed(init, banned)[i]);
                assert(init.contains(out[i]));
                let k = choose|k: int| 0 <= k < init.len() && init[k] == out[i];
                assert(ids[k] == out[i]);
            } else {
                assert(out[i] == ids[ids.len() - 1]);
            }
        }
        if out.len() == 0 {
            assert forall|i: int| 0 <= i < ids.len() implies banned.contains(
                #[trigger] ids[i],
            ) by {
                if i < init.len() {
                    assert(ids[i] == init[i]);
                }
            }
        }
    }
}

/// As long as some token is not banned, no candidate is.
pub proof fn candidates_are_not_banned(
    logits: Seq<u32>,
    top_k: usize,
    banned: Set<usize>,
    r: Seq<usize>,
    free: usize,
)
    requires
        are_candidates(logits, top_k, banned, r),
        banned.finite(),
        free < logits.len() <= usize::MAX,
        !banned.contains(free),
    ensures
        forall|i: int| 0 <= i < r.len() ==> !banned.contains(#[trigger] r[i]),
{
    let ids = choose|ids: Seq<usize>|
        {
            &&& #[trigger] are_first(logits, ids)
            &&& ids.len() == width(top_k, banned.len(), logits.len())
            &&& r == shortlist(ids, top_k, banned)
        };
    allowed_are_among(ids, banned);
    if allowed(ids, banned).len() == 0 {
        assert(ids.no_duplicates()) by {
            assert forall|i: int, j: int| 0 <= i < j < ids.len() implies ids[i] != ids[j] by {
                assert(ranked_before(logits, ids[i], ids[j]));
            }
        }
        ids.unique_seq_to_set();
        assert(ids.to_set().subset_of(banned)) by {
            assert forall|x: usize| ids.to_set().contains(x) implies banned.contains(x) by {
                let k = choose|k: int| 0 <= k < ids.len() && ids[k] == x;
                assert(banned.contains(ids[k]));
            }
        }
        if ids.len() < logits.len() {
            vstd::set_lib::lemma_len_subset(ids.to_set(), banned);
        } else {
            all_tokens_are_in(logits, ids, free);
        }
        assert(false);
    }
}

/// As many different tokens as there are leave none out.
proof fn all_tokens_are_in(logits: Seq<u32>, ids: Seq<usize>, free: usize)
    requires
        ids.no_duplicates(),
        ids.len() == logits.len(),
        forall|i: int| 0 <= i < ids.len() ==> #[trigger] ids[i] < logits.len(),
        free < logits.len() <= usize::MAX,
    ensures
        ids.contains(free),
{
    if !ids.contains(free) {
        let full = Set::<usize>::new(|x: usize| x < logits.len());
        let numbers = Seq::new(logits.len(), |i: int| i as usize);
        numbers.unique_seq_to_set();
        assert(numbers.to_set() =~= full) by {
            assert forall|x: usize| full.contains(x) implies numbers.to_set().contains(x) by {
                assert(numbers[x as int] == x);
            }
        }
        vstd::seq_lib::seq_to_set_is_finite(numbers);
        ids.unique_seq_to_set();
        assert(ids.to_set().subset_of(full.remove(free)));
        vstd::set_lib::lemma_len_subset(ids.to_set(), full.remove(free));
    }
}

/// A single-precision number is greater than another, both given by their bits,
/// in the total order of such numbers: a negative one is less than one that is
/// not, of negative ones that with the lesser bits is greater, of others that
/// with the greater bits.
pub open spec fn bits_exceed(a: u32, b: u32) -> bool {
    if a < 0x8000_0000 {
        b >= 0x8000_0000 || a > b
    } else {
        b >= 0x8000_0000 && a < b
    }
}

/// Tokens are ranked by their logits, the greatest first, and tokens with the
/// same logit by their numbers.
pub proof fn ranking_follows_the_logits(logits: Seq<u32>, a: usize, b: usize)
    requires
        a < logits.len(),
        b < logits.len(),
    ensures
        bits_exceed(logits[a as int], logits[b as int]) ==> ranked_before(logits, a, b),
        logits[a as int] == logits[b as int] && a < b ==> ranked_before(logits, a, b),
        a != b ==> (ranked_before(logits, a, b) <==> !ranked_before(logits, b, a)),
        ranked_before(logits, a, b) ==> logits[a as int] == logits[b as int] || bits_exceed(
            logits[a as int],
            logits[b as int],
        ),
{
}

/// A token may be chosen: it is not banned, or all tokens are.
pub open spec fn may_choose(logits: Seq<u32>, banned: Set<usize>, id: usize) -> bool {
    &&& id < logits.len()
    &&& !banned.contains(id) || forall|other: usize|
        other < logits.len() ==> #[trigger] banned.contains(other)
}

/// `r` are the best tokens that may be chosen, the best first: at most `top_k`
/// where that is a limit, all of them where there are no more, and none that is
/// left out is better.
pub open spec fn are_best(
    logits: Seq<u32>,
    top_k: usize,
    banned: Set<usize>,
    r: Seq<usize>,
) -> bool {
    &&& forall|i: int| 0 <= i < r.len() ==> may_choose(logits, banned, #[trigger] r[i])
    &&& forall|i: int, j: int|
        0 <= i < j < r.len() ==> ranked_before(logits, #[trigger] r[i], #[trigger] r[j])
    &&& forall|i: int, id: usize|
        0 <= i < r.len() && may_choose(logits, banned, id) && !r.contains(id)
            ==> #[trigger] ranked_before(logits, r[i], id)
    &&& top_k > 0 ==> r.len() <= top_k
    &&& top_k == 0 || r.len() < top_k ==> forall|id: usize|
        may_choose(logits, banned, id) ==> #[trigger] r.contains(id)
}

/// The allowed tokens keep their order.
proof fn allowed_keep_their_order(logits: Seq<u32>, ids: Seq<usize>, banned: Set<usize>)
    requires
        forall|i: int, j: int|
            0 <= i < j < ids.len() ==> ranked_before(logits, #[trigger] ids[i], #[trigger] ids[j]),
    ensures
        forall|i: int, j: int|
            0 <= i < j < allowed(ids, banned).len() ==> ranked_before(
                logits,
                #[trigger] allowed(ids, banned)[i],
                #[trigger] allowed(ids, banned)[j],
            ),
        forall|id: usize|
            ids.contains(id) && !banned.contains(id) ==> #[trigger] allowed(ids, banned).contains(
                id,
            ),
    decreases ids.len(),
{
    if ids.len() > 0 {
        let init = ids.drop_last();
        let out = allowed(ids, banned);
        let head = allowed(init, banned);
        assert forall|i: int, j: int| 0 <= i < j < init.len() implies ranked_before(
            logits,
            #[trigger] init[i],
            #[trigger] init[j],
        ) by {
            assert(ranked_before(logits, ids[i], ids[j]));
        }
        allowed_keep_their_order(logits, init, banned);
        allowed_are_among(init, banned);
        assert forall|i: int, j: int| 0 <= i < j < out.len() implies ranked_before(
            logits,
            #[trigger] out[i],
            #[trigger] out[j],
        ) by {
            assert(out[i] == head[i]);
            if j < head.len() {
                assert(out[j] == head[j]);
            } else {
                assert(init.contains(head[i]));
                let k = choose|k: int| 0 <= k < init.len() && init[k] == head[i];
                assert(ranked_before(logits, ids[k], ids[ids.len() - 1]));
            }
        }
        assert forall|id: usize| ids.contains(id) && !banned.contains(
            id,
        ) implies #[trigger] out.contains(id) by {
            let k = choose|k: int| 0 <= k < ids.len() && ids[k] == id;
            if k < init.len() {
                assert(init[k] == id);
                assert(head.contains(id));
                let n = choose|n: int| 0 <= n < head.len() && head[n] == id;
                assert(out[n] == id);
            } else {
                assert(out[out.len() - 1] == id);
            }
        }
    }
}

/// Of different tokens, all but as many as are banned are left.
proof fn few_are_dropped(ids: Seq<usize>, banned: Set<usize>)
    requires
        ids.no_duplicates(),
        banned.finite(),
    ensures
        allowed(ids, banned).len() + banned.len() >= ids.len(),
        allowed(ids, banned).len() <= ids.len(),
    decreases ids.len(),
{
    if ids.len() > 0 {
        let init = ids.drop_last();
        let last = ids.last();
        assert(init.no_duplicates());
        if banned.contains(last) {
            let fewer = banned.remove(last);
            few_are_dropped(init, fewer);
            assert(!init.contains(last)) by {
                if init.contains(last) {
                    let k = choose|k: int| 0 <= k < init.len() && init[k] == last;
                    assert(ids[k] == ids[ids.len() - 1]);
                }
            }
            allowed_without(init, banned, last);
        } else {
            few_are_dropped(init, banned);
        }
    }
}

/// Banning a token that does not occur changes nothing.
proof fn allowed_without(ids: Seq<usize>, banned: Set<usize>, id: usize)
    requires
        !ids.contains(id),
    ensures
        allowed(ids, banned.remove(id)) == allowed(ids, banned),
    decreases ids.len(),
{
    if ids.len() > 0 {
        assert(ids[ids.len() - 1] != id);
        assert(!ids.drop_last().contains(id)) by {
            if ids.drop_last().contains(id) {
                let k = choose|k: int| 0 <= k < ids.len() - 1 && ids.drop_last()[k] == id;
                assert(ids[k] == id);
            }
        }
        allowed_without(ids.drop_last(), banned, id);
    }
}

/// There are finitely many tokens.
proof fn sets_of_tokens_are_finite(ids: Set<usize>)
    ensures
        ids.finite(),
{
    let numbers = Seq::new((usize::MAX + 1) as nat, |i: int| i as usize);
    vstd::seq_lib::seq_to_set_is_finite(numbers);
    assert(ids.subset_of(numbers.to_set())) by {
        assert forall|id: usize| ids.contains(id) implies numbers.to_set().contains(id) by {
            assert(numbers[id as int] == id);
        }
    }
    vstd::set_lib::lemma_len_subset(ids, numbers.to_set());
}

/// The candidates of a ranking are the best tokens that may be chosen.
pub proof fn candidates_are_the_best(
    logits: Seq<u32>,
    top_k: usize,
    banned: Set<usize>,
    r: Seq<usize>,
)
    requires
        are_candidates(logits, top_k, banned, r),
        logits.len() <= usize::MAX,
    ensures
        are_best(logits, top_k, banned, r),
{
    sets_of_tokens_are_finite(banned);
    let ids = choose|ids: Seq<usize>|
        {
            &&& #[trigger] are_first(logits, ids)
            &&& ids.len() == width(top_k, banned.len(), logits.len())
            &&& r == shortlist(ids, top_k, banned)
        };
    assert(ids.no_duplicates()) by {
        assert forall|i: int, j: int| 0 <= i < j < ids.len() implies ids[i] != ids[j] by {
            assert(ranked_before(logits, ids[i], ids[j]));
        }
    }
    allowed_are_among(ids, banned);
    allowed_keep_their_order(logits, ids, banned);
    few_are_dropped(ids, banned);
    let left = allowed(ids, banned);
    let all_banned = forall|other: usize|
        other < logits.len() ==> #[trigger] banned.contains(other);
    if ids.len() == logits.len() {
        assert forall|id: usize| id < logits.len() implies #[trigger] ids.contains(id) by {
            all_tokens_are_in(logits, ids, id);
        }
    }
    if left.len() == 0 {
        if !all_banned {
            let free = choose|other: usize| other < logits.len() && !banned.contains(other);
            if ids.len() == logits.len() {
                assert(ids.contains(free));
                assert(left.contains(free));
            }
            assert(false);
        }
    } else {
        assert(!banned.contains(left[0]));
        assert(ids.contains(left[0]));
        assert(!all_banned);
    }
    let kept = if left.len() == 0 {
        ids
    } else {
        left
    };
    assert forall|i: int| 0 <= i < r.len() implies may_choose(logits, banned, #[trigger] r[i]) by {
        assert(r[i] == kept[i]);
        assert(ids.contains(kept[i]));
    }
    assert forall|i: int, j: int| 0 <= i < j < r.len() implies ranked_before(
        logits,
        #[trigger] r[i],
        #[trigger] r[j],
    ) by {
        assert(r[i] == kept[i] && r[j] == kept[j]);
    }
    assert forall|i: int, id: usize|
        0 <= i < r.len() && may_choose(logits, banned, id) && !r.contains(
            id,
        ) implies #[trigger] ranked_before(logits, r[i], id) by {
        assert(r[i] == kept[i]);
        if ids.contains(id) {
            assert(kept.contains(id));
            let k = choose|k: int| 0 <= k < kept.len() && kept[k] == id;
            if k < r.len() {
                assert(r[k] == id);
            }
            assert(ranked_before(logits, kept[i], kept[k]));
        } else {
            assert(ids.contains(kept[i]));
            let k = choose|k: int| 0 <= k < ids.len() && ids[k] == kept[i];
            assert(ranked_before(logits, ids[k], id));
        }
    }
    if top_k == 0 || r.len() < top_k {
        assert(ids.len() == logits.len());
        assert(r == kept);
        assert forall|id: usize| may_choose(logits, banned, id) implies #[trigger] r.contains(
            id,
        ) by {
            assert(ids.contains(id));
        }
    }
}

/// Where a flag is first raised, or the number of flags.
pub open spec fn first_raised(flags: Seq<bool>) -> nat
    decreases flags.len(),
{
    if flags.len() == 0 || flags[0] {
        0
    } else {
        1 + first_raised(flags.drop_first())
    }
}

/// What `first_raised` finds is the first flag that is raised: none before it is,
/// and where one is raised at all, this one is.
pub proof fn first_raised_is_first(flags: Seq<bool>)
    ensures
        first_raised(flags) <= flags.len(),
        forall|j: int| 0 <= j < first_raised(flags) ==> !#[trigger] flags[j],
        first_raised(flags) < flags.len() ==> flags[first_raised(flags) as int],
        forall|n: int|
            0 <= n < flags.len() && #[trigger] flags[n] ==> first_raised(flags) <= n,
        flags.contains(true) <==> first_raised(flags) < flags.len(),
    decreases flags.len(),
{
    if flags.len() > 0 && !flags[0] {
        let rest = flags.drop_first();
        first_raised_is_first(rest);
        let r = first_raised(rest) as int;
        assert forall|j: int| 0 <= j < r + 1 implies !#[trigger] flags[j] by {
            if j > 0 {
                assert(!rest[j - 1]);
            }
        }
        assert forall|n: int| 0 <= n < flags.len() && #[trigger] flags[n] implies r + 1 <= n by {
            assert(rest[n - 1]);
        }
        if r < rest.len() {
            assert(flags[r + 1]);
        }
    }
}

fn find_raised(flags: &Vec<bool>) -> (r: usize)
    ensures
        r == first_raised(flags@),
        r <= flags@.len(),
        forall|j: int| 0 <= j < r ==> !#[trigger] flags@[j],
        r < flags@.len() ==> flags@[r as int],
{
    proof {
        first_raised_is_first(flags@);
    }
    let mut i: usize = 0;
    assert(flags@.skip(0) == flags@);
    while i < flags.len() && !flags[i]
        invariant
            i <= flags@.len(),
            first_raised(flags@) == i + first_raised(flags@.skip(i as int)),
        decreases flags@.len() - i,
    {
        assert(flags@.skip(i as int).drop_first() == flags@.skip(i + 1));
        i += 1;
    }
    i
}

/// How many candidates share the mass that is asked for, where `reached` says of
/// each whether the mass up to it suffices.
pub fn nucleus(reached: &Vec<bool>) -> (r: usize)
    ensures
        r == (if first_raised(reached@) < reached@.len() {
            first_raised(reached@) + 1
        } else {
            reached@.len()
        }),
        r <= reached@.len(),
        reached@.len() > 0 ==> r > 0,
        forall|j: int| 0 <= j < r - 1 ==> !#[trigger] reached@[j],
        r < reached@.len() ==> reached@[r - 1],
        reached@.contains(true) ==> reached@[r - 1],
{
    proof {
        first_raised_is_first(reached@);
    }
    let at: usize = find_raised(reached);
    if at < reached.len() {
        at + 1
    } else {
        at
    }
}

/// The token drawn, where `reached` says of each candidate of the nucleus whether
/// the mass up to it reaches the threshold: the first that does, or the last.
pub fn draw(ranked: &Vec<usize>, reached: &Vec<bool>) -> (r: usize)
    requires
        0 < reached@.len() <= ranked@.len(),
    ensures
        r == ranked@[if first_raised(reached@) < reached@.len() {
            first_raised(reached@) as int
        } else {
            reached@.len() - 1
        }],
        forall|i: int|
            0 <= i < reached@.len() && #[trigger] reached@[i] && (forall|j: int|
                0 <= j < i ==> !#[trigger] reached@[j]) ==> r == ranked@[i],
        !reached@.contains(true) ==> r == ranked@[reached@.len() - 1],
{
    proof {
        first_raised_is_first(reached@);
    }
    let at: usize = find_raised(reached);
    if at < reached.len() {
        ranked[at]
    } else {
        ranked[reached.len() - 1]
    }
}

} // verus!
