//! Which token comes next, given the logits or the probabilities of all tokens.
//!
//! Logits and probabilities come as the bits of 32-bit floats. What is decided here rests on
//! comparisons alone: which tokens a penalty applies to and in which direction, which token is the
//! likeliest, which are the likeliest few, where their sum reaches a bound, and which of them a
//! number picks.

use vstd::prelude::*;

use crate::float;

verus! {

/// The tokens of `recent` that are ids of a vocabulary of `n` tokens, in order.
pub open spec fn known_ids(recent: Seq<i32>, n: int) -> Seq<usize>
    decreases recent.len(),
{
    if recent.len() == 0 {
        Seq::empty()
    } else {
        let front = known_ids(recent.drop_last(), n);
        if 0 <= recent.last() < n {
            front.push(recent.last() as usize)
        } else {
            front
        }
    }
}

/// The last `n` of a list.
pub open spec fn last_of(recent: Seq<i32>, n: int) -> Seq<i32> {
    if recent.len() <= n {
        recent
    } else {
        recent.skip(recent.len() - n)
    }
}

/// The ids whose logits a repetition penalty changes, once for each time that they occur among the
/// last `last_n` tokens; none where the penalty is one.
pub fn penalised(recent: &Vec<i32>, last_n: usize, n_vocab: usize, penalty: u32) -> (r: Vec<usize>)
    ensures
        r@ == (if penalty == float::ONE {
            Seq::empty()
        } else {
            known_ids(last_of(recent@, last_n as int), n_vocab as int)
        }),
{
    let mut out: Vec<usize> = Vec::new();
    if penalty != float::ONE {
        let len: usize = recent.len();
        let start: usize = if len <= last_n {
            0
        } else {
            len - last_n
        };
        let ghost part = last_of(recent@, last_n as int);
        assert(part =~= recent@.skip(start as int));
        let mut i: usize = start;
        while i < len
            invariant
                start <= i <= len,
                len == recent@.len(),
                part == recent@.skip(start as int),
                out@ == known_ids(part.take(i - start), n_vocab as int),
            decreases len - i,
        {
            let token: i32 = recent[i];
            assert(part.take(i + 1 - start).drop_last() =~= part.take(i - start));
            assert(part.take(i + 1 - start).last() == token);
            if 0 <= token && (token as usize) < n_vocab {
                out.push(token as usize);
            }
            i += 1;
        }
        assert(part.take(len - start) =~= part);
    }
    out
}

/// Whether a repetition penalty divides a logit: it is above zero. Any other is multiplied.
pub fn divides(logit: u32) -> (r: bool)
    ensures
        r == (!float::is_nan(logit) && float::rank(logit) > 0),
{
    float::is_number(logit) && float::place(logit) > 0
}

/// Whether a temperature stands for taking the likeliest token: it is zero or less.
pub fn is_greedy(temperature: u32) -> (r: bool)
    ensures
        r == float::at_most(temperature, 0),
{
    float::less_or_equal(temperature, 0)
}

/// Floats that a comparison accepts: all are numbers, or there is nothing to compare.
pub open spec fn comparable(values: Seq<u32>) -> bool {
    values.len() < 2 || forall|i: int| 0 <= i < values.len() ==> !float::is_nan(#[trigger] values[i])
}

/// Whether a comparison accepts the floats.
pub fn can_compare(values: &Vec<u32>) -> (r: bool)
    ensures
        r == comparable(values@),
{
    if values.len() < 2 {
        return true;
    }
    let mut i: usize = 0;
    while i < values.len()
        invariant
            i <= values@.len(),
            values@.len() >= 2,
            forall|j: int| 0 <= j < i ==> !float::is_nan(#[trigger] values@[j]),
        decreases values@.len() - i,
    {
        if !float::is_number(values[i]) {
            return false;
        }
        i += 1;
    }
    true
}

/// The likeliest token, the last of them where there are several; none of no tokens.
pub fn greedy(logits: &Vec<u32>) -> (r: Option<usize>)
    requires
        comparable(logits@),
    ensures
        match r {
            Some(best) => {
                &&& best < logits@.len()
                &&& forall|i: int|
                    0 <= i < logits@.len() ==> float::rank(#[trigger] logits@[i]) <= float::rank(
                        logits@[best as int],
                    )
                &&& forall|i: int|
                    best < i < logits@.len() ==> float::rank(#[trigger] logits@[i]) < float::rank(
                        logits@[best as int],
                    )
            },
            None => logits@.len() == 0,
        },
{
    if logits.len() == 0 {
        return None;
    }
    let mut best: usize = 0;
    let mut i: usize = 1;
    while i < logits.len()
        invariant
            best < i <= logits@.len(),
            forall|j: int|
                0 <= j < i ==> float::rank(#[trigger] logits@[j]) <= float::rank(
                    logits@[best as int],
                ),
            forall|j: int|
                best < j < i ==> float::rank(#[trigger] logits@[j]) < float::rank(
                    logits@[best as int],
                ),
        decreases logits@.len() - i,
    {
        if float::place(logits[i]) >= float::place(logits[best]) {
            best = i;
        }
        i += 1;
    }
    Some(best)
}

/// Token `a` comes before token `b` by probability: it is likelier, or as likely and has the
/// smaller id.
pub open spec fn before(ps: Seq<u32>, a: usize, b: usize) -> bool {
    ||| float::rank(ps[a as int]) > float::rank(ps[b as int])
    ||| float::rank(ps[a as int]) == float::rank(ps[b as int]) && a < b
}

/// The ids `lo..hi`, the likeliest first.
pub open spec fn ranked(ps: Seq<u32>, ids: Seq<usize>, lo: int, hi: int) -> bool {
    &&& ids.len() == hi - lo
    &&& forall|i: int| 0 <= i < ids.len() ==> lo <= #[trigger] ids[i] < hi
    &&& forall|i: int, j: int|
        0 <= i < j < ids.len() ==> before(ps, #[trigger] ids[i], #[trigger] ids[j])
}

/// Merges two ranked halves.
fn merge(ps: &Vec<u32>, left: &Vec<usize>, right: &Vec<usize>, lo: usize, mid: usize, hi: usize) -> (
    out: Vec<usize>)
    requires
        lo <= mid <= hi <= ps@.len(),
        ranked(ps@, left@, lo as int, mid as int),
        ranked(ps@, right@, mid as int, hi as int),
    ensures
        ranked(ps@, out@, lo as int, hi as int),
{
    let mut out: Vec<usize> = Vec::new();
    let mut i: usize = 0;
    let mut j: usize = 0;
    while i < left.len() || j < right.len()
        invariant
            lo <= mid <= hi <= ps@.len(),
            ranked(ps@, left@, lo as int, mid as int),
            ranked(ps@, right@, mid as int, hi as int),
            i <= left@.len(),
            j <= right@.len(),
            out@.len() == i + j,
            forall|a: int| 0 <= a < out@.len() ==> lo <= #[trigger] out@[a] < hi,
            forall|a: int, b: int|
                0 <= a < b < out@.len() ==> before(ps@, #[trigger] out@[a], #[trigger] out@[b]),
            forall|a: int, b: int|
                0 <= a < out@.len() && i <= b < left@.len() ==> before(
                    ps@,
                    #[trigger] out@[a],
                    #[trigger] left@[b],
                ),
            forall|a: int, b: int|
                0 <= a < out@.len() && j <= b < right@.len() ==> before(
                    ps@,
                    #[trigger] out@[a],
                    #[trigger] right@[b],
                ),
        decreases left@.len() + right@.len() - i - j,
    {
        let take_left: bool = if i == left.len() {
            false
        } else if j == right.len() {
            true
        } else {
            float::place(ps[left[i]]) >= float::place(ps[right[j]])
        };
        if take_left {
            out.push(left[i]);
            i += 1;
        } else {
            out.push(right[j]);
            j += 1;
        }
    }
    out
}

/// Ranks the ids `lo..hi`.
fn rank_range(ps: &Vec<u32>, lo: usize, hi: usize) -> (out: Vec<usize>)
    requires
        lo <= hi <= ps@.len(),
    ensures
        ranked(ps@, out@, lo as int, hi as int),
    decreases hi - lo,
{
    let mut out: Vec<usize> = Vec::new();
    if hi - lo == 1 {
        out.push(lo);
    } else if hi - lo > 1 {
        let mid: usize = lo + (hi - lo) / 2;
        let left: Vec<usize> = rank_range(ps, lo, mid);
        let right: Vec<usize> = rank_range(ps, mid, hi);
        out = merge(ps, &left, &right, lo, mid, hi);
    }
    out
}

/// How many candidates a limit of `k` leaves of `n`: all of them where it is negative.
pub open spec fn kept(k: i32, n: int) -> int {
    if k < 0 || k > n {
        n
    } else {
        k as int
    }
}

/// The likeliest `k` tokens, the likeliest first.
pub fn top_k(ps: &Vec<u32>, k: i32) -> (r: Vec<usize>)
    requires
        comparable(ps@),
    ensures
        exists|all: Seq<usize>|
            #[trigger] ranked(ps@, all, 0, ps@.len() as int) && r@ == all.take(
                kept(k, ps@.len() as int),
            ),
{
    let mut out: Vec<usize> = rank_range(ps, 0, ps.len());
    let ghost all = out@;
    if k >= 0 && (k as usize) < ps.len() {
        out.truncate(k as usize);
    }
    assert(out@ =~= all.take(kept(k, ps@.len() as int)));
    out
}

/// There is one ranking of the tokens.
pub proof fn ranking_is_unique(ps: Seq<u32>, a: Seq<usize>, b: Seq<usize>)
    requires
        ranked(ps, a, 0, ps.len() as int),
        ranked(ps, b, 0, ps.len() as int),
    ensures
        a == b,
{
    lemma_ranked_has(ps, a);
    lemma_ranked_has(ps, b);
    assert forall|i: int| 0 <= i < ps.len() implies a[i] == b[i] by {
        lemma_same_place(ps, a, b, i);
    }
    assert(a =~= b);
}

/// A ranking holds every id.
proof fn lemma_ranked_has(ps: Seq<u32>, ids: Seq<usize>)
    requires
        ranked(ps, ids, 0, ps.len() as int),
    ensures
        forall|x: usize| x < ps.len() ==> #[trigger] ids.contains(x),
{
    assert(ids.no_duplicates());
    let all = ids.to_set();
    let range = vstd::set_lib::set_int_range(0, ps.len() as int);
    vstd::set_lib::lemma_int_range(0, ps.len() as int);
    ids.unique_seq_to_set();
    let numbers = all.map(|x: usize| x as int);
    vstd::set_lib::lemma_map_size(all, numbers, |x: usize| x as int);
    assert(numbers.subset_of(range)) by {
        assert forall|n: int| numbers.contains(n) implies range.contains(n) by {
            let x = choose|x: usize| all.contains(x) && n == x as int;
            assert(ids.contains(x));
        }
    }
    vstd::set_lib::lemma_subset_equality(numbers, range);
    assert forall|x: usize| x < ps.len() implies #[trigger] ids.contains(x) by {
        assert(range.contains(x as int));
        assert(numbers.contains(x as int));
        let y = choose|y: usize| all.contains(y) && x as int == y as int;
        assert(all.contains(x));
    }
}

/// Two rankings agree up to and at a place.
proof fn lemma_same_place(ps: Seq<u32>, a: Seq<usize>, b: Seq<usize>, i: int)
    requires
        ranked(ps, a, 0, ps.len() as int),
        ranked(ps, b, 0, ps.len() as int),
        forall|x: usize| x < ps.len() ==> #[trigger] a.contains(x),
        forall|x: usize| x < ps.len() ==> #[trigger] b.contains(x),
        0 <= i < ps.len(),
    ensures
        forall|j: int| 0 <= j <= i ==> a[j] == b[j],
    decreases i,
{
    if i > 0 {
        lemma_same_place(ps, a, b, i - 1);
    }
    if a[i] != b[i] {
        assert(b.contains(a[i]));
        let j = choose|j: int| 0 <= j < b.len() && b[j] == a[i];
        assert(a.contains(b[i]));
        let k = choose|k: int| 0 <= k < a.len() && a[k] == b[i];
        if j < i {
            assert(a[j] == b[j]);
            assert(before(ps, a[j], a[i]));
        } else if k < i {
            assert(a[k] == b[k]);
            assert(before(ps, b[k], b[i]));
        } else {
            assert(before(ps, a[i], a[k]));
            assert(before(ps, b[i], b[j]));
        }
    }
}

/// The likeliest `k` tokens are at least as likely as every other token.
pub proof fn top_k_are_the_likeliest(ps: Seq<u32>, all: Seq<usize>, k: i32, i: int, j: int)
    requires
        ranked(ps, all, 0, ps.len() as int),
        0 <= i < kept(k, ps.len() as int),
        kept(k, ps.len() as int) <= j < ps.len(),
    ensures
        float::rank(ps[all[i] as int]) >= float::rank(ps[all[j] as int]),
        all[i] != all[j],
{
    assert(before(ps, all[i], all[j]));
}

/// The first of a list of sums that is at least `bound`.
pub open spec fn first_reaching(sums: Seq<u32>, bound: u32) -> Option<int>
    decreases sums.len(),
{
    if sums.len() == 0 {
        None
    } else {
        match first_reaching(sums.drop_last(), bound) {
            Some(i) => Some(i),
            None => if float::at_most(bound, sums.last()) {
                Some(sums.len() - 1)
            } else {
                None
            },
        }
    }
}

/// The first sum that reaches a bound is such a sum, and none before it is.
pub proof fn first_reaching_is_first(sums: Seq<u32>, bound: u32)
    ensures
        match first_reaching(sums, bound) {
            Some(i) => {
                &&& 0 <= i < sums.len()
                &&& float::at_most(bound, sums[i])
                &&& forall|j: int| 0 <= j < i ==> !float::at_most(bound, #[trigger] sums[j])
            },
            None => forall|j: int|
                0 <= j < sums.len() ==> !float::at_most(bound, #[trigger] sums[j]),
        },
    decreases sums.len(),
{
    if sums.len() > 0 {
        let front = sums.drop_last();
        first_reaching_is_first(front, bound);
        assert(forall|j: int| 0 <= j < front.len() ==> #[trigger] sums[j] == front[j]);
    }
}

/// Finds the first of a list of sums that is at least `bound`.
fn find_reaching(sums: &Vec<u32>, bound: u32) -> (r: Option<usize>)
    ensures
        match r {
            Some(i) => first_reaching(sums@, bound) == Some(i as int) && i < sums@.len(),
            None => first_reaching(sums@, bound) is None,
        },
{
    let mut i: usize = 0;
    while i < sums.len()
        invariant
            i <= sums@.len(),
            first_reaching(sums@.take(i as int), bound) is None,
        decreases sums@.len() - i,
    {
        assert(sums@.take(i + 1).drop_last() =~= sums@.take(i as int));
        if float::less_or_equal(bound, sums[i]) {
            proof {
                lemma_first_reaching_stays(sums@, bound, i + 1);
            }
            return Some(i);
        }
        i += 1;
    }
    assert(sums@.take(i as int) =~= sums@);
    None
}

/// A sum that reaches the bound among the first `n` is the first of all.
proof fn lemma_first_reaching_stays(sums: Seq<u32>, bound: u32, n: int)
    requires
        0 <= n <= sums.len(),
        first_reaching(sums.take(n), bound) is Some,
    ensures
        first_reaching(sums, bound) == first_reaching(sums.take(n), bound),
    decreases sums.len(),
{
    if n == sums.len() {
        assert(sums.take(n) =~= sums);
    } else {
        let front = sums.drop_last();
        assert(front.take(n) =~= sums.take(n));
        lemma_first_reaching_stays(front, bound, n);
    }
}

/// How many candidates are kept so that their probabilities, whose running sums are `sums`, reach
/// `p`: all of them where they do not.
pub fn top_p(sums: &Vec<u32>, p: u32) -> (r: usize)
    ensures
        r == (match first_reaching(sums@, p) {
            Some(i) => i + 1,
            None => sums@.len() as int,
        }),
{
    let n: usize = sums.len();
    match find_reaching(sums, p) {
        Some(i) => i + 1,
        None => n,
    }
}

/// The candidate that a number `r` picks: the first whose running sum is at least `r`, or the last.
pub fn pick(ids: &Vec<usize>, sums: &Vec<u32>, r: u32) -> (id: usize)
    requires
        0 < ids@.len(),
        sums@.len() == ids@.len(),
    ensures
        id == (match first_reaching(sums@, r) {
            Some(i) => ids@[i],
            None => ids@.last(),
        }),
{
    match find_reaching(sums, r) {
        Some(i) => ids[i],
        None => ids[ids.len() - 1],
    }
}

/// The last of a list are its end, in order: `n` of them, or all where there are fewer.
pub proof fn last_ones_are_the_end(recent: Seq<i32>, n: int, i: int)
    requires
        0 <= n,
    ensures
        last_of(recent, n).len() == (if recent.len() < n {
            recent.len() as int
        } else {
            n
        }),
        0 <= i < n && i < recent.len() ==> last_of(recent, n)[last_of(recent, n).len() - 1 - i]
            == recent[recent.len() - 1 - i],
{
}

/// The known ids are those of the tokens that lie in the vocabulary, in order and as often as they
/// occur.
pub proof fn known_ids_are_in_the_vocabulary(recent: Seq<i32>, token: i32, n: int)
    requires
        0 <= n,
    ensures
        known_ids(Seq::empty(), n).len() == 0,
        token < 0 || token >= n ==> known_ids(recent.push(token), n) == known_ids(recent, n),
        0 <= token < n ==> known_ids(recent.push(token), n) == known_ids(recent, n).push(
            token as usize,
        ),
        0 <= token < n && recent.contains(token) ==> known_ids(recent, n).contains(token as usize),
        forall|i: int|
            0 <= i < known_ids(recent, n).len() ==> (#[trigger] known_ids(recent, n)[i]) < n,
    decreases recent.len(),
{
    assert(recent.push(token).drop_last() =~= recent);
    if recent.len() > 0 {
        let front = recent.drop_last();
        known_ids_are_in_the_vocabulary(front, token, n);
        if 0 <= token < n && recent.contains(token) {
            let ids = known_ids(front, n);
            let i = choose|i: int| 0 <= i < recent.len() && recent[i] == token;
            if i < front.len() {
                assert(front[i] == token);
                assert(front.contains(token));
                let j = choose|j: int| 0 <= j < ids.len() && ids[j] == token as usize;
                assert(known_ids(recent, n)[j] == token as usize);
            } else {
                assert(known_ids(recent, n).last() == token as usize);
            }
        }
    }
}

/// A limit that is not negative keeps that many candidates, or all where there are fewer. A
/// negative one keeps all.
pub proof fn limits_keep_no_more_than_there_are(k: i32, n: int)
    requires
        0 <= n,
    ensures
        0 <= k <= n ==> kept(k, n) == k,
        k > n ==> kept(k, n) == n,
        k < 0 ==> kept(k, n) == n,
{
}

/// Floats can be compared where there are fewer than two of them, or where each is a number.
pub proof fn numbers_can_be_compared(values: Seq<u32>, i: int)
    requires
        0 <= i < values.len(),
    ensures
        values.len() < 2 ==> comparable(values),
        comparable(values) && values.len() >= 2 ==> values[i] as int % 0x80000000 <= 0x7F800000,
        values.len() >= 2 && values[i] as int % 0x80000000 > 0x7F800000 ==> !comparable(values),
        (forall|j: int|
            0 <= j < values.len() ==> (#[trigger] values[j]) as int % 0x80000000 <= 0x7F800000)
            ==> comparable(values),
{
}

/// A token comes before another where its probability is the greater number, or the same number
/// and its id is smaller. Of two tokens one comes before the other.
pub proof fn likelier_tokens_come_first(ps: Seq<u32>, a: usize, b: usize)
    ensures
        float::multiples(ps[a as int]) > float::multiples(ps[b as int]) ==> before(ps, a, b),
        float::multiples(ps[a as int]) < float::multiples(ps[b as int]) ==> !before(ps, a, b),
        float::multiples(ps[a as int]) == float::multiples(ps[b as int]) ==> (before(ps, a, b)
            <==> a < b),
        a != b ==> (before(ps, a, b) <==> !before(ps, b, a)),
{
    float::ranks_are_in_the_order_of_numbers(ps[a as int], ps[b as int]);
    float::ranks_are_in_the_order_of_numbers(ps[b as int], ps[a as int]);
}

/// A ranking holds every token once, and each of them is at least as likely as those after it, with
/// the smaller id where they are equally likely.
pub proof fn rankings_hold_every_token(ps: Seq<u32>, all: Seq<usize>, i: int, j: int, x: usize)
    requires
        ranked(ps, all, 0, ps.len() as int),
        0 <= i < j < ps.len(),
    ensures
        all.len() == ps.len(),
        all[i] < ps.len(),
        all[i] != all[j],
        x < ps.len() ==> all.contains(x),
        float::multiples(ps[all[i] as int]) >= float::multiples(ps[all[j] as int]),
        float::multiples(ps[all[i] as int]) == float::multiples(ps[all[j] as int]) ==> all[i]
            < all[j],
{
    assert(before(ps, all[i], all[j]));
    likelier_tokens_come_first(ps, all[i], all[j]);
    lemma_ranked_has(ps, all);
}

} // verus!
