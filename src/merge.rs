use vstd::prelude::*;

verus! {

/// The `k`-th element of each sequence of `ss` that has one, in the order
/// of `ss`.
pub open spec fn round<A>(ss: Seq<Seq<A>>, k: int) -> Seq<A>
    decreases ss.len(),
{
    if ss.len() == 0 {
        Seq::empty()
    } else {
        let before = round(ss.drop_last(), k);
        if 0 <= k < ss.last().len() {
            before.push(ss.last()[k])
        } else {
            before
        }
    }
}

/// The length of the longest sequence of `ss`.
pub open spec fn longest<A>(ss: Seq<Seq<A>>) -> nat
    decreases ss.len(),
{
    if ss.len() == 0 {
        0
    } else {
        let before = longest(ss.drop_last());
        if ss.last().len() > before {
            ss.last().len()
        } else {
            before
        }
    }
}

/// Rounds `0 .. n` of `ss`, one after the other.
pub open spec fn rounds<A>(ss: Seq<Seq<A>>, n: nat) -> Seq<A>
    decreases n,
{
    if n == 0 {
        Seq::empty()
    } else {
        rounds(ss, (n - 1) as nat) + round(ss, n - 1)
    }
}

/// The round-robin merge of `ss`: the first element of each sequence, then
/// the second of each, and so on, a sequence that has run out being passed
/// over.
pub open spec fn interleaved<A>(ss: Seq<Seq<A>>) -> Seq<A> {
    rounds(ss, longest(ss))
}

/// How many of the first `i` sequences of `ss` have a `k`-th element.
pub open spec fn count_before<A>(ss: Seq<Seq<A>>, i: int, k: int) -> nat
    decreases i,
{
    if i <= 0 {
        0
    } else {
        count_before(ss, i - 1, k) + if 0 <= k < ss[i - 1].len() { 1nat } else { 0nat }
    }
}

/// Where the merge of `ss` holds the `k`-th element of its `i`-th sequence.
pub open spec fn position<A>(ss: Seq<Seq<A>>, i: int, k: int) -> int {
    (rounds(ss, k as nat).len() + count_before(ss, i, k)) as int
}

proof fn lemma_count_prefix<A>(ss: Seq<Seq<A>>, i: int, k: int)
    requires
        0 <= i < ss.len(),
    ensures
        count_before(ss.drop_last(), i, k) == count_before(ss, i, k),
    decreases i,
{
    if i > 0 {
        lemma_count_prefix(ss, i - 1, k);
    }
}

proof fn lemma_count_monotone<A>(ss: Seq<Seq<A>>, i: int, j: int, k: int)
    requires
        i <= j,
    ensures
        count_before(ss, i, k) <= count_before(ss, j, k),
    decreases j - i,
{
    if i < j {
        lemma_count_monotone(ss, i, j - 1, k);
    }
}

proof fn lemma_round_at<A>(ss: Seq<Seq<A>>, i: int, k: int)
    requires
        0 <= i < ss.len(),
        0 <= k < ss[i].len(),
    ensures
        round(ss, k).len() == count_before(ss, ss.len() as int, k),
        count_before(ss, i, k) < round(ss, k).len(),
        round(ss, k)[count_before(ss, i, k) as int] == ss[i][k],
    decreases ss.len(),
{
    let last = ss.len() - 1;
    lemma_count_prefix(ss, last, k);
    lemma_round_len(ss.drop_last(), k);
    if i < last {
        lemma_round_at(ss.drop_last(), i, k);
        lemma_count_prefix(ss, i, k);
    }
    lemma_count_monotone(ss, i, last, k);
}

proof fn lemma_round_len<A>(ss: Seq<Seq<A>>, k: int)
    ensures
        round(ss, k).len() == count_before(ss, ss.len() as int, k),
    decreases ss.len(),
{
    if ss.len() > 0 {
        lemma_count_prefix(ss, ss.len() - 1, k);
        lemma_round_len(ss.drop_last(), k);
    }
}

proof fn lemma_rounds_grow<A>(ss: Seq<Seq<A>>, m: nat, n: nat)
    requires
        m <= n,
    ensures
        rounds(ss, m).len() <= rounds(ss, n).len(),
        rounds(ss, n).subrange(0, rounds(ss, m).len() as int) == rounds(ss, m),
    decreases n - m,
{
    if m < n {
        lemma_rounds_grow(ss, m, (n - 1) as nat);
        let a = rounds(ss, (n - 1) as nat);
        assert((a + round(ss, n - 1)).subrange(0, rounds(ss, m).len() as int) =~= a.subrange(
            0,
            rounds(ss, m).len() as int,
        ));
    } else {
        assert(rounds(ss, n).subrange(0, rounds(ss, n).len() as int) =~= rounds(ss, n));
    }
}

proof fn lemma_longest<A>(ss: Seq<Seq<A>>, i: int)
    requires
        0 <= i < ss.len(),
    ensures
        ss[i].len() <= longest(ss),
    decreases ss.len(),
{
    if i < ss.len() - 1 {
        lemma_longest(ss.drop_last(), i);
    }
}

/// The merge keeps every element of every sequence: the `k`-th element of
/// the `i`-th sequence stands at `position(ss, i, k)`. Each sequence keeps
/// its order, and the merge is nearest first: an element `k` steps along
/// its sequence comes before every element more than `k` steps along any
/// sequence, and after the `k`-th elements of the sequences before it.
pub proof fn lemma_interleaved_nearest_first<A>(ss: Seq<Seq<A>>, i: int, k: int, i2: int, k2: int)
    requires
        0 <= i < ss.len(),
        0 <= k < ss[i].len(),
        0 <= i2 < ss.len(),
        0 <= k2 < ss[i2].len(),
    ensures
        0 <= position(ss, i, k) < interleaved(ss).len(),
        interleaved(ss)[position(ss, i, k)] == ss[i][k],
        k < k2 ==> position(ss, i, k) < position(ss, i2, k2),
        k == k2 && i < i2 ==> position(ss, i, k) < position(ss, i2, k2),
{
    lemma_round_at(ss, i, k);
    lemma_longest(ss, i);
    let kk = (k + 1) as nat;
    lemma_rounds_grow(ss, kk, longest(ss));
    let whole = interleaved(ss);
    let upto = rounds(ss, kk);
    assert(upto == rounds(ss, k as nat) + round(ss, k));
    assert(whole[position(ss, i, k)] == whole.subrange(0, upto.len() as int)[position(ss, i, k)]);
    if k < k2 {
        lemma_rounds_grow(ss, kk, k2 as nat);
    }
    if k == k2 && i < i2 {
        lemma_count_monotone(ss, i + 1, i2, k);
    }
}

/// The contents of each cover.
pub open spec fn cover_views(covers: Seq<Vec<(i32, i32)>>) -> Seq<Seq<(i32, i32)>> {
    covers.map_values(|c: Vec<(i32, i32)>| c@)
}

/// Relies on `interleave::MultiIter`: over finite iterators it yields, pass
/// after pass, the next element of each iterator that has one, in the order
/// in which they were given, and ends after a pass that yields nothing.
#[verifier::external_body]
fn multi_iter_collect(covers: Vec<Vec<(i32, i32)>>) -> (r: Vec<(i32, i32)>)
    ensures
        r@ == interleaved(cover_views(covers@)),
{
    let items: interleave::IterList<(i32, i32)> = covers
        .into_iter()
        .map(|c| Box::new(c.into_iter()) as Box<dyn Iterator<Item = (i32, i32)>>)
        .collect();
    interleave::MultiIter::new(items).collect()
}

/// Merges the cell sequences swept by each vertex of a moving object into
/// one sequence ordered by nearness: all first cells, then all second
/// cells, and so on, vertices in their given order.
pub fn merge_covers(covers: Vec<Vec<(i32, i32)>>) -> (r: Vec<(i32, i32)>)
    ensures
        r@ == interleaved(cover_views(covers@)),
{
    multi_iter_collect(covers)
}

} // verus!
