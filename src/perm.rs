//! The mathematical model of a board: a permutation of `0..n`, the chains
//! that following it traces, and the facts about cycles the strategies need.

use vstd::prelude::*;

verus! {

/// `s` holds each of `0..s.len()` exactly once.
pub open spec fn is_permutation(s: Seq<usize>) -> bool {
    &&& forall|i: int| 0 <= i < s.len() ==> #[trigger] s[i] < s.len()
    &&& forall|i: int, j: int|
        0 <= i < s.len() && 0 <= j < s.len() && i != j ==> #[trigger] s[i] != #[trigger] s[j]
}

/// The box reached from box `x` after opening `k` boxes and following the
/// numbers found inside.
pub open spec fn follow(s: Seq<usize>, x: int, k: nat) -> int
    decreases k,
{
    if k == 0 {
        x
    } else {
        s[follow(s, x, (k - 1) as nat)] as int
    }
}

/// Prisoner `p`, starting at box `p` and following the chain, finds their own
/// number within `s.len() / 2` openings: the cycle through `p` is short.
pub open spec fn finds_own(s: Seq<usize>, p: int) -> bool {
    exists|k: nat| 1 <= k <= s.len() / 2 && #[trigger] follow(s, p, k) == p
}

/// Every prisoner finds their own number by following the chain.
pub open spec fn all_find(s: Seq<usize>) -> bool {
    forall|p: int| 0 <= p < s.len() ==> #[trigger] finds_own(s, p)
}

/// For each prisoner, whether following the chain finds their number.
pub open spec fn smart_outcomes(s: Seq<usize>) -> Seq<bool> {
    Seq::new(s.len(), |p: int| finds_own(s, p))
}

/// Every length in `lengths` is at most `bound`.
pub open spec fn all_within(lengths: Seq<usize>, bound: nat) -> bool {
    forall|i: int| 0 <= i < lengths.len() ==> #[trigger] lengths[i] <= bound
}

/// One of the first `count` boxes listed in `order` holds `p`.
pub open spec fn found_among(s: Seq<usize>, p: int, order: Seq<usize>, count: int) -> bool {
    exists|j: int| 0 <= j < count && j < order.len() && #[trigger] s[order[j] as int] == p
}

/// Box `x` lies on a cycle of exactly `len` boxes.
pub open spec fn cycle_at(s: Seq<usize>, x: int, len: nat) -> bool {
    &&& 0 <= x < s.len()
    &&& 1 <= len
    &&& follow(s, x, len) == x
    &&& forall|k: nat| 1 <= k < len ==> #[trigger] follow(s, x, k) != x
}

/// Entry `i` of `lengths` is the length of the cycle through `starts[i]`,
/// and no start lies on the cycle of an earlier one: the entries belong to
/// distinct cycles.
pub open spec fn lengths_of_cycles(s: Seq<usize>, lengths: Seq<usize>, starts: Seq<int>) -> bool {
    &&& starts.len() == lengths.len()
    &&& forall|i: int| 0 <= i < lengths.len() ==> #[trigger] cycle_at(s, starts[i], lengths[i] as nat)
    &&& forall|i: int, j: int, m: nat|
        0 <= i < j < lengths.len() ==> #[trigger] follow(s, starts[i], m) != #[trigger] starts[j]
}

/// The values `0..n` in order.
pub open spec fn identity(n: nat) -> Seq<usize> {
    Seq::new(n, |i: int| i as usize)
}

pub proof fn lemma_follow_in_range(s: Seq<usize>, x: int, k: nat)
    requires
        is_permutation(s),
        0 <= x < s.len(),
    ensures
        0 <= follow(s, x, k) < s.len(),
    decreases k,
{
    if k > 0 {
        lemma_follow_in_range(s, x, (k - 1) as nat);
    }
}

pub proof fn lemma_follow_add(s: Seq<usize>, x: int, a: nat, b: nat)
    ensures
        follow(s, x, a + b) == follow(s, follow(s, x, a), b),
    decreases b,
{
    if b > 0 {
        lemma_follow_add(s, x, a, (b - 1) as nat);
        assert((a + b - 1) as nat == a + (b - 1) as nat);
    }
}

/// Following a permutation is injective.
pub proof fn lemma_follow_cancel(s: Seq<usize>, x: int, y: int, a: nat)
    requires
        is_permutation(s),
        0 <= x < s.len(),
        0 <= y < s.len(),
        follow(s, x, a) == follow(s, y, a),
    ensures
        x == y,
    decreases a,
{
    if a > 0 {
        let a1 = (a - 1) as nat;
        lemma_follow_in_range(s, x, a1);
        lemma_follow_in_range(s, y, a1);
        lemma_follow_cancel(s, x, y, a1);
    }
}

/// A chain that revisits a box has come back to its start.
pub proof fn lemma_repeat_returns(s: Seq<usize>, x: int, a: nat, b: nat)
    requires
        is_permutation(s),
        0 <= x < s.len(),
        a < b,
        follow(s, x, a) == follow(s, x, b),
    ensures
        follow(s, x, (b - a) as nat) == x,
{
    let d = (b - a) as nat;
    lemma_follow_add(s, x, d, a);
    assert(d + a == b);
    lemma_follow_in_range(s, x, d);
    lemma_follow_cancel(s, follow(s, x, d), x, a);
}

/// Going once round a cycle of length `len` from any of its boxes returns there.
pub proof fn lemma_round_trip(s: Seq<usize>, x: int, len: nat, j: nat)
    requires
        follow(s, x, len) == x,
    ensures
        follow(s, follow(s, x, j), len) == follow(s, x, j),
{
    lemma_follow_add(s, x, j, len);
    lemma_follow_add(s, x, len, j);
    assert(j + len == len + j);
}

/// A chain starting in a set that the permutation maps into itself stays there.
pub proof fn lemma_follow_stays(s: Seq<usize>, u: Set<int>, x: int, k: nat)
    requires
        forall|y: int| #[trigger] u.contains(y) ==> u.contains(s[y] as int),
        u.contains(x),
    ensures
        u.contains(follow(s, x, k)),
    decreases k,
{
    if k > 0 {
        lemma_follow_stays(s, u, x, (k - 1) as nat);
    }
}

/// Within a set of `m` boxes that the permutation maps into itself, every
/// chain closes within `m` steps.
pub proof fn lemma_cycle_within(s: Seq<usize>, u: Set<int>, x: int)
    requires
        is_permutation(s),
        u.finite(),
        forall|y: int| #[trigger] u.contains(y) ==> 0 <= y < s.len(),
        forall|y: int| #[trigger] u.contains(y) ==> u.contains(s[y] as int),
        u.contains(x),
    ensures
        exists|k: nat| 1 <= k <= u.len() && #[trigger] follow(s, x, k) == x,
{
    let m = u.len();
    let q = Seq::new(m + 1, |j: int| follow(s, x, j as nat));
    assert forall|j: int| 0 <= j < q.len() implies u.contains(#[trigger] q[j]) by {
        lemma_follow_stays(s, u, x, j as nat);
    }
    if q.no_duplicates() {
        q.unique_seq_to_set();
        assert(q.to_set().subset_of(u));
        vstd::set_lib::lemma_len_subset(q.to_set(), u);
        assert(false);
    } else {
        let (a, b) = choose|a: int, b: int|
            0 <= a < q.len() && 0 <= b < q.len() && a != b && q[a] == q[b];
        let (lo, hi) = if a < b { (a, b) } else { (b, a) };
        lemma_repeat_returns(s, x, lo as nat, hi as nat);
        assert(follow(s, x, (hi - lo) as nat) == x);
    }
}

/// The boxes `x`, `s[x]`, ... visited in the first `len` steps from `x`.
pub open spec fn chain(s: Seq<usize>, x: int, len: nat) -> Seq<int> {
    Seq::new(len, |j: int| follow(s, x, j as nat))
}

/// `vs` holds boxes of `s` only, and holds a box exactly when it holds the
/// box that its number points to: it is a union of whole cycles.
pub open spec fn closed_set(s: Seq<usize>, vs: Set<int>) -> bool {
    &&& vs.finite()
    &&& forall|i: int| #[trigger] vs.contains(i) ==> 0 <= i < s.len()
    &&& forall|y: int| 0 <= y < s.len() ==> #[trigger] vs.contains(s[y] as int) == vs.contains(y)
}

/// A box outside a union of whole cycles lies on a cycle no longer than the
/// number of boxes outside it.
pub proof fn lemma_outside_closes(s: Seq<usize>, vs: Set<int>, x: int)
    requires
        is_permutation(s),
        closed_set(s, vs),
        0 <= x < s.len(),
        !vs.contains(x),
    ensures
        exists|k: nat| 1 <= k <= s.len() - vs.len() && #[trigger] follow(s, x, k) == x,
{
    let full = vstd::set_lib::set_int_range(0, s.len() as int);
    vstd::set_lib::lemma_int_range(0, s.len() as int);
    let u = full.difference(vs);
    vstd::set_lib::lemma_set_difference_len(full, vs);
    assert(full.intersect(vs) =~= vs);
    assert forall|y: int| #[trigger] u.contains(y) implies u.contains(s[y] as int) by {
        assert(vs.contains(s[y] as int) == vs.contains(y));
    }
    lemma_cycle_within(s, u, x);
}

/// Adding a whole cycle to a union of whole cycles gives one again.
pub proof fn lemma_close_cycle(s: Seq<usize>, vs: Set<int>, x: int, len: nat)
    requires
        is_permutation(s),
        closed_set(s, vs),
        0 <= x < s.len(),
        1 <= len,
        follow(s, x, len) == x,
    ensures
        closed_set(s, vs + chain(s, x, len).to_set()),
{
    let w = chain(s, x, len);
    let vs2 = vs + w.to_set();
    assert forall|i: int| #[trigger] vs2.contains(i) implies 0 <= i < s.len() by {
        if !vs.contains(i) {
            assert(w.contains(i));
            let j = choose|j: int| 0 <= j < w.len() && w[j] == i;
            lemma_follow_in_range(s, x, j as nat);
        }
    }
    assert forall|y: int| 0 <= y < s.len() implies #[trigger] vs2.contains(s[y] as int)
        == vs2.contains(y) by {
        if w.contains(y) {
            let j = choose|j: int| 0 <= j < w.len() && w[j] == y;
            if j + 1 < len {
                assert(w[j + 1] == s[y] as int);
            } else {
                assert(w[0] == s[y] as int);
            }
        }
        if w.contains(s[y] as int) {
            let j = choose|j: int| 0 <= j < w.len() && w[j] == s[y] as int;
            let pj = if j == 0 { len - 1 } else { j - 1 };
            lemma_follow_in_range(s, x, pj as nat);
            assert(s[w[pj]] == s[y]);
            assert(w[pj] == y);
        }
    }
    vstd::set_lib::lemma_set_union_finite_iff(vs, w.to_set());
}

/// A chain from a box outside a union of whole cycles never enters it.
pub proof fn lemma_chain_outside(s: Seq<usize>, bits: Seq<bool>, x: int, k: nat)
    requires
        is_permutation(s),
        bits.len() == s.len(),
        0 <= x < s.len(),
        !bits[x],
        forall|y: int| 0 <= y < s.len() ==> #[trigger] bits[s[y] as int] == bits[y],
    ensures
        !bits[follow(s, x, k)],
    decreases k,
{
    if k > 0 {
        lemma_chain_outside(s, bits, x, (k - 1) as nat);
        lemma_follow_in_range(s, x, (k - 1) as nat);
    }
}

/// The sum of a sequence of lengths.
pub open spec fn total(s: Seq<usize>) -> int
    decreases s.len(),
{
    if s.len() == 0 {
        0
    } else {
        total(s.drop_last()) + s.last()
    }
}

/// The chain-following outcomes are all true exactly when every prisoner
/// finds their number, which is what the cycle check decides.
pub proof fn lemma_smart_outcomes_all_true(s: Seq<usize>)
    ensures
        (smart_outcomes(s) == Seq::new(s.len(), |p: int| true)) == all_find(s),
{
    if all_find(s) {
        assert(smart_outcomes(s) =~= Seq::new(s.len(), |p: int| true));
    }
    if smart_outcomes(s) == Seq::new(s.len(), |p: int| true) {
        assert forall|p: int| 0 <= p < s.len() implies #[trigger] finds_own(s, p) by {
            assert(smart_outcomes(s)[p]);
        }
    }
}

/// When every box holds its own number, all cycles have length one and every
/// prisoner finds their number as soon as there are two boxes or more.
pub proof fn lemma_identity_all_find(n: nat)
    requires
        2 <= n <= usize::MAX,
    ensures
        all_find(identity(n)),
{
    let s = identity(n);
    assert forall|p: int| 0 <= p < s.len() implies #[trigger] finds_own(s, p) by {
        assert(follow(s, p, 1) == s[follow(s, p, 0)] as int);
        assert(follow(s, p, 1) == p);
    }
}

/// A sequence with the same values as `0..n`, each once, is a permutation.
pub proof fn lemma_shuffled_identity(s: Seq<usize>)
    requires
        s.len() <= usize::MAX,
        s.to_multiset() == identity(s.len()).to_multiset(),
    ensures
        is_permutation(s),
{
    let r = identity(s.len());
    assert(r.no_duplicates()) by {
        assert forall|i: int, j: int| 0 <= i < r.len() && 0 <= j < r.len() && i != j implies r[i]
            != r[j] by {
            assert(r[i] == i && r[j] == j);
        }
    }
    r.lemma_multiset_has_no_duplicates();
    s.to_multiset_ensures();
    r.to_multiset_ensures();
    s.lemma_multiset_has_no_duplicates_conv();
    assert forall|i: int| 0 <= i < s.len() implies #[trigger] s[i] < s.len() by {
        assert(s.contains(s[i]));
        assert(s.to_multiset().count(s[i]) > 0);
        assert(r.to_multiset().count(s[i]) > 0);
        assert(r.contains(s[i]));
        let k = choose|k: int| 0 <= k < r.len() && r[k] == s[i];
        assert(r[k] == k);
    }
}

} // verus!
