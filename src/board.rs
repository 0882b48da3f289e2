//! A board: `n` boxes holding a permutation of the prisoners' numbers, with
//! the random source that the sampling strategies draw from.

use crate::bits::{bits_of, get_bit, max_bits, set_bit, zeros, BitSet};
use crate::perm::{
    all_find, chain, closed_set, finds_own, follow, identity, is_permutation, lemma_close_cycle,
    lemma_follow_in_range, lemma_outside_closes, lemma_repeat_returns, lemma_round_trip,
    lemma_shuffled_identity, lemma_chain_outside, total, smart_outcomes, all_within, found_among, cycle_at, lengths_of_cycles,
    lemma_follow_stays,
};
use crate::rng::{next_u32, seeded, shuffle};
use rand::rngs::SmallRng;
use vstd::prelude::*;

verus! {

/// One box, holding a prisoner's number.
#[derive(Debug, Clone, Copy, PartialEq, Eq)]
pub struct Cell {
    value: usize,
}

impl View for Cell {
    type V = usize;

    closed spec fn view(&self) -> usize {
        self.value
    }
}

impl Cell {
    pub fn new(value: usize) -> (r: Self)
        ensures
            r@ == value,
    {
        Cell { value }
    }

    /// A placeholder box holding 0.
    pub fn empty() -> (r: Self)
        ensures
            r@ == 0,
    {
        Cell { value: 0 }
    }

    pub fn value(&self) -> (r: usize)
        ensures
            r == self@,
    {
        self.value
    }
}

/// The boxes of one trial and its random source.
#[derive(Debug)]
pub struct Boxes {
    cells: Vec<Cell>,
    rng: SmallRng,
}

impl View for Boxes {
    /// The number in each box.
    type V = Seq<usize>;

    closed spec fn view(&self) -> Seq<usize> {
        self.cells@.map_values(|c: Cell| c@)
    }
}

impl Boxes {
    /// The boxes hold a permutation of `0..n`, and `n` fits a bit set.
    pub open spec fn wf(&self) -> bool {
        is_permutation(self@) && self@.len() <= max_bits()
    }

    /// A board of `n` boxes holding a uniformly shuffled `0..n`, the shuffle
    /// and the later draws all coming from a generator seeded with `seed`.
    pub fn new_random(n: usize, seed: u64) -> (r: Self)
        requires
            n <= max_bits(),
        ensures
            r.wf(),
            r@.len() == n,
            r@.to_multiset() == identity(n as nat).to_multiset(),
    {
        let mut rng = seeded(seed);
        let mut nums: Vec<usize> = Vec::new();
        let mut i: usize = 0;
        while i < n
            invariant
                i <= n,
                nums@ == identity(i as nat),
            decreases n - i,
        {
            nums.push(i);
            i += 1;
            assert(nums@ =~= identity(i as nat));
        }
        shuffle(&mut nums, &mut rng);
        proof {
            nums@.to_multiset_ensures();
            identity(n as nat).to_multiset_ensures();
        }
        let boxes = Boxes::from_values(&nums, rng);
        proof {
            lemma_shuffled_identity(nums@);
        }
        boxes
    }

    /// The board whose box `i` holds `values[i]`, with the given generator.
    fn from_values(values: &Vec<usize>, rng: SmallRng) -> (r: Self)
        ensures
            r@ == values@,
    {
        let mut cells: Vec<Cell> = Vec::new();
        let mut i: usize = 0;
        while i < values.len()
            invariant
                i <= values.len(),
                cells@.len() == i,
                forall|j: int| 0 <= j < i ==> #[trigger] cells@[j]@ == values@[j],
            decreases values.len() - i,
        {
            cells.push(Cell::new(values[i]));
            i += 1;
        }
        assert(cells@.map_values(|c: Cell| c@) =~= values@);
        Boxes { cells, rng }
    }

    /// The board whose box `i` holds `values[i]`, if `values` is a
    /// permutation of `0..values.len()`; the sampling strategies draw from a
    /// generator seeded with `seed`.
    pub fn from_permutation(values: Vec<usize>, seed: u64) -> (r: Option<Self>)
        ensures
            r.is_some() == (is_permutation(values@) && values@.len() <= max_bits()),
            r matches Some(b) ==> b@ == values@,
    {
        let n = values.len();
        if n > usize::MAX / 8 {
            return None;
        }
        let mut seen = zeros(n);
        let mut i: usize = 0;
        while i < n
            invariant
                n == values@.len(),
                i <= n,
                bits_of(seen).len() == n,
                forall|j: int| 0 <= j < i ==> #[trigger] values@[j] < n,
                forall|j: int, k: int|
                    0 <= j < i && 0 <= k < i && j != k ==> values@[j] != values@[k],
                forall|v: int|
                    0 <= v < n ==> #[trigger] bits_of(seen)[v] == exists|j: int|
                        0 <= j < i && values@[j] == v,
            decreases n - i,
        {
            let v = values[i];
            if v >= n {
                return None;
            }
            if get_bit(&seen, v) {
                proof {
                    let j = choose|j: int| 0 <= j < i && values@[j] == v;
                    assert(values@[j] == values@[i as int]);
                }
                return None;
            }
            let ghost old_seen = bits_of(seen);
            set_bit(&mut seen, v, true);
            i += 1;
            assert forall|w: int| 0 <= w < n implies #[trigger] bits_of(seen)[w] == exists|j: int|
                0 <= j < i && values@[j] == w by {
                if w == v {
                    assert(values@[i - 1] == w);
                } else {
                    assert(bits_of(seen)[w] == old_seen[w]);
                    if exists|j: int| 0 <= j < i && values@[j] == w {
                        let j = choose|j: int| 0 <= j < i && values@[j] == w;
                        assert(j != i - 1);
                    }
                }
            }
        }
        Some(Boxes::from_values(&values, seeded(seed)))
    }

    /// The number of boxes.
    pub fn len(&self) -> (r: usize)
        ensures
            r == self@.len(),
    {
        self.cells.len()
    }

    /// The number in box `i`.
    pub fn value(&self, i: usize) -> (r: usize)
        requires
            i < self@.len(),
        ensures
            r == self@[i as int],
    {
        self.cells[i].value
    }
}

impl Boxes {
    /// Chain following: prisoner `p` opens box `p`, then the box whose number
    /// was found, and so on, for at most `n / 2` boxes. Bit `p` of the result
    /// says whether `p` found their own number.
    pub fn solve_smart(&self) -> (r: BitSet)
        requires
            self.wf(),
        ensures
            bits_of(r) == smart_outcomes(self@),
    {
        let ghost s = self@;
        let n = self.cells.len();
        let half = n / 2;
        let mut found_their_box = zeros(n);
        let mut prisoner: usize = 0;
        while prisoner < n
            invariant
                self.wf(),
                s == self@,
                n == s.len(),
                half == n / 2,
                prisoner <= n,
                bits_of(found_their_box).len() == n,
                forall|p: int|
                    0 <= p < prisoner ==> #[trigger] bits_of(found_their_box)[p] == finds_own(s, p),
            decreases n - prisoner,
        {
            let mut i: usize = 0;
            let mut box_idx: usize = prisoner;
            let mut found = false;
            while !found && i < half
                invariant
                    self.wf(),
                    s == self@,
                    n == s.len(),
                    half == n / 2,
                    prisoner < n,
                    i <= half,
                    found ==> i < half && follow(s, prisoner as int, (i + 1) as nat) == prisoner,
                    !found ==> box_idx == follow(s, prisoner as int, i as nat) && box_idx < n,
                    !found ==> forall|k: nat|
                        1 <= k <= i ==> #[trigger] follow(s, prisoner as int, k) != prisoner,
                decreases half - i + (if found { 0int } else { 1int }),
            {
                let v = self.cells[box_idx].value;
                assert(s[box_idx as int] == self.cells@[box_idx as int]@);
                assert(v == s[box_idx as int] && v < n);
                if v == prisoner {
                    found = true;
                } else {
                    i += 1;
                    box_idx = v;
                }
            }
            proof {
                if found {
                    assert(follow(s, prisoner as int, (i + 1) as nat) == prisoner);
                }
            }
            set_bit(&mut found_their_box, prisoner, found);
            prisoner += 1;
        }
        assert(bits_of(found_their_box) =~= smart_outcomes(s));
        found_their_box
    }

    /// Walks the cycle through the unvisited box `start`, marking each box it
    /// opens, and gives up once `limit` boxes were opened without returning.
    /// The result is the number of boxes opened.
    fn walk_cycle(&self, start: usize, visited: &mut BitSet, limit: usize) -> (len: usize)
        requires
            self.wf(),
            start < self@.len(),
            limit <= self@.len(),
            bits_of(*old(visited)).len() == self@.len(),
            !bits_of(*old(visited))[start as int],
            forall|y: int|
                0 <= y < self@.len() ==> #[trigger] bits_of(*old(visited))[self@[y] as int]
                    == bits_of(*old(visited))[y],
        ensures
            1 <= len <= limit + 1,
            forall|k: nat| 1 <= k < len ==> #[trigger] follow(self@, start as int, k) != start,
            len <= limit ==> follow(self@, start as int, len as nat) == start,
            bits_of(*final(visited)).len() == self@.len(),
            len <= limit ==> forall|i: int|
                0 <= i < self@.len() ==> #[trigger] bits_of(*final(visited))[i] == (bits_of(
                    *old(visited),
                )[i] || chain(self@, start as int, len as nat).contains(i)),
            len <= limit ==> forall|i: int|
                #[trigger] chain(self@, start as int, len as nat).contains(i) ==> !bits_of(
                    *old(visited),
                )[i],
            len <= limit ==> chain(self@, start as int, len as nat).no_duplicates(),
    {
        let ghost s = self@;
        let ghost before = bits_of(*visited);
        let mut len: usize = 0;
        let mut idx: usize = start;
        loop
            invariant
                self.wf(),
                s == self@,
                before == bits_of(*old(visited)),
                before.len() == s.len(),
                start < s.len(),
                !before[start as int],
                forall|y: int| 0 <= y < s.len() ==> #[trigger] before[s[y] as int] == before[y],
                limit <= s.len(),
                len <= limit,
                idx == follow(s, start as int, len as nat),
                idx < s.len(),
                forall|k: nat| 1 <= k <= len ==> #[trigger] follow(s, start as int, k) != start,
                bits_of(*visited).len() == s.len(),
                forall|i: int|
                    0 <= i < s.len() ==> #[trigger] bits_of(*visited)[i] == (before[i] || chain(
                        s,
                        start as int,
                        len as nat,
                    ).contains(i)),
                forall|i: int| #[trigger] chain(s, start as int, len as nat).contains(i) ==> !before[i],
                chain(s, start as int, len as nat).no_duplicates(),
            decreases limit - len,
        {
            let ghost c = chain(s, start as int, len as nat);
            let ghost c2 = chain(s, start as int, (len + 1) as nat);
            proof {
                lemma_chain_outside(s, before, start as int, len as nat);
                assert(c2 =~= c.push(idx as int));
                assert forall|j: int| 0 <= j < c.len() implies c[j] != idx by {
                    if c[j] == idx {
                        lemma_repeat_returns(s, start as int, j as nat, len as nat);
                        assert(follow(s, start as int, (len - j) as nat) == start);
                    }
                }
                assert forall|i: int| #[trigger] c2.contains(i) implies !before[i] by {
                    if i != idx {
                        let j = choose|j: int| 0 <= j < c2.len() && c2[j] == i;
                        assert(c.contains(i));
                    }
                }
            }
            let ghost pre = bits_of(*visited);
            set_bit(visited, idx, true);
            proof {
                assert(c2[len as int] == idx);
                assert forall|i: int| 0 <= i < s.len() implies #[trigger] bits_of(*visited)[i] == (
                before[i] || c2.contains(i)) by {
                    assert(pre[i] == (before[i] || c.contains(i)));
                    if c.contains(i) {
                        let j = choose|j: int| 0 <= j < c.len() && c[j] == i;
                        assert(c2[j] == i);
                    }
                    if c2.contains(i) && i != idx {
                        let j = choose|j: int| 0 <= j < c2.len() && c2[j] == i;
                        assert(c[j] == i);
                    }
                }
            }
            let ghost prev = idx;
            idx = self.cells[idx].value;
            assert(s[prev as int] == self.cells@[prev as int]@);
            assert(idx == s[prev as int] && idx < s.len());
            len += 1;
            if len > limit {
                return len;
            }
            if idx == start {
                return len;
            }
        }
    }

    /// Decides whether every prisoner finds their number by following the
    /// chain, from the permutation's cycles: it scans the boxes in order,
    /// walks the cycle of each box not yet seen, answers `false` as soon as a
    /// cycle passes `n / 2` boxes, and answers from the longest cycle so far
    /// once at most `n / 2` boxes are left off the whole cycles found, as
    /// any cycle among them is then short.
    pub fn solve_smart_cycle_detect(&self) -> (r: bool)
        requires
            self.wf(),
        ensures
            r == all_find(self@),
    {
        let ghost s = self@;
        let n = self.cells.len();
        let half = n / 2;
        let mut visited = zeros(n);
        let mut longest_cycle: usize = 0;
        let mut sum_of_cycle_lengths: usize = 0;
        let ghost mut vs: Set<int> = Set::empty();
        let mut k: usize = 0;
        while k < n
            invariant
                self.wf(),
                s == self@,
                n == s.len(),
                half == n / 2,
                k <= n,
                bits_of(visited).len() == n,
                forall|i: int| 0 <= i < n ==> #[trigger] bits_of(visited)[i] == vs.contains(i),
                closed_set(s, vs),
                vs.len() == sum_of_cycle_lengths,
                forall|v: int| #[trigger] vs.contains(v) ==> finds_own(s, v),
                forall|i: int| 0 <= i < k ==> #[trigger] vs.contains(i),
                longest_cycle <= half,
            decreases n - k,
        {
            if get_bit(&visited, k) {
                k += 1;
                continue;
            }
            let ghost before = vs;
            let len = self.walk_cycle(k, &mut visited, half);
            if len > half {
                proof {
                    assert(!finds_own(s, k as int));
                }
                return false;
            }
            proof {
                let w = chain(s, k as int, len as nat);
                lemma_close_cycle(s, before, k as int, len as nat);
                vs = before + w.to_set();
                assert(w[0] == k);
                assert(vs.contains(k as int));
                w.unique_seq_to_set();
                assert(before.disjoint(w.to_set()));
                vstd::set_lib::lemma_set_disjoint_lens(before, w.to_set());
                assert forall|v: int| #[trigger] vs.contains(v) implies finds_own(s, v) by {
                    if !before.contains(v) {
                        let j = choose|j: int| 0 <= j < w.len() && w[j] == v;
                        lemma_round_trip(s, k as int, len as nat, j as nat);
                        assert(follow(s, v, len as nat) == v);
                    }
                }
                vstd::set_lib::lemma_int_range(0, n as int);
                vstd::set_lib::lemma_len_subset(vs, vstd::set_lib::set_int_range(0, n as int));
                assert forall|i: int| 0 <= i < n implies #[trigger] bits_of(visited)[i]
                    == vs.contains(i) by {
                    assert(w.to_set().contains(i) == w.contains(i));
                }
            }
            sum_of_cycle_lengths += len;
            if len > longest_cycle {
                longest_cycle = len;
            }
            if sum_of_cycle_lengths >= n - half {
                proof {
                    assert forall|p: int| 0 <= p < n implies #[trigger] finds_own(s, p) by {
                        if !vs.contains(p) {
                            lemma_outside_closes(s, vs, p);
                        }
                    }
                }
                return longest_cycle <= half;
            }
            k += 1;
        }
        proof {
            assert forall|p: int| 0 <= p < n implies #[trigger] finds_own(s, p) by {
                assert(vs.contains(p));
            }
        }
        longest_cycle <= half
    }
}

impl Boxes {
    /// The lengths of all cycles of the permutation, each once, in the order
    /// in which a scan of the boxes meets them; no early exit.
    pub fn cycle_lengths(&self) -> (r: Vec<usize>)
        requires
            self.wf(),
        ensures
            total(r@) == self@.len(),
            forall|i: int| 0 <= i < r@.len() ==> #[trigger] r@[i] >= 1,
            exists|starts: Seq<int>| #[trigger] lengths_of_cycles(self@, r@, starts),
            all_within(r@, self@.len() / 2) == all_find(self@),
    {
        let ghost s = self@;
        let n = self.cells.len();
        let mut visited = zeros(n);
        let mut lengths: Vec<usize> = Vec::new();
        let mut sum_of_cycle_lengths: usize = 0;
        let ghost mut vs: Set<int> = Set::empty();
        let ghost mut starts: Seq<int> = Seq::empty();
        let mut k: usize = 0;
        while k < n
            invariant
                self.wf(),
                s == self@,
                n == s.len(),
                k <= n,
                bits_of(visited).len() == n,
                forall|i: int| 0 <= i < n ==> #[trigger] bits_of(visited)[i] == vs.contains(i),
                closed_set(s, vs),
                lengths_of_cycles(s, lengths@, starts),
                forall|i: int| 0 <= i < starts.len() ==> #[trigger] vs.contains(starts[i]),
                vs.len() == sum_of_cycle_lengths,
                total(lengths@) == sum_of_cycle_lengths,
                forall|i: int| 0 <= i < lengths@.len() ==> #[trigger] lengths@[i] >= 1,
                all_within(lengths@, n as nat / 2) ==> forall|v: int|
                    #[trigger] vs.contains(v) ==> finds_own(s, v),
                all_find(s) ==> all_within(lengths@, n as nat / 2),
                forall|i: int| 0 <= i < k ==> #[trigger] vs.contains(i),
            decreases n - k,
        {
            if get_bit(&visited, k) {
                k += 1;
                continue;
            }
            let ghost before = vs;
            let ghost before_lengths = lengths@;
            proof {
                lemma_outside_closes(s, vs, k as int);
            }
            let len = self.walk_cycle(k, &mut visited, n);
            proof {
                let w = chain(s, k as int, len as nat);
                lemma_close_cycle(s, before, k as int, len as nat);
                vs = before + w.to_set();
                assert(w[0] == k);
                assert(vs.contains(k as int));
                w.unique_seq_to_set();
                assert(before.disjoint(w.to_set()));
                vstd::set_lib::lemma_set_disjoint_lens(before, w.to_set());
                vstd::set_lib::lemma_int_range(0, n as int);
                vstd::set_lib::lemma_len_subset(vs, vstd::set_lib::set_int_range(0, n as int));
                assert forall|i: int| 0 <= i < n implies #[trigger] bits_of(visited)[i]
                    == vs.contains(i) by {
                    assert(w.to_set().contains(i) == w.contains(i));
                }
                if len <= n / 2 {
                    assert forall|v: int| #[trigger] vs.contains(v) && !before.contains(v)
                        implies finds_own(s, v) by {
                        let j = choose|j: int| 0 <= j < w.len() && w[j] == v;
                        lemma_round_trip(s, k as int, len as nat, j as nat);
                        assert(follow(s, v, len as nat) == v);
                    }
                }
                if all_find(s) {
                    assert(finds_own(s, k as int));
                    let m = choose|m: nat| 1 <= m <= s.len() / 2 && #[trigger] follow(s, k as int, m)
                        == k;
                    assert(len <= m);
                }
            }
            sum_of_cycle_lengths += len;
            lengths.push(len);
            proof {
                let old_starts = starts;
                starts = starts.push(k as int);
                assert(cycle_at(s, k as int, len as nat));
                assert forall|i: int| 0 <= i < lengths@.len() implies #[trigger] cycle_at(
                    s,
                    starts[i],
                    lengths@[i] as nat,
                ) by {
                    if i < old_starts.len() {
                        assert(cycle_at(s, old_starts[i], before_lengths[i] as nat));
                    }
                }
                assert forall|i: int, j: int, m: nat|
                    0 <= i < j < lengths@.len() implies #[trigger] follow(s, starts[i], m)
                    != #[trigger] starts[j] by {
                    if j == old_starts.len() {
                        assert(before.contains(old_starts[i]));
                        assert forall|y: int| #[trigger] before.contains(y) implies before.contains(
                            s[y] as int,
                        ) by {
                            assert(0 <= y < n);
                        }
                        lemma_follow_stays(s, before, old_starts[i], m);
                    } else {
                        assert(follow(s, old_starts[i], m) != old_starts[j]);
                    }
                }
                assert(lengths_of_cycles(s, lengths@, starts));
                assert(lengths@.drop_last() =~= before_lengths);
                if all_within(lengths@, n as nat / 2) {
                    assert forall|i: int| 0 <= i < before_lengths.len() implies #[trigger]
                        before_lengths[i] <= n as nat / 2 by {
                        assert(lengths@[i] == before_lengths[i]);
                    }
                    assert(lengths@[before_lengths.len() as int] == len);
                }
            }
            k += 1;
        }
        proof {
            if all_within(lengths@, n as nat / 2) {
                assert forall|p: int| 0 <= p < n implies #[trigger] finds_own(s, p) by {
                    assert(vs.contains(p));
                }
            }
            assert(vs =~= vstd::set_lib::set_int_range(0, n as int));
            vstd::set_lib::lemma_int_range(0, n as int);
            assert(lengths_of_cycles(s, lengths@, starts));
        }
        lengths
    }
}

impl Boxes {
    /// Whether prisoner `prisoner`, opening the boxes listed in `order` one
    /// after another, meets their number within the first `n / 2`.
    pub fn opens_own_in(&self, prisoner: usize, order: &Vec<usize>) -> (r: bool)
        requires
            self.wf(),
            forall|j: int| 0 <= j < order@.len() ==> #[trigger] order@[j] < self@.len(),
        ensures
            r == found_among(self@, prisoner as int, order@, (self@.len() / 2) as int),
    {
        let half = self.cells.len() / 2;
        let mut j: usize = 0;
        while j < half && j < order.len()
            invariant
                self.wf(),
                half == self@.len() / 2,
                forall|i: int| 0 <= i < order@.len() ==> #[trigger] order@[i] < self@.len(),
                j <= half,
                forall|i: int| 0 <= i < j ==> #[trigger] self@[order@[i] as int] != prisoner,
            decreases half - j,
        {
            let b = order[j];
            assert(self@[b as int] == self.cells@[b as int]@);
            if self.cells[b].value == prisoner {
                return true;
            }
            j += 1;
        }
        false
    }

    /// Fills `buf` with the next `count` 32-bit values of the board's
    /// generator.
    fn draw_values(&mut self, buf: &mut Vec<u32>, count: usize)
        requires
            old(self).wf(),
        ensures
            final(self).wf(),
            final(self)@ == old(self)@,
            final(buf)@.len() == count,
            count == 0 ==> *final(self) == *old(self),
    {
        buf.clear();
        let mut i: usize = 0;
        while i < count
            invariant
                self.wf(),
                self@ == old(self)@,
                count == 0 ==> *self == *old(self),
                i <= count,
                buf@.len() == i,
            decreases count - i,
        {
            let d = next_u32(&mut self.rng);
            buf.push(d);
            i += 1;
        }
    }

    /// Whether prisoner `prisoner`, opening box `d % n` for each of the
    /// first `n / 2` values `d` of `draws`, repeats included, meets their
    /// number.
    pub fn draws_find(&self, prisoner: usize, draws: &Vec<u32>) -> (r: bool)
        requires
            self.wf(),
            self@.len() > 0,
        ensures
            r == exists|j: int|
                0 <= j < self@.len() / 2 && j < draws@.len() && #[trigger] self@[draws@[j] as int
                    % self@.len() as int] == prisoner,
    {
        let n = self.cells.len();
        let half = n / 2;
        let mut j: usize = 0;
        while j < half && j < draws.len()
            invariant
                self.wf(),
                n == self@.len(),
                n > 0,
                half == n / 2,
                j <= half,
                forall|i: int|
                    0 <= i < j ==> #[trigger] self@[draws@[i] as int % n as int] != prisoner,
            decreases half - j,
        {
            let b = draws[j] as usize % n;
            assert(self@[b as int] == self.cells@[b as int]@);
            if self.cells[b].value == prisoner {
                return true;
            }
            j += 1;
        }
        false
    }

    /// Random search with repeats: each prisoner draws `n / 2` boxes at
    /// random, the same box possibly more than once, and the group wins when
    /// every prisoner meets their number. Stops at the first prisoner who
    /// fails. Only the generator advances.
    pub fn solve_dumb_no_list(&mut self) -> (r: bool)
        requires
            old(self).wf(),
        ensures
            final(self).wf(),
            final(self)@ == old(self)@,
            old(self)@.len() == 0 ==> r,
            old(self)@.len() == 1 ==> !r,
            old(self)@.len() < 2 ==> *final(self) == *old(self),
    {
        let n = self.cells.len();
        let half = n / 2;
        let mut draws: Vec<u32> = Vec::new();
        let mut prisoner: usize = 0;
        while prisoner < n
            invariant
                self.wf(),
                self@ == old(self)@,
                n == self@.len(),
                half == n / 2,
                prisoner <= n,
                n == 1 ==> prisoner == 0,
                n < 2 ==> *self == *old(self),
            decreases n - prisoner,
        {
            self.draw_values(&mut draws, half);
            if !self.draws_find(prisoner, &draws) {
                return false;
            }
            prisoner += 1;
        }
        true
    }

    /// Random search by shuffling: for each prisoner the list of all boxes is
    /// shuffled and its first `n / 2` boxes are opened. Stops at the first
    /// prisoner who fails. Only the generator advances.
    pub fn solve_dumb_shuffle(&mut self) -> (r: bool)
        requires
            old(self).wf(),
        ensures
            final(self).wf(),
            final(self)@ == old(self)@,
            old(self)@.len() == 0 ==> r,
            old(self)@.len() == 1 ==> !r,
            old(self)@.len() < 2 ==> *final(self) == *old(self),
    {
        let n = self.cells.len();
        let mut list: Vec<usize> = Vec::new();
        let mut i: usize = 0;
        while i < n
            invariant
                i <= n,
                list@ == identity(i as nat),
            decreases n - i,
        {
            list.push(i);
            i += 1;
            assert(list@ =~= identity(i as nat));
        }
        assert(list@.len() == n);
        let mut prisoner: usize = 0;
        while prisoner < n
            invariant
                self.wf(),
                self@ == old(self)@,
                n == self@.len(),
                prisoner <= n,
                n == 1 ==> prisoner == 0,
                n < 2 ==> *self == *old(self),
                list@.len() == n,
                list@.to_multiset() == identity(n as nat).to_multiset(),
            decreases n - prisoner,
        {
            shuffle(&mut list, &mut self.rng);
            proof {
                list@.to_multiset_ensures();
                identity(n as nat).to_multiset_ensures();
                assert(list@.len() == n);
                identity(n as nat).to_multiset_ensures();
                lemma_shuffled_identity(list@);
            }
            if !self.opens_own_in(prisoner, &list) {
                return false;
            }
            proof {
                if n == 1 {
                    assert(!found_among(self@, prisoner as int, list@, 0));
                }
            }
            prisoner += 1;
        }
        true
    }

    /// One draw of the search without repeats: the drawn value `d` names box
    /// `d % n`. A box already opened is skipped; otherwise it is marked
    /// opened, counted, and the result says whether it holds `prisoner`.
    pub fn open_drawn(&self, prisoner: usize, d: u32, visited: &mut BitSet, opened: &mut usize) -> (found: bool)
        requires
            self.wf(),
            self@.len() > 0,
            bits_of(*old(visited)).len() == self@.len(),
            *old(opened) < self@.len() / 2,
        ensures
            !bits_of(*old(visited))[d as int % self@.len() as int] ==> {
                &&& bits_of(*final(visited)) == bits_of(*old(visited)).update(
                    d as int % self@.len() as int,
                    true,
                )
                &&& *final(opened) == *old(opened) + 1
                &&& found == (self@[d as int % self@.len() as int] == prisoner)
            },
            bits_of(*old(visited))[d as int % self@.len() as int] ==> {
                &&& *final(visited) == *old(visited)
                &&& *final(opened) == *old(opened)
                &&& !found
            },
    {
        let box_idx = d as usize % self.cells.len();
        if get_bit(visited, box_idx) {
            return false;
        }
        set_bit(visited, box_idx, true);
        *opened = *opened + 1;
        assert(self@[box_idx as int] == self.cells@[box_idx as int]@);
        self.cells[box_idx].value == prisoner
    }

    /// Random search without repeats: each prisoner draws boxes at random,
    /// skipping boxes already opened, until `n / 2` boxes are open or the
    /// number turns up. Bit `p` of the result says whether `p` succeeded.
    /// A budget of `u64::MAX` draws per prisoner, far beyond reach, keeps the
    /// search finite. Only the generator advances, and nothing is drawn when
    /// prisoners may open no box.
    pub fn solve_dumb(&mut self) -> (r: BitSet)
        requires
            old(self).wf(),
        ensures
            final(self).wf(),
            final(self)@ == old(self)@,
            bits_of(r).len() == old(self)@.len(),
            old(self)@.len() / 2 == 0 ==> forall|p: int|
                0 <= p < old(self)@.len() ==> !#[trigger] bits_of(r)[p],
            old(self)@.len() / 2 == 0 ==> *final(self) == *old(self),
    {
        let n = self.cells.len();
        let half = n / 2;
        let mut found_their_box = zeros(n);
        let mut prisoner: usize = 0;
        while prisoner < n
            invariant
                self.wf(),
                self@ == old(self)@,
                half == 0 ==> *self == *old(self),
                n == self@.len(),
                half == n / 2,
                prisoner <= n,
                bits_of(found_their_box).len() == n,
                half == 0 ==> forall|p: int| 0 <= p < n ==> !#[trigger] bits_of(found_their_box)[p],
            decreases n - prisoner,
        {
            let mut visited = zeros(n);
            let mut opened: usize = 0;
            let mut found = false;
            let mut budget: u64 = u64::MAX;
            while !found && opened < half && budget > 0
                invariant
                    self.wf(),
                    self@ == old(self)@,
                    half == 0 ==> *self == *old(self),
                    n == self@.len(),
                    half == n / 2,
                    opened <= half,
                    bits_of(visited).len() == n,
                    found ==> half > 0,
                decreases budget,
            {
                budget -= 1;
                let d = next_u32(&mut self.rng);
                found = self.open_drawn(prisoner, d, &mut visited, &mut opened);
            }
            set_bit(&mut found_their_box, prisoner, found);
            prisoner += 1;
        }
        found_their_box
    }
}

impl Boxes {
    /// Whether every prisoner `p` meets their number within the first
    /// `n / 2` boxes of `orders[p]`: the decision that the random searches
    /// make prisoner by prisoner, stopping at the first who misses.
    pub fn all_open_own(&self, orders: &Vec<Vec<usize>>) -> (r: bool)
        requires
            self.wf(),
            orders@.len() == self@.len(),
            forall|p: int, j: int|
                0 <= p < orders@.len() && 0 <= j < orders@[p]@.len() ==> #[trigger] orders@[p]@[j]
                    < self@.len(),
        ensures
            r == forall|p: int|
                0 <= p < self@.len() ==> #[trigger] found_among(
                    self@,
                    p,
                    orders@[p]@,
                    (self@.len() / 2) as int,
                ),
    {
        let n = self.cells.len();
        let mut p: usize = 0;
        while p < n
            invariant
                self.wf(),
                n == self@.len(),
                orders@.len() == n,
                forall|q: int, j: int|
                    0 <= q < orders@.len() && 0 <= j < orders@[q]@.len() ==> #[trigger] orders@[q]@[j]
                        < self@.len(),
                p <= n,
                forall|q: int|
                    0 <= q < p ==> #[trigger] found_among(self@, q, orders@[q]@, (n / 2) as int),
            decreases n - p,
        {
            let order = &orders[p];
            assert(forall|j: int| 0 <= j < order@.len() ==> #[trigger] order@[j] < self@.len()) by {
                assert forall|j: int| 0 <= j < order@.len() implies #[trigger] order@[j] < self@.len() by {
                    assert(orders@[p as int]@[j] < self@.len());
                }
            }
            if !self.opens_own_in(p, order) {
                return false;
            }
            p += 1;
        }
        true
    }
}

} // verus!
