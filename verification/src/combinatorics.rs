//! Lazy enumerators of permutations, combinations (with and without
//! replacement), power sets and cartesian products, each in lexicographic
//! order of the positions of the items it picks, and of integer partitions
//! and set partitions.
use vstd::prelude::*;
use crate::order::{revlex_lt, enumerates, Order, precedes, none_after, lex_lt, Cursor, after, advances, picks, ints, pick, clones, copy_items, copy_positions, cursor_run, law_fixed_length_run, law_shortlex_run, law_run_lists_all, lemma_first_difference, lemma_lex_irreflexive, lemma_lex_at, lemma_filter_sorted, lemma_enumeration_unique};

verus! {

// ---------------------------------------------------------------------------
// Combinations
// ---------------------------------------------------------------------------

/// `c` chooses `r` distinct positions out of `0..n`, in increasing order.
pub open spec fn is_combination(n: int, r: int, c: Seq<int>) -> bool {
    &&& c.len() == r
    &&& forall|j: int| 0 <= j < r ==> 0 <= #[trigger] c[j] < n
    &&& forall|j: int, k: int| 0 <= j < k < r ==> c[j] < c[k]
}

/// In a strictly increasing sequence the values grow at least as fast as
/// the positions.
pub proof fn lemma_increasing_gap(c: Seq<int>, j: int, k: int)
    requires
        0 <= j <= k < c.len(),
        forall|a: int, b: int| 0 <= a < b < c.len() ==> c[a] < c[b],
    ensures
        c[k] - c[j] >= k - j,
    decreases k - j,
{
    if j < k {
        lemma_increasing_gap(c, j, k - 1);
        assert(c[k - 1] < c[k]);
    }
}

/// Positions `0..r` in order form a combination whenever `r <= n`.
pub proof fn lemma_first_combination(n: int, r: int)
    requires
        0 <= r <= n,
    ensures
        is_combination(n, r, Seq::new(r as nat, |j: int| j)),
{
}

/// A combination never holds more positions than there are items.
pub proof fn lemma_combination_size(n: int, r: int, c: Seq<int>)
    requires
        0 <= n,
        is_combination(n, r, c),
    ensures
        r <= n,
{
    if r > 0 {
        lemma_combination_bounds(n, r, c, r - 1);
        assert(c[r - 1] < n);
    }
}

/// Every position of a combination lies between its lowest and highest
/// possible value.
pub proof fn lemma_combination_bounds(n: int, r: int, c: Seq<int>, j: int)
    requires
        is_combination(n, r, c),
        0 <= j < r,
    ensures
        j <= c[j] <= j + n - r,
{
    lemma_increasing_gap(c, 0, j);
    lemma_increasing_gap(c, j, r - 1);
}

pub fn combinations<T: Clone>(items: &[T], r: usize) -> (res: Combinations<T>)
    ensures
        res.wf(),
        clones(items@, res.pool()),
        res.size() == r,
        res.cursor() == (if r <= items@.len() { Cursor::Start } else { Cursor::Exhausted }),
{
    Combinations::new(items, r)
}

pub struct Combinations<T> {
    items: Vec<T>,
    r: usize,
    indices: Vec<usize>,
    started: bool,
    done: bool,
}

impl<T: Clone> Combinations<T> {
    /// The items chosen from.
    pub closed spec fn pool(&self) -> Seq<T> {
        self.items@
    }

    /// How many items each combination holds.
    pub closed spec fn size(&self) -> nat {
        self.r as nat
    }

    /// Which combination of positions was handed out last.
    pub closed spec fn cursor(&self) -> Cursor {
        if self.done {
            Cursor::Exhausted
        } else if !self.started {
            Cursor::Start
        } else {
            Cursor::At(ints(self.indices@))
        }
    }

    /// What a combination of this enumerator is.
    pub open spec fn valid(&self) -> spec_fn(Seq<int>) -> bool {
        |c: Seq<int>| is_combination(self.pool().len() as int, self.size() as int, c)
    }

    /// Law: calling `next` from the start until the enumerator is exhausted
    /// hands out every combination of `size` of the items exactly once, in increasing lexicographic order of the positions.
    pub proof fn law_run(&self, list: Seq<Seq<int>>)
        requires
            forall|i: int|
                0 <= i < list.len() + 1 ==> #[trigger] advances(
                    Order::Lex,
                    self.valid(),
                    cursor_run(list)[i],
                    cursor_run(list)[i + 1],
                ),
        ensures
            enumerates(Order::Lex, self.valid(), list),
    {
        let valid = self.valid();
        assert forall|d: Seq<int>| #[trigger] valid(d) implies d.len() == self.size() by {}
        law_fixed_length_run(valid, self.size(), list);
    }

    pub closed spec fn wf(&self) -> bool {
        &&& !self.done ==> self.r <= self.items.len() && self.indices.len() == self.r
        &&& !self.done && !self.started ==> forall|j: int| 0 <= j < self.r ==> self.indices@[j] == j
        &&& !self.done && self.started ==> is_combination(self.items.len() as int, self.r as int, ints(self.indices@))
    }

    pub fn new(items: &[T], r: usize) -> (res: Self)
        ensures
            res.wf(),
            clones(items@, res.pool()),
            res.size() == r,
            res.cursor() == (if r <= items@.len() { Cursor::Start } else { Cursor::Exhausted }),
    {
        let items = copy_items(items);
        let n = items.len();
        let done = r > n;
        let mut indices: Vec<usize> = Vec::new();
        if !done {
            for j in 0..r
                invariant
                    indices.len() == j,
                    forall|k: int| 0 <= k < j ==> indices@[k] == k,
            {
                indices.push(j);
            }
        }
        Combinations { items, r, indices, started: false, done }
    }

    /// Starts over, now with combinations of `r` items from the same pool.
    fn restart(&mut self, r: usize)
        ensures
            final(self).wf(),
            final(self).pool() == old(self).pool(),
            final(self).size() == r,
            final(self).cursor() == (if r <= old(self).pool().len() { Cursor::Start } else { Cursor::Exhausted }),
    {
        let n = self.items.len();
        let done = r > n;
        let mut indices: Vec<usize> = Vec::new();
        if !done {
            for j in 0..r
                invariant
                    indices.len() == j,
                    forall|k: int| 0 <= k < j ==> indices@[k] == k,
            {
                indices.push(j);
            }
        }
        self.r = r;
        self.indices = indices;
        self.started = false;
        self.done = done;
    }

    pub fn next(&mut self) -> (res: Option<Vec<T>>)
        requires
            old(self).wf(),
        ensures
            final(self).wf(),
            final(self).pool() == old(self).pool(),
            final(self).size() == old(self).size(),
            advances(Order::Lex, old(self).valid(), old(self).cursor(), final(self).cursor()),
            res is Some <==> final(self).cursor() is At,
            final(self).cursor() matches Cursor::At(c) ==> picks(final(self).pool(), c, res.unwrap()@),
    {
        let ghost valid = self.valid();
        let ghost n = self.items.len() as int;
        let ghost r = self.r as int;
        if self.done {
            return None;
        }
        let n_ = self.items.len();
        if !self.started {
            self.started = true;
            let ghost c = ints(self.indices@);
            assert forall|j: int, k: int| 0 <= j < k < r implies c[j] < c[k] by {}
            assert(is_combination(n, r, c));
            assert forall|d: Seq<int>| #[trigger] valid(d) && after(Order::Lex, None, d) implies !lex_lt(d, c) by {
                if lex_lt(d, c) {
                    let k = choose|k: int| #![trigger d[k], c[k]] 0 <= k < d.len() && d[k] < c[k] && d.take(k) == c.take(k);
                    lemma_combination_bounds(n, r, d, k);
                }
            }
            let v = pick(&self.items, &self.indices);
            return Some(v);
        }
        let ghost old_c = ints(self.indices@);
        let mut i = self.r;
        loop
            invariant_except_break
                forall|j: int| i <= j < self.r ==> self.indices@[j] == j + n_ - self.r,
            invariant
                self.wf(),
                !self.done,
                self.started,
                self.items@ == old(self).items@,
                self.r == old(self).r,
                n_ == self.items.len(),
                n == n_,
                r == self.r,
                old_c == ints(self.indices@),
                self.indices@ == old(self).indices@,
                old(self).started && !old(self).done,
                i <= self.r,
            ensures
                self.wf(),
                !self.done,
                self.started,
                self.items@ == old(self).items@,
                self.r == old(self).r,
                old_c == ints(self.indices@),
                i < self.r,
                self.indices@[i as int] != i + n_ - self.r,
                forall|j: int| i < j < self.r ==> self.indices@[j] == j + n_ - self.r,
            decreases i,
        {
            if i == 0 {
                self.done = true;
                assert forall|d: Seq<int>| #[trigger] is_combination(n, r, d) implies !lex_lt(old_c, d) by {
                    if lex_lt(old_c, d) {
                        let k = choose|k: int| #![trigger old_c[k], d[k]] 0 <= k < d.len() && old_c[k] < d[k] && old_c.take(k) == d.take(k);
                        lemma_combination_bounds(n, r, d, k);
                    }
                }
                assert(old_c == ints(old(self).indices@));
                assert forall|d: Seq<int>| #[trigger] old(self).valid()(d) implies !after(Order::Lex, Some(old_c), d) by {
                    assert(is_combination(n, r, d));
                }
                assert(none_after(Order::Lex, old(self).valid(), Some(old_c)));
                return None;
            }
            i -= 1;
            if self.indices[i] != i + (n_ - self.r) {
                break;
            }
        }
        proof {
            lemma_combination_bounds(n, r, old_c, i as int);
        }
        let bumped = self.indices[i] + 1;
        self.indices.set(i, bumped);
        let mut j = i + 1;
        while j < self.r
            invariant
                i < j <= self.r,
                self.r == r,
                n == n_,
                self.items@ == old(self).items@,
                self.started,
                !self.done,
                self.r <= n_,
                self.indices.len() == self.r,
                bumped == old_c[i as int] + 1,
                bumped + (self.r - 1 - i) <= n_ - 1,
                forall|k: int| 0 <= k < i ==> self.indices@[k] == old_c[k],
                forall|k: int| i <= k < j ==> self.indices@[k] == bumped + (k - i),
            decreases self.r - j,
        {
            let prev = self.indices[j - 1];
            self.indices.set(j, prev + 1);
            j += 1;
        }
        let ghost c = ints(self.indices@);
        proof {
            assert(c.take(i as int) == old_c.take(i as int));
            assert(c.len() == r);
            assert(old_c.len() == r);
            assert(old_c[i as int] < c[i as int]);
            assert(0 <= i < old_c.len() && old_c[i as int] < c[i as int] && old_c.take(i as int) == c.take(i as int));
            assert(lex_lt(old_c, c));
            assert forall|a: int, b: int| 0 <= a < b < r implies c[a] < c[b] by {
                if b < i {
                    lemma_increasing_gap(old_c, a, b);
                } else if a < i {
                    lemma_combination_bounds(n, r, old_c, i as int);
                    lemma_increasing_gap(old_c, a, i as int);
                }
            }
            assert(is_combination(n, r, c));
            assert forall|d: Seq<int>| #[trigger] valid(d) && after(Order::Lex, Some(old_c), d) implies !lex_lt(d, c) by {
                let k1 = choose|k: int| #![trigger old_c[k], d[k]] 0 <= k < d.len() && old_c[k] < d[k] && old_c.take(k) == d.take(k);
                if lex_lt(d, c) {
                    let k2 = choose|k: int| #![trigger d[k], c[k]] 0 <= k < d.len() && d[k] < c[k] && d.take(k) == c.take(k);
                    lemma_combination_bounds(n, r, d, k1);
                    if k1 > i {
                        assert(old_c[k1] == k1 + n - r);
                    } else if k1 < i {
                        if k2 < k1 {
                            assert(d.take(k1)[k2] == old_c.take(k1)[k2]);
                        } else if k2 > k1 {
                            assert(d.take(k2)[k1] == c.take(k2)[k1]);
                        }
                    } else {
                        if k2 < i {
                            assert(d.take(k1)[k2] == old_c.take(k1)[k2]);
                        } else if k2 > i {
                            assert(d.take(k2)[k1] == c.take(k2)[k1]);
                            lemma_increasing_gap(d, k1, k2);
                        }
                    }
                }
            }
        }
        assert forall|k: int| 0 <= k < self.indices.len() implies self.indices@[k] < self.items.len() by {
            assert(c[k] < n);
        }
        let v = pick(&self.items, &self.indices);
        Some(v)
    }
}

} // verus!

verus! {

// ---------------------------------------------------------------------------
// Combinations with replacement
// ---------------------------------------------------------------------------

/// `c` chooses `r` positions out of `0..n`, repetitions allowed, in
/// non-decreasing order.
pub open spec fn is_multicombination(n: int, r: int, c: Seq<int>) -> bool {
    &&& c.len() == r
    &&& forall|j: int| 0 <= j < r ==> 0 <= #[trigger] c[j] < n
    &&& forall|j: int, k: int| 0 <= j < k < r ==> c[j] <= c[k]
}

pub fn combinations_with_replacement<T: Clone>(items: &[T], r: usize) -> (res: CombinationsWithReplacement<T>)
    ensures
        res.wf(),
        clones(items@, res.pool()),
        res.size() == r,
        res.cursor() == (if items@.len() > 0 || r == 0 { Cursor::Start } else { Cursor::Exhausted }),
{
    CombinationsWithReplacement::new(items, r)
}

pub struct CombinationsWithReplacement<T> {
    items: Vec<T>,
    r: usize,
    indices: Vec<usize>,
    started: bool,
    done: bool,
}

impl<T: Clone> CombinationsWithReplacement<T> {
    /// The items chosen from.
    pub closed spec fn pool(&self) -> Seq<T> {
        self.items@
    }

    /// How many items each combination holds.
    pub closed spec fn size(&self) -> nat {
        self.r as nat
    }

    /// Which combination of positions was handed out last.
    pub closed spec fn cursor(&self) -> Cursor {
        if self.done {
            Cursor::Exhausted
        } else if !self.started {
            Cursor::Start
        } else {
            Cursor::At(ints(self.indices@))
        }
    }

    /// What a combination of this enumerator is.
    pub open spec fn valid(&self) -> spec_fn(Seq<int>) -> bool {
        |c: Seq<int>| is_multicombination(self.pool().len() as int, self.size() as int, c)
    }

    /// Law: calling `next` from the start until the enumerator is exhausted
    /// hands out every multiset of `size` of the items exactly once, in increasing lexicographic order of the positions.
    pub proof fn law_run(&self, list: Seq<Seq<int>>)
        requires
            forall|i: int|
                0 <= i < list.len() + 1 ==> #[trigger] advances(
                    Order::Lex,
                    self.valid(),
                    cursor_run(list)[i],
                    cursor_run(list)[i + 1],
                ),
        ensures
            enumerates(Order::Lex, self.valid(), list),
    {
        let valid = self.valid();
        assert forall|d: Seq<int>| #[trigger] valid(d) implies d.len() == self.size() by {}
        law_fixed_length_run(valid, self.size(), list);
    }

    pub closed spec fn wf(&self) -> bool {
        &&& !self.done ==> self.indices.len() == self.r && (self.items.len() > 0 || self.r == 0)
        &&& !self.done && !self.started ==> forall|j: int| 0 <= j < self.r ==> self.indices@[j] == 0
        &&& !self.done && self.started ==> is_multicombination(self.items.len() as int, self.r as int, ints(self.indices@))
    }

    pub fn new(items: &[T], r: usize) -> (res: Self)
        ensures
            res.wf(),
            clones(items@, res.pool()),
            res.size() == r,
            res.cursor() == (if items@.len() > 0 || r == 0 { Cursor::Start } else { Cursor::Exhausted }),
    {
        let items = copy_items(items);
        let done = items.len() == 0 && r > 0;
        let mut indices: Vec<usize> = Vec::new();
        for j in 0..r
            invariant
                indices.len() == j,
                forall|k: int| 0 <= k < j ==> indices@[k] == 0,
        {
            indices.push(0);
        }
        CombinationsWithReplacement { items, r, indices, started: false, done }
    }

    pub fn next(&mut self) -> (res: Option<Vec<T>>)
        requires
            old(self).wf(),
        ensures
            final(self).wf(),
            final(self).pool() == old(self).pool(),
            final(self).size() == old(self).size(),
            advances(Order::Lex, old(self).valid(), old(self).cursor(), final(self).cursor()),
            res is Some <==> final(self).cursor() is At,
            final(self).cursor() matches Cursor::At(c) ==> picks(final(self).pool(), c, res.unwrap()@),
    {
        let ghost n = self.items.len() as int;
        let ghost r = self.r as int;
        if self.done {
            return None;
        }
        let n_ = self.items.len();
        if !self.started {
            self.started = true;
            let ghost c = ints(self.indices@);
            assert(is_multicombination(n, r, c));
            assert forall|d: Seq<int>| #[trigger] old(self).valid()(d) && after(Order::Lex, None, d) implies !lex_lt(d, c) by {
                if lex_lt(d, c) {
                    let k = choose|k: int| #![trigger d[k], c[k]] 0 <= k < d.len() && d[k] < c[k] && d.take(k) == c.take(k);
                    assert(is_multicombination(n, r, d));
                }
            }
            assert forall|k: int| 0 <= k < self.indices.len() implies self.indices@[k] < self.items.len() by {
                assert(c[k] < n);
            }
            let v = pick(&self.items, &self.indices);
            return Some(v);
        }
        let ghost old_c = ints(self.indices@);
        let mut i = self.r;
        loop
            invariant_except_break
                forall|j: int| i <= j < self.r ==> self.indices@[j] == n_ - 1,
            invariant
                self.wf(),
                !self.done,
                self.started,
                self.items@ == old(self).items@,
                self.r == old(self).r,
                n_ == self.items.len(),
                n == n_,
                r == self.r,
                old_c == ints(self.indices@),
                self.indices@ == old(self).indices@,
                old(self).started && !old(self).done,
                i <= self.r,
            ensures
                self.wf(),
                !self.done,
                self.started,
                self.items@ == old(self).items@,
                self.r == old(self).r,
                old_c == ints(self.indices@),
                i < self.r,
                self.indices@[i as int] != n_ - 1,
                forall|j: int| i < j < self.r ==> self.indices@[j] == n_ - 1,
            decreases i,
        {
            if i == 0 {
                self.done = true;
                assert forall|d: Seq<int>| #[trigger] old(self).valid()(d) implies !after(Order::Lex, Some(old_c), d) by {
                    assert(is_multicombination(n, r, d));
                    if lex_lt(old_c, d) {
                        let k = choose|k: int| #![trigger old_c[k], d[k]] 0 <= k < d.len() && old_c[k] < d[k] && old_c.take(k) == d.take(k);
                    }
                }
                assert(none_after(Order::Lex, old(self).valid(), Some(old_c)));
                return None;
            }
            i -= 1;
            if self.indices[i] != n_ - 1 {
                break;
            }
        }
        proof {
            assert(old_c[i as int] < n);
        }
        let bumped = self.indices[i] + 1;
        self.indices.set(i, bumped);
        let mut j = i + 1;
        while j < self.r
            invariant
                i < j <= self.r,
                self.r == r,
                n == n_,
                self.items@ == old(self).items@,
                self.started,
                !self.done,
                self.indices.len() == self.r,
                bumped == old_c[i as int] + 1,
                bumped < n_,
                forall|k: int| 0 <= k < i ==> self.indices@[k] == old_c[k],
                forall|k: int| i <= k < j ==> self.indices@[k] == bumped,
            decreases self.r - j,
        {
            self.indices.set(j, bumped);
            j += 1;
        }
        let ghost c = ints(self.indices@);
        proof {
            assert(c.take(i as int) == old_c.take(i as int));
            assert(c.len() == r);
            assert(old_c[i as int] < c[i as int]);
            assert(lex_lt(old_c, c));
            assert forall|a: int, b: int| 0 <= a < b < r implies c[a] <= c[b] by {
                if b < i {
                    assert(old_c[a] <= old_c[b]);
                } else if a < i {
                    assert(old_c[a] <= old_c[i as int]);
                }
            }
            assert(is_multicombination(n, r, c));
            assert forall|d: Seq<int>| #[trigger] old(self).valid()(d) && after(Order::Lex, Some(old_c), d) implies !lex_lt(d, c) by {
                assert(is_multicombination(n, r, d));
                let k1 = choose|k: int| #![trigger old_c[k], d[k]] 0 <= k < d.len() && old_c[k] < d[k] && old_c.take(k) == d.take(k);
                if lex_lt(d, c) {
                    let k2 = choose|k: int| #![trigger d[k], c[k]] 0 <= k < d.len() && d[k] < c[k] && d.take(k) == c.take(k);
                    if k1 > i {
                        assert(old_c[k1] == n - 1);
                    } else if k1 < i {
                        if k2 < k1 {
                            assert(d.take(k1)[k2] == old_c.take(k1)[k2]);
                        } else if k2 > k1 {
                            assert(d.take(k2)[k1] == c.take(k2)[k1]);
                        }
                    } else {
                        if k2 < i {
                            assert(d.take(k1)[k2] == old_c.take(k1)[k2]);
                        } else if k2 > i {
                            assert(d.take(k2)[k1] == c.take(k2)[k1]);
                            assert(d[k1] <= d[k2]);
                        }
                    }
                }
            }
        }
        assert forall|k: int| 0 <= k < self.indices.len() implies self.indices@[k] < self.items.len() by {
            assert(c[k] < n);
        }
        let v = pick(&self.items, &self.indices);
        Some(v)
    }
}

} // verus!

verus! {

// ---------------------------------------------------------------------------
// Cartesian product
// ---------------------------------------------------------------------------

/// `times` copies of `s`, one after the other.
pub open spec fn repeated<A>(s: Seq<A>, times: nat) -> Seq<A>
    decreases times,
{
    if times == 0 {
        Seq::empty()
    } else {
        repeated(s, (times - 1) as nat) + s
    }
}

/// `c` picks one position in each pool: `c[j]` is a position of `pools[j]`.
pub open spec fn is_product_tuple(lens: Seq<int>, c: Seq<int>) -> bool {
    &&& c.len() == lens.len()
    &&& forall|j: int| 0 <= j < c.len() ==> 0 <= #[trigger] c[j] < lens[j]
}

/// `v` holds, position by position, a clone of `pools[j][c[j]]`.
pub open spec fn picks_across<T: Clone>(pools: Seq<Seq<T>>, c: Seq<int>, v: Seq<T>) -> bool {
    &&& v.len() == c.len()
    &&& forall|j: int| 0 <= j < c.len() ==> cloned(pools[j][c[j]], #[trigger] v[j])
}

/// Each inner sequence of `b` clones the inner sequence of `a` at its position.
pub open spec fn clones_nested<T: Clone>(a: Seq<Seq<T>>, b: Seq<Seq<T>>) -> bool {
    &&& b.len() == a.len()
    &&& forall|j: int| 0 <= j < a.len() ==> clones(a[j], #[trigger] b[j])
}

/// The contents of each vector.
pub open spec fn views<T>(s: Seq<Vec<T>>) -> Seq<Seq<T>> {
    s.map_values(|v: Vec<T>| v@)
}

pub fn cartesian_product<T: Clone>(sequences: Vec<Vec<T>>, repeat: usize) -> (res: CartesianProduct<T>)
    ensures
        res.wf(),
        clones_nested(repeated(views(sequences@), repeat as nat), res.pools()),
        res.cursor() == (if forall|j: int| 0 <= j < res.pools().len() ==> #[trigger] res.pools()[j].len() > 0 {
            Cursor::Start
        } else {
            Cursor::Exhausted
        }),
{
    CartesianProduct::new(sequences, repeat)
}

pub struct CartesianProduct<T> {
    pools: Vec<Vec<T>>,
    indices: Vec<usize>,
    started: bool,
    done: bool,
}

/// `repeated(s, times)` is `times` back-to-back copies of `s`: its length
/// is `times * s.len()` and entry `k` is `s[k % s.len()]`.
proof fn lemma_repeated_entries<A>(s: Seq<A>, times: nat)
    ensures
        repeated(s, times).len() == times * s.len(),
        forall|k: int| 0 <= k < repeated(s, times).len() ==> #[trigger] repeated(s, times)[k] == s[k % (s.len() as int)],
    decreases times,
{
    if times == 0 {
        assert(times * s.len() == 0) by (nonlinear_arith)
            requires
                times == 0,
        ;
    } else {
        let t = (times - 1) as nat;
        lemma_repeated_entries(s, t);
        let n = s.len() as int;
        let prev = repeated(s, t);
        assert(times * s.len() == t * s.len() + s.len()) by (nonlinear_arith)
            requires
                t == times - 1,
        ;
        assert(repeated(s, times).len() == prev.len() + s.len());
        assert forall|k: int| 0 <= k < repeated(s, times).len() implies #[trigger] repeated(s, times)[k] == s[k % n] by {
            if k >= prev.len() {
                let i = k - prev.len();
                assert(prev.len() == t * n);
                assert(0 <= i < n);
                assert(k % n == i) by (nonlinear_arith)
                    requires
                        k == t * n + i,
                        0 <= i < n,
                        t >= 0,
                ;
            }
        }
    }
}

/// Law: the pools of a product of `sequences` repeated `repeat` times are
/// `repeat` back-to-back copies of the sequences: there are
/// `repeat * sequences.len()` of them, and pool `k` holds clones of
/// `sequences[k % sequences.len()]`.
pub proof fn law_product_pools<T: Clone>(sequences: Seq<Vec<T>>, repeat: nat, res: CartesianProduct<T>)
    requires
        clones_nested(repeated(views(sequences), repeat), res.pools()),
    ensures
        res.pools().len() == repeat * sequences.len(),
        forall|k: int| 0 <= k < res.pools().len() ==> clones(
            sequences[k % (sequences.len() as int)]@,
            #[trigger] res.pools()[k],
        ),
{
    lemma_repeated_entries(views(sequences), repeat);
    let pools = repeated(views(sequences), repeat);
    assert forall|k: int| 0 <= k < res.pools().len() implies clones(
        sequences[k % (sequences.len() as int)]@,
        #[trigger] res.pools()[k],
    ) by {
        assert(clones(pools[k], res.pools()[k]));
        assert(pools[k] == views(sequences)[k % (sequences.len() as int)]);
        if sequences.len() > 0 {
            assert(0 <= k % (sequences.len() as int) < sequences.len()) by (nonlinear_arith)
                requires
                    sequences.len() > 0,
            ;
        }
    }
}

/// Repeating a list of pools `k` times and taking the result once gives
/// the same pools; no pools, or no repetition, gives none.
pub proof fn lemma_repeated_once<A>(s: Seq<A>, k: nat)
    ensures
        repeated(repeated(s, k), 1) == repeated(s, k),
        repeated(s, 0) == Seq::<A>::empty(),
        repeated(Seq::<A>::empty(), k) == Seq::<A>::empty(),
    decreases k,
{
    assert(repeated(repeated(s, k), 0) == Seq::<A>::empty());
    assert(Seq::<A>::empty() + repeated(s, k) =~= repeated(s, k));
    if k > 0 {
        lemma_repeated_once(s, (k - 1) as nat);
        assert(repeated(Seq::<A>::empty(), (k - 1) as nat) + Seq::<A>::empty() =~= Seq::<A>::empty());
    }
}

/// Law: the product of `sequences` repeated `repeat` times hands out the same
/// tuples, in the same order, as the product of the concatenation of
/// `repeat` copies of `sequences` taken once: two enumerators whose pools
/// clone those two lists of pools list the same tuples of positions (and so
/// the same items, up to `Clone`). With no pools (`repeat == 0` or no
/// sequences) the only tuple is the empty one.
pub proof fn law_repeat_is_concatenation<T: Clone>(
    sequences: Seq<Seq<T>>,
    repeat: nat,
    a: CartesianProduct<T>,
    b: CartesianProduct<T>,
    la: Seq<Seq<int>>,
    lb: Seq<Seq<int>>,
)
    requires
        clones_nested(repeated(sequences, repeat), a.pools()),
        clones_nested(repeated(repeated(sequences, repeat), 1), b.pools()),
        forall|i: int|
            0 <= i < la.len() + 1 ==> #[trigger] advances(Order::Lex, a.valid(), cursor_run(la)[i], cursor_run(la)[i + 1]),
        forall|i: int|
            0 <= i < lb.len() + 1 ==> #[trigger] advances(Order::Lex, b.valid(), cursor_run(lb)[i], cursor_run(lb)[i + 1]),
    ensures
        la == lb,
        repeat == 0 || sequences.len() == 0 ==> la == seq![Seq::<int>::empty()],
{
    lemma_repeated_once(sequences, repeat);
    let pools = repeated(sequences, repeat);
    assert(a.lens() =~= b.lens()) by {
        assert forall|j: int| 0 <= j < a.lens().len() implies a.lens()[j] == b.lens()[j] by {
            assert(clones(pools[j], a.pools()[j]));
            assert(clones(pools[j], b.pools()[j]));
        }
    }
    assert(a.valid() =~= b.valid());
    a.law_run(la);
    b.law_run(lb);
    lemma_enumeration_unique(Order::Lex, a.valid(), la, lb);
    if repeat == 0 || sequences.len() == 0 {
        let only = seq![Seq::<int>::empty()];
        let valid = a.valid();
        if sequences.len() == 0 {
            assert(sequences =~= Seq::<Seq<T>>::empty());
        }
        assert(pools.len() == 0);
        assert(a.lens().len() == 0);
        assert forall|c: Seq<int>| #[trigger] valid(c) implies only.contains(c) by {
            assert(c =~= Seq::<int>::empty());
            assert(only[0] == c);
        }
        assert(valid(Seq::<int>::empty()));
        assert(enumerates(Order::Lex, valid, only));
        lemma_enumeration_unique(Order::Lex, valid, la, only);
    }
}

impl<T: Clone> CartesianProduct<T> {
    /// The pools, one per position of a tuple.
    pub closed spec fn pools(&self) -> Seq<Seq<T>> {
        views(self.pools@)
    }

    /// Which tuple of positions was handed out last.
    pub closed spec fn cursor(&self) -> Cursor {
        if self.done {
            Cursor::Exhausted
        } else if !self.started {
            Cursor::Start
        } else {
            Cursor::At(ints(self.indices@))
        }
    }

    /// The length of each pool.
    pub open spec fn lens(&self) -> Seq<int> {
        self.pools().map_values(|p: Seq<T>| p.len() as int)
    }

    /// What a tuple of this enumerator is.
    pub open spec fn valid(&self) -> spec_fn(Seq<int>) -> bool {
        |c: Seq<int>| is_product_tuple(self.lens(), c)
    }

    /// Law: calling `next` from the start until the enumerator is exhausted
    /// hands out every tuple of the product exactly once, in increasing lexicographic order of the positions.
    pub proof fn law_run(&self, list: Seq<Seq<int>>)
        requires
            forall|i: int|
                0 <= i < list.len() + 1 ==> #[trigger] advances(
                    Order::Lex,
                    self.valid(),
                    cursor_run(list)[i],
                    cursor_run(list)[i + 1],
                ),
        ensures
            enumerates(Order::Lex, self.valid(), list),
    {
        let valid = self.valid();
        assert forall|d: Seq<int>| #[trigger] valid(d) implies d.len() == self.lens().len() by {}
        law_fixed_length_run(valid, self.lens().len(), list);
    }

    pub closed spec fn wf(&self) -> bool {
        &&& !self.done ==> self.indices.len() == self.pools.len()
        &&& !self.done ==> forall|j: int| 0 <= j < self.pools.len() ==> (#[trigger] self.pools@[j]).len() > 0
        &&& !self.done && !self.started ==> forall|j: int| 0 <= j < self.indices.len() ==> self.indices@[j] == 0
        &&& !self.done && self.started ==> forall|j: int| 0 <= j < self.indices.len() ==> #[trigger] self.indices@[j] < self.pools@[j].len()
    }

    pub fn new(sequences: Vec<Vec<T>>, repeat: usize) -> (res: Self)
        ensures
            res.wf(),
            clones_nested(repeated(views(sequences@), repeat as nat), res.pools()),
            res.cursor() == (if forall|j: int| 0 <= j < res.pools().len() ==> #[trigger] res.pools()[j].len() > 0 {
                Cursor::Start
            } else {
                Cursor::Exhausted
            }),
    {
        let ghost s = views(sequences@);
        let mut pools: Vec<Vec<T>> = Vec::new();
        for t in 0..repeat
            invariant
                s == views(sequences@),
                clones_nested(repeated(s, t as nat), views(pools@)),
        {
            let ghost before = views(pools@);
            for j in 0..sequences.len()
                invariant
                    s == views(sequences@),
                    clones_nested(repeated(s, t as nat) + s.take(j as int), views(pools@)),
            {
                let ghost mid = views(pools@);
                let inner = copy_items(sequences[j].as_slice());
                pools.push(inner);
                proof {
                    assert(repeated(s, t as nat) + s.take(j + 1) == (repeated(s, t as nat) + s.take(j as int)).push(s[j as int]));
                    assert(views(pools@) == mid.push(inner@));
                }
            }
            proof {
                assert(s.take(sequences.len() as int) == s);
                assert(repeated(s, (t + 1) as nat) == repeated(s, t as nat) + s);
            }
        }
        let mut any_empty = false;
        for j in 0..pools.len()
            invariant
                any_empty <==> exists|k: int| 0 <= k < j && (#[trigger] pools@[k]).len() == 0,
        {
            if pools[j].len() == 0 {
                any_empty = true;
            }
        }
        let done = any_empty && pools.len() > 0;
        proof {
            if !any_empty {
                assert forall|j: int| 0 <= j < pools.len() implies (#[trigger] pools@[j]).len() > 0 by {
                    if pools@[j].len() == 0 {
                        assert(exists|k: int| 0 <= k < pools.len() && (#[trigger] pools@[k]).len() == 0);
                    }
                }
            }
        }
        let mut indices: Vec<usize> = Vec::new();
        for j in 0..pools.len()
            invariant
                indices.len() == j,
                forall|k: int| 0 <= k < j ==> indices@[k] == 0,
        {
            indices.push(0);
        }
        let res = CartesianProduct { pools, indices, started: false, done };
        assert(res.pools().len() == res.pools@.len());
        assert forall|j: int| 0 <= j < res.pools().len() implies #[trigger] res.pools()[j].len() == res.pools@[j].len() by {}
        proof {
            if any_empty {
                let k = choose|k: int| 0 <= k < res.pools@.len() && (#[trigger] res.pools@[k]).len() == 0;
                assert(res.pools()[k].len() == 0);
            }
        }
        res
    }

    pub fn next(&mut self) -> (res: Option<Vec<T>>)
        requires
            old(self).wf(),
        ensures
            final(self).wf(),
            final(self).pools() == old(self).pools(),
            advances(Order::Lex, old(self).valid(), old(self).cursor(), final(self).cursor()),
            res is Some <==> final(self).cursor() is At,
            final(self).cursor() matches Cursor::At(c) ==> picks_across(final(self).pools(), c, res.unwrap()@),
    {
        let ghost lens = self.lens();
        let ghost m = self.pools.len() as int;
        proof {
            assert(lens.len() == m);
            assert forall|j: int| 0 <= j < m implies #[trigger] lens[j] == self.pools@[j].len() by {}
        }
        if self.done {
            return None;
        }
        if !self.started {
            self.started = true;
            let ghost c = ints(self.indices@);
            assert(is_product_tuple(lens, c));
            assert forall|d: Seq<int>| #[trigger] old(self).valid()(d) && after(Order::Lex, None, d) implies !lex_lt(d, c) by {
                if lex_lt(d, c) {
                    let k = choose|k: int| #![trigger d[k], c[k]] 0 <= k < d.len() && d[k] < c[k] && d.take(k) == c.take(k);
                    assert(is_product_tuple(lens, d));
                }
            }
            let v = self.snapshot();
            return Some(v);
        }
        let ghost old_c = ints(self.indices@);
        let mut i = self.pools.len();
        loop
            invariant_except_break
                forall|j: int| i <= j < m ==> self.indices@[j] == 0,
                forall|j: int| i <= j < m ==> old_c[j] == lens[j] - 1,
            invariant
                !self.done,
                self.started,
                self.pools@ == old(self).pools@,
                m == self.pools.len(),
                lens.len() == m,
                forall|j: int| 0 <= j < m ==> #[trigger] lens[j] == self.pools@[j].len(),
                forall|j: int| 0 <= j < m ==> (#[trigger] self.pools@[j]).len() > 0,
                old_c == ints(old(self).indices@),
                is_product_tuple(lens, old_c),
                self.indices.len() == m,
                old(self).started && !old(self).done,
                i <= m,
                forall|j: int| 0 <= j < i ==> self.indices@[j] == old_c[j],
            ensures
                !self.done,
                self.started,
                self.pools@ == old(self).pools@,
                self.indices.len() == m,
                i < m,
                forall|j: int| 0 <= j < i ==> self.indices@[j] == old_c[j],
                self.indices@[i as int] == old_c[i as int] + 1,
                old_c[i as int] + 1 < lens[i as int],
                forall|j: int| i < j < m ==> self.indices@[j] == 0,
                forall|j: int| i < j < m ==> old_c[j] == lens[j] - 1,
            decreases i,
        {
            if i == 0 {
                self.done = true;
                assert forall|d: Seq<int>| #[trigger] old(self).valid()(d) implies !after(Order::Lex, Some(old_c), d) by {
                    assert(is_product_tuple(lens, d));
                    if lex_lt(old_c, d) {
                        let k = choose|k: int| #![trigger old_c[k], d[k]] 0 <= k < d.len() && old_c[k] < d[k] && old_c.take(k) == d.take(k);
                    }
                }
                assert(none_after(Order::Lex, old(self).valid(), Some(old_c)));
                return None;
            }
            i -= 1;
            proof {
                assert(self.indices@[i as int] == old_c[i as int]);
                assert(old_c[i as int] < lens[i as int]);
            }
            let ghost before = self.indices@;
            let bumped = self.indices[i] + 1;
            self.indices.set(i, bumped);
            proof {
                assert forall|j: int| i < j < m implies self.indices@[j] == 0 && old_c[j] == lens[j] - 1 by {
                    assert(self.indices@[j] == before[j]);
                }
            }
            if bumped < self.pools[i].len() {
                break;
            }
            self.indices.set(i, 0);
            proof {
                assert forall|j: int| i <= j < m implies self.indices@[j] == 0 && old_c[j] == lens[j] - 1 by {
                    if j > i {
                        assert(self.indices@[j] == before[j]);
                    }
                }
            }
        }
        let ghost c = ints(self.indices@);
        proof {
            assert(c.len() == m);
            assert(c.take(i as int) == old_c.take(i as int));
            assert(old_c[i as int] < c[i as int]);
            assert(lex_lt(old_c, c));
            assert forall|j: int| 0 <= j < c.len() implies 0 <= #[trigger] c[j] < lens[j] by {
                if j > i {
                    assert(c[j] == 0);
                    assert(self.pools@[j].len() > 0);
                } else if j < i {
                    assert(c[j] == old_c[j]);
                }
            }
            assert(is_product_tuple(lens, c));
            assert forall|d: Seq<int>| #[trigger] old(self).valid()(d) && after(Order::Lex, Some(old_c), d) implies !lex_lt(d, c) by {
                assert(is_product_tuple(lens, d));
                let k1 = choose|k: int| #![trigger old_c[k], d[k]] 0 <= k < d.len() && old_c[k] < d[k] && old_c.take(k) == d.take(k);
                if lex_lt(d, c) {
                    let k2 = choose|k: int| #![trigger d[k], c[k]] 0 <= k < d.len() && d[k] < c[k] && d.take(k) == c.take(k);
                    if k1 > i {
                        assert(old_c[k1] == lens[k1] - 1);
                        assert(d[k1] < lens[k1]);
                    } else if k1 < i {
                        if k2 < k1 {
                            assert(d.take(k1)[k2] == old_c.take(k1)[k2]);
                        } else if k2 > k1 {
                            assert(d.take(k2)[k1] == c.take(k2)[k1]);
                        }
                    } else {
                        if k2 < i {
                            assert(d.take(k1)[k2] == old_c.take(k1)[k2]);
                        } else if k2 > i {
                            assert(d.take(k2)[k1] == c.take(k2)[k1]);
                            assert(c[k2] == 0);
                            assert(d[k2] >= 0);
                        }
                    }
                }
            }
        }
        assert forall|j: int| 0 <= j < self.indices.len() implies #[trigger] self.indices@[j] < self.pools@[j].len() by {
            assert(c[j] < lens[j]);
        }
        let v = self.snapshot();
        Some(v)
    }

    fn snapshot(&self) -> (v: Vec<T>)
        requires
            self.indices.len() == self.pools.len(),
            forall|j: int| 0 <= j < self.indices.len() ==> #[trigger] self.indices@[j] < self.pools@[j].len(),
        ensures
            picks_across(self.pools(), ints(self.indices@), v@),
    {
        let mut v: Vec<T> = Vec::new();
        for j in 0..self.indices.len()
            invariant
                self.indices.len() == self.pools.len(),
                forall|k: int| 0 <= k < self.indices.len() ==> #[trigger] self.indices@[k] < self.pools@[k].len(),
                v.len() == j,
                forall|k: int| 0 <= k < j ==> cloned(self.pools()[k][ints(self.indices@)[k]], #[trigger] v@[k]),
        {
            v.push(self.pools[j][self.indices[j]].clone());
        }
        v
    }
}

} // verus!

verus! {

// ---------------------------------------------------------------------------
// Power set
// ---------------------------------------------------------------------------

/// `c` chooses some of the positions `0..n`, in increasing order.
pub open spec fn is_subset(n: int, c: Seq<int>) -> bool {
    is_combination(n, c.len() as int, c)
}

pub fn power_set<T: Clone>(items: &[T]) -> (res: PowerSet<T>)
    ensures
        res.wf(),
        clones(items@, res.pool()),
        res.cursor() == Cursor::Start,
{
    PowerSet::new(items)
}

pub struct PowerSet<T> {
    r: usize,
    current: Combinations<T>,
}

impl<T: Clone> PowerSet<T> {
    /// The items chosen from.
    pub closed spec fn pool(&self) -> Seq<T> {
        self.current.pool()
    }

    /// Which subset, as positions, was handed out last.
    pub closed spec fn cursor(&self) -> Cursor {
        self.current.cursor()
    }

    /// What a subset of this enumerator is.
    pub open spec fn valid(&self) -> spec_fn(Seq<int>) -> bool {
        |c: Seq<int>| is_subset(self.pool().len() as int, c)
    }

    /// Law: calling `next` from the start until the enumerator is exhausted
    /// hands out every subset of the items exactly once, shortest first, and in lexicographic order among those of one size.
    pub proof fn law_run(&self, list: Seq<Seq<int>>)
        requires
            forall|i: int|
                0 <= i < list.len() + 1 ==> #[trigger] advances(
                    Order::ShortLex,
                    self.valid(),
                    cursor_run(list)[i],
                    cursor_run(list)[i + 1],
                ),
        ensures
            enumerates(Order::ShortLex, self.valid(), list),
    {
        law_shortlex_run(self.valid(), list);
    }

    pub closed spec fn wf(&self) -> bool {
        &&& self.current.wf()
        &&& self.current.size() == self.r
        &&& self.r <= self.current.pool().len()
        &&& self.current.cursor() is Start ==> self.r == 0
        &&& self.current.cursor() is Exhausted ==> self.r == self.current.pool().len()
    }

    pub fn new(items: &[T]) -> (res: Self)
        ensures
            res.wf(),
            clones(items@, res.pool()),
            res.cursor() == Cursor::Start,
    {
        let current = Combinations::new(items, 0);
        PowerSet { r: 0, current }
    }

    pub fn next(&mut self) -> (res: Option<Vec<T>>)
        requires
            old(self).wf(),
        ensures
            final(self).wf(),
            final(self).pool() == old(self).pool(),
            advances(Order::ShortLex, old(self).valid(), old(self).cursor(), final(self).cursor()),
            res is Some <==> final(self).cursor() is At,
            final(self).cursor() matches Cursor::At(c) ==> picks(final(self).pool(), c, res.unwrap()@),
    {
        let ghost n = self.pool().len() as int;
        let ghost svalid = old(self).valid();
        let ghost before = old(self).cursor();
        let ghost cvalid = self.current.valid();
        proof {
            lemma_first_combination(n, self.r as int);
            assert(cvalid(Seq::new(self.r as nat, |j: int| j)));
        }
        let first = self.current.next();
        if first.is_some() {
            proof {
                let c = self.cursor()->At_0;
                let prev = match before { Cursor::At(p) => Option::Some(p), _ => Option::None };
                assert forall|d: Seq<int>| #[trigger] svalid(d) && after(Order::ShortLex, prev, d) implies !precedes(Order::ShortLex, d, c) by {
                    if d.len() == self.r {
                        assert(cvalid(d));
                    }
                }
            }
            return first;
        }
        let ghost last = before->At_0;
        proof {
            if before is At {
                assert forall|d: Seq<int>| #[trigger] svalid(d) && d.len() <= self.r implies !after(Order::ShortLex, Some(last), d) by {
                    if d.len() == self.r {
                        assert(cvalid(d));
                    }
                }
            }
        }
        if self.r == self.current.items.len() {
            proof {
                if before is At {
                    assert forall|d: Seq<int>| #[trigger] svalid(d) implies !after(Order::ShortLex, Some(last), d) by {
                        lemma_combination_size(n, d.len() as int, d);
                    }
                }
            }
            return None;
        }
        self.r = self.r + 1;
        self.current.restart(self.r);
        let ghost cvalid2 = self.current.valid();
        let res = self.current.next();
        proof {
            lemma_first_combination(n, self.r as int);
            assert(cvalid2(Seq::new(self.r as nat, |j: int| j)));
            assert(self.cursor() is At);
            let c = self.cursor()->At_0;
            assert forall|d: Seq<int>| #[trigger] svalid(d) && after(Order::ShortLex, Some(last), d) implies !precedes(Order::ShortLex, d, c) by {
                if d.len() == self.r {
                    assert(cvalid2(d));
                }
            }
        }
        res
    }
}

} // verus!

verus! {

// ---------------------------------------------------------------------------
// Permutations
// ---------------------------------------------------------------------------

/// `c` arranges `r` distinct positions out of `0..n`.
pub open spec fn is_arrangement(n: int, r: int, c: Seq<int>) -> bool {
    &&& c.len() == r
    &&& forall|j: int| 0 <= j < r ==> 0 <= #[trigger] c[j] < n
    &&& forall|j: int, k: int| 0 <= j < k < r ==> c[j] != c[k]
}

/// `v` is one of `c[0..m]`.
pub open spec fn occurs(c: Seq<int>, m: int, v: int) -> bool {
    exists|j: int| 0 <= j < m && #[trigger] c[j] == v
}

/// No position past `c[j]` is free at `j`: every larger position is taken
/// before `j`.
pub open spec fn cannot_grow(n: int, c: Seq<int>, j: int) -> bool {
    forall|v: int| c[j] < v < n ==> #[trigger] occurs(c, j, v)
}

/// A sequence that takes every position of `0..n` is at least `n` long.
pub proof fn lemma_cover(s: Seq<int>, n: int)
    requires
        0 <= n,
        forall|w: int| 0 <= w < n ==> #[trigger] occurs(s, s.len() as int, w),
    ensures
        n <= s.len(),
{
    vstd::set_lib::lemma_int_range(0, n);
    assert forall|w: int| #[trigger] vstd::set_lib::set_int_range(0, n).contains(w) implies s.to_set().contains(w) by {
        assert(occurs(s, s.len() as int, w));
        let j = choose|j: int| 0 <= j < s.len() && #[trigger] s[j] == w;
        assert(s.contains(w));
    }
    vstd::set_lib::lemma_len_subset(vstd::set_lib::set_int_range(0, n), s.to_set());
    s.lemma_cardinality_of_set();
}

/// Distinct positions out of `0..n` are at most `n`.
pub proof fn lemma_arrangement_size(n: int, r: int, c: Seq<int>)
    requires
        0 <= n,
        is_arrangement(n, r, c),
    ensures
        r <= n,
{
    assert(c.no_duplicates());
    c.unique_seq_to_set();
    vstd::set_lib::lemma_int_range(0, n);
    assert forall|w: int| #[trigger] c.to_set().contains(w) implies vstd::set_lib::set_int_range(0, n).contains(w) by {
        let j = choose|j: int| 0 <= j < c.len() && c[j] == w;
    }
    vstd::set_lib::lemma_len_subset(c.to_set(), vstd::set_lib::set_int_range(0, n));
}

/// The positions increase strictly.
pub open spec fn increasing(c: Seq<int>) -> bool {
    forall|j: int, k: int| 0 <= j < k < c.len() ==> c[j] < c[k]
}

/// Law: the combinations of `r` of `n` positions, in the order they are
/// handed out, are the arrangements of `r` of the `n` positions whose
/// positions increase, in the order the arrangements are handed out.
pub proof fn law_combinations_are_increasing_arrangements(
    n: int,
    r: int,
    arrangements: Seq<Seq<int>>,
    combinations: Seq<Seq<int>>,
)
    requires
        enumerates(Order::Lex, |c: Seq<int>| is_arrangement(n, r, c), arrangements),
        enumerates(Order::Lex, |c: Seq<int>| is_combination(n, r, c), combinations),
    ensures
        combinations == arrangements.filter(|c: Seq<int>| increasing(c)),
{
    let keep = |c: Seq<int>| increasing(c);
    let comb = |c: Seq<int>| is_combination(n, r, c);
    let arr = |c: Seq<int>| is_arrangement(n, r, c);
    let f = arrangements.filter(keep);
    lemma_filter_sorted(Order::Lex, arrangements, keep);
    assert forall|t: int| 0 <= t < f.len() implies #[trigger] comb(f[t]) by {
        assert(keep(f[t]));
        let u = choose|u: int| 0 <= u < arrangements.len() && arrangements[u] == f[t];
        assert(arr(arrangements[u]));
    }
    assert forall|c: Seq<int>| #[trigger] comb(c) implies f.contains(c) by {
        assert forall|j: int, k: int| 0 <= j < k < r implies c[j] != c[k] by {
            assert(c[j] < c[k]);
        }
        assert(arr(c));
        assert(arrangements.contains(c));
        let u = choose|u: int| 0 <= u < arrangements.len() && arrangements[u] == c;
        assert(keep(arrangements[u]));
    }
    assert forall|t: int, u: int| 0 <= t < u < f.len() implies precedes(Order::Lex, #[trigger] f[t], #[trigger] f[u]) by {}
    assert(enumerates(Order::Lex, comb, f));
    lemma_enumeration_unique(Order::Lex, comb, combinations, f);
}

pub fn permutations<T: Clone>(items: &[T], r: Option<usize>) -> (res: Permutations<T>)
    ensures
        res.wf(),
        clones(items@, res.pool()),
        res.size() == (match r { Option::Some(k) => k as nat, Option::None => items@.len() }),
        res.cursor() == (if res.size() <= items@.len() { Cursor::Start } else { Cursor::Exhausted }),
{
    Permutations::new(items, r)
}

pub struct Permutations<T> {
    items: Vec<T>,
    r: usize,
    n: usize,
    indices: Vec<usize>,
    first: bool,
    done: bool,
}

impl<T: Clone> Permutations<T> {
    /// The items arranged.
    pub closed spec fn pool(&self) -> Seq<T> {
        self.items@
    }

    /// How many items each arrangement holds.
    pub closed spec fn size(&self) -> nat {
        self.r as nat
    }

    /// Which arrangement of positions was handed out last.
    pub closed spec fn cursor(&self) -> Cursor {
        if self.done {
            Cursor::Exhausted
        } else if self.first {
            Cursor::Start
        } else {
            Cursor::At(ints(self.indices@))
        }
    }

    /// What an arrangement of this enumerator is.
    pub open spec fn valid(&self) -> spec_fn(Seq<int>) -> bool {
        |c: Seq<int>| is_arrangement(self.pool().len() as int, self.size() as int, c)
    }

    /// Law: calling `next` from the start until the enumerator is exhausted
    /// hands out every arrangement of `size` of the items exactly once, in increasing lexicographic order of the positions.
    pub proof fn law_run(&self, list: Seq<Seq<int>>)
        requires
            forall|i: int|
                0 <= i < list.len() + 1 ==> #[trigger] advances(
                    Order::Lex,
                    self.valid(),
                    cursor_run(list)[i],
                    cursor_run(list)[i + 1],
                ),
        ensures
            enumerates(Order::Lex, self.valid(), list),
    {
        let valid = self.valid();
        assert forall|d: Seq<int>| #[trigger] valid(d) implies d.len() == self.size() by {}
        law_fixed_length_run(valid, self.size(), list);
    }

    pub closed spec fn wf(&self) -> bool {
        &&& self.n == self.items.len()
        &&& !self.done ==> self.r <= self.n && self.indices.len() == self.r
        &&& !self.done && self.first ==> forall|j: int| 0 <= j < self.r ==> self.indices@[j] == j
        &&& !self.done && !self.first ==> is_arrangement(self.n as int, self.r as int, ints(self.indices@))
    }

    pub fn new(items: &[T], r: Option<usize>) -> (res: Self)
        ensures
            res.wf(),
            clones(items@, res.pool()),
            res.size() == (match r { Option::Some(k) => k as nat, Option::None => items@.len() }),
            res.cursor() == (if res.size() <= items@.len() { Cursor::Start } else { Cursor::Exhausted }),
    {
        let items = copy_items(items);
        let n = items.len();
        let r = match r {
            Some(k) => k,
            None => n,
        };
        let done = r > n;
        let mut indices: Vec<usize> = Vec::new();
        if !done {
            for j in 0..r
                invariant
                    indices.len() == j,
                    forall|k: int| 0 <= k < j ==> indices@[k] == k,
            {
                indices.push(j);
            }
        }
        Permutations { items, r, n, indices, first: true, done }
    }

    pub fn next(&mut self) -> (res: Option<Vec<T>>)
        requires
            old(self).wf(),
        ensures
            final(self).wf(),
            final(self).pool() == old(self).pool(),
            final(self).size() == old(self).size(),
            advances(Order::Lex, old(self).valid(), old(self).cursor(), final(self).cursor()),
            res is Some <==> final(self).cursor() is At,
            final(self).cursor() matches Cursor::At(c) ==> picks(final(self).pool(), c, res.unwrap()@),
    {
        let ghost n = self.n as int;
        let ghost r = self.r as int;
        if self.done {
            return None;
        }
        if self.first {
            self.first = false;
            let ghost c = ints(self.indices@);
            assert(is_arrangement(n, r, c));
            assert forall|d: Seq<int>| #[trigger] old(self).valid()(d) && after(Order::Lex, None, d) implies !lex_lt(d, c) by {
                if lex_lt(d, c) {
                    let k = choose|k: int| #![trigger d[k], c[k]] 0 <= k < d.len() && d[k] < c[k] && d.take(k) == c.take(k);
                    assert(is_arrangement(n, r, d));
                    let w = d[k];
                    assert(d.take(k)[w] == c.take(k)[w]);
                    assert(d[w] == w);
                }
            }
            assert forall|k: int| 0 <= k < self.indices.len() implies self.indices@[k] < self.items.len() by {
                assert(c[k] < n);
            }
            let v = pick(&self.items, &self.indices);
            return Some(v);
        }
        let n_ = self.n;
        let r_ = self.r;
        let ghost old_c = ints(self.indices@);
        let mut used: Vec<bool> = Vec::new();
        for v in 0..n_
            invariant
                used.len() == v,
                forall|w: int| 0 <= w < v ==> !used@[w],
        {
            used.push(false);
        }
        for j in 0..r_
            invariant
                self == old(self),
                n_ == self.n,
                r_ == self.r,
                n == n_,
                r == r_,
                old_c == ints(self.indices@),
                is_arrangement(n, r, old_c),
                used.len() == n_,
                forall|w: int| 0 <= w < n_ ==> (used@[w] <==> occurs(old_c, j as int, w)),
        {
            let ghost before = used@;
            proof {
                assert(old_c[j as int] < n);
            }
            used.set(self.indices[j], true);
            proof {
                assert forall|w: int| 0 <= w < n_ implies (used@[w] <==> occurs(old_c, j + 1, w)) by {
                    if occurs(old_c, j + 1, w) && w != old_c[j as int] {
                        let k = choose|k: int| 0 <= k < j + 1 && #[trigger] old_c[k] == w;
                        assert(occurs(old_c, j as int, w));
                    }
                    if occurs(old_c, j as int, w) {
                        let k = choose|k: int| 0 <= k < j && #[trigger] old_c[k] == w;
                        assert(occurs(old_c, j + 1, w));
                    }
                }
            }
        }
        let mut i = r_;
        loop
            invariant_except_break
                forall|j: int| i <= j < r ==> cannot_grow(n, old_c, j),
                forall|w: int| 0 <= w < n_ ==> (used@[w] <==> occurs(old_c, i as int, w)),
                old_c == ints(self.indices@),
            invariant
                n_ == self.n,
                r_ == self.r,
                n == n_,
                r == r_,
                self.r == old(self).r,
                self.n == self.items.len(),
                self.items@ == old(self).items@,
                !self.done,
                !self.first,
                self.r <= self.n,
                self.indices.len() == r_,
                is_arrangement(n, r, old_c),
                old_c == ints(old(self).indices@),
                old(self).cursor() == Cursor::At(old_c),
                used.len() == n_,
                i <= r_,
                forall|j: int| 0 <= j < i ==> self.indices@[j] == old_c[j],
            ensures
                !self.done,
                !self.first,
                self.items@ == old(self).items@,
                self.indices.len() == r_,
                i < r_,
                forall|j: int| 0 <= j < i ==> self.indices@[j] == old_c[j],
                forall|j: int| i < j < r ==> cannot_grow(n, old_c, j),
                old_c[i as int] < self.indices@[i as int] < n,
                !occurs(old_c, i as int, self.indices@[i as int] as int),
                forall|w: int| old_c[i as int] < w < self.indices@[i as int] ==> #[trigger] occurs(old_c, i as int, w),
                forall|w: int| 0 <= w < n_ ==> (used@[w] <==> (occurs(old_c, i as int, w) || w == self.indices@[i as int])),
            decreases i,
        {
            if i == 0 {
                self.done = true;
                assert forall|d: Seq<int>| #[trigger] old(self).valid()(d) implies !after(Order::Lex, Some(old_c), d) by {
                    assert(is_arrangement(n, r, d));
                    if lex_lt(old_c, d) {
                        let k = choose|k: int| #![trigger old_c[k], d[k]] 0 <= k < d.len() && old_c[k] < d[k] && old_c.take(k) == d.take(k);
                        assert(cannot_grow(n, old_c, k));
                        assert(occurs(old_c, k, d[k]));
                        let j = choose|j: int| 0 <= j < k && #[trigger] old_c[j] == d[k];
                        assert(old_c.take(k)[j] == d.take(k)[j]);
                    }
                }
                assert(none_after(Order::Lex, old(self).valid(), Some(old_c)));
                return None;
            }
            i -= 1;
            let ci = self.indices[i];
            proof {
                assert(old_c[i as int] == ci);
                assert(ci < n);
            }
            used.set(ci, false);
            proof {
                assert forall|w: int| 0 <= w < n_ implies (used@[w] <==> occurs(old_c, i as int, w)) by {
                    if occurs(old_c, i + 1, w) && w != ci {
                        let k = choose|k: int| 0 <= k < i + 1 && #[trigger] old_c[k] == w;
                        assert(occurs(old_c, i as int, w));
                    }
                    if occurs(old_c, i as int, w) {
                        let k = choose|k: int| 0 <= k < i && #[trigger] old_c[k] == w;
                        assert(occurs(old_c, i + 1, w));
                        assert(w != ci);
                    }
                }
            }
            let mut v = ci + 1;
            while v < n_ && used[v]
                invariant
                    ci < v <= n_,
                    used.len() == n_,
                    forall|w: int| ci < w < v ==> #[trigger] used@[w],
                decreases n_ - v,
            {
                v += 1;
            }
            if v < n_ {
                self.indices.set(i, v);
                used.set(v, true);
                proof {
                    assert forall|w: int| old_c[i as int] < w < self.indices@[i as int] implies #[trigger] occurs(old_c, i as int, w) by {
                        assert(used@[w]);
                    }
                }
                break;
            }
            proof {
                assert forall|w: int| old_c[i as int] < w < n implies #[trigger] occurs(old_c, i as int, w) by {
                    assert(used@[w]);
                }
            }
        }
        let ghost bumped = self.indices@[i as int];
        proof {
            let cur = ints(self.indices@);
            assert forall|k: int| 0 <= k < i + 1 implies self.indices@[k] < n_ by {
                if k < i {
                    assert(old_c[k] < n);
                }
            }
            assert forall|w: int| 0 <= w < n_ implies (used@[w] <==> occurs(cur, i + 1, w)) by {
                if occurs(old_c, i as int, w) {
                    let t = choose|t: int| 0 <= t < i && #[trigger] old_c[t] == w;
                    assert(cur[t] == w);
                }
                if w == bumped {
                    assert(cur[i as int] == w);
                }
                if occurs(cur, i + 1, w) {
                    let t = choose|t: int| 0 <= t < i + 1 && #[trigger] cur[t] == w;
                    if t < i {
                        assert(old_c[t] == w);
                    }
                }
            }
        }
        let mut j = i + 1;
        while j < r_
            invariant
                i < j <= r_,
                n_ == self.n,
                r_ == self.r,
                n == n_,
                r == r_,
                r_ <= n_,
                self.items@ == old(self).items@,
                !self.done,
                !self.first,
                self.indices.len() == r_,
                used.len() == n_,
                is_arrangement(n, r, old_c),
                forall|k: int| 0 <= k < i ==> self.indices@[k] == old_c[k],
                self.indices@[i as int] == bumped,
                forall|k: int| 0 <= k < j ==> self.indices@[k] < n_,
                forall|k: int| i < k < j ==> !occurs(ints(self.indices@), k, self.indices@[k] as int),
                forall|k: int, w: int| i < k < j && 0 <= w < self.indices@[k] ==> #[trigger] occurs(ints(self.indices@), k, w),
                forall|w: int| 0 <= w < n_ ==> (used@[w] <==> occurs(ints(self.indices@), j as int, w)),
            decreases r_ - j,
        {
            let ghost cur = ints(self.indices@);
            let mut v: usize = 0;
            while v < n_ && used[v]
                invariant
                    v <= n_,
                    used.len() == n_,
                    forall|w: int| 0 <= w < v ==> #[trigger] used@[w],
                decreases n_ - v,
            {
                v += 1;
            }
            proof {
                if v == n_ {
                    assert forall|w: int| 0 <= w < n implies #[trigger] occurs(cur.take(j as int), j as int, w) by {
                        assert(used@[w]);
                        let k = choose|k: int| 0 <= k < j && #[trigger] cur[k] == w;
                        assert(cur.take(j as int)[k] == w);
                    }
                    lemma_cover(cur.take(j as int), n);
                }
            }
            self.indices.set(j, v);
            used.set(v, true);
            proof {
                let nxt = ints(self.indices@);
                assert forall|k: int, w: int| 0 <= k <= j && 0 <= w < n && #[trigger] occurs(cur, k, w) implies occurs(nxt, k, w) by {
                    let t = choose|t: int| 0 <= t < k && #[trigger] cur[t] == w;
                    assert(nxt[t] == w);
                }
                assert forall|k: int, w: int| 0 <= k <= j && #[trigger] occurs(nxt, k, w) implies occurs(cur, k, w) by {
                    let t = choose|t: int| 0 <= t < k && #[trigger] nxt[t] == w;
                    assert(cur[t] == w);
                }
                assert forall|w: int| 0 <= w < n_ implies (used@[w] <==> occurs(nxt, j + 1, w)) by {
                    if occurs(nxt, j + 1, w) && w != v {
                        let k = choose|k: int| 0 <= k < j + 1 && #[trigger] nxt[k] == w;
                        assert(occurs(nxt, j as int, w));
                    }
                    if occurs(nxt, j as int, w) {
                        let k = choose|k: int| 0 <= k < j && #[trigger] nxt[k] == w;
                        assert(occurs(nxt, j + 1, w));
                    }
                    if w == v {
                        assert(nxt[j as int] == w);
                        assert(occurs(nxt, j + 1, w));
                    }
                }
                assert forall|k: int, w: int| i < k < j + 1 && 0 <= w < nxt[k] implies #[trigger] occurs(nxt, k, w) by {
                    if k == j {
                        assert(used@[w]);
                    } else {
                        assert(occurs(cur, k, w));
                    }
                }
                assert forall|k: int| i < k < j + 1 implies !occurs(nxt, k, self.indices@[k] as int) by {
                    if k < j {
                        assert(!occurs(cur, k, cur[k]));
                    }
                }
            }
            j += 1;
        }
        let ghost c = ints(self.indices@);
        proof {
            assert(c.len() == r);
            assert(c.take(i as int) == old_c.take(i as int));
            assert(old_c[i as int] < c[i as int]);
            assert(lex_lt(old_c, c));
            assert forall|a: int, b: int| 0 <= a < b < r implies c[a] != c[b] by {
                if b > i {
                    assert(!occurs(ints(self.indices@), b, self.indices@[b] as int));
                    assert(c[b] == self.indices@[b] as int);
                    if c[a] == c[b] {
                        assert(occurs(c, b, c[b]));
                    }
                } else if b == i {
                    assert(c[a] == old_c[a]);
                    assert(!occurs(old_c, i as int, c[b]));
                    if c[a] == c[b] {
                        assert(old_c[a] == c[b]);
                        assert(occurs(old_c, i as int, c[b]));
                    }
                } else {
                    assert(c[a] == old_c[a]);
                    assert(c[b] == old_c[b]);
                }
            }
            assert(is_arrangement(n, r, c));
            assert forall|d: Seq<int>| #[trigger] old(self).valid()(d) && after(Order::Lex, Some(old_c), d) implies !lex_lt(d, c) by {
                assert(is_arrangement(n, r, d));
                let k1 = choose|k: int| #![trigger old_c[k], d[k]] 0 <= k < d.len() && old_c[k] < d[k] && old_c.take(k) == d.take(k);
                if lex_lt(d, c) {
                    let k2 = choose|k: int| #![trigger d[k], c[k]] 0 <= k < d.len() && d[k] < c[k] && d.take(k) == c.take(k);
                    if k1 > i {
                        assert(cannot_grow(n, old_c, k1));
                        assert(occurs(old_c, k1, d[k1]));
                        let t = choose|t: int| 0 <= t < k1 && #[trigger] old_c[t] == d[k1];
                        assert(old_c.take(k1)[t] == d.take(k1)[t]);
                    } else if k1 < i {
                        if k2 < k1 {
                            assert(d.take(k1)[k2] == old_c.take(k1)[k2]);
                        } else if k2 > k1 {
                            assert(d.take(k2)[k1] == c.take(k2)[k1]);
                        }
                    } else {
                        if occurs(old_c, i as int, d[k1]) {
                            let t = choose|t: int| 0 <= t < k1 && #[trigger] old_c[t] == d[k1];
                            assert(old_c.take(k1)[t] == d.take(k1)[t]);
                        }
                        if d[k1] < c[k1] {
                            assert(occurs(old_c, i as int, d[k1]));
                        }
                        if k2 < i {
                            assert(d.take(k1)[k2] == old_c.take(k1)[k2]);
                        } else if k2 > i {
                            assert(d.take(k2)[k1] == c.take(k2)[k1]);
                            assert(occurs(c, k2, d[k2]));
                            let t = choose|t: int| 0 <= t < k2 && #[trigger] c[t] == d[k2];
                            assert(c.take(k2)[t] == d.take(k2)[t]);
                        }
                    }
                }
            }
        }
        assert forall|k: int| 0 <= k < self.indices.len() implies self.indices@[k] < self.items.len() by {
            assert(c[k] < n);
        }
        let v = pick(&self.items, &self.indices);
        Some(v)
    }
}

} // verus!

verus! {

// ---------------------------------------------------------------------------
// Integer partitions
// ---------------------------------------------------------------------------

/// The sum of the sequence.
pub open spec fn sum(s: Seq<int>) -> int
    decreases s.len(),
{
    if s.len() == 0 {
        0
    } else {
        s[0] + sum(s.drop_first())
    }
}

/// `p` writes `n` as a sum of parts between 1 and `max_part`, largest first.
pub open spec fn is_partition(n: int, max_part: int, p: Seq<int>) -> bool {
    &&& sum(p) == n
    &&& forall|j: int| 0 <= j < p.len() ==> 1 <= #[trigger] p[j] <= max_part
    &&& forall|j: int, k: int| 0 <= j < k < p.len() ==> p[j] >= p[k]
}

/// The values as mathematical integers.
pub open spec fn ints32(s: Seq<u32>) -> Seq<int> {
    s.map_values(|x: u32| x as int)
}

/// Parts of at least 1 sum to at least their count.
pub proof fn lemma_sum_at_least_len(s: Seq<int>)
    requires
        forall|j: int| 0 <= j < s.len() ==> 1 <= #[trigger] s[j],
    ensures
        sum(s) >= s.len(),
    decreases s.len(),
{
    if s.len() > 0 {
        assert forall|j: int| 0 <= j < s.drop_first().len() implies 1 <= #[trigger] s.drop_first()[j] by {
            assert(s.drop_first()[j] == s[j + 1]);
        }
        lemma_sum_at_least_len(s.drop_first());
    }
}

/// A sequence that goes on from `prefix` with `part` and then a partition of
/// `rem - part` into parts at most `part` goes on from `prefix` with a
/// partition of `rem`.
proof fn lemma_partition_extend(e: Seq<int>, prefix: Seq<int>, part: int, rem: int, max_part: int)
    requires
        e.len() >= prefix.len() + 1,
        e.take(prefix.len() as int + 1) == prefix.push(part),
        is_partition(rem - part, part, e.skip(prefix.len() as int + 1)),
        1 <= part <= max_part,
    ensures
        e.len() > prefix.len(),
        e.take(prefix.len() as int) == prefix,
        is_partition(rem, max_part, e.skip(prefix.len() as int)),
        e[prefix.len() as int] == part,
{
    let p = prefix.len() as int;
    let rest = e.skip(p + 1);
    let tail = e.skip(p);
    assert(e.take(p) =~= e.take(p + 1).take(p));
    assert(e[p] == e.take(p + 1)[p]);
    assert(tail =~= seq![part] + rest);
    assert(tail.drop_first() =~= rest);
    assert forall|a: int, b: int| 0 <= a < b < tail.len() implies tail[a] >= tail[b] by {
        assert(tail[b] == rest[b - 1]);
        if a > 0 {
            assert(tail[a] == rest[a - 1]);
        }
    }
    assert forall|j: int| 0 <= j < tail.len() implies 1 <= #[trigger] tail[j] <= max_part by {
        if j > 0 {
            assert(tail[j] == rest[j - 1]);
        }
    }
}

/// Without its first part, a partition of `n` is a partition of the rest
/// into parts no larger than the first.
proof fn lemma_partition_split(q: Seq<int>, n: int, max_part: int)
    requires
        is_partition(n, max_part, q),
        q.len() > 0,
    ensures
        is_partition(n - q[0], q[0], q.drop_first()),
{
    let rest = q.drop_first();
    assert forall|j: int| 0 <= j < rest.len() implies 1 <= #[trigger] rest[j] <= q[0] by {
        assert(rest[j] == q[j + 1]);
        assert(q[0] >= q[j + 1]);
    }
    assert forall|a: int, b: int| 0 <= a < b < rest.len() implies rest[a] >= rest[b] by {
        assert(q[a + 1] >= q[b + 1]);
    }
}

/// Sequences that go on from one prefix with different values are ordered
/// by those values.
proof fn lemma_revlex_branch(a: Seq<int>, b: Seq<int>, prefix: Seq<int>, part: int)
    requires
        a.len() > prefix.len(),
        a.take(prefix.len() as int) == prefix,
        a[prefix.len() as int] > part,
        b.len() >= prefix.len() + 1,
        b.take(prefix.len() as int + 1) == prefix.push(part),
    ensures
        revlex_lt(a, b),
{
    let p = prefix.len() as int;
    assert(b[p] == b.take(p + 1)[p]);
    assert(b[p] == part);
    assert(b.take(p) =~= b.take(p + 1).take(p));
    assert(a.take(p) == b.take(p));
    assert(a[p] > b[p]);
    assert(0 <= p < a.len() && p < b.len() && a[p] > b[p] && a.take(p) == b.take(p));
}

/// A partition of `rem` has a part when `rem` is positive, none when it is
/// zero, and its first part is at most `rem`.
proof fn lemma_partition_first(p: Seq<int>, rem: int, max_part: int)
    requires
        is_partition(rem, max_part, p),
    ensures
        rem == 0 <==> p.len() == 0,
        p.len() > 0 ==> p[0] <= rem,
{
    lemma_sum_at_least_len(p);
    if p.len() > 0 {
        lemma_partition_split(p, rem, max_part);
        lemma_sum_at_least_len(p.drop_first());
    }
}

/// The sum of a sequence is that of its first `k` values and of the rest.
proof fn lemma_sum_take_skip(s: Seq<int>, k: int)
    requires
        0 <= k <= s.len(),
    ensures
        sum(s) == sum(s.take(k)) + sum(s.skip(k)),
    decreases k,
{
    if k == 0 {
        assert(s.skip(0) =~= s);
        assert(sum(s.take(0)) == 0);
    } else {
        let t = s.drop_first();
        lemma_sum_take_skip(t, k - 1);
        assert(s.take(k).drop_first() =~= t.take(k - 1));
        assert(s.skip(k) =~= t.skip(k - 1));
        assert(sum(s.take(k)) == s.take(k)[0] + sum(s.take(k).drop_first()));
    }
}

/// Two different partitions of one number are ordered one way or the other.
proof fn lemma_partitions_ordered(n: int, max_part: int, a: Seq<int>, b: Seq<int>)
    requires
        is_partition(n, max_part, a),
        is_partition(n, max_part, b),
        a != b,
    ensures
        revlex_lt(a, b) || revlex_lt(b, a),
{
    let m = if a.len() <= b.len() { a.len() } else { b.len() };
    if forall|k: int| 0 <= k < m ==> a[k] == b[k] {
        // one would be a proper prefix of the other, with a larger sum
        let (short, long) = if a.len() <= b.len() { (a, b) } else { (b, a) };
        assert(long.take(m as int) =~= short);
        lemma_sum_take_skip(long, m as int);
        let rest = long.skip(m as int);
        assert forall|j: int| 0 <= j < rest.len() implies 1 <= #[trigger] rest[j] by {
            assert(rest[j] == long[j + m]);
        }
        lemma_sum_at_least_len(rest);
        assert(rest.len() == 0);
        assert(a =~= b);
    }
    lemma_first_difference(a, b, m as int);
    let k = choose|k: int| 0 <= k < a.len() && k < b.len() && a[k] != b[k] && a.take(k) == b.take(k);
    if a[k] > b[k] {
        assert(revlex_lt(a, b));
    } else {
        assert(revlex_lt(b, a));
    }
}

/// What a search with the given bound must come after: the bound when
/// `tight`, else nothing.
spec fn bound_of(tight: bool, bound: Seq<u32>) -> Option<Seq<int>> {
    if tight {
        Option::Some(ints32(bound))
    } else {
        Option::None
    }
}

/// `t` goes on from `q` with a partition of `rem` into parts at most
/// `max_part`, and comes after `prev`.
spec fn goes_on_after(rem: int, max_part: int, q: Seq<int>, prev: Option<Seq<int>>, t: Seq<int>) -> bool {
    &&& t.len() >= q.len()
    &&& t.take(q.len() as int) == q
    &&& is_partition(rem, max_part, t.skip(q.len() as int))
    &&& after(Order::RevLex, prev, t)
}

/// A sequence that goes on from `q` with a partition whose first part is
/// `part` goes on from `q.push(part)` with the rest of it.
proof fn lemma_goes_on_branch(t: Seq<int>, q: Seq<int>, rem: int, max_part: int)
    requires
        t.len() > q.len(),
        t.take(q.len() as int) == q,
        is_partition(rem, max_part, t.skip(q.len() as int)),
    ensures
        t.take(q.len() as int + 1) == q.push(t[q.len() as int]),
        is_partition(rem - t[q.len() as int], t[q.len() as int], t.skip(q.len() as int + 1)),
        1 <= t[q.len() as int] <= max_part,
{
    let k = q.len() as int;
    let tail = t.skip(k);
    assert(t.take(k + 1) =~= t.take(k).push(t[k]));
    assert(tail[0] == t[k]);
    lemma_partition_split(tail, rem, max_part);
    assert(tail.drop_first() =~= t.skip(k + 1));
}

/// No sequence comes strictly before itself in reverse lexicographic order.
proof fn lemma_revlex_asymmetric(a: Seq<int>, b: Seq<int>)
    requires
        revlex_lt(a, b),
    ensures
        !revlex_lt(b, a),
{
    if revlex_lt(b, a) {
        crate::order::lemma_revlex_transitive(a, b, a);
    }
}

/// The first partition in reverse lexicographic order (largest parts first)
/// that goes on from `current` with a partition of `rem` into parts at most
/// `max_val` and comes after `bound` (when `tight`), with `current` left as
/// it was.
fn partition_after(rem: u32, max_val: u32, current: &mut Vec<u32>, bound: &Vec<u32>, tight: bool) -> (res: Option<Vec<u32>>)
    requires
        tight ==> bound@.len() >= old(current)@.len(),
        tight ==> ints32(bound@).take(old(current)@.len() as int) == ints32(old(current)@),
        tight ==> is_partition(rem as int, max_val as int, ints32(bound@).skip(old(current)@.len() as int)),
    ensures
        final(current)@ == old(current)@,
        ({
            let q = ints32(old(current)@);
            let prev = bound_of(tight, bound@);
            match res {
                Option::Some(s) => goes_on_after(rem as int, max_val as int, q, prev, ints32(s@))
                    && forall|t: Seq<int>| #[trigger] goes_on_after(rem as int, max_val as int, q, prev, t)
                        ==> !revlex_lt(t, ints32(s@)),
                Option::None => forall|t: Seq<int>| !#[trigger] goes_on_after(rem as int, max_val as int, q, prev, t),
            }
        }),
    decreases rem,
{
    let ghost q = ints32(current@);
    let ghost k = q.len() as int;
    let ghost prev = bound_of(tight, bound@);
    let ghost b = ints32(bound@);
    if rem == 0 {
        proof {
            assert forall|t: Seq<int>| #[trigger] goes_on_after(rem as int, max_val as int, q, prev, t) implies t == q by {
                lemma_partition_first(t.skip(k), 0, max_val as int);
                assert(t =~= t.take(k));
            }
            if tight {
                lemma_partition_first(b.skip(k), 0, max_val as int);
                assert(b =~= b.take(k));
            }
        }
        if tight {
            return None;
        }
        let mut s: Vec<u32> = Vec::new();
        for j in 0..current.len()
            invariant
                s@ == current@.take(j as int),
        {
            s.push(current[j]);
            assert(current@.take(j + 1) == current@.take(j as int).push(current@[j as int]));
        }
        proof {
            assert(current@.take(current@.len() as int) == current@);
            assert(ints32(s@).take(k) =~= q);
            assert(ints32(s@).skip(k) =~= Seq::<int>::empty());
            assert(goes_on_after(rem as int, max_val as int, q, prev, ints32(s@)));
        }
        return Some(s);
    }
    let mut part: u32 = if rem < max_val { rem } else { max_val };
    if tight {
        proof {
            lemma_partition_first(b.skip(k), rem as int, max_val as int);
            assert(b.skip(k)[0] == b[k]);
        }
        part = bound[current.len()];
    }
    proof {
        assert forall|t: Seq<int>| #[trigger] goes_on_after(rem as int, max_val as int, q, prev, t)
            implies t.len() > k && t[k] <= part by {
            lemma_partition_first(t.skip(k), rem as int, max_val as int);
            assert(t.skip(k)[0] == t[k]);
            if tight && t[k] > part {
                lemma_goes_on_branch(b, q, rem as int, max_val as int);
                lemma_revlex_branch(t, b, q, b[k]);
                lemma_revlex_asymmetric(t, b);
            }
        }
    }
    while part >= 1
        invariant
            current@ == old(current)@,
            q == ints32(current@),
            k == q.len(),
            rem > 0,
            part <= rem,
            part <= max_val,
            prev == bound_of(tight, bound@),
            b == ints32(bound@),
            tight ==> bound@.len() > k,
            tight ==> b.take(k) == q,
            tight ==> is_partition(rem as int, max_val as int, b.skip(k)),
            tight ==> part <= b[k],
            forall|t: Seq<int>| #[trigger] goes_on_after(rem as int, max_val as int, q, prev, t)
                ==> t.len() > k && t[k] <= part,
        decreases part,
    {
        current.push(part);
        let ghost q2 = ints32(current@);
        let sub_tight = tight && part == bound[current.len() - 1];
        let ghost sub_prev = bound_of(sub_tight, bound@);
        proof {
            assert(q2 =~= q.push(part as int));
            if tight {
                lemma_goes_on_branch(b, q, rem as int, max_val as int);
            }
        }
        let found = partition_after(rem - part, part, current, bound, sub_tight);
        current.pop();
        proof {
            assert(current@ =~= old(current)@);
            assert forall|t: Seq<int>| #[trigger] goes_on_after(rem as int, max_val as int, q, prev, t) && t[k] == part
                implies goes_on_after((rem - part) as int, part as int, q2, sub_prev, t) by {
                lemma_goes_on_branch(t, q, rem as int, max_val as int);
                if tight && !sub_tight {
                    lemma_goes_on_branch(b, q, rem as int, max_val as int);
                    lemma_revlex_branch(b, t, q, part as int);
                }
            }
        }
        match found {
            Some(s) => {
                proof {
                    let sv = ints32(s@);
                    lemma_partition_extend(sv, q, part as int, rem as int, max_val as int);
                    if tight && !sub_tight {
                        lemma_goes_on_branch(b, q, rem as int, max_val as int);
                        lemma_revlex_branch(b, sv, q, part as int);
                    }
                    assert(goes_on_after(rem as int, max_val as int, q, prev, sv));
                    assert forall|t: Seq<int>| #[trigger] goes_on_after(rem as int, max_val as int, q, prev, t)
                        implies !revlex_lt(t, sv) by {
                        if t[k] != part {
                            lemma_goes_on_branch(t, q, rem as int, max_val as int);
                            lemma_revlex_branch(sv, t, q, t[k]);
                            lemma_revlex_asymmetric(sv, t);
                        }
                    }
                }
                return Some(s);
            },
            None => {
                proof {
                    assert forall|t: Seq<int>| #[trigger] goes_on_after(rem as int, max_val as int, q, prev, t)
                        implies t.len() > k && t[k] <= part - 1 by {
                        if t[k] == part {
                            assert(goes_on_after((rem - part) as int, part as int, q2, sub_prev, t));
                        }
                    }
                }
            },
        }
        part = part - 1;
    }
    proof {
        assert forall|t: Seq<int>| !#[trigger] goes_on_after(rem as int, max_val as int, q, prev, t) by {
            if goes_on_after(rem as int, max_val as int, q, prev, t) {
                lemma_goes_on_branch(t, q, rem as int, max_val as int);
            }
        }
    }
    None
}

/// The partitions of `n` into parts of at most `max_part`, each with its
/// parts largest first, handed out one per `next` call in reverse
/// lexicographic order (larger parts first); each call searches only as far
/// as the next partition.
pub struct IntegerPartitions {
    n: u32,
    max_part: u32,
    last: Vec<u32>,
    started: bool,
    done: bool,
}

/// An enumerator of the partitions of `n` into parts of at most `max_part`
/// (at most `n` when `None`).
pub fn integer_partitions(n: u32, max_part: Option<u32>) -> (res: IntegerPartitions)
    ensures
        res.wf(),
        res.total() == n,
        res.largest() == (match max_part { Option::Some(m) => m, Option::None => n }),
        res.cursor() == Cursor::Start,
{
    IntegerPartitions::new(n, max_part)
}

impl IntegerPartitions {
    /// The number partitioned.
    pub closed spec fn total(&self) -> u32 {
        self.n
    }

    /// The largest part allowed.
    pub closed spec fn largest(&self) -> u32 {
        self.max_part
    }

    /// The partition handed out last.
    pub closed spec fn cursor(&self) -> Cursor {
        if self.done {
            Cursor::Exhausted
        } else if !self.started {
            Cursor::Start
        } else {
            Cursor::At(ints32(self.last@))
        }
    }

    /// What a partition of this enumerator is.
    pub open spec fn valid(&self) -> spec_fn(Seq<int>) -> bool {
        |p: Seq<int>| is_partition(self.total() as int, self.largest() as int, p)
    }

    pub closed spec fn wf(&self) -> bool {
        self.started && !self.done ==> is_partition(self.n as int, self.max_part as int, ints32(self.last@))
    }

    /// Law: calling `next` from the start until the enumerator is exhausted
    /// hands out every partition exactly once, in reverse lexicographic
    /// order.
    pub proof fn law_run(&self, list: Seq<Seq<int>>)
        requires
            forall|i: int|
                0 <= i < list.len() + 1 ==> #[trigger] advances(
                    Order::RevLex,
                    self.valid(),
                    cursor_run(list)[i],
                    cursor_run(list)[i + 1],
                ),
        ensures
            enumerates(Order::RevLex, self.valid(), list),
    {
        let valid = self.valid();
        assert forall|a: Seq<int>, b: Seq<int>| valid(a) && valid(b) && a != b
            implies #[trigger] precedes(Order::RevLex, a, b) || #[trigger] precedes(Order::RevLex, b, a) by {
            lemma_partitions_ordered(self.total() as int, self.largest() as int, a, b);
        }
        law_run_lists_all(Order::RevLex, valid, list);
    }

    /// An enumerator of the partitions of `n` into parts of at most
    /// `max_part` (at most `n` when `None`).
    pub fn new(n: u32, max_part: Option<u32>) -> (res: Self)
        ensures
            res.wf(),
            res.total() == n,
            res.largest() == (match max_part { Option::Some(m) => m, Option::None => n }),
            res.cursor() == Cursor::Start,
    {
        let max_part = match max_part {
            Some(m) => m,
            None => n,
        };
        IntegerPartitions { n, max_part, last: Vec::new(), started: false, done: false }
    }

    /// The next partition, or `None` once every partition has been handed
    /// out.
    pub fn next(&mut self) -> (res: Option<Vec<u32>>)
        requires
            old(self).wf(),
        ensures
            final(self).wf(),
            final(self).total() == old(self).total(),
            final(self).largest() == old(self).largest(),
            advances(Order::RevLex, old(self).valid(), old(self).cursor(), final(self).cursor()),
            res is Some <==> final(self).cursor() is At,
            final(self).cursor() matches Cursor::At(p) ==> ints32(res.unwrap()@) == p,
    {
        if self.done {
            return None;
        }
        let ghost valid = old(self).valid();
        let ghost prev = bound_of(self.started, self.last@);
        let ghost empty = Seq::<int>::empty();
        let mut current: Vec<u32> = Vec::new();
        proof {
            assert(ints32(current@) =~= empty);
            assert(ints32(self.last@).take(0) =~= empty);
            assert(ints32(self.last@).skip(0) =~= ints32(self.last@));
            assert forall|t: Seq<int>| #[trigger] goes_on_after(self.n as int, self.max_part as int, empty, prev, t)
                <==> valid(t) && after(Order::RevLex, prev, t) by {
                assert(t.take(0) =~= empty);
                assert(t.skip(0) =~= t);
            }
        }
        let found = partition_after(self.n, self.max_part, &mut current, &self.last, self.started);
        match found {
            Some(s) => {
                proof {
                    let sv = ints32(s@);
                    assert(goes_on_after(self.n as int, self.max_part as int, empty, prev, sv));
                    assert forall|d: Seq<int>| #[trigger] valid(d) && after(Order::RevLex, prev, d)
                        implies !precedes(Order::RevLex, d, sv) by {
                        assert(goes_on_after(self.n as int, self.max_part as int, empty, prev, d));
                    }
                }
                self.last = s.clone();
                proof {
                    assert(self.last@ =~= s@);
                }
                self.started = true;
                Some(s)
            },
            None => {
                proof {
                    assert forall|d: Seq<int>| #[trigger] valid(d) implies !after(Order::RevLex, prev, d) by {
                        assert(!goes_on_after(self.n as int, self.max_part as int, empty, prev, d));
                    }
                }
                self.done = true;
                None
            },
        }
    }
}

// ---------------------------------------------------------------------------
// Set partitions
// ---------------------------------------------------------------------------

/// The blocks that the assignment `a` builds: position `k` joins block `a[k]`
/// when that block exists, and otherwise opens a new block at the end.
pub open spec fn blocks_of(a: Seq<int>) -> Seq<Seq<int>>
    decreases a.len(),
{
    if a.len() == 0 {
        Seq::empty()
    } else {
        let b = blocks_of(a.drop_last());
        let k = a.len() - 1;
        let i = a.last();
        if 0 <= i < b.len() {
            b.update(i, b[i].push(k))
        } else {
            b.push(seq![k])
        }
    }
}

/// `a` assigns each position to a block: an existing one, or the next new
/// one (a restricted growth string).
pub open spec fn is_block_assignment(a: Seq<int>) -> bool {
    forall|k: int| 0 <= k < a.len() ==> #[trigger] joins_or_opens(a, k)
}

/// Position `k` of `a` joins a block opened before it, or opens the next one.
pub open spec fn joins_or_opens(a: Seq<int>, k: int) -> bool {
    0 <= a[k] <= blocks_of(a.take(k)).len()
}

/// The contents of each block, as integers.
pub open spec fn block_views(v: Seq<Vec<usize>>) -> Seq<Seq<int>> {
    v.map_values(|x: Vec<usize>| ints(x@))
}

/// Block by block, `v` holds clones of the items at the block's positions.
pub open spec fn picks_blocks<T: Clone>(items: Seq<T>, blocks: Seq<Seq<int>>, v: Seq<Vec<T>>) -> bool {
    &&& v.len() == blocks.len()
    &&& forall|b: int| 0 <= b < blocks.len() ==> picks(items, blocks[b], (#[trigger] v[b])@)
}

/// There are never more blocks than positions.
pub proof fn lemma_blocks_count(a: Seq<int>)
    ensures
        blocks_of(a).len() <= a.len(),
    decreases a.len(),
{
    if a.len() > 0 {
        lemma_blocks_count(a.drop_last());
    }
}

/// Every position in the blocks of `a` is a position of `a`.
pub proof fn lemma_blocks_positions(a: Seq<int>)
    ensures
        forall|b: int, j: int| 0 <= b < blocks_of(a).len() && 0 <= j < blocks_of(a)[b].len()
            ==> 0 <= #[trigger] blocks_of(a)[b][j] < a.len(),
    decreases a.len(),
{
    if a.len() > 0 {
        let p = a.drop_last();
        lemma_blocks_positions(p);
        let b0 = blocks_of(p);
        let k = a.len() - 1;
        let i = a.last();
        assert forall|b: int, j: int| 0 <= b < blocks_of(a).len() && 0 <= j < blocks_of(a)[b].len()
            implies 0 <= #[trigger] blocks_of(a)[b][j] < a.len() by {
            if 0 <= i < b0.len() {
                if b == i {
                    if j < b0[i].len() {
                        assert(blocks_of(a)[b][j] == b0[b][j]);
                    }
                } else {
                    assert(blocks_of(a)[b] == b0[b]);
                }
            } else {
                if b < b0.len() {
                    assert(blocks_of(a)[b] == b0[b]);
                }
            }
        }
    }
}

/// Extending an assignment by one position.
proof fn lemma_assignment_push(a: Seq<int>, i: int)
    requires
        is_block_assignment(a),
        0 <= i <= blocks_of(a).len(),
    ensures
        is_block_assignment(a.push(i)),
        a.push(i).drop_last() == a,
        blocks_of(a.push(i)) == (if i < blocks_of(a).len() {
            blocks_of(a).update(i, blocks_of(a)[i].push(a.len() as int))
        } else {
            blocks_of(a).push(seq![a.len() as int])
        }),
{
    let w = a.push(i);
    assert(w.drop_last() == a);
    assert forall|k: int| 0 <= k < w.len() implies #[trigger] joins_or_opens(w, k) by {
        if k < a.len() {
            assert(w.take(k) == a.take(k));
            assert(joins_or_opens(a, k));
        } else {
            assert(w.take(k) == a);
        }
    }
}

/// A prefix of an assignment is an assignment.
proof fn lemma_assignment_prefix(w: Seq<int>, m: int)
    requires
        is_block_assignment(w),
        0 <= m <= w.len(),
    ensures
        is_block_assignment(w.take(m)),
{
    assert forall|k: int| 0 <= k < w.take(m).len() implies #[trigger] joins_or_opens(w.take(m), k) by {
        assert(w.take(m).take(k) == w.take(k));
        assert(joins_or_opens(w, k));
    }
}

/// `t` is an assignment of `n` positions that goes on from `q` and comes
/// after `prev`.
spec fn assignment_after(n: int, q: Seq<int>, prev: Option<Seq<int>>, t: Seq<int>) -> bool {
    &&& is_block_assignment(t)
    &&& t.len() == n
    &&& t.take(q.len() as int) == q
    &&& after(Order::Lex, prev, t)
}

/// What a search with the given bound must come after: the bound when
/// `tight`, else nothing.
spec fn word_bound(tight: bool, bound: Seq<usize>) -> Option<Seq<int>> {
    if tight {
        Option::Some(ints(bound))
    } else {
        Option::None
    }
}

/// The least assignment of `n` positions, in lexicographic order, that goes
/// on from `word` and comes after `bound` (when `tight`), with `word` left as
/// it was. `open` is the number of blocks that `word` opens.
fn assignment_after_bound(word: &mut Vec<usize>, open: usize, n: usize, bound: &Vec<usize>, tight: bool) -> (res: Option<Vec<usize>>)
    requires
        is_block_assignment(ints(old(word)@)),
        old(word)@.len() <= n,
        open == blocks_of(ints(old(word)@)).len(),
        tight ==> is_block_assignment(ints(bound@)) && bound@.len() == n,
        tight ==> ints(bound@).take(old(word)@.len() as int) == ints(old(word)@),
    ensures
        final(word)@ == old(word)@,
        ({
            let q = ints(old(word)@);
            let prev = word_bound(tight, bound@);
            match res {
                Option::Some(s) => assignment_after(n as int, q, prev, ints(s@)) && forall|t: Seq<int>|
                    #[trigger] assignment_after(n as int, q, prev, t) ==> !lex_lt(t, ints(s@)),
                Option::None => forall|t: Seq<int>| !#[trigger] assignment_after(n as int, q, prev, t),
            }
        }),
    decreases n - old(word)@.len(),
{
    let ghost q = ints(word@);
    let ghost k = q.len() as int;
    let ghost prev = word_bound(tight, bound@);
    let ghost b = ints(bound@);
    if word.len() == n {
        proof {
            assert forall|t: Seq<int>| #[trigger] assignment_after(n as int, q, prev, t) implies t == q by {
                assert(t.take(n as int) =~= t);
            }
            lemma_lex_irreflexive(q);
        }
        if tight {
            proof {
                assert(b.take(n as int) =~= b);
            }
            return None;
        }
        let s = copy_positions(word);
        proof {
            assert(q.take(n as int) =~= q);
            assert(assignment_after(n as int, q, prev, ints(s@)));
        }
        return Some(s);
    }
    let mut i: usize = if tight { bound[word.len()] } else { 0 };
    proof {
        lemma_blocks_count(q);
        if tight {
            assert(joins_or_opens(b, k));
            assert(b.take(k) == q);
        }
        assert forall|t: Seq<int>| #[trigger] assignment_after(n as int, q, prev, t) implies t[k] >= i by {
            assert(joins_or_opens(t, k));
            if tight && t[k] < i {
                assert(t.take(k) == b.take(k));
                lemma_lex_at(t, b, k);
            }
        }
    }
    while i <= open
        invariant
            word@ == old(word)@,
            q == ints(word@),
            k == q.len(),
            k < n,
            is_block_assignment(q),
            open == blocks_of(q).len(),
            open <= k,
            prev == word_bound(tight, bound@),
            b == ints(bound@),
            tight ==> is_block_assignment(b) && b.len() == n,
            tight ==> b.take(k) == q,
            tight ==> i >= b[k],
            forall|t: Seq<int>| #[trigger] assignment_after(n as int, q, prev, t) ==> t[k] >= i,
        decreases open + 1 - i,
    {
        proof {
            lemma_assignment_push(q, i as int);
        }
        word.push(i);
        let ghost q2 = ints(word@);
        let next_open = if i == open { open + 1 } else { open };
        let sub_tight = tight && i == bound[word.len() - 1];
        let ghost sub_prev = word_bound(sub_tight, bound@);
        proof {
            assert(q2 =~= q.push(i as int));
            if sub_tight {
                assert(b.take(k + 1) =~= b.take(k).push(b[k]));
            }
        }
        let found = assignment_after_bound(word, next_open, n, bound, sub_tight);
        word.pop();
        proof {
            assert(word@ =~= old(word)@);
            assert forall|t: Seq<int>| #[trigger] assignment_after(n as int, q, prev, t) && t[k] == i
                implies assignment_after(n as int, q2, sub_prev, t) by {
                assert(t.take(k + 1) =~= t.take(k).push(t[k]));
                if tight && !sub_tight {
                    assert(b.take(k) == t.take(k));
                    lemma_lex_at(b, t, k);
                }
            }
        }
        match found {
            Some(s) => {
                proof {
                    let sv = ints(s@);
                    assert(sv.take(k) =~= sv.take(k + 1).take(k));
                    assert(sv[k] == sv.take(k + 1)[k]);
                    assert(q2.take(k) =~= q);
                    if tight && !sub_tight {
                        assert(b.take(k) == sv.take(k));
                        lemma_lex_at(b, sv, k);
                    }
                    assert(assignment_after(n as int, q, prev, sv));
                    assert forall|t: Seq<int>| #[trigger] assignment_after(n as int, q, prev, t) implies !lex_lt(t, sv) by {
                        if t[k] != i {
                            assert(t.take(k) == sv.take(k));
                            lemma_lex_at(sv, t, k);
                        }
                    }
                }
                return Some(s);
            },
            None => {
                proof {
                    assert forall|t: Seq<int>| #[trigger] assignment_after(n as int, q, prev, t) implies t[k] >= i + 1 by {
                        if t[k] == i {
                            assert(assignment_after(n as int, q2, sub_prev, t));
                        }
                    }
                }
            },
        }
        i += 1;
    }
    proof {
        assert forall|t: Seq<int>| !#[trigger] assignment_after(n as int, q, prev, t) by {
            if assignment_after(n as int, q, prev, t) {
                assert(joins_or_opens(t, k));
                assert(t.take(k) == q);
            }
        }
    }
    None
}

/// Adds position `k` to block `i`.
fn join_block(blocks: &mut Vec<Vec<usize>>, i: usize, k: usize)
    requires
        i < old(blocks)@.len(),
    ensures
        block_views(final(blocks)@) == block_views(old(blocks)@).update(i as int, block_views(old(blocks)@)[i as int].push(k as int)),
{
    blocks[i].push(k);
    let ghost expected = block_views(old(blocks)@).update(i as int, block_views(old(blocks)@)[i as int].push(k as int));
    assert forall|j: int| 0 <= j < blocks@.len() implies #[trigger] block_views(blocks@)[j] =~= expected[j] by {
        if j != i {
            assert(blocks@[j] == old(blocks)@[j]);
        }
    }
    assert(block_views(blocks@) =~= expected);
}

/// Opens a new block holding position `k`.
fn open_block(blocks: &mut Vec<Vec<usize>>, k: usize)
    ensures
        block_views(final(blocks)@) == block_views(old(blocks)@).push(seq![k as int]),
{
    let mut fresh: Vec<usize> = Vec::new();
    fresh.push(k);
    blocks.push(fresh);
    assert(ints(fresh@) =~= seq![k as int]);
    assert(block_views(blocks@) =~= block_views(old(blocks)@).push(seq![k as int]));
}

/// The blocks that an assignment builds, as vectors of positions.
fn blocks_for(word: &Vec<usize>) -> (blocks: Vec<Vec<usize>>)
    requires
        is_block_assignment(ints(word@)),
    ensures
        block_views(blocks@) == blocks_of(ints(word@)),
{
    let ghost w = ints(word@);
    let mut blocks: Vec<Vec<usize>> = Vec::new();
    assert(block_views(blocks@) =~= blocks_of(w.take(0)));
    for k in 0..word.len()
        invariant
            w == ints(word@),
            is_block_assignment(w),
            block_views(blocks@) == blocks_of(w.take(k as int)),
    {
        let i = word[k];
        proof {
            assert(w.take(k + 1).drop_last() =~= w.take(k as int));
            assert(w.take(k + 1).last() == i);
            assert(joins_or_opens(w, k as int));
        }
        if i < blocks.len() {
            join_block(&mut blocks, i, k);
        } else {
            open_block(&mut blocks, k);
        }
    }
    assert(w.take(word.len() as int) =~= w);
    blocks
}

/// The partitions of the items into non-empty blocks, handed out one per
/// `next` call: position `k` of an assignment names the block of item `k`,
/// an existing one or the next new one, and the assignments come in
/// lexicographic order; each call searches only as far as the next one.
pub struct SetPartitions<T> {
    items: Vec<T>,
    last: Vec<usize>,
    started: bool,
    done: bool,
}

/// An enumerator of the partitions of the items.
pub fn set_partitions<T: Clone>(items: Vec<T>) -> (res: SetPartitions<T>)
    ensures
        res.wf(),
        res.items() == items@,
        res.cursor() == Cursor::Start,
{
    SetPartitions::new(items)
}

impl<T: Clone> SetPartitions<T> {
    /// The items partitioned.
    pub closed spec fn items(&self) -> Seq<T> {
        self.items@
    }

    /// The assignment handed out last.
    pub closed spec fn cursor(&self) -> Cursor {
        if self.done {
            Cursor::Exhausted
        } else if !self.started {
            Cursor::Start
        } else {
            Cursor::At(ints(self.last@))
        }
    }

    /// What an assignment of this enumerator is.
    pub open spec fn valid(&self) -> spec_fn(Seq<int>) -> bool {
        |a: Seq<int>| is_block_assignment(a) && a.len() == self.items().len()
    }

    pub closed spec fn wf(&self) -> bool {
        self.started && !self.done ==> is_block_assignment(ints(self.last@)) && self.last@.len() == self.items@.len()
    }

    /// Law: calling `next` from the start until the enumerator is exhausted
    /// hands out every partition of the items exactly once, in increasing
    /// lexicographic order of the assignments.
    pub proof fn law_run(&self, list: Seq<Seq<int>>)
        requires
            forall|i: int|
                0 <= i < list.len() + 1 ==> #[trigger] advances(
                    Order::Lex,
                    self.valid(),
                    cursor_run(list)[i],
                    cursor_run(list)[i + 1],
                ),
        ensures
            enumerates(Order::Lex, self.valid(), list),
    {
        let valid = self.valid();
        assert forall|d: Seq<int>| #[trigger] valid(d) implies d.len() == self.items().len() by {}
        law_fixed_length_run(valid, self.items().len(), list);
    }

    /// An enumerator of the partitions of the items.
    pub fn new(items: Vec<T>) -> (res: Self)
        ensures
            res.wf(),
            res.items() == items@,
            res.cursor() == Cursor::Start,
    {
        SetPartitions { items, last: Vec::new(), started: false, done: false }
    }

    /// The next partition, block by block, or `None` once every partition
    /// has been handed out.
    pub fn next(&mut self) -> (res: Option<Vec<Vec<T>>>)
        requires
            old(self).wf(),
        ensures
            final(self).wf(),
            final(self).items() == old(self).items(),
            advances(Order::Lex, old(self).valid(), old(self).cursor(), final(self).cursor()),
            res is Some <==> final(self).cursor() is At,
            final(self).cursor() matches Cursor::At(a) ==> picks_blocks(final(self).items(), blocks_of(a), res.unwrap()@),
    {
        if self.done {
            return None;
        }
        let ghost valid = old(self).valid();
        let ghost prev = word_bound(self.started, self.last@);
        let ghost empty = Seq::<int>::empty();
        let n = self.items.len();
        let mut word: Vec<usize> = Vec::new();
        proof {
            assert(ints(word@) =~= empty);
            assert(ints(self.last@).take(0) =~= empty);
            assert(blocks_of(empty) =~= Seq::<Seq<int>>::empty());
            assert forall|t: Seq<int>| #[trigger] assignment_after(n as int, empty, prev, t)
                <==> valid(t) && after(Order::Lex, prev, t) by {
                assert(t.take(0) =~= empty);
            }
        }
        let found = assignment_after_bound(&mut word, 0, n, &self.last, self.started);
        match found {
            Some(w) => {
                let ghost wv = ints(w@);
                proof {
                    assert(assignment_after(n as int, empty, prev, wv));
                    assert forall|d: Seq<int>| #[trigger] valid(d) && after(Order::Lex, prev, d)
                        implies !precedes(Order::Lex, d, wv) by {
                        assert(assignment_after(n as int, empty, prev, d));
                    }
                    lemma_blocks_positions(wv);
                }
                let blocks = blocks_for(&w);
                let mut partition: Vec<Vec<T>> = Vec::new();
                for c in 0..blocks.len()
                    invariant
                        block_views(blocks@) == blocks_of(wv),
                        forall|x: int, j: int| 0 <= x < blocks_of(wv).len() && 0 <= j < blocks_of(wv)[x].len()
                            ==> 0 <= #[trigger] blocks_of(wv)[x][j] < wv.len(),
                        wv.len() == self.items.len(),
                        partition.len() == c,
                        forall|x: int| 0 <= x < c ==> picks(self.items@, blocks_of(wv)[x], (#[trigger] partition@[x])@),
                {
                    proof {
                        assert(block_views(blocks@)[c as int] == ints(blocks@[c as int]@));
                        assert forall|j: int| 0 <= j < blocks@[c as int].len() implies blocks@[c as int]@[j] < self.items.len() by {
                            assert(ints(blocks@[c as int]@)[j] == blocks@[c as int]@[j]);
                        }
                    }
                    let part = pick(&self.items, &blocks[c]);
                    partition.push(part);
                }
                self.last = w;
                self.started = true;
                Some(partition)
            },
            None => {
                proof {
                    assert forall|d: Seq<int>| #[trigger] valid(d) implies !after(Order::Lex, prev, d) by {
                        assert(!assignment_after(n as int, empty, prev, d));
                    }
                }
                self.done = true;
                None
            },
        }
    }
}

} // verus!

verus! {

/// `blocks` splits the positions of `a` into non-empty blocks, each listing
/// its positions in increasing order: position `k` lies in block `a[k]` and
/// in no other.
pub open spec fn splits_positions(blocks: Seq<Seq<int>>, a: Seq<int>) -> bool {
    &&& forall|b: int| 0 <= b < blocks.len() ==> (#[trigger] blocks[b]).len() > 0
    &&& forall|b: int, j: int| 0 <= b < blocks.len() && 0 <= j < blocks[b].len()
        ==> 0 <= #[trigger] blocks[b][j] < a.len() && a[blocks[b][j]] == b
    &&& forall|b: int, j1: int, j2: int| 0 <= b < blocks.len() && 0 <= j1 < j2 < blocks[b].len()
        ==> #[trigger] blocks[b][j1] < #[trigger] blocks[b][j2]
    &&& forall|k: int| 0 <= k < a.len() ==> 0 <= #[trigger] a[k] < blocks.len() && blocks[a[k]].contains(k)
}

/// Law: the blocks of a block assignment form a partition of its
/// positions: no block is empty, each keeps its positions in order, and
/// every position lies in exactly one block.
pub proof fn law_blocks_partition(a: Seq<int>)
    requires
        is_block_assignment(a),
    ensures
        splits_positions(blocks_of(a), a),
    decreases a.len(),
{
    if a.len() > 0 {
        let p = a.drop_last();
        let k = a.len() - 1;
        let i = a.last();
        lemma_assignment_prefix(a, k);
        assert(a.take(k) == p);
        law_blocks_partition(p);
        assert(joins_or_opens(a, k));
        let old_blocks = blocks_of(p);
        let bl = blocks_of(a);
        assert forall|b: int| 0 <= b < bl.len() implies (#[trigger] bl[b]).len() > 0 by {
            if b < old_blocks.len() && b != i {
                assert(bl[b] == old_blocks[b]);
            }
        }
        assert forall|b: int, j: int| 0 <= b < bl.len() && 0 <= j < bl[b].len()
            implies 0 <= #[trigger] bl[b][j] < a.len() && a[bl[b][j]] == b by {
            if b < old_blocks.len() && j < old_blocks[b].len() {
                assert(bl[b][j] == old_blocks[b][j]);
                assert(a[old_blocks[b][j]] == p[old_blocks[b][j]]);
            }
        }
        assert forall|b: int, j1: int, j2: int| 0 <= b < bl.len() && 0 <= j1 < j2 < bl[b].len()
            implies #[trigger] bl[b][j1] < #[trigger] bl[b][j2] by {
            if b < old_blocks.len() {
                assert(bl[b][j1] == old_blocks[b][j1]);
                if j2 < old_blocks[b].len() {
                    assert(bl[b][j2] == old_blocks[b][j2]);
                }
            }
        }
        assert forall|t: int| 0 <= t < a.len() implies 0 <= #[trigger] a[t] < bl.len() && bl[a[t]].contains(t) by {
            if t < k {
                assert(a[t] == p[t]);
                let j = choose|j: int| 0 <= j < old_blocks[p[t]].len() && old_blocks[p[t]][j] == t;
                assert(bl[a[t]][j] == t);
            } else {
                if i < old_blocks.len() {
                    assert(bl[i][old_blocks[i].len() as int] == k);
                } else {
                    assert(bl[i][0] == k);
                }
            }
        }
    }
}

} // verus!
