//! The order in which every enumerator of this crate hands out its results,
//! and the contract shared by their `next` methods.
use vstd::prelude::*;

verus! {

/// `a` comes strictly before `b` in lexicographic order: at the first
/// position where they differ, `a` holds the smaller value. (A sequence and
/// one of its proper prefixes are not ordered by this.)
pub open spec fn lex_lt(a: Seq<int>, b: Seq<int>) -> bool {
    exists|k: int| #![trigger a[k], b[k]]
        0 <= k < a.len() && k < b.len() && a[k] < b[k] && a.take(k) == b.take(k)
}

/// `a` comes strictly before `b` in reverse lexicographic order: at the
/// first position where they differ, `a` holds the larger value.
pub open spec fn revlex_lt(a: Seq<int>, b: Seq<int>) -> bool {
    exists|k: int| #![trigger a[k], b[k]]
        0 <= k < a.len() && k < b.len() && a[k] > b[k] && a.take(k) == b.take(k)
}

/// Where an enumerator stands: nothing handed out yet, the last tuple handed
/// out, or exhausted.
pub enum Cursor {
    Start,
    At(Seq<int>),
    Exhausted,
}

/// The orders in which the enumerators hand out their tuples.
pub enum Order {
    /// Lexicographic, among tuples of one length.
    Lex,
    /// Shorter tuples first; lexicographic among tuples of one length.
    ShortLex,
    /// Reverse lexicographic.
    RevLex,
}

/// `a` comes strictly before `b` in order `o`.
pub open spec fn precedes(o: Order, a: Seq<int>, b: Seq<int>) -> bool {
    match o {
        Order::Lex => lex_lt(a, b),
        Order::ShortLex => a.len() < b.len() || (a.len() == b.len() && lex_lt(a, b)),
        Order::RevLex => revlex_lt(a, b),
    }
}

/// `d` may still come after what `prev` (`None`: nothing yet) has handed out.
pub open spec fn after(o: Order, prev: Option<Seq<int>>, d: Seq<int>) -> bool {
    match prev {
        Option::None => true,
        Option::Some(p) => precedes(o, p, d),
    }
}

/// `c` is the least valid tuple that comes after `prev`.
pub open spec fn least_after(o: Order, valid: spec_fn(Seq<int>) -> bool, prev: Option<Seq<int>>, c: Seq<int>) -> bool {
    &&& valid(c)
    &&& after(o, prev, c)
    &&& forall|d: Seq<int>| #[trigger] valid(d) && after(o, prev, d) ==> !precedes(o, d, c)
}

/// No valid tuple comes after `prev`.
pub open spec fn none_after(o: Order, valid: spec_fn(Seq<int>) -> bool, prev: Option<Seq<int>>) -> bool {
    forall|d: Seq<int>| #[trigger] valid(d) ==> !after(o, prev, d)
}

/// One step of an enumeration of the valid tuples in increasing order `o`:
/// from `before`, the cursor moves to the least valid tuple after it, or to
/// `Exhausted` when there is none.
pub open spec fn advances(o: Order, valid: spec_fn(Seq<int>) -> bool, before: Cursor, after_: Cursor) -> bool {
    let prev = match before {
        Cursor::At(p) => Option::Some(p),
        _ => Option::None,
    };
    match before {
        Cursor::Exhausted => after_ is Exhausted,
        _ => match after_ {
            Cursor::At(c) => least_after(o, valid, prev, c),
            Cursor::Exhausted => none_after(o, valid, prev),
            Cursor::Start => false,
        },
    }
}

/// `list` holds exactly the valid tuples, each once, in increasing order `o`.
pub open spec fn enumerates(o: Order, valid: spec_fn(Seq<int>) -> bool, list: Seq<Seq<int>>) -> bool {
    &&& forall|t: int| 0 <= t < list.len() ==> #[trigger] valid(list[t])
    &&& forall|s: Seq<int>| #[trigger] valid(s) ==> list.contains(s)
    &&& forall|t: int, u: int| 0 <= t < u < list.len() ==> precedes(o, #[trigger] list[t], #[trigger] list[u])
}

/// `v` holds, position by position, a clone of `items[c[j]]`.
pub open spec fn picks<T: Clone>(items: Seq<T>, c: Seq<int>, v: Seq<T>) -> bool {
    &&& v.len() == c.len()
    &&& forall|j: int| 0 <= j < c.len() ==> cloned(items[c[j]], #[trigger] v[j])
}

/// `b` holds, position by position, a clone of `a`.
pub open spec fn clones<T: Clone>(a: Seq<T>, b: Seq<T>) -> bool {
    &&& b.len() == a.len()
    &&& forall|j: int| 0 <= j < a.len() ==> cloned(a[j], #[trigger] b[j])
}

/// Clones every item of the slice into a new vector.
pub fn copy_items<T: Clone>(items: &[T]) -> (v: Vec<T>)
    ensures
        clones(items@, v@),
{
    let mut v: Vec<T> = Vec::new();
    for j in 0..items.len()
        invariant
            v.len() == j,
            forall|k: int| 0 <= k < j ==> cloned(items@[k], #[trigger] v@[k]),
    {
        v.push(items[j].clone());
    }
    v
}

/// Copies a vector of positions.
pub(crate) fn copy_positions(v: &Vec<usize>) -> (res: Vec<usize>)
    ensures
        res@ == v@,
{
    let mut res: Vec<usize> = Vec::new();
    for j in 0..v.len()
        invariant
            res@ == v@.take(j as int),
    {
        res.push(v[j]);
        assert(v@.take(j + 1) == v@.take(j as int).push(v@[j as int]));
    }
    assert(v@.take(v.len() as int) == v@);
    res
}

/// The indices as mathematical integers.
pub open spec fn ints(s: Seq<usize>) -> Seq<int> {
    s.map_values(|x: usize| x as int)
}

/// Clones `items[idx[j]]` for each `j`, in order.
pub fn pick<T: Clone>(items: &Vec<T>, idx: &Vec<usize>) -> (v: Vec<T>)
    requires
        forall|j: int| 0 <= j < idx.len() ==> idx[j] < items.len(),
    ensures
        picks(items@, ints(idx@), v@),
{
    let mut v: Vec<T> = Vec::new();
    for j in 0..idx.len()
        invariant
            forall|k: int| 0 <= k < idx.len() ==> idx[k] < items.len(),
            v.len() == j,
            forall|k: int| 0 <= k < j ==> cloned(items@[ints(idx@)[k]], #[trigger] v@[k]),
    {
        v.push(items[idx[j]].clone());
    }
    v
}

} // verus!

verus! {

/// No sequence comes strictly before itself.
pub proof fn lemma_lex_irreflexive(a: Seq<int>)
    ensures
        !lex_lt(a, a),
{
}

/// Lexicographic order is transitive.
pub proof fn lemma_lex_transitive(a: Seq<int>, b: Seq<int>, c: Seq<int>)
    requires
        lex_lt(a, b),
        lex_lt(b, c),
    ensures
        lex_lt(a, c),
{
    let i = choose|k: int| #![trigger a[k], b[k]] 0 <= k < a.len() && k < b.len() && a[k] < b[k] && a.take(k) == b.take(k);
    let j = choose|k: int| #![trigger b[k], c[k]] 0 <= k < b.len() && k < c.len() && b[k] < c[k] && b.take(k) == c.take(k);
    let k = if i < j { i } else { j };
    assert(a.take(k) =~= c.take(k)) by {
        assert forall|t: int| 0 <= t < k implies a.take(k)[t] == c.take(k)[t] by {
            assert(a.take(i)[t] == b.take(i)[t]);
            assert(b.take(j)[t] == c.take(j)[t]);
        }
    }
    if i < j {
        assert(b.take(j)[i] == c.take(j)[i]);
    } else if j < i {
        assert(a.take(i)[j] == b.take(i)[j]);
    }
    assert(a[k] < c[k]);
}

/// Of two sequences that agree before position `k`, the one smaller at `k`
/// comes first.
pub proof fn lemma_lex_at(a: Seq<int>, b: Seq<int>, k: int)
    requires
        0 <= k < a.len(),
        k < b.len(),
        a.take(k) == b.take(k),
        a[k] < b[k],
    ensures
        lex_lt(a, b),
        !lex_lt(b, a),
{
    assert(a[k] < b[k]);
    if lex_lt(b, a) {
        lemma_lex_transitive(a, b, a);
        lemma_lex_irreflexive(a);
    }
}

/// Reverse lexicographic order is transitive.
pub proof fn lemma_revlex_transitive(a: Seq<int>, b: Seq<int>, c: Seq<int>)
    requires
        revlex_lt(a, b),
        revlex_lt(b, c),
    ensures
        revlex_lt(a, c),
{
    let i = choose|k: int| #![trigger a[k], b[k]] 0 <= k < a.len() && k < b.len() && a[k] > b[k] && a.take(k) == b.take(k);
    let j = choose|k: int| #![trigger b[k], c[k]] 0 <= k < b.len() && k < c.len() && b[k] > c[k] && b.take(k) == c.take(k);
    let k = if i < j { i } else { j };
    assert(a.take(k) =~= c.take(k)) by {
        assert forall|t: int| 0 <= t < k implies a.take(k)[t] == c.take(k)[t] by {
            assert(a.take(i)[t] == b.take(i)[t]);
            assert(b.take(j)[t] == c.take(j)[t]);
        }
    }
    if i < j {
        assert(b.take(j)[i] == c.take(j)[i]);
    } else if j < i {
        assert(a.take(i)[j] == b.take(i)[j]);
    }
    assert(a[k] > c[k]);
}

/// Of two different sequences of one length, one comes before the other.
pub proof fn lemma_lex_total(a: Seq<int>, b: Seq<int>)
    requires
        a.len() == b.len(),
        a != b,
    ensures
        lex_lt(a, b) || lex_lt(b, a),
{
    if forall|k: int| 0 <= k < a.len() ==> a[k] == b[k] {
        assert(a =~= b);
    }
    assert(exists|k: int| 0 <= k < a.len() && a[k] != b[k]);
    lemma_first_difference(a, b, a.len() as int);
    let k = choose|k: int| 0 <= k < a.len() && k < b.len() && a[k] != b[k] && a.take(k) == b.take(k);
    if a[k] < b[k] {
        assert(lex_lt(a, b));
    } else {
        assert(lex_lt(b, a));
    }
}

/// Sequences that differ before `m` have a first position where they
/// differ.
pub proof fn lemma_first_difference(a: Seq<int>, b: Seq<int>, m: int)
    requires
        0 <= m <= a.len(),
        m <= b.len(),
        exists|k: int| 0 <= k < m && a[k] != b[k],
    ensures
        exists|k: int| 0 <= k < a.len() && k < b.len() && a[k] != b[k] && a.take(k) == b.take(k),
    decreases m,
{
    if exists|k: int| 0 <= k < m - 1 && a[k] != b[k] {
        lemma_first_difference(a, b, m - 1);
    } else {
        let k = m - 1;
        assert(a.take(k) =~= b.take(k));
        assert(a[k] != b[k]);
    }
}

/// `precedes(o, ..)` is a strict order: irreflexive and transitive.
pub proof fn lemma_precedes_strict(o: Order, a: Seq<int>, b: Seq<int>, c: Seq<int>)
    ensures
        !precedes(o, a, a),
        precedes(o, a, b) && precedes(o, b, c) ==> precedes(o, a, c),
{
    if precedes(o, a, b) && precedes(o, b, c) {
        if lex_lt(a, b) && lex_lt(b, c) {
            lemma_lex_transitive(a, b, c);
        }
        if o == Order::RevLex {
            lemma_revlex_transitive(a, b, c);
        }
    }
}

/// Law: a list that enumerates the valid tuples, in any of the orders, has
/// one entry per valid tuple: the valid tuples form a finite set whose size
/// is the list's length.
pub proof fn law_enumeration_count(o: Order, valid: spec_fn(Seq<int>) -> bool, list: Seq<Seq<int>>)
    requires
        enumerates(o, valid, list),
    ensures
        Set::new(valid).finite(),
        Set::new(valid).len() == list.len(),
{
    assert(list.no_duplicates()) by {
        assert forall|t: int, u: int| 0 <= t < list.len() && 0 <= u < list.len() && t != u
            implies list[t] != list[u] by {
            lemma_lex_irreflexive(list[t]);
            if t < u {
                assert(precedes(o, list[t], list[u]));
            } else {
                assert(precedes(o, list[u], list[t]));
            }
        }
    }
    list.unique_seq_to_set();
    assert(list.to_set() =~= Set::new(valid)) by {
        assert forall|q: Seq<int>| list.to_set().contains(q) implies Set::new(valid).contains(q) by {
            let t = choose|t: int| 0 <= t < list.len() && list[t] == q;
            assert(valid(list[t]));
        }
    }
}

/// Two lists that enumerate the same valid tuples in the same order are the
/// same list.
pub proof fn lemma_enumeration_unique(o: Order, valid: spec_fn(Seq<int>) -> bool, a: Seq<Seq<int>>, b: Seq<Seq<int>>)
    requires
        enumerates(o, valid, a),
        enumerates(o, valid, b),
    ensures
        a == b,
    decreases a.len(),
{
    if a.len() == 0 {
        if b.len() > 0 {
            assert(valid(b[0]));
        }
        assert(a =~= b);
    } else {
        assert(valid(a[0]));
        if b.len() == 0 {
            assert(b.contains(a[0]));
        }
        assert(valid(b[0]));
        if a[0] != b[0] {
            let u = choose|u: int| 0 <= u < a.len() && a[u] == b[0];
            let v = choose|v: int| 0 <= v < b.len() && b[v] == a[0];
            assert(u > 0 && v > 0);
            assert(precedes(o, a[0], a[u]));
            assert(precedes(o, b[0], b[v]));
            lemma_precedes_strict(o, a[0], b[0], a[0]);
        }
        let first = a[0];
        let rest = |x: Seq<int>| valid(x) && x != first;
        let a2 = a.drop_first();
        let b2 = b.drop_first();
        assert forall|t: int| 0 <= t < a2.len() implies #[trigger] rest(a2[t]) by {
            assert(a2[t] == a[t + 1]);
            assert(precedes(o, a[0], a[t + 1]));
            lemma_precedes_strict(o, a[0], a[0], a[0]);
        }
        assert forall|t: int| 0 <= t < b2.len() implies #[trigger] rest(b2[t]) by {
            assert(b2[t] == b[t + 1]);
            assert(precedes(o, b[0], b[t + 1]));
            lemma_precedes_strict(o, b[0], b[0], b[0]);
        }
        assert forall|x: Seq<int>| #[trigger] rest(x) implies a2.contains(x) && b2.contains(x) by {
            let u = choose|u: int| 0 <= u < a.len() && a[u] == x;
            let v = choose|v: int| 0 <= v < b.len() && b[v] == x;
            assert(a2[u - 1] == x);
            assert(b2[v - 1] == x);
        }
        assert forall|t: int, u: int| 0 <= t < u < a2.len() implies precedes(o, #[trigger] a2[t], #[trigger] a2[u]) by {
            assert(precedes(o, a[t + 1], a[u + 1]));
        }
        assert forall|t: int, u: int| 0 <= t < u < b2.len() implies precedes(o, #[trigger] b2[t], #[trigger] b2[u]) by {
            assert(precedes(o, b[t + 1], b[u + 1]));
        }
        lemma_enumeration_unique(o, rest, a2, b2);
        assert(a =~= b) by {
            assert forall|t: int| 0 <= t < a.len() implies a[t] == b[t] by {
                if t > 0 {
                    assert(a[t] == a2[t - 1]);
                    assert(b[t] == b2[t - 1]);
                }
            }
        }
    }
}

/// Keeping the entries of a list in increasing order `o` that satisfy
/// `keep` gives a list in increasing order `o`, of exactly those entries.
pub proof fn lemma_filter_sorted(o: Order, list: Seq<Seq<int>>, keep: spec_fn(Seq<int>) -> bool)
    requires
        forall|t: int, u: int| 0 <= t < u < list.len() ==> precedes(o, #[trigger] list[t], #[trigger] list[u]),
    ensures
        forall|t: int, u: int| 0 <= t < u < list.filter(keep).len()
            ==> precedes(o, #[trigger] list.filter(keep)[t], #[trigger] list.filter(keep)[u]),
        forall|t: int| 0 <= t < list.filter(keep).len()
            ==> keep(#[trigger] list.filter(keep)[t]) && list.contains(list.filter(keep)[t]),
        forall|t: int| 0 <= t < list.len() && keep(#[trigger] list[t]) ==> list.filter(keep).contains(list[t]),
    decreases list.len(),
{
    reveal(Seq::filter);
    let f = list.filter(keep);
    if list.len() > 0 {
        let d = list.drop_last();
        assert forall|t: int, u: int| 0 <= t < u < d.len() implies precedes(o, #[trigger] d[t], #[trigger] d[u]) by {
            assert(precedes(o, list[t], list[u]));
        }
        lemma_filter_sorted(o, d, keep);
        let sub = d.filter(keep);
        let last = list.last();
        assert forall|t: int| 0 <= t < sub.len() implies precedes(o, #[trigger] sub[t], last) by {
            let u = choose|u: int| 0 <= u < d.len() && d[u] == sub[t];
            assert(precedes(o, list[u], list[list.len() - 1]));
        }
        assert forall|t: int| 0 <= t < sub.len() implies #[trigger] list.contains(sub[t]) by {
            let u = choose|u: int| 0 <= u < d.len() && d[u] == sub[t];
            assert(list[u] == sub[t]);
        }
        if keep(last) {
            assert(f == sub.push(last));
            assert forall|t: int, u: int| 0 <= t < u < f.len() implies precedes(o, #[trigger] f[t], #[trigger] f[u]) by {
                if u < sub.len() {
                    assert(precedes(o, sub[t], sub[u]));
                } else {
                    assert(precedes(o, sub[t], last));
                }
            }
            assert forall|t: int| 0 <= t < f.len() implies keep(#[trigger] f[t]) && list.contains(f[t]) by {
                if t < sub.len() {
                    assert(f[t] == sub[t]);
                } else {
                    assert(list[list.len() - 1] == f[t]);
                }
            }
            assert forall|t: int| 0 <= t < list.len() && keep(#[trigger] list[t]) implies f.contains(list[t]) by {
                if t < list.len() - 1 {
                    assert(d[t] == list[t]);
                    let v = choose|v: int| 0 <= v < sub.len() && sub[v] == d[t];
                    assert(f[v] == sub[v]);
                } else {
                    assert(f[f.len() - 1] == last);
                }
            }
        } else {
            assert(f == sub);
            assert forall|t: int| 0 <= t < list.len() && keep(#[trigger] list[t]) implies f.contains(list[t]) by {
                if t < list.len() - 1 {
                    assert(d[t] == list[t]);
                }
            }
        }
    }
}

/// The handed-out tuples between the start and the end of a run.
pub open spec fn cursor_run(list: Seq<Seq<int>>) -> Seq<Cursor> {
    seq![Cursor::Start] + list.map_values(|t: Seq<int>| Cursor::At(t)) + seq![Cursor::Exhausted]
}

/// Law: an enumerator that moves, one `next` call at a time, from its start
/// through the tuples of `list` to exhaustion has handed out every valid
/// tuple exactly once, in increasing order. It holds for the orders in
/// which any two different valid tuples are ordered one way or the other.
pub proof fn law_run_lists_all(o: Order, valid: spec_fn(Seq<int>) -> bool, list: Seq<Seq<int>>)
    requires
        forall|a: Seq<int>, b: Seq<int>| valid(a) && valid(b) && a != b ==> #[trigger] precedes(o, a, b) || #[trigger] precedes(o, b, a),
        forall|i: int| 0 <= i < list.len() + 1 ==> #[trigger] advances(o, valid, cursor_run(list)[i], cursor_run(list)[i + 1]),
    ensures
        enumerates(o, valid, list),
{
    let run = cursor_run(list);
    assert forall|i: int| 0 <= i < list.len() implies run[i + 1] == Cursor::At(list[i]) by {}
    assert(run[0] == Cursor::Start);
    assert(run[list.len() as int + 1] == Cursor::Exhausted);
    // each handed-out tuple is valid and comes after the previous one
    assert forall|i: int| 0 <= i < list.len() implies #[trigger] valid(list[i])
        && (i > 0 ==> precedes(o, list[i - 1], list[i])) by {
        assert(advances(o, valid, run[i], run[i + 1]));
        if i > 0 {
            assert(run[i] == Cursor::At(list[i - 1]));
        }
    }
    // sorted
    assert forall|t: int, u: int| 0 <= t < u < list.len() implies precedes(o, #[trigger] list[t], #[trigger] list[u]) by {
        lemma_sorted_chain(o, valid, list, t, u);
    }
    // complete
    assert forall|d: Seq<int>| #[trigger] valid(d) implies list.contains(d) by {
        if !list.contains(d) {
            lemma_all_before(o, valid, list, d, list.len() as int);
            if list.len() == 0 {
                assert(advances(o, valid, run[0], run[1]));
            } else {
                assert(advances(o, valid, run[list.len() as int], run[list.len() as int + 1]));
                assert(run[list.len() as int] == Cursor::At(list[list.len() - 1]));
            }
        }
    }
}

proof fn lemma_sorted_chain(o: Order, valid: spec_fn(Seq<int>) -> bool, list: Seq<Seq<int>>, t: int, u: int)
    requires
        0 <= t < u < list.len(),
        forall|i: int| 0 <= i < list.len() ==> #[trigger] valid(list[i]) && (i > 0 ==> precedes(o, list[i - 1], list[i])),
    ensures
        precedes(o, list[t], list[u]),
    decreases u - t,
{
    assert(valid(list[u]));
    if u > t + 1 {
        lemma_sorted_chain(o, valid, list, t, u - 1);
        lemma_precedes_strict(o, list[t], list[u - 1], list[u]);
    }
}

/// A valid tuple that is not handed out comes after each of the first `m`
/// handed-out tuples.
proof fn lemma_all_before(o: Order, valid: spec_fn(Seq<int>) -> bool, list: Seq<Seq<int>>, d: Seq<int>, m: int)
    requires
        0 <= m <= list.len(),
        valid(d),
        !list.contains(d),
        forall|a: Seq<int>, b: Seq<int>| valid(a) && valid(b) && a != b ==> #[trigger] precedes(o, a, b) || #[trigger] precedes(o, b, a),
        forall|i: int| 0 <= i < list.len() + 1 ==> #[trigger] advances(o, valid, cursor_run(list)[i], cursor_run(list)[i + 1]),
    ensures
        forall|i: int| 0 <= i < m ==> precedes(o, #[trigger] list[i], d),
    decreases m,
{
    let run = cursor_run(list);
    if m > 0 {
        lemma_all_before(o, valid, list, d, m - 1);
        let i = m - 1;
        assert(run[i + 1] == Cursor::At(list[i]));
        assert(advances(o, valid, run[i], run[i + 1]));
        if i > 0 {
            assert(run[i] == Cursor::At(list[i - 1]));
            assert(precedes(o, list[i - 1], d));
        } else {
            assert(run[i] == Cursor::Start);
        }
        assert(!precedes(o, d, list[i]));
        assert(list[i] != d) by {
            if list[i] == d {
                assert(list.contains(d));
            }
        }
        assert(valid(list[i]));
        assert(precedes(o, list[i], d) || precedes(o, d, list[i]));
    }
}


/// Law: an enumerator of tuples of one length `n`, in lexicographic order,
/// that runs from its start through `list` to exhaustion has handed out every
/// valid tuple exactly once, in increasing order.
pub proof fn law_fixed_length_run(valid: spec_fn(Seq<int>) -> bool, n: nat, list: Seq<Seq<int>>)
    requires
        forall|d: Seq<int>| #[trigger] valid(d) ==> d.len() == n,
        forall|i: int| 0 <= i < list.len() + 1 ==> #[trigger] advances(Order::Lex, valid, cursor_run(list)[i], cursor_run(list)[i + 1]),
    ensures
        enumerates(Order::Lex, valid, list),
{
    assert forall|a: Seq<int>, b: Seq<int>| valid(a) && valid(b) && a != b
        implies #[trigger] precedes(Order::Lex, a, b) || #[trigger] precedes(Order::Lex, b, a) by {
        lemma_lex_total(a, b);
    }
    law_run_lists_all(Order::Lex, valid, list);
}

/// Law: an enumerator in short-lex order (shorter first, then
/// lexicographic) that runs from its start through `list` to exhaustion has
/// handed out every valid tuple exactly once, in increasing order.
pub proof fn law_shortlex_run(valid: spec_fn(Seq<int>) -> bool, list: Seq<Seq<int>>)
    requires
        forall|i: int| 0 <= i < list.len() + 1 ==> #[trigger] advances(Order::ShortLex, valid, cursor_run(list)[i], cursor_run(list)[i + 1]),
    ensures
        enumerates(Order::ShortLex, valid, list),
{
    assert forall|a: Seq<int>, b: Seq<int>| valid(a) && valid(b) && a != b
        implies #[trigger] precedes(Order::ShortLex, a, b) || #[trigger] precedes(Order::ShortLex, b, a) by {
        if a.len() == b.len() {
            lemma_lex_total(a, b);
        }
    }
    law_run_lists_all(Order::ShortLex, valid, list);
}

} // verus!
