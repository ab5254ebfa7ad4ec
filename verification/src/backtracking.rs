//! Backtracking solvers for classic constraint problems: n-queens, sudoku
//! and simple paths through a grid.
use vstd::prelude::*;
use crate::order::{Cursor, advances, Order, lex_lt, enumerates, ints, after, least_after, none_after, cursor_run, law_fixed_length_run, law_enumeration_count, lemma_lex_irreflexive, lemma_lex_at, precedes, copy_positions};

verus! {

/// The contents of each vector, as integers.
pub open spec fn rows_of(v: Seq<Vec<usize>>) -> Seq<Seq<int>> {
    v.map_values(|x: Vec<usize>| ints(x@))
}

// ---------------------------------------------------------------------------
// N-Queens
// ---------------------------------------------------------------------------

/// Queens in rows `a` and `b` share a column or a diagonal.
pub open spec fn attacks(q: Seq<int>, a: int, b: int) -> bool {
    ||| q[a] == q[b]
    ||| q[a] - q[b] == a - b
    ||| q[a] - q[b] == b - a
}

/// `q[row]` is the column of the queen in each of the first rows of an
/// `n`-by-`n` board, and no two of them attack each other.
pub open spec fn is_placement(n: int, q: Seq<int>) -> bool {
    &&& q.len() <= n
    &&& forall|r: int| 0 <= r < q.len() ==> 0 <= #[trigger] q[r] < n
    &&& forall|a: int, b: int| 0 <= a < b < q.len() ==> !#[trigger] attacks(q, a, b)
}

/// `q` places `n` non-attacking queens on an `n`-by-`n` board, one per row.
pub open spec fn is_queens_solution(n: int, q: Seq<int>) -> bool {
    q.len() == n && is_placement(n, q)
}

/// The tables of taken columns and diagonals describe the placement `q`.
pub open spec fn tables_match(n: int, q: Seq<int>, cols: Seq<bool>, d1: Seq<bool>, d2: Seq<bool>) -> bool {
    &&& cols.len() == n
    &&& d1.len() == 2 * n
    &&& d2.len() == 2 * n
    &&& forall|c: int| 0 <= c < n ==> (cols[c] <==> exists|r: int| 0 <= r < q.len() && #[trigger] q[r] == c)
    &&& forall|d: int| 0 <= d < 2 * n ==> (d1[d] <==> exists|r: int| 0 <= r < q.len() && r + n - #[trigger] q[r] == d)
    &&& forall|d: int| 0 <= d < 2 * n ==> (d2[d] <==> exists|r: int| 0 <= r < q.len() && r + #[trigger] q[r] == d)
}

/// `list[from..]` holds exactly the solutions that extend `prefix`, each once,
/// in increasing lexicographic order.
pub open spec fn lists_extensions(n: int, prefix: Seq<int>, list: Seq<Seq<int>>, from: int) -> bool {
    &&& forall|t: int| from <= t < list.len() ==> is_queens_solution(n, #[trigger] list[t]) && list[t].take(prefix.len() as int) == prefix
    &&& forall|s: Seq<int>| #[trigger] is_queens_solution(n, s) && s.take(prefix.len() as int) == prefix
        ==> exists|t: int| from <= t < list.len() && list[t] == s
    &&& forall|t: int, u: int| from <= t < u < list.len() ==> lex_lt(#[trigger] list[t], #[trigger] list[u])
}

/// Empty tables of taken columns and diagonals for an `n`-by-`n` board.
fn empty_tables(n: usize) -> (res: (Vec<bool>, Vec<bool>, Vec<bool>))
    requires
        n <= usize::MAX / 2,
    ensures
        tables_match(n as int, Seq::<int>::empty(), res.0@, res.1@, res.2@),
{
    let mut cols_used: Vec<bool> = Vec::new();
    let mut diag1_used: Vec<bool> = Vec::new();
    let mut diag2_used: Vec<bool> = Vec::new();
    for _c in 0..n
        invariant
            cols_used.len() == _c,
            forall|c: int| 0 <= c < _c ==> !cols_used@[c],
    {
        cols_used.push(false);
    }
    for _d in 0..2 * n
        invariant
            diag1_used.len() == _d,
            diag2_used.len() == _d,
            forall|d: int| 0 <= d < _d ==> !diag1_used@[d] && !diag2_used@[d],
    {
        diag1_used.push(false);
        diag2_used.push(false);
    }
    (cols_used, diag1_used, diag2_used)
}

/// Every solution to the `n`-queens puzzle, as `solution[row] = col`, in
/// increasing lexicographic order.
fn all_solutions(n: usize) -> (res: Vec<Vec<usize>>)
    requires
        n <= usize::MAX / 2,
    ensures
        enumerates(Order::Lex, |q: Seq<int>| is_queens_solution(n as int, q), rows_of(res@)),
{
    let mut queens: Vec<usize> = Vec::new();
    let (mut cols_used, mut diag1_used, mut diag2_used) = empty_tables(n);
    let mut out: Vec<Vec<usize>> = Vec::new();
    assert(ints(queens@) =~= Seq::<int>::empty());
    solve(0, n, &mut queens, &mut cols_used, &mut diag1_used, &mut diag2_used, &mut out);
    proof {
        let list = rows_of(out@);
        assert forall|s: Seq<int>| #[trigger] is_queens_solution(n as int, s) implies list.contains(s) by {
            assert(s.take(0) == ints(queens@));
            let t = choose|t: int| 0 <= t < list.len() && list[t] == s;
        }
    }
    out
}

/// What a search with the given bound must come after: the bound when
/// `tight`, else nothing.
spec fn bound_of(tight: bool, bound: Seq<usize>) -> Option<Seq<int>> {
    if tight {
        Option::Some(ints(bound))
    } else {
        Option::None
    }
}

/// `s` is a solution that extends the placement `q` and comes after `prev`.
spec fn extends_after(n: int, q: Seq<int>, prev: Option<Seq<int>>, s: Seq<int>) -> bool {
    &&& is_queens_solution(n, s)
    &&& s.take(q.len() as int) == q
    &&& after(Order::Lex, prev, s)
}

/// The least solution that extends `queens` and comes after `bound` (when
/// `tight`; after nothing otherwise), with the tables left as they were.
fn first_after(
    row: usize,
    n: usize,
    queens: &mut Vec<usize>,
    cols_used: &mut Vec<bool>,
    diag1_used: &mut Vec<bool>,
    diag2_used: &mut Vec<bool>,
    bound: &Vec<usize>,
    tight: bool,
) -> (res: Option<Vec<usize>>)
    requires
        n <= usize::MAX / 2,
        row == old(queens).len(),
        is_placement(n as int, ints(old(queens)@)),
        tables_match(n as int, ints(old(queens)@), old(cols_used)@, old(diag1_used)@, old(diag2_used)@),
        tight ==> is_queens_solution(n as int, ints(bound@)),
        tight ==> ints(bound@).take(row as int) == ints(old(queens)@),
    ensures
        final(queens)@ == old(queens)@,
        final(cols_used)@ == old(cols_used)@,
        final(diag1_used)@ == old(diag1_used)@,
        final(diag2_used)@ == old(diag2_used)@,
        ({
            let q = ints(old(queens)@);
            let prev = bound_of(tight, bound@);
            match res {
                Option::Some(s) => extends_after(n as int, q, prev, ints(s@)) && forall|t: Seq<int>|
                    #[trigger] extends_after(n as int, q, prev, t) ==> !lex_lt(t, ints(s@)),
                Option::None => forall|t: Seq<int>| !#[trigger] extends_after(n as int, q, prev, t),
            }
        }),
    decreases n - row,
{
    let ghost q = ints(queens@);
    let ghost prev = bound_of(tight, bound@);
    if row == n {
        proof {
            assert forall|t: Seq<int>| #[trigger] extends_after(n as int, q, prev, t) implies t == q by {
                assert(t.take(n as int) =~= t);
            }
            lemma_lex_irreflexive(q);
        }
        if tight {
            proof {
                assert(ints(bound@).take(n as int) =~= ints(bound@));
            }
            return None;
        }
        let s = copy_positions(queens);
        proof {
            assert(q.take(n as int) =~= q);
            assert(extends_after(n as int, q, prev, ints(s@)));
        }
        return Some(s);
    }
    let mut col: usize = if tight { bound[row] } else { 0 };
    proof {
        if tight {
            assert(ints(bound@)[row as int] < n);
            assert forall|t: Seq<int>| #[trigger] extends_after(n as int, q, prev, t) implies t[row as int] >= col by {
                if t[row as int] < col {
                    assert(t.take(row as int) == ints(bound@).take(row as int));
                    lemma_lex_at(t, ints(bound@), row as int);
                }
            }
        }
    }
    while col < n
        invariant
            row == queens.len(),
            row < n,
            n <= usize::MAX / 2,
            queens@ == old(queens)@,
            cols_used@ == old(cols_used)@,
            diag1_used@ == old(diag1_used)@,
            diag2_used@ == old(diag2_used)@,
            q == ints(queens@),
            is_placement(n as int, q),
            tables_match(n as int, q, cols_used@, diag1_used@, diag2_used@),
            prev == bound_of(tight, bound@),
            tight ==> is_queens_solution(n as int, ints(bound@)),
            tight ==> ints(bound@).take(row as int) == q,
            tight ==> col >= bound@[row as int],
            forall|t: Seq<int>| #[trigger] extends_after(n as int, q, prev, t) ==> t[row as int] >= col,
        decreases n - col,
    {
        let d1 = row + n - col;
        let d2 = row + col;
        if !(cols_used[col] || diag1_used[d1] || diag2_used[d2]) {
            place_queen(row, col, n, queens, cols_used, diag1_used, diag2_used);
            let ghost q2 = ints(queens@);
            let sub_tight = tight && col == bound[row];
            let ghost sub_prev = bound_of(sub_tight, bound@);
            proof {
                if sub_tight {
                    assert(ints(bound@).take(row + 1) =~= ints(bound@).take(row as int).push(col as int));
                }
            }
            let found = first_after(row + 1, n, queens, cols_used, diag1_used, diag2_used, bound, sub_tight);
            remove_queen(row, col, n, queens, cols_used, diag1_used, diag2_used);
            proof {
                assert(queens@ =~= old(queens)@);
                assert(cols_used@ =~= old(cols_used)@);
                assert(diag1_used@ =~= old(diag1_used)@);
                assert(diag2_used@ =~= old(diag2_used)@);
                // the solutions through this column are those of the sub-search
                assert forall|t: Seq<int>| #[trigger] extends_after(n as int, q, prev, t) && t[row as int] == col
                    implies extends_after(n as int, q2, sub_prev, t) by {
                    assert(t.take(row + 1) =~= t.take(row as int).push(t[row as int]));
                    if tight && !sub_tight {
                        assert(ints(bound@)[row as int] < col);
                    }
                }
            }
            match found {
                Some(s) => {
                    proof {
                        let sv = ints(s@);
                        assert(sv.take(row as int) =~= sv.take(row + 1).take(row as int));
                        assert(sv[row as int] == sv.take(row + 1)[row as int]);
                        assert(sv[row as int] == col);
                        assert(q2.take(row as int) =~= q);
                        assert(sv.take(row as int) == q);
                        if tight && !sub_tight {
                            assert(sv.take(row as int) == ints(bound@).take(row as int));
                            lemma_lex_at(ints(bound@), sv, row as int);
                        }
                        assert(extends_after(n as int, q, prev, sv));
                        assert forall|t: Seq<int>| #[trigger] extends_after(n as int, q, prev, t) implies !lex_lt(t, sv) by {
                            if t[row as int] != col {
                                assert(t.take(row as int) == sv.take(row as int));
                                lemma_lex_at(sv, t, row as int);
                            } else {
                                assert(extends_after(n as int, q2, sub_prev, t));
                            }
                        }
                    }
                    return Some(s);
                },
                None => {
                    proof {
                        assert forall|t: Seq<int>| #[trigger] extends_after(n as int, q, prev, t) implies t[row as int] >= col + 1 by {
                            if t[row as int] == col {
                                assert(extends_after(n as int, q2, sub_prev, t));
                            }
                        }
                    }
                },
            }
        } else {
            proof {
                lemma_blocked(n as int, q, col as int, cols_used@, diag1_used@, diag2_used@);
                assert forall|t: Seq<int>| #[trigger] extends_after(n as int, q, prev, t) implies t[row as int] >= col + 1 by {
                    assert(is_queens_solution(n as int, t));
                }
            }
        }
        col += 1;
    }
    proof {
        assert forall|t: Seq<int>| !#[trigger] extends_after(n as int, q, prev, t) by {
            if extends_after(n as int, q, prev, t) {
                assert(t[row as int] < n);
            }
        }
    }
    None
}

/// The solutions to the `n`-queens puzzle, as `solution[row] = col`, handed
/// out one per `next` call in increasing lexicographic order; each call
/// searches only as far as the next solution.
pub struct NQueens {
    n: usize,
    last: Vec<usize>,
    started: bool,
    done: bool,
}

/// An enumerator of the solutions to the `n`-queens puzzle.
pub fn n_queens(n: usize) -> (res: NQueens)
    requires
        n <= usize::MAX / 2,
    ensures
        res.wf(),
        res.size() == n,
        res.cursor() == Cursor::Start,
{
    NQueens::new(n)
}

impl NQueens {
    /// The side of the board.
    pub closed spec fn size(&self) -> nat {
        self.n as nat
    }

    /// The solution handed out last.
    pub closed spec fn cursor(&self) -> Cursor {
        if self.done {
            Cursor::Exhausted
        } else if !self.started {
            Cursor::Start
        } else {
            Cursor::At(ints(self.last@))
        }
    }

    /// What a solution of this enumerator is.
    pub open spec fn valid(&self) -> spec_fn(Seq<int>) -> bool {
        |q: Seq<int>| is_queens_solution(self.size() as int, q)
    }

    pub closed spec fn wf(&self) -> bool {
        &&& self.n <= usize::MAX / 2
        &&& self.started && !self.done ==> is_queens_solution(self.n as int, ints(self.last@))
    }

    /// Law: calling `next` from the start until the enumerator is exhausted
    /// hands out every solution exactly once, in increasing lexicographic
    /// order.
    pub proof fn law_run(&self, list: Seq<Seq<int>>)
        requires
            forall|i: int|
                0 <= i < list.len() + 1 ==> #[trigger] advances(
                    Order::Lex,
                    self.valid(),
                    cursor_run(list)[i],
                    cursor_run(list)[i + 1],
                ),
        ensures
            enumerates(Order::Lex, self.valid(), list),
    {
        let valid = self.valid();
        assert forall|d: Seq<int>| #[trigger] valid(d) implies d.len() == self.size() by {}
        law_fixed_length_run(valid, self.size(), list);
    }

    /// Law: a run of `next` calls from the start to exhaustion hands out as
    /// many solutions as `count_solutions` counts for the board.
    pub proof fn law_count(&self, list: Seq<Seq<int>>)
        requires
            forall|i: int|
                0 <= i < list.len() + 1 ==> #[trigger] advances(
                    Order::Lex,
                    self.valid(),
                    cursor_run(list)[i],
                    cursor_run(list)[i + 1],
                ),
        ensures
            list.len() == Set::new(|q: Seq<int>| is_queens_solution(self.size() as int, q)).len(),
    {
        self.law_run(list);
        law_enumeration_count(Order::Lex, self.valid(), list);
        assert(Set::new(self.valid()) =~= Set::new(|q: Seq<int>| is_queens_solution(self.size() as int, q)));
    }

    /// An enumerator of the solutions for an `n`-by-`n` board.
    pub fn new(n: usize) -> (res: Self)
        requires
            n <= usize::MAX / 2,
        ensures
            res.wf(),
            res.size() == n,
            res.cursor() == Cursor::Start,
    {
        NQueens { n, last: Vec::new(), started: false, done: false }
    }

    /// The next solution, or `None` once every solution has been handed out.
    pub fn next(&mut self) -> (res: Option<Vec<usize>>)
        requires
            old(self).wf(),
        ensures
            final(self).wf(),
            final(self).size() == old(self).size(),
            advances(Order::Lex, old(self).valid(), old(self).cursor(), final(self).cursor()),
            res is Some <==> final(self).cursor() is At,
            final(self).cursor() matches Cursor::At(q) ==> ints(res.unwrap()@) == q,
    {
        if self.done {
            return None;
        }
        let n = self.n;
        let ghost valid = old(self).valid();
        let ghost prev = bound_of(self.started, self.last@);
        let mut queens: Vec<usize> = Vec::new();
        let (mut cols_used, mut diag1_used, mut diag2_used) = empty_tables(n);
        proof {
            assert(ints(queens@) =~= Seq::<int>::empty());
            assert(ints(self.last@).take(0) =~= Seq::<int>::empty());
            assert forall|t: Seq<int>| #[trigger] extends_after(n as int, Seq::<int>::empty(), prev, t)
                <==> valid(t) && after(Order::Lex, prev, t) by {
                assert(t.take(0) =~= Seq::<int>::empty());
            }
        }
        let found = first_after(0, n, &mut queens, &mut cols_used, &mut diag1_used, &mut diag2_used, &self.last, self.started);
        match found {
            Some(s) => {
                proof {
                    let sv = ints(s@);
                    assert(extends_after(n as int, Seq::<int>::empty(), prev, sv));
                    assert forall|d: Seq<int>| #[trigger] valid(d) && after(Order::Lex, prev, d)
                        implies !precedes(Order::Lex, d, sv) by {
                        assert(extends_after(n as int, Seq::<int>::empty(), prev, d));
                    }
                }
                self.last = copy_positions(&s);
                self.started = true;
                Some(s)
            },
            None => {
                proof {
                    assert forall|d: Seq<int>| #[trigger] valid(d) implies !after(Order::Lex, prev, d) by {
                        assert(!extends_after(n as int, Seq::<int>::empty(), prev, d));
                    }
                }
                self.done = true;
                None
            },
        }
    }
}

/// Puts a queen in column `col` of row `row`, marking its column and both
/// diagonals as taken.
fn place_queen(
    row: usize,
    col: usize,
    n: usize,
    queens: &mut Vec<usize>,
    cols_used: &mut Vec<bool>,
    diag1_used: &mut Vec<bool>,
    diag2_used: &mut Vec<bool>,
)
    requires
        n <= usize::MAX / 2,
        row == old(queens).len(),
        row < n,
        col < n,
        is_placement(n as int, ints(old(queens)@)),
        tables_match(n as int, ints(old(queens)@), old(cols_used)@, old(diag1_used)@, old(diag2_used)@),
        !old(cols_used)@[col as int],
        !old(diag1_used)@[row + n - col],
        !old(diag2_used)@[row + col],
    ensures
        final(queens)@ == old(queens)@.push(col),
        ints(final(queens)@) == ints(old(queens)@).push(col as int),
        is_placement(n as int, ints(final(queens)@)),
        tables_match(n as int, ints(final(queens)@), final(cols_used)@, final(diag1_used)@, final(diag2_used)@),
        final(cols_used)@ == old(cols_used)@.update(col as int, true),
        final(diag1_used)@ == old(diag1_used)@.update(row + n - col, true),
        final(diag2_used)@ == old(diag2_used)@.update(row + col, true),
{
    let ghost q = ints(queens@);
    let d1 = row + n - col;
    let d2 = row + col;
    queens.push(col);
    cols_used.set(col, true);
    diag1_used.set(d1, true);
    diag2_used.set(d2, true);
    let ghost q2 = ints(queens@);
    proof {
        assert(q2 == q.push(col as int));
        assert forall|a: int, b: int| 0 <= a < b < q2.len() implies !#[trigger] attacks(q2, a, b) by {
            if b == row {
                if attacks(q2, a, b) {
                    assert(q[a] == q2[a]);
                }
            } else {
                assert(q2[a] == q[a] && q2[b] == q[b]);
                assert(!attacks(q, a, b));
            }
        }
        assert(is_placement(n as int, q2));
        assert forall|c: int| 0 <= c < n implies (cols_used@[c] <==> exists|r: int| 0 <= r < q2.len() && #[trigger] q2[r] == c) by {
            if c == col {
                assert(q2[row as int] == c);
            } else if exists|r: int| 0 <= r < q2.len() && #[trigger] q2[r] == c {
                let r = choose|r: int| 0 <= r < q2.len() && #[trigger] q2[r] == c;
                assert(q[r] == c);
            } else if old(cols_used)@[c] {
                let r = choose|r: int| 0 <= r < q.len() && #[trigger] q[r] == c;
                assert(q2[r] == c);
            }
        }
        assert forall|d: int| 0 <= d < 2 * n implies (diag1_used@[d] <==> exists|r: int| 0 <= r < q2.len() && r + n - #[trigger] q2[r] == d) by {
            if d == d1 {
                assert(row + n - q2[row as int] == d);
            } else if exists|r: int| 0 <= r < q2.len() && r + n - #[trigger] q2[r] == d {
                let r = choose|r: int| 0 <= r < q2.len() && r + n - #[trigger] q2[r] == d;
                assert(r + n - q[r] == d);
            } else if old(diag1_used)@[d] {
                let r = choose|r: int| 0 <= r < q.len() && r + n - #[trigger] q[r] == d;
                assert(r + n - q2[r] == d);
            }
        }
        assert forall|d: int| 0 <= d < 2 * n implies (diag2_used@[d] <==> exists|r: int| 0 <= r < q2.len() && r + #[trigger] q2[r] == d) by {
            if d == d2 {
                assert(row + q2[row as int] == d);
            } else if exists|r: int| 0 <= r < q2.len() && r + #[trigger] q2[r] == d {
                let r = choose|r: int| 0 <= r < q2.len() && r + #[trigger] q2[r] == d;
                assert(r + q[r] == d);
            } else if old(diag2_used)@[d] {
                let r = choose|r: int| 0 <= r < q.len() && r + #[trigger] q[r] == d;
                assert(r + q2[r] == d);
            }
        }
    }
}

/// Takes the queen of row `row`, in column `col`, off the board again.
fn remove_queen(
    row: usize,
    col: usize,
    n: usize,
    queens: &mut Vec<usize>,
    cols_used: &mut Vec<bool>,
    diag1_used: &mut Vec<bool>,
    diag2_used: &mut Vec<bool>,
)
    requires
        n <= usize::MAX / 2,
        row < n,
        col < n,
        old(queens).len() == row + 1,
        old(cols_used).len() == n,
        old(diag1_used).len() == 2 * n,
        old(diag2_used).len() == 2 * n,
    ensures
        final(queens)@ == old(queens)@.drop_last(),
        final(cols_used)@ == old(cols_used)@.update(col as int, false),
        final(diag1_used)@ == old(diag1_used)@.update(row + n - col, false),
        final(diag2_used)@ == old(diag2_used)@.update(row + col, false),
{
    queens.pop();
    cols_used.set(col, false);
    diag1_used.set(row + n - col, false);
    diag2_used.set(row + col, false);
}

/// A column or diagonal that the tables mark as taken cannot hold the queen
/// of the next row.
proof fn lemma_blocked(n: int, q: Seq<int>, col: int, cols_used: Seq<bool>, diag1_used: Seq<bool>, diag2_used: Seq<bool>)
    requires
        0 <= col < n,
        q.len() < n,
        tables_match(n, q, cols_used, diag1_used, diag2_used),
        cols_used[col] || diag1_used[q.len() + n - col] || diag2_used[q.len() + col],
    ensures
        forall|s: Seq<int>| #[trigger] is_queens_solution(n, s) && s.take(q.len() as int) == q ==> s[q.len() as int] != col,
{
    let row = q.len();
    let d1 = row + n - col;
    let d2 = row + col;
    assert forall|s: Seq<int>| #[trigger] is_queens_solution(n, s) && s.take(row as int) == q implies s[row as int] != col by {
        if s[row as int] == col {
            if cols_used[col] {
                let r = choose|r: int| 0 <= r < q.len() && #[trigger] q[r] == col;
                assert(s[r] == s.take(row as int)[r]);
                assert(attacks(s, r, row as int));
            } else if diag1_used[d1] {
                let r = choose|r: int| 0 <= r < q.len() && r + n - #[trigger] q[r] == d1;
                assert(s[r] == s.take(row as int)[r]);
                assert(attacks(s, r, row as int));
            } else {
                let r = choose|r: int| 0 <= r < q.len() && r + #[trigger] q[r] == d2;
                assert(s[r] == s.take(row as int)[r]);
                assert(attacks(s, r, row as int));
            }
        }
    }
}

fn solve(
    row: usize,
    n: usize,
    queens: &mut Vec<usize>,
    cols_used: &mut Vec<bool>,
    diag1_used: &mut Vec<bool>,
    diag2_used: &mut Vec<bool>,
    out: &mut Vec<Vec<usize>>,
)
    requires
        n <= usize::MAX / 2,
        row == old(queens).len(),
        is_placement(n as int, ints(old(queens)@)),
        tables_match(n as int, ints(old(queens)@), old(cols_used)@, old(diag1_used)@, old(diag2_used)@),
    ensures
        final(queens)@ == old(queens)@,
        final(cols_used)@ == old(cols_used)@,
        final(diag1_used)@ == old(diag1_used)@,
        final(diag2_used)@ == old(diag2_used)@,
        final(out)@.len() >= old(out)@.len(),
        final(out)@.take(old(out)@.len() as int) == old(out)@,
        lists_extensions(n as int, ints(old(queens)@), rows_of(final(out)@), old(out)@.len() as int),
    decreases n - row,
{
    let ghost q = ints(queens@);
    let ghost start = out@.len() as int;
    if row == n {
        let snap = copy_positions(queens);
        out.push(snap);
        proof {
            let list = rows_of(out@);
            assert(list[start] == q);
            assert(q.take(q.len() as int) == q);
            assert forall|s: Seq<int>| #[trigger] is_queens_solution(n as int, s) && s.take(q.len() as int) == q
                implies exists|t: int| start <= t < list.len() && list[t] == s by {
                assert(s.take(n as int) == s);
                assert(list[start] == s);
            }
            assert(out@.take(start) == old(out)@);
        }
        return;
    }
    let mut col: usize = 0;
    while col < n
        invariant
            row == queens.len(),
            row < n,
            n <= usize::MAX / 2,
            queens@ == old(queens)@,
            cols_used@ == old(cols_used)@,
            diag1_used@ == old(diag1_used)@,
            diag2_used@ == old(diag2_used)@,
            q == ints(queens@),
            is_placement(n as int, q),
            tables_match(n as int, q, cols_used@, diag1_used@, diag2_used@),
            start == old(out)@.len(),
            col <= n,
            out@.len() >= start,
            out@.take(start) == old(out)@,
            forall|t: int| start <= t < out@.len() ==> is_queens_solution(n as int, #[trigger] rows_of(out@)[t])
                && rows_of(out@)[t].take(row as int) == q && rows_of(out@)[t][row as int] < col,
            forall|s: Seq<int>| #[trigger] is_queens_solution(n as int, s) && s.take(row as int) == q && s[row as int] < col
                ==> exists|t: int| start <= t < out@.len() && rows_of(out@)[t] == s,
            forall|t: int, u: int| start <= t < u < out@.len() ==> lex_lt(#[trigger] rows_of(out@)[t], #[trigger] rows_of(out@)[u]),
        decreases n - col,
    {
        let d1 = row + n - col;
        let d2 = row + col;
        if !(cols_used[col] || diag1_used[d1] || diag2_used[d2]) {
            place_queen(row, col, n, queens, cols_used, diag1_used, diag2_used);
            let ghost q2 = ints(queens@);
            let ghost mid = out@.len() as int;
            let ghost out_before = out@;
            solve(row + 1, n, queens, cols_used, diag1_used, diag2_used, out);
            remove_queen(row, col, n, queens, cols_used, diag1_used, diag2_used);
            proof {
                let list = rows_of(out@);
                assert(queens@ == old(queens)@);
                assert(cols_used@ == old(cols_used)@);
                assert(diag1_used@ == old(diag1_used)@);
                assert(diag2_used@ == old(diag2_used)@);
                assert(out@.take(mid) == out_before);
                assert(out@.take(start) == old(out)@) by {
                    assert(out@.take(mid).take(start) =~= out@.take(start));
                }
                assert forall|t: int| start <= t < mid implies #[trigger] list[t] == rows_of(out_before)[t] by {
                    assert(out@.take(mid)[t] == out_before[t]);
                }
                assert forall|t: int| start <= t < out@.len() implies is_queens_solution(n as int, #[trigger] list[t])
                    && list[t].take(row as int) == q && list[t][row as int] < col + 1 by {
                    if t >= mid {
                        assert(list[t].take(row + 1) == q2);
                        assert(list[t].take(row as int) == list[t].take(row + 1).take(row as int));
                        assert(list[t][row as int] == list[t].take(row + 1)[row as int]);
                    }
                }
                assert forall|s: Seq<int>| #[trigger] is_queens_solution(n as int, s) && s.take(row as int) == q && s[row as int] < col + 1
                    implies exists|t: int| start <= t < out@.len() && list[t] == s by {
                    if s[row as int] == col {
                        assert(s.take(row + 1) == q2);
                        assert(is_queens_solution(n as int, s) && s.take(q2.len() as int) == q2);
                    } else {
                        let t = choose|t: int| start <= t < mid && rows_of(out_before)[t] == s;
                        assert(list[t] == s);
                    }
                }
                assert forall|t: int, u: int| start <= t < u < out@.len() implies lex_lt(#[trigger] list[t], #[trigger] list[u]) by {
                    if u >= mid && t < mid {
                        assert(list[t][row as int] < col);
                        assert(list[u].take(row + 1) == q2);
                        assert(list[u][row as int] == list[u].take(row + 1)[row as int]);
                        assert(list[u].take(row as int) == list[u].take(row + 1).take(row as int));
                        assert(list[t].take(row as int) == list[u].take(row as int));
                    }
                }
            }
        } else {
            proof {
                lemma_blocked(n as int, q, col as int, cols_used@, diag1_used@, diag2_used@);
            }
        }
        col += 1;
    }
    proof {
        let list = rows_of(out@);
        assert forall|s: Seq<int>| #[trigger] is_queens_solution(n as int, s) && s.take(q.len() as int) == q
            implies exists|t: int| start <= t < list.len() && list[t] == s by {
            assert(s[row as int] < n);
        }
    }
}

/// The number of solutions to the `n`-queens puzzle.
pub fn count_solutions(n: usize) -> (count: usize)
    requires
        n <= usize::MAX / 2,
    ensures
        count == Set::new(|q: Seq<int>| is_queens_solution(n as int, q)).len(),
{
    let all = all_solutions(n);
    proof {
        law_enumeration_count(Order::Lex, |q: Seq<int>| is_queens_solution(n as int, q), rows_of(all@));
    }
    all.len()
}


// ---------------------------------------------------------------------------
// Text
// ---------------------------------------------------------------------------

/// The lines, with a newline between each two of them.
pub open spec fn join_lines(lines: Seq<Seq<char>>) -> Seq<char>
    decreases lines.len(),
{
    if lines.len() == 0 {
        Seq::empty()
    } else if lines.len() == 1 {
        lines[0]
    } else {
        join_lines(lines.drop_last()) + seq!['\n'] + lines.last()
    }
}

/// One row of an `n`-column board with its queen in column `col`: a `Q` or a
/// `.` per column, separated by single spaces.
pub open spec fn board_row(n: int, col: int) -> Seq<char> {
    Seq::new(if n == 0 { 0 } else { (2 * n - 1) as nat }, |k: int|
        if k % 2 == 1 { ' ' } else if k / 2 == col { 'Q' } else { '.' })
}

/// The text of a board with a queen at `(row, solution[row])` in each row.
pub open spec fn board_text(solution: Seq<usize>) -> Seq<char> {
    join_lines(Seq::new(solution.len(), |r: int| board_row(solution.len() as int, solution[r] as int)))
}

/// Appends the line to the text, after a newline unless the text is the
/// first line.
fn push_line(text: &mut String, line: &str, first: bool)
    ensures
        final(text)@ == (if first { old(text)@ + line@ } else { old(text)@ + seq!['\n'] + line@ }),
{
    if !first {
        text.append("\n");
        proof { reveal_strlit("\n"); }
    }
    text.append(line);
}

/// Pretty-print an N-Queens solution as a grid.
pub fn format_board(solution: &[usize]) -> (res: String)
    ensures
        res@ == board_text(solution@),
{
    let n = solution.len();
    let ghost lines = Seq::new(n as nat, |r: int| board_row(n as int, solution@[r] as int));
    let mut text = String::new();
    for row in 0..n
        invariant
            n == solution@.len(),
            lines == Seq::new(n as nat, |r: int| board_row(n as int, solution@[r] as int)),
            text@ == join_lines(lines.take(row as int)),
    {
        let mut line = String::new();
        for col in 0..n
            invariant
                n == solution@.len(),
                0 <= row < n,
                line@ == board_row(n as int, solution@[row as int] as int).take(if col == 0 { 0 } else { 2 * col - 1 }),
        {
            let ghost before = line@;
            let ghost full = board_row(n as int, solution@[row as int] as int);
            if col > 0 {
                line.append(" ");
                proof { reveal_strlit(" "); }
            }
            if solution[row] == col {
                line.append("Q");
                proof { reveal_strlit("Q"); }
            } else {
                line.append(".");
                proof { reveal_strlit("."); }
            }
            proof {
                assert(line@ =~= full.take(2 * col + 1));
            }
        }
        proof {
            let full = board_row(n as int, solution@[row as int] as int);
            assert(line@ =~= full);
            assert(lines.take(row + 1).drop_last() =~= lines.take(row as int));
        }
        push_line(&mut text, line.as_str(), row == 0);
        proof {
            if row == 0 {
                assert(lines.take(1) =~= seq![lines[0]]);
                assert(join_lines(lines.take(0)) == Seq::<char>::empty());
                assert(text@ =~= join_lines(lines.take(1)));
            }
        }
    }
    proof {
        assert(lines.take(n as int) =~= lines);
    }
    text
}


// ---------------------------------------------------------------------------
// Sudoku
// ---------------------------------------------------------------------------

/// A 9×9 grid, 0 = empty.
pub type Grid = Vec<Vec<u8>>;

/// The character of a decimal digit.
pub open spec fn digit_char(d: nat) -> char {
    (d + 48) as char
}

/// The decimal digits of `n`, most significant first.
pub open spec fn decimal(n: nat) -> Seq<char>
    decreases n,
{
    if n < 10 {
        seq![digit_char(n)]
    } else {
        decimal(n / 10) + seq![digit_char(n % 10)]
    }
}

/// The text of one decimal digit.
fn digit_str(d: usize) -> (s: &'static str)
    requires
        d < 10,
    ensures
        s@ == seq![digit_char(d as nat)],
{
    proof {
        reveal_strlit("0");
        reveal_strlit("1");
        reveal_strlit("2");
        reveal_strlit("3");
        reveal_strlit("4");
        reveal_strlit("5");
        reveal_strlit("6");
        reveal_strlit("7");
        reveal_strlit("8");
        reveal_strlit("9");
    }
    match d {
        0 => "0",
        1 => "1",
        2 => "2",
        3 => "3",
        4 => "4",
        5 => "5",
        6 => "6",
        7 => "7",
        8 => "8",
        _ => "9",
    }
}

/// Appends the decimal digits of `n`.
fn push_decimal(text: &mut String, n: usize)
    ensures
        final(text)@ == old(text)@ + decimal(n as nat),
    decreases n,
{
    if n >= 10 {
        push_decimal(text, n / 10);
    }
    text.append(digit_str(n % 10));
}

/// A character that stands for a cell: a digit, or `.` for an empty cell.
pub open spec fn is_cell_char(ch: char) -> bool {
    ('0' <= ch && ch <= '9') || ch == '.'
}

/// The value of a cell character: its digit, or 0 for `.`.
pub open spec fn cell_value(ch: char) -> u8 {
    if ch == '.' { 0 } else { (ch as int - 48) as u8 }
}

/// The cells that the text holds, in order: its digits and dots, ignoring
/// every other character.
pub open spec fn cells_of(text: Seq<char>) -> Seq<u8>
    decreases text.len(),
{
    if text.len() == 0 {
        Seq::empty()
    } else if is_cell_char(text.last()) {
        cells_of(text.drop_last()).push(cell_value(text.last()))
    } else {
        cells_of(text.drop_last())
    }
}

/// Law: the cells that a text holds are its ASCII digits `0`..`9` and its
/// dots, in order, every other character skipped; a digit stands for its
/// value and a dot for 0, so no cell exceeds 9.
pub proof fn law_cells_are_digits_and_dots(text: Seq<char>)
    ensures
        cells_of(text) == text.filter(|ch: char| ('0' <= ch && ch <= '9') || ch == '.').map_values(
            |ch: char| if ch == '.' { 0u8 } else { (ch as int - 48) as u8 },
        ),
        forall|i: int| 0 <= i < cells_of(text).len() ==> #[trigger] cells_of(text)[i] <= 9,
    decreases text.len(),
{
    let keep = |ch: char| ('0' <= ch && ch <= '9') || ch == '.';
    let value = |ch: char| if ch == '.' { 0u8 } else { (ch as int - 48) as u8 };
    reveal(Seq::filter);
    if text.len() == 0 {
        assert(text.filter(keep) =~= Seq::<char>::empty());
        assert(text.filter(keep).map_values(value) =~= Seq::<u8>::empty());
    } else {
        let d = text.drop_last();
        law_cells_are_digits_and_dots(d);
        let ch = text.last();
        if keep(ch) {
            assert(text.filter(keep) == d.filter(keep).push(ch));
            assert(text.filter(keep).map_values(value) =~= d.filter(keep).map_values(value).push(value(ch)));
            assert(is_cell_char(ch));
            assert(cell_value(ch) == value(ch));
        } else {
            assert(text.filter(keep) == d.filter(keep));
            assert(!is_cell_char(ch));
        }
        let c = cells_of(text);
        assert forall|i: int| 0 <= i < c.len() implies #[trigger] c[i] <= 9 by {
            if i < cells_of(d).len() {
                assert(c[i] == cells_of(d)[i]);
            } else {
                assert(c[i] == value(ch));
            }
        }
    }
}

/// The grid has nine rows of nine cells, row `r` holding `cells[9r..9r+9]`.
pub open spec fn grid_of_cells(grid: Seq<Vec<u8>>, cells: Seq<u8>) -> bool {
    &&& grid.len() == 9
    &&& forall|r: int| 0 <= r < 9 ==> (#[trigger] grid[r])@ == cells.subrange(9 * r, 9 * r + 9)
}

/// Parse a compact 81-char string ('.' or '0' = empty) into a 9×9 grid.
pub fn parse_sudoku(s: &str) -> (res: Result<Grid, String>)
    ensures
        cells_of(s@).len() == 81 <==> res is Ok,
        res matches Ok(grid) ==> grid_of_cells(grid@, cells_of(s@)),
        res matches Err(msg) ==> msg@ == "Expected 81 cells, got "@ + decimal(cells_of(s@).len()),
{
    let mut digits: Vec<u8> = Vec::new();
    for ch in it: s.chars()
        invariant
            it.seq() == s@,
            digits@ == cells_of(s@.take(it.index() as int)),
    {
        proof {
            assert(s@.take(it.index() + 1).drop_last() == s@.take(it.index() as int));
        }
        if ('0' <= ch && ch <= '9') || ch == '.' {
            let v: u8 = if ch == '.' { 0 } else { (ch as u32 - 48) as u8 };
            digits.push(v);
        }
    }
    proof {
        assert(s@.take(s@.len() as int) == s@);
    }
    if digits.len() != 81 {
        let mut msg = String::new();
        msg.append("Expected 81 cells, got ");
        push_decimal(&mut msg, digits.len());
        return Err(msg);
    }
    let mut grid: Grid = Vec::new();
    for r in 0..9usize
        invariant
            digits.len() == 81,
            grid.len() == r,
            forall|k: int| 0 <= k < r ==> (#[trigger] grid@[k])@ == digits@.subrange(9 * k, 9 * k + 9),
    {
        let mut row: Vec<u8> = Vec::new();
        for c in 0..9usize
            invariant
                digits.len() == 81,
                r < 9,
                row@ == digits@.subrange(9 * r, 9 * r + c),
        {
            row.push(digits[9 * r + c]);
            assert(digits@.subrange(9 * r, 9 * r + c + 1) == digits@.subrange(9 * r, 9 * r + c).push(digits@[9 * r + c]));
        }
        grid.push(row);
    }
    Ok(grid)
}


/// The rows of the grid.
pub open spec fn rows_view(g: Seq<Vec<u8>>) -> Seq<Seq<u8>> {
    g.map_values(|row: Vec<u8>| row@)
}

/// The grid has at least nine rows of at least nine cells; the solver reads
/// and writes the 9×9 square at its top left.
pub open spec fn is_board(g: Seq<Seq<u8>>) -> bool {
    &&& g.len() >= 9
    &&& forall|r: int| 0 <= r < 9 ==> (#[trigger] g[r]).len() >= 9
}

/// Digit `d` already stands in row `r` (anywhere in it), in column `c`
/// (among the first nine rows), or in the 3×3 box of `(r, c)`.
pub open spec fn conflicts(g: Seq<Seq<u8>>, r: int, c: int, d: int) -> bool {
    ||| exists|j: int| 0 <= j < g[r].len() && g[r][j] == d
    ||| exists|i: int| 0 <= i < 9 && g[i][c] == d
    ||| exists|i: int, j: int| (r / 3) * 3 <= i < (r / 3) * 3 + 3 && (c / 3) * 3 <= j < (c / 3) * 3 + 3 && g[i][j] == d
}

/// Digit `d` may go into cell `(r, c)`.
pub open spec fn allowed(g: Seq<Seq<u8>>, r: int, c: int, d: int) -> bool {
    1 <= d <= 9 && !conflicts(g, r, c, d)
}

/// How many of the digits `1..=k` may go into cell `(r, c)`.
pub open spec fn allowed_upto(g: Seq<Seq<u8>>, r: int, c: int, k: int) -> nat
    decreases k,
{
    if k <= 0 {
        0
    } else {
        allowed_upto(g, r, c, k - 1) + (if allowed(g, r, c, k) { 1nat } else { 0nat })
    }
}

/// How many digits may go into cell `(r, c)`.
pub open spec fn candidate_count(g: Seq<Seq<u8>>, r: int, c: int) -> nat {
    allowed_upto(g, r, c, 9)
}

/// The cell is inside the 9×9 square and empty.
pub open spec fn is_blank(g: Seq<Seq<u8>>, r: int, c: int) -> bool {
    0 <= r < 9 && 0 <= c < 9 && g[r][c] == 0
}

/// `(r, c)` is the empty cell with the fewest candidates, the first such in
/// row-major order.
pub open spec fn is_most_constrained(g: Seq<Seq<u8>>, r: int, c: int) -> bool {
    &&& is_blank(g, r, c)
    &&& forall|r2: int, c2: int| #[trigger] is_blank(g, r2, c2) ==> candidate_count(g, r, c) <= candidate_count(g, r2, c2)
    &&& forall|r2: int, c2: int| #[trigger] is_blank(g, r2, c2) && (r2 < r || (r2 == r && c2 < c))
        ==> candidate_count(g, r2, c2) > candidate_count(g, r, c)
}

/// Some cell of the 9×9 square is empty.
pub open spec fn has_blank(g: Seq<Seq<u8>>) -> bool {
    exists|r: int, c: int| #[trigger] is_blank(g, r, c)
}

/// The cell that the solver fills next.
pub open spec fn next_cell(g: Seq<Seq<u8>>) -> (int, int) {
    choose|p: (int, int)| is_most_constrained(g, p.0, p.1)
}

/// The grid with digit `d` in cell `p`.
pub open spec fn place(g: Seq<Seq<u8>>, p: (int, int), d: int) -> Seq<Seq<u8>> {
    g.update(p.0, g[p.0].update(p.1, d as u8))
}

/// `w` lists the digits that the solver places, one per step, each into the
/// most constrained empty cell, until no cell is empty: one way to complete
/// the grid.
pub open spec fn is_fill(g: Seq<Seq<u8>>, w: Seq<int>) -> bool
    decreases w.len(),
{
    if !has_blank(g) {
        w.len() == 0
    } else {
        &&& w.len() > 0
        &&& allowed(g, next_cell(g).0, next_cell(g).1, w[0])
        &&& is_fill(place(g, next_cell(g), w[0]), w.drop_first())
    }
}

/// The grid after placing the digits of `w` as the solver does.
pub open spec fn filled(g: Seq<Seq<u8>>, w: Seq<int>) -> Seq<Seq<u8>>
    decreases w.len(),
{
    if w.len() == 0 || !has_blank(g) {
        g
    } else {
        filled(place(g, next_cell(g), w[0]), w.drop_first())
    }
}

/// The number of empty cells among the first `c` cells of row `r`.
pub open spec fn row_blanks(g: Seq<Seq<u8>>, r: int, c: int) -> nat
    decreases c,
{
    if c <= 0 {
        0
    } else {
        row_blanks(g, r, c - 1) + (if g[r][c - 1] == 0 { 1nat } else { 0nat })
    }
}

/// The number of empty cells of the 9×9 square in its first `r` rows.
pub open spec fn blanks(g: Seq<Seq<u8>>, r: int) -> nat
    decreases r,
{
    if r <= 0 {
        0
    } else {
        blanks(g, r - 1) + row_blanks(g, r - 1, 9)
    }
}

/// At most `k` of the digits `1..=k` fit.
proof fn lemma_allowed_upto_bound(g: Seq<Seq<u8>>, r: int, c: int, k: int)
    requires
        0 <= k,
    ensures
        allowed_upto(g, r, c, k) <= k,
    decreases k,
{
    if k > 0 {
        lemma_allowed_upto_bound(g, r, c, k - 1);
    }
}

/// Filling an empty cell with a non-zero digit leaves one empty cell fewer.
proof fn lemma_place_blanks(g: Seq<Seq<u8>>, r: int, c: int, d: int)
    requires
        is_board(g),
        is_blank(g, r, c),
        1 <= d <= 9,
    ensures
        blanks(place(g, (r, c), d), 9) + 1 == blanks(g, 9),
{
    let h = place(g, (r, c), d);
    assert forall|i: int, k: int| 0 <= i < 9 && i != r && 0 <= k <= 9 implies #[trigger] row_blanks(h, i, k) == row_blanks(g, i, k) by {
        lemma_row_blanks_same(g, h, i, k);
    }
    lemma_row_blanks_place(g, r, c, d, 9);
    lemma_blanks_rows(g, h, r, 9);
}

proof fn lemma_row_blanks_same(g: Seq<Seq<u8>>, h: Seq<Seq<u8>>, i: int, k: int)
    requires
        0 <= k <= 9,
        forall|j: int| 0 <= j < k ==> h[i][j] == g[i][j],
    ensures
        row_blanks(h, i, k) == row_blanks(g, i, k),
    decreases k,
{
    if k > 0 {
        lemma_row_blanks_same(g, h, i, k - 1);
    }
}

proof fn lemma_row_blanks_place(g: Seq<Seq<u8>>, r: int, c: int, d: int, k: int)
    requires
        is_board(g),
        is_blank(g, r, c),
        1 <= d <= 9,
        0 <= k <= 9,
    ensures
        row_blanks(place(g, (r, c), d), r, k) + (if c < k { 1int } else { 0int }) == row_blanks(g, r, k),
    decreases k,
{
    if k > 0 {
        lemma_row_blanks_place(g, r, c, d, k - 1);
    }
}

proof fn lemma_blanks_rows(g: Seq<Seq<u8>>, h: Seq<Seq<u8>>, r: int, k: int)
    requires
        0 <= r < 9,
        0 <= k <= 9,
        forall|i: int| 0 <= i < 9 && i != r ==> #[trigger] row_blanks(h, i, 9) == row_blanks(g, i, 9),
        row_blanks(h, r, 9) + 1 == row_blanks(g, r, 9),
    ensures
        blanks(h, k) + (if r < k { 1int } else { 0int }) == blanks(g, k),
    decreases k,
{
    if k > 0 {
        lemma_blanks_rows(g, h, r, k - 1);
        if k - 1 != r {
            assert(row_blanks(h, k - 1, 9) == row_blanks(g, k - 1, 9));
        }
    }
}

/// Which digits already stand in the row, the column and the box of
/// `(r, c)`: `used[d]` for each digit `d`.
fn used_digits(g: &Grid, r: usize, c: usize) -> (used: Vec<bool>)
    requires
        is_board(rows_view(g@)),
        r < 9,
        c < 9,
    ensures
        used.len() == 10,
        forall|d: int| 1 <= d <= 9 ==> (used@[d] <==> conflicts(rows_view(g@), r as int, c as int, d)),
{
    let ghost gv = rows_view(g@);
    let mut used: Vec<bool> = Vec::new();
    for _d in 0..10usize
        invariant
            used.len() == _d,
            forall|d: int| 0 <= d < _d ==> !used@[d],
    {
        used.push(false);
    }
    proof {
        assert(gv[r as int] == g@[r as int]@);
    }
    let width = g[r].len();
    for j in 0..width
        invariant
            width == gv[r as int].len(),
            gv == rows_view(g@),
            is_board(gv),
            r < 9,
            c < 9,
            used.len() == 10,
            forall|d: int| 1 <= d <= 9 ==> (used@[d] <==> exists|j2: int| 0 <= j2 < j && gv[r as int][j2] == d),
    {
        proof {
            assert(gv[r as int] == g@[r as int]@);
        }
        let v = g[r][j];
        if v < 10 {
            used.set(v as usize, true);
        }
        proof {
            assert forall|d: int| 1 <= d <= 9 implies (used@[d] <==> exists|j2: int| 0 <= j2 < j + 1 && gv[r as int][j2] == d) by {
                if d == v {
                    assert(gv[r as int][j as int] == d);
                } else if exists|j2: int| 0 <= j2 < j + 1 && gv[r as int][j2] == d {
                    let j2 = choose|j2: int| 0 <= j2 < j + 1 && gv[r as int][j2] == d;
                    assert(j2 != j);
                }
            }
        }
    }
    for i in 0..9usize
        invariant
            gv == rows_view(g@),
            is_board(gv),
            r < 9,
            c < 9,
            used.len() == 10,
            forall|d: int| 1 <= d <= 9 ==> (used@[d] <==> (exists|j2: int| 0 <= j2 < gv[r as int].len() && gv[r as int][j2] == d)
                || exists|i2: int| 0 <= i2 < i && gv[i2][c as int] == d),
    {
        proof {
            assert(gv[i as int] == g@[i as int]@);
        }
        let v = g[i][c];
        if v < 10 {
            used.set(v as usize, true);
        }
        proof {
            assert forall|d: int| 1 <= d <= 9 implies (used@[d] <==> (exists|j2: int| 0 <= j2 < gv[r as int].len() && gv[r as int][j2] == d)
                || exists|i2: int| 0 <= i2 < i + 1 && gv[i2][c as int] == d) by {
                if d == v {
                    assert(gv[i as int][c as int] == d);
                } else if exists|i2: int| 0 <= i2 < i + 1 && gv[i2][c as int] == d {
                    let i2 = choose|i2: int| 0 <= i2 < i + 1 && gv[i2][c as int] == d;
                    assert(i2 != i);
                }
            }
        }
    }
    let br = (r / 3) * 3;
    let bc = (c / 3) * 3;
    for i in br..br + 3
        invariant
            gv == rows_view(g@),
            is_board(gv),
            r < 9,
            c < 9,
            br == (r / 3) * 3,
            bc == (c / 3) * 3,
            br <= i <= br + 3,
            used.len() == 10,
            forall|d: int| 1 <= d <= 9 ==> (used@[d] <==> (exists|j2: int| 0 <= j2 < gv[r as int].len() && gv[r as int][j2] == d)
                || (exists|i2: int| 0 <= i2 < 9 && gv[i2][c as int] == d)
                || exists|i2: int, j2: int| br <= i2 < br + 3 && bc <= j2 < bc + 3 && (i2 < i || (i2 == i && j2 < bc)) && gv[i2][j2] == d),
    {
        for j in bc..bc + 3
            invariant
                gv == rows_view(g@),
                is_board(gv),
                r < 9,
                c < 9,
                br == (r / 3) * 3,
                bc == (c / 3) * 3,
                br <= i < br + 3,
                bc <= j <= bc + 3,
                used.len() == 10,
                forall|d: int| 1 <= d <= 9 ==> (used@[d] <==> (exists|j2: int| 0 <= j2 < gv[r as int].len() && gv[r as int][j2] == d)
                    || (exists|i2: int| 0 <= i2 < 9 && gv[i2][c as int] == d)
                    || exists|i2: int, j2: int| br <= i2 < br + 3 && bc <= j2 < bc + 3 && (i2 < i || (i2 == i && j2 < j)) && gv[i2][j2] == d),
        {
            proof {
                assert(gv[i as int] == g@[i as int]@);
            }
            let v = g[i][j];
            if v < 10 {
                used.set(v as usize, true);
            }
            proof {
                assert forall|d: int| 1 <= d <= 9 implies (used@[d] <==> (exists|j2: int| 0 <= j2 < gv[r as int].len() && gv[r as int][j2] == d)
                    || (exists|i2: int| 0 <= i2 < 9 && gv[i2][c as int] == d)
                    || exists|i2: int, j2: int| br <= i2 < br + 3 && bc <= j2 < bc + 3 && (i2 < i || (i2 == i && j2 < j + 1)) && gv[i2][j2] == d) by {
                    if d == v {
                        assert(gv[i as int][j as int] == d);
                    } else if exists|i2: int, j2: int| br <= i2 < br + 3 && bc <= j2 < bc + 3 && (i2 < i || (i2 == i && j2 < j + 1)) && gv[i2][j2] == d {
                        let (i2, j2) = choose|i2: int, j2: int| br <= i2 < br + 3 && bc <= j2 < bc + 3 && (i2 < i || (i2 == i && j2 < j + 1)) && gv[i2][j2] == d;
                        assert(i2 < i || (i2 == i && j2 < j));
                    }
                }
            }
        }
    }
    proof {
        assert forall|d: int| 1 <= d <= 9 implies (used@[d] <==> conflicts(gv, r as int, c as int, d)) by {
            if exists|i2: int, j2: int| br <= i2 < br + 3 && bc <= j2 < bc + 3 && (i2 < br + 3 || (i2 == br + 3 && j2 < bc)) && gv[i2][j2] == d {
                let (i2, j2) = choose|i2: int, j2: int| br <= i2 < br + 3 && bc <= j2 < bc + 3 && (i2 < br + 3 || (i2 == br + 3 && j2 < bc)) && gv[i2][j2] == d;
                assert((r / 3) * 3 <= i2 < (r / 3) * 3 + 3 && (c / 3) * 3 <= j2 < (c / 3) * 3 + 3 && gv[i2][j2] == d);
            }
            if exists|i2: int, j2: int| (r / 3) * 3 <= i2 < (r / 3) * 3 + 3 && (c / 3) * 3 <= j2 < (c / 3) * 3 + 3 && gv[i2][j2] == d {
                let (i2, j2) = choose|i2: int, j2: int| (r / 3) * 3 <= i2 < (r / 3) * 3 + 3 && (c / 3) * 3 <= j2 < (c / 3) * 3 + 3 && gv[i2][j2] == d;
                assert(br <= i2 < br + 3 && bc <= j2 < bc + 3 && (i2 < br + 3 || (i2 == br + 3 && j2 < bc)) && gv[i2][j2] == d);
            }
        }
    }
    used
}

/// How many digits are not in `used`.
fn count_free(used: &Vec<bool>, Ghost(g): Ghost<Seq<Seq<u8>>>, Ghost(r): Ghost<int>, Ghost(c): Ghost<int>) -> (count: usize)
    requires
        used.len() == 10,
        forall|d: int| 1 <= d <= 9 ==> (used@[d] <==> conflicts(g, r, c, d)),
    ensures
        count == candidate_count(g, r, c),
        count <= 9,
{
    let mut count: usize = 0;
    for d in 1..10usize
        invariant
            used.len() == 10,
            forall|d: int| 1 <= d <= 9 ==> (used@[d] <==> conflicts(g, r, c, d)),
            count == allowed_upto(g, r, c, d - 1),
            count <= d - 1,
    {
        if !used[d] {
            count += 1;
        }
    }
    count
}

/// The empty cell with the fewest candidates (the first such, row by row),
/// and its number of candidates; `None` when no cell is empty.
fn find_empty(g: &Grid) -> (res: (Option<(usize, usize)>, usize))
    requires
        is_board(rows_view(g@)),
    ensures
        res.0 is None <==> !has_blank(rows_view(g@)),
        res.0 is None ==> res.1 == 10,
        res.0 matches Option::Some(p) ==> p.0 < 9 && p.1 < 9 && is_most_constrained(rows_view(g@), p.0 as int, p.1 as int)
            && res.1 == candidate_count(rows_view(g@), p.0 as int, p.1 as int),
{
    let ghost gv = rows_view(g@);
    let mut best: Option<(usize, usize)> = None;
    let mut best_count: usize = 10;
    for r in 0..9usize
        invariant
            gv == rows_view(g@),
            is_board(gv),
            best_count <= 10,
            best is None ==> best_count == 10 && forall|r2: int, c2: int| #[trigger] is_blank(gv, r2, c2) ==> r2 >= r,
            best matches Option::Some(b) ==> b.0 < 9 && b.1 < 9 && is_blank(gv, b.0 as int, b.1 as int)
                && best_count == candidate_count(gv, b.0 as int, b.1 as int) && best_count > 0
                && (b.0 < r)
                && (forall|r2: int, c2: int| #[trigger] is_blank(gv, r2, c2) && r2 < r ==> candidate_count(gv, r2, c2) >= best_count)
                && (forall|r2: int, c2: int| #[trigger] is_blank(gv, r2, c2) && (r2 < b.0 || (r2 == b.0 && c2 < b.1))
                    ==> candidate_count(gv, r2, c2) > best_count),
    {
        for c in 0..9usize
            invariant
                gv == rows_view(g@),
                is_board(gv),
                r < 9,
                best_count <= 10,
                best is None ==> best_count == 10 && forall|r2: int, c2: int| #[trigger] is_blank(gv, r2, c2) ==> (r2 > r || (r2 == r && c2 >= c)),
                best matches Option::Some(b) ==> b.0 < 9 && b.1 < 9 && is_blank(gv, b.0 as int, b.1 as int)
                    && best_count == candidate_count(gv, b.0 as int, b.1 as int) && best_count > 0
                    && (b.0 < r || (b.0 == r && b.1 < c))
                    && (forall|r2: int, c2: int| #[trigger] is_blank(gv, r2, c2) && (r2 < r || (r2 == r && c2 < c)) ==> candidate_count(gv, r2, c2) >= best_count)
                    && (forall|r2: int, c2: int| #[trigger] is_blank(gv, r2, c2) && (r2 < b.0 || (r2 == b.0 && c2 < b.1))
                        ==> candidate_count(gv, r2, c2) > best_count),
        {
            proof {
                assert(gv[r as int] == g@[r as int]@);
            }
            if g[r][c] == 0 {
                let used = used_digits(g, r, c);
                let count = count_free(&used, Ghost(gv), Ghost(r as int), Ghost(c as int));
                if count < best_count {
                    best = Some((r, c));
                    best_count = count;
                    if count == 0 {
                        proof {
                            assert(is_blank(gv, r as int, c as int));
                            assert forall|r2: int, c2: int| #[trigger] is_blank(gv, r2, c2) && (r2 < r || (r2 == r && c2 < c))
                                implies candidate_count(gv, r2, c2) > 0 by {}
                            assert(has_blank(gv));
                        }
                        return (best, best_count);
                    }
                }
            }
        }
    }
    proof {
        if best is None {
            if has_blank(gv) {
                let (r2, c2) = choose|r2: int, c2: int| #[trigger] is_blank(gv, r2, c2);
            }
        } else {
            let b = best->Some_0;
            assert(has_blank(gv));
        }
    }
    (best, best_count)
}

/// The digits as mathematical integers.
pub open spec fn digits_of(s: Seq<u8>) -> Seq<int> {
    s.map_values(|x: u8| x as int)
}

/// `w` is the fill of `g` that comes first after `prev` (`None`: first of
/// all) in lexicographic order.
pub open spec fn first_fill_after(g: Seq<Seq<u8>>, prev: Option<Seq<int>>, w: Seq<int>) -> bool {
    &&& is_fill(g, w)
    &&& after(Order::Lex, prev, w)
    &&& forall|v: Seq<int>| #[trigger] is_fill(g, v) && after(Order::Lex, prev, v) ==> !lex_lt(v, w)
}

/// No fill of `g` comes after `prev`.
pub open spec fn no_fill_after(g: Seq<Seq<u8>>, prev: Option<Seq<int>>) -> bool {
    forall|v: Seq<int>| #[trigger] is_fill(g, v) ==> !after(Order::Lex, prev, v)
}

/// Only one cell is the most constrained.
proof fn lemma_most_constrained_unique(g: Seq<Seq<u8>>, r: int, c: int)
    requires
        is_most_constrained(g, r, c),
    ensures
        next_cell(g) == (r, c),
{
    let p0 = (r, c);
    assert(is_most_constrained(g, p0.0, p0.1));
    let (r2, c2) = next_cell(g);
    assert(is_blank(g, r2, c2));
    assert(is_blank(g, r, c));
    if r2 < r || (r2 == r && c2 < c) {
        assert(candidate_count(g, r2, c2) > candidate_count(g, r, c));
    } else if r < r2 || (r == r2 && c < c2) {
        assert(candidate_count(g, r, c) > candidate_count(g, r2, c2));
    }
}

/// With no candidate for a cell, no digit may go there.
proof fn lemma_no_candidates(g: Seq<Seq<u8>>, r: int, c: int, k: int, d: int)
    requires
        allowed_upto(g, r, c, k) == 0,
        1 <= d <= k,
    ensures
        !allowed(g, r, c, d),
    decreases k,
{
    if d < k {
        lemma_no_candidates(g, r, c, k - 1, d);
    }
}

/// Writes a value into one cell of the grid.
fn set_cell(g: &mut Grid, r: usize, c: usize, v: u8)
    requires
        r < old(g)@.len(),
        c < old(g)@[r as int].len(),
    ensures
        rows_view(final(g)@) == rows_view(old(g)@).update(r as int, rows_view(old(g)@)[r as int].update(c as int, v)),
{
    g[r].set(c, v);
    let ghost expected = rows_view(old(g)@).update(r as int, rows_view(old(g)@)[r as int].update(c as int, v));
    assert forall|i: int| 0 <= i < g@.len() implies #[trigger] rows_view(g@)[i] =~= expected[i] by {
        if i != r {
            assert(g@[i] == old(g)@[i]);
        }
    }
    assert(rows_view(g@) =~= expected);
}

/// Copies the grid.
fn copy_grid(g: &Grid) -> (res: Grid)
    ensures
        rows_view(res@) == rows_view(g@),
{
    let mut res: Grid = Vec::new();
    for i in 0..g.len()
        invariant
            res.len() == i,
            rows_view(res@) =~= rows_view(g@).take(i as int),
    {
        let mut row: Vec<u8> = Vec::new();
        let width = g[i].len();
        for j in 0..width
            invariant
                i < g@.len(),
                width == g@[i as int].len(),
                row@ =~= g@[i as int]@.take(j as int),
        {
            row.push(g[i][j]);
        }
        let ghost before = res@;
        res.push(row);
        assert forall|k: int| 0 <= k <= i implies #[trigger] rows_view(res@)[k] =~= rows_view(g@).take(i + 1)[k] by {
            if k < i {
                assert(res@[k] == before[k]);
                assert(rows_view(before)[k] == rows_view(g@).take(i as int)[k]);
            } else {
                assert(g@[i as int]@.take(g@[i as int]@.len() as int) =~= g@[i as int]@);
            }
        }
        assert(rows_view(res@) =~= rows_view(g@).take(i + 1));
    }
    assert(rows_view(g@).take(g@.len() as int) =~= rows_view(g@));
    res
}

/// The fill of `g` that comes first in lexicographic order after `bound[from..]`
/// (when `tight`; otherwise the first fill of all), with the grid it fills.
fn search(g: &mut Grid, bound: &Vec<u8>, from: usize, tight: bool) -> (res: Option<(Vec<u8>, Grid)>)
    requires
        is_board(rows_view(old(g)@)),
        from <= bound.len(),
    ensures
        rows_view(final(g)@) == rows_view(old(g)@),
        ({
            let gv = rows_view(old(g)@);
            let prev = if tight { Option::Some(digits_of(bound@).skip(from as int)) } else { Option::None };
            match res {
                Option::Some((w, sol)) => first_fill_after(gv, prev, digits_of(w@))
                    && rows_view(sol@) == filled(gv, digits_of(w@)),
                Option::None => no_fill_after(gv, prev),
            }
        }),
    decreases blanks(rows_view(old(g)@), 9),
{
    let ghost gv = rows_view(g@);
    let ghost prev = if tight { Option::Some(digits_of(bound@).skip(from as int)) } else { Option::None };
    let (cell, count) = find_empty(g);
    match cell {
        None => {
            if tight {
                proof {
                    assert forall|v: Seq<int>| #[trigger] is_fill(gv, v) implies !after(Order::Lex, prev, v) by {
                        assert(v.len() == 0);
                    }
                }
                return None;
            }
            let sol = copy_grid(g);
            let empty: Vec<u8> = Vec::new();
            proof {
                assert(digits_of(empty@) =~= Seq::<int>::empty());
                assert(is_fill(gv, Seq::<int>::empty()));
                assert forall|v: Seq<int>| #[trigger] is_fill(gv, v) && after(Order::Lex, prev, v) implies !lex_lt(v, digits_of(empty@)) by {}
            }
            return Some((empty, sol));
        },
        Some((r, c)) => {
            proof {
                lemma_most_constrained_unique(gv, r as int, c as int);
            }
            if tight && from >= bound.len() {
                proof {
                    assert forall|v: Seq<int>| #[trigger] is_fill(gv, v) implies !after(Order::Lex, prev, v) by {
                        assert(digits_of(bound@).skip(from as int).len() == 0);
                    }
                }
                return None;
            }
            if count == 0 {
                proof {
                    assert forall|v: Seq<int>| #[trigger] is_fill(gv, v) implies !after(Order::Lex, prev, v) by {
                        if 1 <= v[0] <= 9 {
                            lemma_no_candidates(gv, r as int, c as int, 9, v[0]);
                        }
                    }
                }
                return None;
            }
            let used = used_digits(g, r, c);
            let mut d: usize = 1;
            while d < 10
                invariant
                    1 <= d <= 10,
                    r < 9,
                    c < 9,
                    gv == rows_view(g@),
                    gv == rows_view(old(g)@),
                    is_board(gv),
                    from <= bound.len(),
                    tight ==> from < bound.len(),
                    prev == (if tight { Option::Some(digits_of(bound@).skip(from as int)) } else { Option::None }),
                    next_cell(gv) == (r as int, c as int),
                    is_blank(gv, r as int, c as int),
                    used.len() == 10,
                    forall|e: int| 1 <= e <= 9 ==> (used@[e] <==> conflicts(gv, r as int, c as int, e)),
                    forall|v: Seq<int>| #[trigger] is_fill(gv, v) && after(Order::Lex, prev, v) ==> v[0] >= d,
                decreases 10 - d,
            {
                if used[d] || (tight && (d as u8) < bound[from]) {
                    proof {
                        assert forall|v: Seq<int>| #[trigger] is_fill(gv, v) && after(Order::Lex, prev, v) implies v[0] >= d + 1 by {
                            if v[0] == d {
                                if tight {
                                    let b = digits_of(bound@).skip(from as int);
                                    assert(b[0] == bound@[from as int]);
                                    let k = choose|k: int| #![trigger b[k], v[k]] 0 <= k < b.len() && k < v.len() && b[k] < v[k] && b.take(k) == v.take(k);
                                    if k > 0 {
                                        assert(b.take(k)[0] == v.take(k)[0]);
                                    }
                                }
                            }
                        }
                    }
                } else {
                    let sub_tight = tight && (d as u8) == bound[from];
                    let ghost sub_prev = if sub_tight { Option::Some(digits_of(bound@).skip(from + 1)) } else { Option::None };
                    proof {
                        if from < bound.len() {
                            assert(digits_of(bound@).skip(from + 1) =~= digits_of(bound@).skip(from as int).drop_first());
                        }
                        if tight {
                            assert(digits_of(bound@).skip(from as int)[0] == bound@[from as int]);
                        }
                    }
                    let ghost g2 = place(gv, (r as int, c as int), d as int);
                    set_cell(g, r, c, d as u8);
                    proof {
                        lemma_place_blanks(gv, r as int, c as int, d as int);
                        assert(rows_view(g@) == g2);
                        assert(is_board(g2));
                    }
                    let next_from = if sub_tight { from + 1 } else { from };
                    let found = search(g, bound, next_from, sub_tight);
                    proof {
                        assert(rows_view(g@)[r as int] == g@[r as int]@);
                        assert(g2[r as int].len() == gv[r as int].len());
                    }
                    set_cell(g, r, c, 0);
                    proof {
                        assert(g2[r as int].update(c as int, 0u8) =~= gv[r as int]);
                        assert forall|i: int| 0 <= i < gv.len() implies #[trigger] rows_view(g@)[i] == gv[i] by {
                            if i != r {
                                assert(g2[i] == gv[i]);
                            }
                        }
                        assert(rows_view(g@) =~= gv);
                    }
                    match found {
                        Some((w, sol)) => {
                            let mut full: Vec<u8> = Vec::new();
                            full.push(d as u8);
                            for t in 0..w.len()
                                invariant
                                    full@ == seq![d as u8] + w@.take(t as int),
                            {
                                full.push(w[t]);
                                assert(w@.take(t + 1) == w@.take(t as int).push(w@[t as int]));
                            }
                            proof {
                                assert(w@.take(w@.len() as int) == w@);
                                lemma_extend_least(gv, r as int, c as int, d as int, digits_of(w@), prev, sub_prev, tight, sub_tight,
                                    digits_of(bound@).skip(from as int));
                                assert(digits_of(full@) =~= seq![d as int] + digits_of(w@));
                            }
                            return Some((full, sol));
                        },
                        None => {
                            proof {
                                lemma_extend_none(gv, r as int, c as int, d as int, prev, sub_prev, tight, sub_tight,
                                    digits_of(bound@).skip(from as int));
                            }
                        },
                    }
                }
                d += 1;
            }
            proof {
                assert forall|v: Seq<int>| #[trigger] is_fill(gv, v) implies !after(Order::Lex, prev, v) by {
                    if after(Order::Lex, prev, v) {
                        assert(v[0] >= 10);
                    }
                }
            }
            None
        },
    }
}

/// Sequences with one first element are ordered as their rests are.
proof fn lemma_lex_drop_first(s: Seq<int>, t: Seq<int>)
    requires
        s.len() > 0,
        t.len() > 0,
        s[0] == t[0],
    ensures
        lex_lt(s, t) <==> lex_lt(s.drop_first(), t.drop_first()),
{
    let a = s.drop_first();
    let b = t.drop_first();
    if lex_lt(s, t) {
        let k = choose|k: int| #![trigger s[k], t[k]] 0 <= k < s.len() && k < t.len() && s[k] < t[k] && s.take(k) == t.take(k);
        if k == 0 {
        } else {
            assert(a.take(k - 1) =~= s.take(k).drop_first());
            assert(b.take(k - 1) =~= t.take(k).drop_first());
            assert(a[k - 1] == s[k]);
            assert(b[k - 1] == t[k]);
        }
    }
    if lex_lt(a, b) {
        let k = choose|k: int| #![trigger a[k], b[k]] 0 <= k < a.len() && k < b.len() && a[k] < b[k] && a.take(k) == b.take(k);
        assert(s.take(k + 1) =~= seq![s[0]] + a.take(k));
        assert(t.take(k + 1) =~= seq![t[0]] + b.take(k));
        assert(s[k + 1] == a[k]);
        assert(t[k + 1] == b[k]);
    }
}

/// A fill of `g` that starts with `d` is `d` followed by a fill of the grid
/// with `d` placed.
proof fn lemma_fill_cons(g: Seq<Seq<u8>>, r: int, c: int, d: int, w: Seq<int>)
    requires
        next_cell(g) == (r, c),
        is_blank(g, r, c),
    ensures
        is_fill(g, seq![d] + w) <==> allowed(g, r, c, d) && is_fill(place(g, (r, c), d), w),
        filled(g, seq![d] + w) == filled(place(g, (r, c), d), w),
{
    assert(has_blank(g));
    let v = seq![d] + w;
    assert(v.drop_first() =~= w);
    assert(v[0] == d);
}

/// Every fill of `g` starts with a digit; with the next cell known it splits
/// into that digit and a fill of the grid with it placed.
proof fn lemma_fill_split(g: Seq<Seq<u8>>, r: int, c: int, v: Seq<int>)
    requires
        next_cell(g) == (r, c),
        is_blank(g, r, c),
        is_fill(g, v),
    ensures
        v.len() > 0,
        allowed(g, r, c, v[0]),
        is_fill(place(g, (r, c), v[0]), v.drop_first()),
        v == seq![v[0]] + v.drop_first(),
{
    assert(has_blank(g));
    assert(v =~= seq![v[0]] + v.drop_first());
}

proof fn lemma_extend_least(
    g: Seq<Seq<u8>>, r: int, c: int, d: int, w: Seq<int>,
    prev: Option<Seq<int>>, sub_prev: Option<Seq<int>>, tight: bool, sub_tight: bool, b: Seq<int>,
)
    requires
        next_cell(g) == (r, c),
        is_blank(g, r, c),
        allowed(g, r, c, d),
        prev == (if tight { Option::Some(b) } else { Option::None }),
        tight ==> b.len() > 0 && d >= b[0],
        sub_tight == (tight && d == b[0]),
        sub_prev == (if sub_tight { Option::Some(b.drop_first()) } else { Option::None }),
        first_fill_after(place(g, (r, c), d), sub_prev, w),
        forall|v: Seq<int>| #[trigger] is_fill(g, v) && after(Order::Lex, prev, v) ==> v[0] >= d,
    ensures
        first_fill_after(g, prev, seq![d] + w),
        filled(g, seq![d] + w) == filled(place(g, (r, c), d), w),
{
    let g2 = place(g, (r, c), d);
    let dw = seq![d] + w;
    lemma_fill_cons(g, r, c, d, w);
    assert(dw.drop_first() =~= w);
    assert(is_fill(g2, w));
    if tight {
        if d > b[0] {
            assert(b.take(0) =~= dw.take(0));
            assert(lex_lt(b, dw));
        } else {
            assert(lex_lt(b.drop_first(), w));
            lemma_lex_drop_first(b, dw);
        }
    }
    assert forall|v: Seq<int>| #[trigger] is_fill(g, v) && after(Order::Lex, prev, v) implies !lex_lt(v, dw) by {
        lemma_fill_split(g, r, c, v);
        if lex_lt(v, dw) {
            let k = choose|k: int| #![trigger v[k], dw[k]] 0 <= k < v.len() && k < dw.len() && v[k] < dw[k] && v.take(k) == dw.take(k);
            if k > 0 {
                assert(v.take(k)[0] == dw.take(k)[0]);
                assert(v[0] == d);
                lemma_lex_drop_first(v, dw);
                if sub_tight {
                    lemma_lex_drop_first(b, v);
                }
                assert(is_fill(g2, v.drop_first()));
                assert(after(Order::Lex, sub_prev, v.drop_first()));
            }
        }
    }
}

proof fn lemma_extend_none(
    g: Seq<Seq<u8>>, r: int, c: int, d: int,
    prev: Option<Seq<int>>, sub_prev: Option<Seq<int>>, tight: bool, sub_tight: bool, b: Seq<int>,
)
    requires
        next_cell(g) == (r, c),
        is_blank(g, r, c),
        prev == (if tight { Option::Some(b) } else { Option::None }),
        tight ==> b.len() > 0 && d >= b[0],
        sub_tight == (tight && d == b[0]),
        sub_prev == (if sub_tight { Option::Some(b.drop_first()) } else { Option::None }),
        no_fill_after(place(g, (r, c), d), sub_prev),
        forall|v: Seq<int>| #[trigger] is_fill(g, v) && after(Order::Lex, prev, v) ==> v[0] >= d,
    ensures
        forall|v: Seq<int>| #[trigger] is_fill(g, v) && after(Order::Lex, prev, v) ==> v[0] >= d + 1,
{
    let g2 = place(g, (r, c), d);
    assert forall|v: Seq<int>| #[trigger] is_fill(g, v) && after(Order::Lex, prev, v) implies v[0] >= d + 1 by {
        lemma_fill_split(g, r, c, v);
        if v[0] == d {
            assert(is_fill(g2, v.drop_first()));
            if sub_tight {
                lemma_lex_drop_first(b, v);
            }
            assert(after(Order::Lex, sub_prev, v.drop_first()));
        }
    }
}

/// Enumerate the solutions of a sudoku puzzle.
///
/// Each solution fills the empty cells one by one: always the empty cell
/// with the fewest candidates (the first such, row by row), trying its
/// candidate digits in increasing order. The solutions come in the order
/// of this search; most sudoku puzzles have exactly one.
pub fn solve_sudoku(grid: &Grid) -> (res: SudokuSolutions)
    requires
        is_board(rows_view(grid@)),
    ensures
        res.wf(),
        res.puzzle() == rows_view(grid@),
        res.cursor() == Cursor::Start,
{
    SudokuSolutions { puzzle: copy_grid(grid), last: Vec::new(), started: false, done: false }
}

pub struct SudokuSolutions {
    puzzle: Grid,
    last: Vec<u8>,
    started: bool,
    done: bool,
}

/// A row without empty cells among its first `k` counts none.
proof fn lemma_row_blanks_none(g: Seq<Seq<u8>>, r: int, k: int)
    requires
        forall|c: int| 0 <= c < k ==> !is_blank(g, r, c),
        0 <= r < 9,
        k <= 9,
    ensures
        row_blanks(g, r, k) == 0,
    decreases k,
{
    if k > 0 {
        assert(!is_blank(g, r, k - 1));
        lemma_row_blanks_none(g, r, k - 1);
    }
}

/// A square without empty cells counts none.
proof fn lemma_blanks_none(g: Seq<Seq<u8>>, r: int)
    requires
        !has_blank(g),
        r <= 9,
    ensures
        blanks(g, r) == 0,
    decreases r,
{
    if r > 0 {
        lemma_blanks_none(g, r - 1);
        assert forall|c: int| 0 <= c < 9 implies !#[trigger] is_blank(g, r - 1, c) by {
            if is_blank(g, r - 1, c) {
                assert(has_blank(g));
            }
        }
        lemma_row_blanks_none(g, r - 1, 9);
    }
}

/// Every way to complete the grid places one digit per empty cell.
pub proof fn lemma_fill_length(g: Seq<Seq<u8>>, w: Seq<int>)
    requires
        is_board(g),
        is_fill(g, w),
    ensures
        w.len() == blanks(g, 9),
    decreases w.len(),
{
    if !has_blank(g) {
        lemma_blanks_none(g, 9);
    } else {
        lemma_most_constrained_exists(g);
        let (r, c) = next_cell(g);
        let g2 = place(g, (r, c), w[0]);
        assert(is_board(g2)) by {
            assert forall|i: int| 0 <= i < 9 implies (#[trigger] g2[i]).len() >= 9 by {
                assert(g[i].len() >= 9);
            }
        }
        lemma_fill_length(g2, w.drop_first());
        lemma_place_blanks(g, r, c, w[0]);
    }
}

impl SudokuSolutions {
    /// The puzzle solved.
    pub closed spec fn puzzle(&self) -> Seq<Seq<u8>> {
        rows_view(self.puzzle@)
    }

    /// The digits, in the order placed, of the solution handed out last.
    pub closed spec fn cursor(&self) -> Cursor {
        if self.done {
            Cursor::Exhausted
        } else if !self.started {
            Cursor::Start
        } else {
            Cursor::At(digits_of(self.last@))
        }
    }

    /// What a solution of this enumerator is.
    pub open spec fn valid(&self) -> spec_fn(Seq<int>) -> bool {
        |w: Seq<int>| is_fill(self.puzzle(), w)
    }

    pub closed spec fn wf(&self) -> bool {
        &&& is_board(rows_view(self.puzzle@))
        &&& self.started && !self.done ==> is_fill(rows_view(self.puzzle@), digits_of(self.last@))
    }

    /// Law: calling `next` from the start until the enumerator is exhausted
    /// hands out every way to complete the puzzle exactly once, in
    /// increasing lexicographic order of the digits placed.
    pub proof fn law_run(&self, list: Seq<Seq<int>>)
        requires
            self.wf(),
            forall|i: int|
                0 <= i < list.len() + 1 ==> #[trigger] advances(
                    Order::Lex,
                    self.valid(),
                    cursor_run(list)[i],
                    cursor_run(list)[i + 1],
                ),
        ensures
            enumerates(Order::Lex, self.valid(), list),
    {
        let valid = self.valid();
        assert forall|d: Seq<int>| #[trigger] valid(d) implies d.len() == blanks(self.puzzle(), 9) by {
            lemma_fill_length(self.puzzle(), d);
        }
        law_fixed_length_run(valid, blanks(self.puzzle(), 9), list);
    }

    pub fn next(&mut self) -> (res: Option<Grid>)
        requires
            old(self).wf(),
        ensures
            final(self).wf(),
            final(self).puzzle() == old(self).puzzle(),
            advances(Order::Lex, old(self).valid(), old(self).cursor(), final(self).cursor()),
            res is Some <==> final(self).cursor() is At,
            final(self).cursor() matches Cursor::At(w) ==> rows_view(res.unwrap()@) == filled(final(self).puzzle(), w),
    {
        if self.done {
            return None;
        }
        let ghost pv = rows_view(self.puzzle@);
        let ghost prev = if self.started { Option::Some(digits_of(self.last@)) } else { Option::None };
        let mut g = copy_grid(&self.puzzle);
        proof {
            assert(digits_of(self.last@).skip(0) =~= digits_of(self.last@));
        }
        let found = search(&mut g, &self.last, 0, self.started);
        match found {
            Some((w, sol)) => {
                proof {
                    let valid = old(self).valid();
                    assert forall|v: Seq<int>| #[trigger] valid(v) && after(Order::Lex, prev, v) implies !lex_lt(v, digits_of(w@)) by {
                        assert(is_fill(pv, v));
                    }
                }
                self.last = w;
                self.started = true;
                Some(sol)
            },
            None => {
                proof {
                    let valid = old(self).valid();
                    assert forall|v: Seq<int>| #[trigger] valid(v) implies !after(Order::Lex, prev, v) by {
                        assert(is_fill(pv, v));
                    }
                }
                self.done = true;
                None
            },
        }
    }
}

/// The horizontal rule between bands of three rows: `+-------+-------+-------+`.
pub open spec fn sudoku_rule() -> Seq<char> {
    Seq::new(25, |k: int| if k % 8 == 0 { '+' } else { '-' })
}

/// How a cell is shown: `.` when empty, else its value in decimal.
pub open spec fn cell_text(v: u8) -> Seq<char> {
    if v == 0 {
        seq!['.']
    } else {
        decimal(v as nat)
    }
}

/// The start of a row's line, up to and including cell `c - 1`: `| `, then
/// each cell followed by a space, with `| ` after the third and sixth cells.
pub open spec fn row_text_upto(row: Seq<u8>, c: int) -> Seq<char>
    decreases c,
{
    if c <= 0 {
        seq!['|', ' ']
    } else {
        row_text_upto(row, c - 1) + cell_text(row[c - 1]) + seq![' '] + (if c - 1 == 2 || c - 1 == 5 {
            seq!['|', ' ']
        } else {
            Seq::empty()
        })
    }
}

/// The line of one row of the grid.
pub open spec fn row_text(row: Seq<u8>) -> Seq<char> {
    row_text_upto(row, 9) + seq!['|']
}

/// The lines of the first `r` rows: a rule, then each row's line, with a rule
/// after every third row.
pub open spec fn sudoku_lines(grid: Seq<Vec<u8>>, r: int) -> Seq<Seq<char>>
    decreases r,
{
    if r <= 0 {
        seq![sudoku_rule()]
    } else {
        let lines = sudoku_lines(grid, r - 1).push(row_text(grid[r - 1]@));
        if (r - 1) % 3 == 2 {
            lines.push(sudoku_rule())
        } else {
            lines
        }
    }
}

/// The line count of `sudoku_lines` never drops to zero.
proof fn lemma_sudoku_lines_nonempty(grid: Seq<Vec<u8>>, r: int)
    ensures
        sudoku_lines(grid, r).len() >= 1,
    decreases r,
{
    if r > 0 {
        lemma_sudoku_lines_nonempty(grid, r - 1);
    }
}

/// Appending a line to non-empty lines adds a newline and the line.
proof fn lemma_join_push(lines: Seq<Seq<char>>, line: Seq<char>)
    requires
        lines.len() >= 1,
    ensures
        join_lines(lines.push(line)) == join_lines(lines) + seq!['\n'] + line,
{
    assert(lines.push(line).drop_last() == lines);
}

/// Pretty-print a Sudoku grid.
pub fn format_sudoku(grid: &Grid) -> (res: String)
    requires
        grid@.len() >= 9,
        forall|r: int| 0 <= r < 9 ==> (#[trigger] grid@[r])@.len() >= 9,
    ensures
        res@ == join_lines(sudoku_lines(grid@, 9)),
{
    let sep = "+-------+-------+-------+";
    proof {
        reveal_strlit("+-------+-------+-------+");
        assert(sep@ =~= sudoku_rule());
        assert(join_lines(sudoku_lines(grid@, 0)) == sudoku_rule());
    }
    let mut text = String::new();
    text.append(sep);
    for r in 0..9usize
        invariant
            grid@.len() >= 9,
            forall|k: int| 0 <= k < 9 ==> (#[trigger] grid@[k])@.len() >= 9,
            sep@ == sudoku_rule(),
            text@ == join_lines(sudoku_lines(grid@, r as int)),
    {
        let ghost row = grid@[r as int]@;
        let mut line = String::new();
        line.append("| ");
        proof {
            reveal_strlit("| ");
            assert(line@ =~= row_text_upto(row, 0));
        }
        for c in 0..9usize
            invariant
                r < 9,
                grid@.len() >= 9,
                row == grid@[r as int]@,
                row.len() >= 9,
                line@ == row_text_upto(row, c as int),
        {
            let val = grid[r][c];
            if val != 0 {
                push_decimal(&mut line, val as usize);
            } else {
                line.append(".");
                proof { reveal_strlit("."); }
            }
            line.append(" ");
            proof { reveal_strlit(" "); }
            if c == 2 || c == 5 {
                line.append("| ");
                proof { reveal_strlit("| "); }
            }
            proof {
                assert(line@ =~= row_text_upto(row, c + 1));
            }
        }
        line.append("|");
        proof {
            reveal_strlit("|");
            assert(line@ =~= row_text(row));
            lemma_sudoku_lines_nonempty(grid@, r as int);
            lemma_join_push(sudoku_lines(grid@, r as int), row_text(row));
        }
        push_line(&mut text, line.as_str(), false);
        if r == 2 || r == 5 || r == 8 {
            push_line(&mut text, sep, false);
            proof {
                lemma_join_push(sudoku_lines(grid@, r as int).push(row_text(row)), sudoku_rule());
            }
        }
    }
    text
}


/// The cells of the first `r` rows of the grid's 9×9 square, row after row.
pub open spec fn grid_cells(g: Seq<Vec<u8>>, r: int) -> Seq<u8>
    decreases r,
{
    if r <= 0 {
        Seq::empty()
    } else {
        grid_cells(g, r - 1) + g[r - 1]@.take(9)
    }
}

/// The cells of a text are those of its parts, in order.
proof fn lemma_cells_of_add(a: Seq<char>, b: Seq<char>)
    ensures
        cells_of(a + b) == cells_of(a) + cells_of(b),
    decreases b.len(),
{
    if b.len() == 0 {
        assert(a + b =~= a);
        assert(cells_of(a) + cells_of(b) =~= cells_of(a));
    } else {
        lemma_cells_of_add(a, b.drop_last());
        assert((a + b).drop_last() =~= a + b.drop_last());
        assert((a + b).last() == b.last());
        if is_cell_char(b.last()) {
            let v = cell_value(b.last());
            assert(cells_of(a) + cells_of(b.drop_last()).push(v) =~= (cells_of(a) + cells_of(
                b.drop_last(),
            )).push(v));
        }
    }
}

/// A text without digits or dots holds no cell.
proof fn lemma_no_cells(t: Seq<char>)
    requires
        forall|k: int| 0 <= k < t.len() ==> !is_cell_char(#[trigger] t[k]),
    ensures
        cells_of(t) == Seq::<u8>::empty(),
    decreases t.len(),
{
    if t.len() > 0 {
        assert(!is_cell_char(t[t.len() - 1]));
        lemma_no_cells(t.drop_last());
    }
}

/// The cell of a value from 0 to 9 reads back as that value.
proof fn lemma_cell_text(v: u8)
    requires
        v <= 9,
    ensures
        cells_of(cell_text(v)) == seq![v],
{
    let t = cell_text(v);
    let none = Seq::<char>::empty();
    assert(cells_of(none) == Seq::<u8>::empty());
    if v != 0 {
        assert(decimal(v as nat) == seq![digit_char(v as nat)]);
        assert(digit_char(v as nat) as int == v + 48);
    }
    assert(t.len() == 1);
    assert(t.drop_last() =~= none);
    assert(is_cell_char(t.last()));
    assert(cell_value(t.last()) == v);
    assert(cells_of(t) == cells_of(t.drop_last()).push(cell_value(t.last())));
    assert(Seq::<u8>::empty().push(v) =~= seq![v]);
}

/// The first `c` cells of a row's line read back as the row's first `c` values.
proof fn lemma_row_cells(row: Seq<u8>, c: int)
    requires
        0 <= c <= 9,
        row.len() >= 9,
        forall|k: int| 0 <= k < 9 ==> #[trigger] row[k] <= 9,
    ensures
        cells_of(row_text_upto(row, c)) == row.take(c),
    decreases c,
{
    if c == 0 {
        lemma_no_cells(seq!['|', ' ']);
        assert(row.take(0) =~= Seq::<u8>::empty());
    } else {
        lemma_row_cells(row, c - 1);
        let v = row[c - 1];
        let bar: Seq<char> = if c - 1 == 2 || c - 1 == 5 {
            seq!['|', ' ']
        } else {
            Seq::empty()
        };
        let head = row_text_upto(row, c - 1);
        lemma_cells_of_add(head, cell_text(v));
        lemma_cells_of_add(head + cell_text(v), seq![' ']);
        lemma_cells_of_add(head + cell_text(v) + seq![' '], bar);
        lemma_cell_text(v);
        lemma_no_cells(seq![' ']);
        lemma_no_cells(bar);
        assert(row.take(c) =~= row.take(c - 1) + seq![v]);
        assert(row.take(c - 1) + seq![v] + Seq::<u8>::empty() + Seq::<u8>::empty() =~= row.take(c));
    }
}

/// The text of the first `r` rows reads back as their cells.
proof fn lemma_lines_cells(g: Seq<Vec<u8>>, r: int)
    requires
        0 <= r <= 9,
        g.len() >= 9,
        forall|i: int| 0 <= i < 9 ==> (#[trigger] g[i])@.len() >= 9,
        forall|i: int, j: int| 0 <= i < 9 && 0 <= j < 9 ==> #[trigger] g[i]@[j] <= 9,
    ensures
        cells_of(join_lines(sudoku_lines(g, r))) == grid_cells(g, r),
    decreases r,
{
    let rule = sudoku_rule();
    assert forall|k: int| 0 <= k < rule.len() implies !is_cell_char(#[trigger] rule[k]) by {}
    lemma_no_cells(rule);
    lemma_no_cells(seq!['\n']);
    if r == 0 {
        assert(join_lines(sudoku_lines(g, 0)) == rule);
    } else {
        lemma_lines_cells(g, r - 1);
        lemma_sudoku_lines_nonempty(g, r - 1);
        let lines = sudoku_lines(g, r - 1);
        let row = g[r - 1]@;
        assert forall|k: int| 0 <= k < 9 implies #[trigger] row[k] <= 9 by {
            assert(g[r - 1]@[k] <= 9);
        }
        lemma_row_cells(row, 9);
        lemma_cells_of_add(row_text_upto(row, 9), seq!['|']);
        lemma_no_cells(seq!['|']);
        assert(cells_of(row_text(row)) =~= row.take(9));
        lemma_join_push(lines, row_text(row));
        lemma_cells_of_add(join_lines(lines), seq!['\n']);
        lemma_cells_of_add(join_lines(lines) + seq!['\n'], row_text(row));
        let with_row = lines.push(row_text(row));
        assert(cells_of(join_lines(with_row)) =~= grid_cells(g, r));
        if (r - 1) % 3 == 2 {
            lemma_join_push(with_row, rule);
            lemma_cells_of_add(join_lines(with_row), seq!['\n']);
            lemma_cells_of_add(join_lines(with_row) + seq!['\n'], rule);
            assert(cells_of(join_lines(with_row.push(rule))) =~= grid_cells(g, r));
        }
    }
}

/// Row `k` of the square stands at cells `9k..9k+9`.
proof fn lemma_grid_cells(g: Seq<Vec<u8>>, r: int)
    requires
        0 <= r <= g.len(),
        forall|i: int| 0 <= i < r ==> (#[trigger] g[i])@.len() >= 9,
    ensures
        grid_cells(g, r).len() == 9 * r,
        forall|k: int|
            0 <= k < r ==> #[trigger] grid_cells(g, r).subrange(9 * k, 9 * k + 9) == g[k]@.take(9),
    decreases r,
{
    if r > 0 {
        lemma_grid_cells(g, r - 1);
        let prev = grid_cells(g, r - 1);
        let cur = grid_cells(g, r);
        assert forall|k: int| 0 <= k < r implies #[trigger] cur.subrange(9 * k, 9 * k + 9)
            == g[k]@.take(9) by {
            if k < r - 1 {
                assert(cur.subrange(9 * k, 9 * k + 9) =~= prev.subrange(9 * k, 9 * k + 9));
            } else {
                assert(cur.subrange(9 * k, 9 * k + 9) =~= g[k]@.take(9));
            }
        }
    }
}

/// Parsing the text that `format_sudoku` prints gives back the grid's 9×9
/// square, as long as every value in it is empty (0) or a digit from 1 to 9:
/// the text holds exactly 81 cells, and the grid parsed from them has the
/// square's rows.
pub proof fn law_parse_formatted(g: Seq<Vec<u8>>)
    requires
        g.len() >= 9,
        forall|r: int| 0 <= r < 9 ==> (#[trigger] g[r])@.len() >= 9,
        forall|r: int, c: int| 0 <= r < 9 && 0 <= c < 9 ==> #[trigger] g[r]@[c] <= 9,
    ensures
        cells_of(join_lines(sudoku_lines(g, 9))).len() == 81,
        forall|h: Seq<Vec<u8>>|
            #[trigger] grid_of_cells(h, cells_of(join_lines(sudoku_lines(g, 9)))) ==> forall|r: int|
                0 <= r < 9 ==> (#[trigger] h[r])@ == g[r]@.take(9),
{
    lemma_lines_cells(g, 9);
    lemma_grid_cells(g, 9);
    let cells = grid_cells(g, 9);
    assert forall|h: Seq<Vec<u8>>| #[trigger] grid_of_cells(h, cells) implies forall|r: int|
        0 <= r < 9 ==> (#[trigger] h[r])@ == g[r]@.take(9) by {
        assert forall|r: int| 0 <= r < 9 implies (#[trigger] h[r])@ == g[r]@.take(9) by {
            assert(h[r]@ == cells.subrange(9 * r, 9 * r + 9));
        }
    }
}

// ---------------------------------------------------------------------------
// Word search / Path finder
// ---------------------------------------------------------------------------

/// A grid to walk in, the moves allowed, and where a walk starts and ends.
pub struct Maze {
    /// The cells, row by row; 0 = blocked.
    pub grid: Seq<Seq<i32>>,
    /// How many columns a walk may use: the length of the first row.
    pub cols: int,
    /// The moves, as (row, column) offsets, in the order they are tried.
    pub moves: Seq<(isize, isize)>,
    pub start: (usize, usize),
    pub end: (usize, usize),
}

/// The cell one move away from `p`, with `p`'s coordinates read as signed.
pub open spec fn neighbor(p: (usize, usize), mv: (isize, isize)) -> (int, int) {
    ((p.0 as isize) as int + mv.0 as int, (p.1 as isize) as int + mv.1 as int)
}

/// The cell lies inside the grid (within the width of the first row, and
/// within its own row) and is not blocked.
pub open spec fn is_open(m: Maze, q: (int, int)) -> bool {
    &&& 0 <= q.0 < m.grid.len()
    &&& 0 <= q.1 < m.cols
    &&& q.1 < m.grid[q.0].len()
    &&& m.grid[q.0][q.1] != 0
}

/// Every cell that the search reads lies within its row: from the last cell
/// of each partial route that has not reached the end, every move that stays
/// within the rows and the width of the first row lands on a cell that its
/// row has.
pub open spec fn probes_in_rows(m: Maze) -> bool {
    forall|w: Seq<int>, mv: int|
        #![trigger is_partial_route(m, w), m.moves[mv]]
        is_partial_route(m, w) && walk(m, w).last() != m.end && 0 <= mv < m.moves.len() ==> {
            let q = neighbor(walk(m, w).last(), m.moves[mv]);
            0 <= q.0 < m.grid.len() && 0 <= q.1 < m.cols ==> q.1 < m.grid[q.0].len()
        }
}

/// The cells that the moves `w[0], w[1], ...` visit from the start, the
/// start included.
pub open spec fn walk(m: Maze, w: Seq<int>) -> Seq<(usize, usize)>
    decreases w.len(),
{
    if w.len() == 0 {
        seq![m.start]
    } else {
        let prev = walk(m, w.drop_last());
        let q = neighbor(prev.last(), m.moves[w.last()]);
        prev.push((q.0 as usize, q.1 as usize))
    }
}

/// Move `j` of `w` is one of the moves, leads into an open cell, and leaves a
/// cell that is not the end.
pub open spec fn step_ok(m: Maze, w: Seq<int>, j: int) -> bool {
    let cells = walk(m, w);
    &&& 0 <= w[j] < m.moves.len()
    &&& is_open(m, neighbor(cells[j], m.moves[w[j]]))
    &&& cells[j] != m.end
}

/// The moves `w` walk from the start through open cells, visiting no cell
/// twice and not passing the end.
pub open spec fn is_partial_route(m: Maze, w: Seq<int>) -> bool {
    &&& forall|j: int| 0 <= j < w.len() ==> #[trigger] step_ok(m, w, j)
    &&& walk(m, w).no_duplicates()
}

/// The moves `w` walk a simple path from the start to the end through open
/// cells.
pub open spec fn is_route(m: Maze, w: Seq<int>) -> bool {
    &&& is_partial_route(m, w)
    &&& walk(m, w).last() == m.end
}

proof fn lemma_walk_len(m: Maze, w: Seq<int>)
    ensures
        walk(m, w).len() == w.len() + 1,
    decreases w.len(),
{
    if w.len() > 0 {
        lemma_walk_len(m, w.drop_last());
    }
}

/// Walking a prefix of the moves visits a prefix of the cells.
proof fn lemma_walk_prefix(m: Maze, w: Seq<int>, k: int)
    requires
        0 <= k <= w.len(),
    ensures
        walk(m, w.take(k)) == walk(m, w).take(k + 1),
    decreases w.len() - k,
{
    lemma_walk_len(m, w);
    lemma_walk_len(m, w.take(k));
    if k < w.len() {
        lemma_walk_prefix(m, w, k + 1);
        let v = w.take(k + 1);
        assert(v.drop_last() == w.take(k));
        lemma_walk_len(m, v);
        assert(walk(m, v).drop_last() == walk(m, w.take(k)));
        assert(walk(m, w).take(k + 2).drop_last() =~= walk(m, w).take(k + 1));
    } else {
        assert(w.take(k) == w);
        assert(walk(m, w).take(k + 1) =~= walk(m, w));
    }
}

/// A prefix of a route is a partial route.
proof fn lemma_route_prefix(m: Maze, w: Seq<int>, k: int)
    requires
        is_partial_route(m, w),
        0 <= k <= w.len(),
    ensures
        is_partial_route(m, w.take(k)),
{
    lemma_walk_prefix(m, w, k);
    lemma_walk_len(m, w);
    let v = w.take(k);
    assert forall|j: int| 0 <= j < v.len() implies #[trigger] step_ok(m, v, j) by {
        assert(step_ok(m, w, j));
        assert(walk(m, v)[j] == walk(m, w)[j]);
    }
    assert(walk(m, v).no_duplicates()) by {
        assert forall|a: int, b: int| 0 <= a < walk(m, v).len() && 0 <= b < walk(m, v).len() && a != b
            implies walk(m, v)[a] != walk(m, v)[b] by {
            assert(walk(m, v)[a] == walk(m, w)[a]);
            assert(walk(m, v)[b] == walk(m, w)[b]);
        }
    }
}

/// The position of a cell in row-major order.
spec fn cell_code(cols: int, p: (usize, usize)) -> int {
    p.0 * cols + p.1
}

proof fn lemma_cell_code(rows: int, cols: int, p: (usize, usize), q: (usize, usize))
    requires
        0 <= p.0 < rows,
        0 <= p.1 < cols,
        0 <= q.0 < rows,
        0 <= q.1 < cols,
    ensures
        0 <= cell_code(cols, p) < rows * cols,
        cell_code(cols, p) == cell_code(cols, q) ==> p == q,
{
    let (a, b, c, d) = (p.0 as int, p.1 as int, q.0 as int, q.1 as int);
    assert(0 <= a * cols + b < rows * cols) by (nonlinear_arith)
        requires
            0 <= a < rows,
            0 <= b < cols,
    ;
    assert(a * cols + b == c * cols + d ==> a == c && b == d) by (nonlinear_arith)
        requires
            0 <= a,
            0 <= b < cols,
            0 <= c,
            0 <= d < cols,
    ;
}

/// A path whose cells after the first are distinct cells of the grid has at
/// most one cell more than the grid.
proof fn lemma_path_len(m: Maze, cells: Seq<(usize, usize)>)
    requires
        cells.len() >= 1,
        cells.no_duplicates(),
        forall|j: int| 1 <= j < cells.len() ==> is_open(m, (#[trigger] cells[j].0 as int, cells[j].1 as int)),
        m.cols >= 0,
    ensures
        cells.len() - 1 <= m.grid.len() * m.cols,
{
    let rows = m.grid.len() as int;
    let cols = m.cols;
    let codes = Seq::new((cells.len() - 1) as nat, |j: int| cell_code(cols, cells[j + 1]));
    assert forall|j: int| 0 <= j < codes.len() implies 0 <= #[trigger] codes[j] < rows * cols by {
        assert(is_open(m, (cells[j + 1].0 as int, cells[j + 1].1 as int)));
        lemma_cell_code(rows, cols, cells[j + 1], cells[j + 1]);
    }
    assert forall|j: int, k: int| 0 <= j < k < codes.len() implies codes[j] != codes[k] by {
        assert(is_open(m, (cells[j + 1].0 as int, cells[j + 1].1 as int)));
        assert(is_open(m, (cells[k + 1].0 as int, cells[k + 1].1 as int)));
        lemma_cell_code(rows, cols, cells[j + 1], cells[k + 1]);
    }
    assert(rows * cols >= 0) by (nonlinear_arith)
        requires
            rows >= 0,
            cols >= 0,
    ;
    crate::combinatorics::lemma_arrangement_size(rows * cols, codes.len() as int, codes);
}

/// The rows of the grid.
pub open spec fn grid_rows(grid: Seq<Vec<i32>>) -> Seq<Seq<i32>> {
    grid.map_values(|row: Vec<i32>| row@)
}

/// The maze that `find_paths` walks: columns up to the length of the first
/// row, and the four axis moves (up, down, left, right) unless others are
/// given.
pub open spec fn maze_of(
    grid: Seq<Vec<i32>>,
    start: (usize, usize),
    end: (usize, usize),
    moves: Option<Vec<(isize, isize)>>,
) -> Maze {
    Maze {
        grid: grid_rows(grid),
        cols: if grid.len() > 0 { grid[0].len() as int } else { 0 },
        moves: match moves {
            Option::Some(mv) => mv@,
            Option::None => seq![(-1isize, 0isize), (1isize, 0isize), (0isize, -1isize), (0isize, 1isize)],
        },
        start,
        end,
    }
}

/// A walk begins at the start.
proof fn lemma_walk_first(m: Maze, w: Seq<int>)
    ensures
        walk(m, w)[0] == m.start,
    decreases w.len(),
{
    if w.len() > 0 {
        lemma_walk_first(m, w.drop_last());
        lemma_walk_len(m, w.drop_last());
    }
}

/// Each cell of a walk follows from the one before by the move taken.
proof fn lemma_walk_step(m: Maze, w: Seq<int>, j: int)
    requires
        0 <= j < w.len(),
    ensures
        walk(m, w)[j + 1] == (
            neighbor(walk(m, w)[j], m.moves[w[j]]).0 as usize,
            neighbor(walk(m, w)[j], m.moves[w[j]]).1 as usize,
        ),
{
    lemma_walk_len(m, w);
    let v = w.take(j + 1);
    lemma_walk_prefix(m, w, j + 1);
    lemma_walk_prefix(m, w, j);
    lemma_walk_len(m, v);
    lemma_walk_len(m, w.take(j));
    assert(v.drop_last() =~= w.take(j));
    assert(v.last() == w[j]);
    assert(walk(m, v).last() == walk(m, w)[j + 1]);
    assert(walk(m, w.take(j)).last() == walk(m, w)[j]);
}

/// Law: the moves `w` make a path of `find_paths` exactly when they make a
/// simple walk from `start` to `end` through non-zero cells. The walk's
/// cells start at `start`, and each follows from the one before by adding
/// the move taken (one of the moves given, or up, down, left, right). The
/// moves make a path when each is one of those moves and lands inside the
/// grid, within the width of the first row and within its own row, on a
/// cell whose value is not 0; when the walk visits no cell twice; and when
/// it reaches `end` with its last move and not before.
pub proof fn law_routes_are_simple_walks(
    grid: Seq<Vec<i32>>,
    start: (usize, usize),
    end: (usize, usize),
    moves: Option<Vec<(isize, isize)>>,
    w: Seq<int>,
)
    ensures
        ({
            let m = maze_of(grid, start, end, moves);
            let mvs = match moves {
                Option::Some(v) => v@,
                Option::None => seq![(-1isize, 0isize), (1isize, 0isize), (0isize, -1isize), (0isize, 1isize)],
            };
            let cols = if grid.len() > 0 { grid[0]@.len() as int } else { 0 };
            let p = walk(m, w);
            &&& p.len() == w.len() + 1
            &&& p[0] == start
            &&& forall|j: int| #![trigger w[j]] 0 <= j < w.len() && 0 <= w[j] < mvs.len() ==> p[j + 1] == (
                ((p[j].0 as isize) as int + mvs[w[j]].0 as int) as usize,
                ((p[j].1 as isize) as int + mvs[w[j]].1 as int) as usize,
            )
            &&& is_route(m, w) <==> {
                &&& forall|j: int| #![trigger w[j]] 0 <= j < w.len() ==> {
                    let r = (p[j].0 as isize) as int + mvs[w[j]].0 as int;
                    let c = (p[j].1 as isize) as int + mvs[w[j]].1 as int;
                    &&& 0 <= w[j] < mvs.len()
                    &&& 0 <= r < grid.len()
                    &&& 0 <= c < cols
                    &&& c < grid[r]@.len()
                    &&& grid[r]@[c] != 0
                    &&& p[j] != end
                }
                &&& p.no_duplicates()
                &&& p[w.len() as int] == end
            }
        }),
{
    let m = maze_of(grid, start, end, moves);
    let mvs = match moves {
        Option::Some(v) => v@,
        Option::None => seq![(-1isize, 0isize), (1isize, 0isize), (0isize, -1isize), (0isize, 1isize)],
    };
    let cols = if grid.len() > 0 { grid[0]@.len() as int } else { 0 };
    let p = walk(m, w);
    lemma_walk_len(m, w);
    assert(m.moves == mvs);
    assert(m.cols == cols);
    assert(m.grid.len() == grid.len());
    assert forall|r: int| 0 <= r < grid.len() implies #[trigger] m.grid[r] == grid[r]@ by {}
    lemma_walk_first(m, w);
    assert forall|j: int| #![trigger w[j]] 0 <= j < w.len() && 0 <= w[j] < mvs.len() implies p[j + 1] == (
        ((p[j].0 as isize) as int + mvs[w[j]].0 as int) as usize,
        ((p[j].1 as isize) as int + mvs[w[j]].1 as int) as usize,
    ) by {
        lemma_walk_step(m, w, j);
    }
    assert forall|j: int| #![trigger w[j]] 0 <= j < w.len() implies (step_ok(m, w, j) <==> {
        let r = (p[j].0 as isize) as int + mvs[w[j]].0 as int;
        let c = (p[j].1 as isize) as int + mvs[w[j]].1 as int;
        &&& 0 <= w[j] < mvs.len()
        &&& 0 <= r < grid.len()
        &&& 0 <= c < cols
        &&& c < grid[r]@.len()
        &&& grid[r]@[c] != 0
        &&& p[j] != end
    }) by {
        let r = (p[j].0 as isize) as int + mvs[w[j]].0 as int;
        if 0 <= r < grid.len() {
            assert(m.grid[r] == grid[r]@);
        }
    }
    if is_route(m, w) {
        assert forall|j: int| #![trigger w[j]] 0 <= j < w.len() implies {
            let r = (p[j].0 as isize) as int + mvs[w[j]].0 as int;
            let c = (p[j].1 as isize) as int + mvs[w[j]].1 as int;
            &&& 0 <= w[j] < mvs.len()
            &&& 0 <= r < grid.len()
            &&& 0 <= c < cols
            &&& c < grid[r]@.len()
            &&& grid[r]@[c] != 0
            &&& p[j] != end
        } by {
            assert(step_ok(m, w, j));
        }
    }
}

/// The cells of a partial route after the start are open.
proof fn lemma_walk_open(m: Maze, w: Seq<int>, j: int)
    requires
        is_partial_route(m, w),
        1 <= j <= w.len(),
    ensures
        is_open(m, (walk(m, w)[j].0 as int, walk(m, w)[j].1 as int)),
    decreases w.len(),
{
    lemma_walk_len(m, w);
    let k = j - 1;
    assert(step_ok(m, w, k));
    lemma_walk_prefix(m, w, j);
    lemma_walk_len(m, w.take(j));
    let v = w.take(j);
    assert(v.drop_last() == w.take(k));
    lemma_walk_prefix(m, w, k);
    assert(walk(m, v).last() == walk(m, w)[j]);
    assert(walk(m, v.drop_last()).last() == walk(m, w)[k]);
    let q = neighbor(walk(m, w)[k], m.moves[w[k]]);
    assert(v.last() == w[k]);
    assert(walk(m, w)[j] == (q.0 as usize, q.1 as usize));
}

/// Two different routes are ordered one way or the other: neither goes on
/// from the other, as a route stops at its first visit to the end.
proof fn lemma_routes_ordered(m: Maze, a: Seq<int>, b: Seq<int>)
    requires
        is_route(m, a),
        is_route(m, b),
        a != b,
    ensures
        lex_lt(a, b) || lex_lt(b, a),
{
    let k = if a.len() <= b.len() { a.len() } else { b.len() };
    if forall|j: int| 0 <= j < k ==> a[j] == b[j] {
        let (short, long) = if a.len() <= b.len() { (a, b) } else { (b, a) };
        assert(long.take(k as int) =~= short);
        if long.len() > short.len() {
            assert(step_ok(m, long, k as int));
            lemma_walk_prefix(m, long, k as int);
            lemma_walk_len(m, long);
            lemma_walk_len(m, short);
            assert(walk(m, long)[k as int] == walk(m, short).last());
        }
        assert(a =~= b);
    }
    crate::order::lemma_first_difference(a, b, k as int);
    let j = choose|j: int| 0 <= j < a.len() && j < b.len() && a[j] != b[j] && a.take(j) == b.take(j);
    if a[j] < b[j] {
        assert(lex_lt(a, b));
    } else {
        assert(lex_lt(b, a));
    }
}

/// A route that goes on from `w0` starts with the partial route `w0` and its
/// next move.
proof fn lemma_route_through(m: Maze, w0: Seq<int>, t: Seq<int>)
    requires
        is_route(m, t),
        t.len() > w0.len(),
        t.take(w0.len() as int) == w0,
    ensures
        is_partial_route(m, w0.push(t[w0.len() as int])),
        t.take(w0.len() as int + 1) == w0.push(t[w0.len() as int]),
{
    let k = w0.len() as int;
    assert(t.take(k + 1) =~= t.take(k).push(t[k]));
    lemma_route_prefix(m, t, k + 1);
}

/// Moving from the last cell of a partial route that has not reached the end
/// into an open cell it has not visited gives a longer partial route.
proof fn lemma_route_extend(m: Maze, w0: Seq<int>, mv: int)
    requires
        is_partial_route(m, w0),
        walk(m, w0).last() != m.end,
        0 <= mv < m.moves.len(),
        is_open(m, neighbor(walk(m, w0).last(), m.moves[mv])),
        !walk(m, w0).contains(
            (
                neighbor(walk(m, w0).last(), m.moves[mv]).0 as usize,
                neighbor(walk(m, w0).last(), m.moves[mv]).1 as usize,
            ),
        ),
    ensures
        is_partial_route(m, w0.push(mv)),
        walk(m, w0.push(mv)) == walk(m, w0).push(
            (
                neighbor(walk(m, w0).last(), m.moves[mv]).0 as usize,
                neighbor(walk(m, w0).last(), m.moves[mv]).1 as usize,
            ),
        ),
{
    let w1 = w0.push(mv);
    let q = neighbor(walk(m, w0).last(), m.moves[mv]);
    let cell = (q.0 as usize, q.1 as usize);
    let k = w0.len() as int;
    lemma_walk_len(m, w0);
    lemma_walk_len(m, w1);
    assert(w1.drop_last() == w0);
    assert(walk(m, w1) == walk(m, w0).push(cell));
    assert forall|j: int| 0 <= j < w1.len() implies #[trigger] step_ok(m, w1, j) by {
        lemma_walk_prefix(m, w1, k);
        assert(w1.take(k) == w0);
        if j < k {
            assert(step_ok(m, w0, j));
            assert(walk(m, w1)[j] == walk(m, w0)[j]);
            assert(w1[j] == w0[j]);
        } else {
            assert(walk(m, w1)[k] == walk(m, w0)[k]);
        }
    }
    assert(walk(m, w1).no_duplicates()) by {
        let path = walk(m, w0);
        assert forall|a: int, b: int| 0 <= a < walk(m, w1).len() && 0 <= b < walk(m, w1).len() && a != b
            implies walk(m, w1)[a] != walk(m, w1)[b] by {
            if b == k + 1 && a < b {
                assert(path[a] == walk(m, w1)[a]);
                if walk(m, w1)[a] == cell {
                    assert(path.contains(cell));
                }
            } else if a == k + 1 && b < a {
                assert(path[b] == walk(m, w1)[b]);
                if walk(m, w1)[b] == cell {
                    assert(path.contains(cell));
                }
            } else {
                assert(path[a] == walk(m, w1)[a]);
                assert(path[b] == walk(m, w1)[b]);
            }
        }
    }
}

/// `t` is a route that goes on from `w0` and comes after `prev`.
spec fn route_after(m: Maze, w0: Seq<int>, prev: Option<Seq<int>>, t: Seq<int>) -> bool {
    &&& is_route(m, t)
    &&& t.len() >= w0.len()
    &&& t.take(w0.len() as int) == w0
    &&& after(Order::Lex, prev, t)
}

/// Whether the cell is on the path.
fn on_path(path: &Vec<(usize, usize)>, cell: (usize, usize)) -> (found: bool)
    ensures
        found == path@.contains(cell),
{
    for j in 0..path.len()
        invariant
            forall|k: int| 0 <= k < j ==> path@[k] != cell,
    {
        if path[j].0 == cell.0 && path[j].1 == cell.1 {
            assert(path@[j as int] == cell);
            return true;
        }
    }
    false
}

/// The first route, in lexicographic order of its moves, that goes on from
/// the moves `word` (which walk `path`, ending at `pos`) and comes after
/// `bound` (when `tight`), with the moves and the cells it walks; `path` and
/// `word` are left as they were.
fn route_after_bound(
    pos: (usize, usize),
    end: (usize, usize),
    grid: &Vec<Vec<i32>>,
    moves: &Vec<(isize, isize)>,
    rows: usize,
    cols: usize,
    path: &mut Vec<(usize, usize)>,
    word: &mut Vec<usize>,
    bound: &Vec<usize>,
    tight: bool,
    Ghost(m): Ghost<Maze>,
) -> (res: Option<(Vec<usize>, Vec<(usize, usize)>)>)
    requires
        m.grid == grid_rows(grid@),
        m.moves == moves@,
        m.end == end,
        rows == grid@.len(),
        rows <= isize::MAX,
        cols <= isize::MAX,
        m.cols == cols,
        probes_in_rows(m),
        old(path)@ == walk(m, ints(old(word)@)),
        pos == walk(m, ints(old(word)@)).last(),
        is_partial_route(m, ints(old(word)@)),
        tight ==> is_route(m, ints(bound@)),
        tight ==> bound@.len() >= old(word)@.len(),
        tight ==> ints(bound@).take(old(word)@.len() as int) == ints(old(word)@),
    ensures
        final(path)@ == old(path)@,
        final(word)@ == old(word)@,
        ({
            let w0 = ints(old(word)@);
            let prev = bound_of(tight, bound@);
            match res {
                Option::Some((w, p)) => route_after(m, w0, prev, ints(w@)) && p@ == walk(m, ints(w@))
                    && forall|t: Seq<int>| #[trigger] route_after(m, w0, prev, t) ==> !lex_lt(t, ints(w@)),
                Option::None => forall|t: Seq<int>| !#[trigger] route_after(m, w0, prev, t),
            }
        }),
    decreases rows * cols + 1 - old(path)@.len(),
{
    let ghost w0 = ints(word@);
    let ghost k = w0.len() as int;
    let ghost prev = bound_of(tight, bound@);
    let ghost b = ints(bound@);
    proof {
        lemma_walk_len(m, w0);
        // a route that goes on from `w0` past its length leaves `pos` on the way
        assert forall|t: Seq<int>| #[trigger] route_after(m, w0, prev, t) && t.len() > k implies pos != end by {
            assert(step_ok(m, t, k));
            lemma_walk_prefix(m, t, k);
            lemma_walk_len(m, t);
            assert(walk(m, t)[k] == walk(m, w0)[k]);
        }
    }
    if pos.0 == end.0 && pos.1 == end.1 {
        proof {
            assert forall|t: Seq<int>| #[trigger] route_after(m, w0, prev, t) implies t == w0 by {
                assert(t.take(k) == w0);
                assert(t =~= w0);
            }
            lemma_lex_irreflexive(w0);
            if tight {
                assert(b.take(k) == w0);
                if b.len() > k {
                    assert(step_ok(m, b, k));
                    lemma_walk_prefix(m, b, k);
                    lemma_walk_len(m, b);
                    assert(walk(m, b)[k] == walk(m, w0)[k]);
                }
                assert(b =~= w0);
            }
        }
        if tight {
            return None;
        }
        let w = copy_positions(word);
        let mut p: Vec<(usize, usize)> = Vec::new();
        for j in 0..path.len()
            invariant
                p@ == path@.take(j as int),
        {
            p.push(path[j]);
            assert(path@.take(j + 1) == path@.take(j as int).push(path@[j as int]));
        }
        proof {
            assert(path@.take(path.len() as int) == path@);
            assert(ints(w@) == w0);
            assert(w0.take(k) =~= w0);
            assert(is_route(m, w0));
            assert(route_after(m, w0, prev, w0));
        }
        return Some((w, p));
    }
    proof {
        assert forall|t: Seq<int>| #[trigger] route_after(m, w0, prev, t) implies t.len() > k by {
            if t.len() == k {
                assert(t.take(k) == w0);
                assert(t =~= w0);
            }
        }
        if tight {
            assert(b.take(k) == w0);
            if b.len() == k {
                assert(b =~= w0);
            }
            assert(step_ok(m, b, k));
        }
    }
    let r = (#[verifier::truncate] (pos.0 as isize)) as i128;
    let c = (#[verifier::truncate] (pos.1 as isize)) as i128;
    let mut mv: usize = if tight { bound[word.len()] } else { 0 };
    proof {
        assert forall|t: Seq<int>| #[trigger] route_after(m, w0, prev, t) implies t[k] >= mv by {
            assert(step_ok(m, t, k));
            if tight && t[k] < mv {
                assert(t.take(k) == b.take(k));
                lemma_lex_at(t, b, k);
            }
        }
    }
    while mv < moves.len()
        invariant
            m.grid == grid_rows(grid@),
            m.moves == moves@,
            m.end == end,
            rows == grid@.len(),
            rows <= isize::MAX,
            cols <= isize::MAX,
            m.cols == cols,
            probes_in_rows(m),
            path@ == old(path)@,
            word@ == old(word)@,
            w0 == ints(word@),
            k == w0.len(),
            path@ == walk(m, w0),
            pos == walk(m, w0).last(),
            pos != end,
            r == (pos.0 as isize) as int,
            c == (pos.1 as isize) as int,
            walk(m, w0).len() == w0.len() + 1,
            is_partial_route(m, w0),
            prev == bound_of(tight, bound@),
            b == ints(bound@),
            tight ==> is_route(m, b),
            tight ==> b.len() > k,
            tight ==> b.take(k) == w0,
            tight ==> mv >= b[k],
            forall|t: Seq<int>| #[trigger] route_after(m, w0, prev, t) ==> t.len() > k && t[k] >= mv,
        decreases moves.len() - mv,
    {
        let (dr, dc) = moves[mv];
        let nr = r + dr as i128;
        let nc = c + dc as i128;
        let ghost w1 = w0.push(mv as int);
        let ghost q = neighbor(pos, moves@[mv as int]);
        proof {
            assert(w1.drop_last() == w0);
            assert(q == (nr as int, nc as int));
            lemma_walk_len(m, w1);
            assert(walk(m, w1)[k] == pos);
            assert(w1[k] == mv);
        }
        let mut open = false;
        if 0 <= nr && nr < rows as i128 && 0 <= nc && nc < cols as i128 {
            let nru = nr as usize;
            let ncu = nc as usize;
            proof {
                assert(m.grid[nru as int] == grid@[nru as int]@);
                assert(m.moves[mv as int] == moves@[mv as int]);
                assert(is_partial_route(m, w0));
            }
            if grid[nru][ncu] != 0 && !on_path(path, (nru, ncu)) {
                open = true;
            }
        }
        if !open {
            proof {
                assert(!is_partial_route(m, w1)) by {
                    if is_partial_route(m, w1) {
                        assert(step_ok(m, w1, k));
                        let cell = (q.0 as usize, q.1 as usize);
                        assert(walk(m, w1) == walk(m, w0).push(cell));
                        if path@.contains(cell) {
                            let j = choose|j: int| 0 <= j < path@.len() && path@[j] == cell;
                            assert(walk(m, w1)[j] == walk(m, w1)[k + 1]);
                        }
                    }
                }
                assert forall|t: Seq<int>| #[trigger] route_after(m, w0, prev, t) implies t[k] >= mv + 1 by {
                    if t[k] == mv {
                        lemma_route_through(m, w0, t);
                    }
                }
            }
        } else {
            let cell = (nr as usize, nc as usize);
            proof {
                lemma_route_extend(m, w0, mv as int);
                assert forall|j: int| 1 <= j < walk(m, w1).len() implies is_open(m, (#[trigger] walk(m, w1)[j].0 as int, walk(m, w1)[j].1 as int)) by {
                    lemma_walk_open(m, w1, j);
                }
                lemma_path_len(m, walk(m, w1));
                assert(rows * cols == m.grid.len() * m.cols);
            }
            path.push(cell);
            word.push(mv);
            let sub_tight = tight && mv == bound[word.len() - 1];
            let ghost sub_prev = bound_of(sub_tight, bound@);
            proof {
                assert(ints(word@) =~= w1);
                if sub_tight {
                    assert(b.take(k + 1) =~= b.take(k).push(b[k]));
                }
            }
            let found = route_after_bound(cell, end, grid, moves, rows, cols, path, word, bound, sub_tight, Ghost(m));
            path.pop();
            word.pop();
            proof {
                assert(path@ =~= old(path)@);
                assert(word@ =~= old(word)@);
                assert forall|t: Seq<int>| #[trigger] route_after(m, w0, prev, t) && t[k] == mv
                    implies route_after(m, w1, sub_prev, t) by {
                    lemma_route_through(m, w0, t);
                }
            }
            match found {
                Some((w, p)) => {
                    proof {
                        let wv = ints(w@);
                        assert(wv.take(k) =~= wv.take(k + 1).take(k));
                        assert(wv[k] == wv.take(k + 1)[k]);
                        assert(w1.take(k) =~= w0);
                        if tight && !sub_tight {
                            assert(b.take(k) == wv.take(k));
                            lemma_lex_at(b, wv, k);
                        }
                        assert(route_after(m, w0, prev, wv));
                        assert forall|t: Seq<int>| #[trigger] route_after(m, w0, prev, t) implies !lex_lt(t, wv) by {
                            if t[k] != mv {
                                assert(t.take(k) == wv.take(k));
                                lemma_lex_at(wv, t, k);
                            }
                        }
                    }
                    return Some((w, p));
                },
                None => {
                    proof {
                        assert forall|t: Seq<int>| #[trigger] route_after(m, w0, prev, t) implies t[k] >= mv + 1 by {
                            if t[k] == mv {
                                assert(route_after(m, w1, sub_prev, t));
                            }
                        }
                    }
                },
            }
        }
        mv += 1;
    }
    proof {
        assert forall|t: Seq<int>| !#[trigger] route_after(m, w0, prev, t) by {
            if route_after(m, w0, prev, t) {
                assert(step_ok(m, t, k));
            }
        }
    }
    None
}

/// The simple paths from `start` to `end` in a 2-D grid (0 = blocked),
/// moving by `moves` (default: up, down, left, right), handed out one per
/// `next` call. The paths come in lexicographic order of the moves taken,
/// each move tried in the order of `moves`; a path stops at its first visit
/// to `end`. Each call searches only as far as the next path.
pub struct Paths {
    grid: Vec<Vec<i32>>,
    moves: Vec<(isize, isize)>,
    start: (usize, usize),
    end: (usize, usize),
    rows: usize,
    cols: usize,
    last: Vec<usize>,
    started: bool,
    done: bool,
}

/// An enumerator of the simple paths from `start` to `end` in the grid.
pub fn find_paths(
    grid: Vec<Vec<i32>>,
    start: (usize, usize),
    end: (usize, usize),
    moves: Option<Vec<(isize, isize)>>,
) -> (res: Paths)
    requires
        grid@.len() <= isize::MAX,
        grid@.len() > 0 ==> grid@[0].len() <= isize::MAX,
        probes_in_rows(maze_of(grid@, start, end, moves)),
    ensures
        res.wf(),
        res.maze() == maze_of(grid@, start, end, moves),
        res.cursor() == Cursor::Start,
{
    Paths::new(grid, start, end, moves)
}

impl Paths {
    /// The grid, moves and endpoints walked.
    pub closed spec fn maze(&self) -> Maze {
        Maze { grid: grid_rows(self.grid@), cols: self.cols as int, moves: self.moves@, start: self.start, end: self.end }
    }

    /// The moves of the path handed out last.
    pub closed spec fn cursor(&self) -> Cursor {
        if self.done {
            Cursor::Exhausted
        } else if !self.started {
            Cursor::Start
        } else {
            Cursor::At(ints(self.last@))
        }
    }

    /// What the moves of a path of this enumerator are.
    pub open spec fn valid(&self) -> spec_fn(Seq<int>) -> bool {
        |w: Seq<int>| is_route(self.maze(), w)
    }

    pub closed spec fn wf(&self) -> bool {
        &&& self.rows == self.grid@.len()
        &&& self.rows <= isize::MAX
        &&& self.cols <= isize::MAX
        &&& probes_in_rows(self.maze())
        &&& self.started && !self.done ==> is_route(self.maze(), ints(self.last@))
    }

    /// Law: calling `next` from the start until the enumerator is exhausted
    /// hands out every simple path from the start to the end exactly once,
    /// in increasing lexicographic order of the moves taken.
    pub proof fn law_run(&self, list: Seq<Seq<int>>)
        requires
            forall|i: int|
                0 <= i < list.len() + 1 ==> #[trigger] advances(
                    Order::Lex,
                    self.valid(),
                    cursor_run(list)[i],
                    cursor_run(list)[i + 1],
                ),
        ensures
            enumerates(Order::Lex, self.valid(), list),
    {
        let valid = self.valid();
        assert forall|a: Seq<int>, b: Seq<int>| valid(a) && valid(b) && a != b
            implies #[trigger] precedes(Order::Lex, a, b) || #[trigger] precedes(Order::Lex, b, a) by {
            lemma_routes_ordered(self.maze(), a, b);
        }
        crate::order::law_run_lists_all(Order::Lex, valid, list);
    }

    /// An enumerator of the simple paths from `start` to `end` in the grid.
    pub fn new(
        grid: Vec<Vec<i32>>,
        start: (usize, usize),
        end: (usize, usize),
        moves: Option<Vec<(isize, isize)>>,
    ) -> (res: Self)
        requires
            grid@.len() <= isize::MAX,
            grid@.len() > 0 ==> grid@[0].len() <= isize::MAX,
            probes_in_rows(maze_of(grid@, start, end, moves)),
        ensures
            res.wf(),
            res.maze() == maze_of(grid@, start, end, moves),
            res.cursor() == Cursor::Start,
    {
        let steps = match moves {
            Some(mv) => mv,
            None => vec![(-1, 0), (1, 0), (0, -1), (0, 1)],
        };
        let rows = grid.len();
        let cols = if rows > 0 { grid[0].len() } else { 0 };
        let res = Paths { grid, moves: steps, start, end, rows, cols, last: Vec::new(), started: false, done: false };
        proof {
            assert(res.maze().moves == maze_of(grid@, start, end, moves).moves);
        }
        res
    }

    /// The cells of the next path, start and end included, or `None` once
    /// every path has been handed out.
    pub fn next(&mut self) -> (res: Option<Vec<(usize, usize)>>)
        requires
            old(self).wf(),
        ensures
            final(self).wf(),
            final(self).maze() == old(self).maze(),
            advances(Order::Lex, old(self).valid(), old(self).cursor(), final(self).cursor()),
            res is Some <==> final(self).cursor() is At,
            final(self).cursor() matches Cursor::At(w) ==> res.unwrap()@ == walk(final(self).maze(), w),
    {
        if self.done {
            return None;
        }
        let ghost m = self.maze();
        let ghost valid = old(self).valid();
        let ghost prev = bound_of(self.started, self.last@);
        let ghost empty = Seq::<int>::empty();
        let mut path: Vec<(usize, usize)> = Vec::new();
        path.push(self.start);
        let mut word: Vec<usize> = Vec::new();
        proof {
            assert(ints(word@) =~= empty);
            assert(walk(m, empty) == seq![self.start]);
            assert(path@ == seq![self.start]);
            assert(is_partial_route(m, empty));
            assert(ints(self.last@).take(0) =~= empty);
            assert forall|t: Seq<int>| #[trigger] route_after(m, empty, prev, t)
                <==> valid(t) && after(Order::Lex, prev, t) by {
                assert(t.take(0) =~= empty);
            }
        }
        let found = route_after_bound(
            self.start, self.end, &self.grid, &self.moves, self.rows, self.cols,
            &mut path, &mut word, &self.last, self.started, Ghost(m),
        );
        match found {
            Some((w, p)) => {
                proof {
                    let wv = ints(w@);
                    assert(route_after(m, empty, prev, wv));
                    assert forall|d: Seq<int>| #[trigger] valid(d) && after(Order::Lex, prev, d)
                        implies !precedes(Order::Lex, d, wv) by {
                        assert(route_after(m, empty, prev, d));
                    }
                }
                self.last = w;
                self.started = true;
                Some(p)
            },
            None => {
                proof {
                    assert forall|d: Seq<int>| #[trigger] valid(d) implies !after(Order::Lex, prev, d) by {
                        assert(!route_after(m, empty, prev, d));
                    }
                }
                self.done = true;
                None
            },
        }
    }
}


} // verus!

verus! {

// ---------------------------------------------------------------------------
// What the sudoku solver guarantees
// ---------------------------------------------------------------------------

/// Some integer below `n` satisfies `q`; then a least one does.
proof fn lemma_least(q: spec_fn(int) -> bool, n: int)
    requires
        exists|i: int| 0 <= i < n && #[trigger] q(i),
    ensures
        exists|i: int| 0 <= i < n && #[trigger] q(i) && forall|j: int| 0 <= j < i ==> !#[trigger] q(j),
    decreases n,
{
    if exists|i: int| 0 <= i < n - 1 && #[trigger] q(i) {
        lemma_least(q, n - 1);
        let i = choose|i: int| 0 <= i < n - 1 && #[trigger] q(i) && forall|j: int| 0 <= j < i ==> !#[trigger] q(j);
        assert(0 <= i < n && q(i) && forall|j: int| 0 <= j < i ==> !#[trigger] q(j));
    } else {
        let i = n - 1;
        assert(q(i));
        assert(forall|j: int| 0 <= j < i ==> !#[trigger] q(j));
    }
}

/// A grid with an empty cell has a most constrained one.
pub proof fn lemma_most_constrained_exists(g: Seq<Seq<u8>>)
    requires
        has_blank(g),
    ensures
        is_most_constrained(g, next_cell(g).0, next_cell(g).1),
{
    let (r0, c0) = choose|r: int, c: int| #[trigger] is_blank(g, r, c);
    lemma_allowed_upto_bound(g, r0, c0, 9);
    let has_count = |v: int| exists|r: int, c: int| #[trigger] is_blank(g, r, c) && candidate_count(g, r, c) == v;
    assert(has_count(candidate_count(g, r0, c0) as int));
    lemma_least(has_count, 10);
    let v = choose|v: int| 0 <= v < 10 && #[trigger] has_count(v) && forall|j: int| 0 <= j < v ==> !#[trigger] has_count(j);
    let at = |t: int| is_blank(g, t / 9, t % 9) && candidate_count(g, t / 9, t % 9) == v;
    let (r1, c1) = choose|r: int, c: int| #[trigger] is_blank(g, r, c) && candidate_count(g, r, c) == v;
    assert(at(9 * r1 + c1));
    lemma_least(at, 81);
    let t = choose|t: int| 0 <= t < 81 && #[trigger] at(t) && forall|j: int| 0 <= j < t ==> !#[trigger] at(j);
    let (r, c) = (t / 9, t % 9);
    assert forall|r2: int, c2: int| #[trigger] is_blank(g, r2, c2) implies candidate_count(g, r, c) <= candidate_count(g, r2, c2) by {
        if candidate_count(g, r2, c2) < v {
            assert(has_count(candidate_count(g, r2, c2) as int));
        }
    }
    assert forall|r2: int, c2: int| #[trigger] is_blank(g, r2, c2) && (r2 < r || (r2 == r && c2 < c))
        implies candidate_count(g, r2, c2) > candidate_count(g, r, c) by {
        if candidate_count(g, r2, c2) <= v {
            let j = 9 * r2 + c2;
            assert(j / 9 == r2 && j % 9 == c2);
            assert(0 <= j < t);
            assert(!at(j));
            if candidate_count(g, r2, c2) < v {
                assert(has_count(candidate_count(g, r2, c2) as int));
            }
        }
    }
    assert(is_most_constrained(g, r, c));
    lemma_most_constrained_unique(g, r, c);
}

/// Two different cells of the 9×9 square share a row, a column or a box.
pub open spec fn same_group(r1: int, c1: int, r2: int, c2: int) -> bool {
    &&& (r1, c1) != (r2, c2)
    &&& r1 == r2 || c1 == c2 || (r1 / 3 == r2 / 3 && c1 / 3 == c2 / 3)
}

/// Every cell of the 9×9 square holds 0 (empty) or a digit, and no digit
/// stands twice in a row, a column or a box.
pub open spec fn is_consistent(g: Seq<Seq<u8>>) -> bool {
    &&& is_board(g)
    &&& forall|r: int, c: int| 0 <= r < 9 && 0 <= c < 9 ==> #[trigger] g[r][c] <= 9
    &&& forall|r1: int, c1: int, r2: int, c2: int|
        0 <= r1 < 9 && 0 <= c1 < 9 && 0 <= r2 < 9 && 0 <= c2 < 9 && same_group(r1, c1, r2, c2) && g[r1][c1] != 0
        ==> #[trigger] g[r1][c1] != #[trigger] g[r2][c2]
}

/// A consistent grid with no empty cell: a solved sudoku.
pub open spec fn is_solved(g: Seq<Seq<u8>>) -> bool {
    is_consistent(g) && !has_blank(g)
}

/// `h` keeps every digit that `g` gives in the 9×9 square.
pub open spec fn keeps_givens(g: Seq<Seq<u8>>, h: Seq<Seq<u8>>) -> bool {
    forall|r: int, c: int| 0 <= r < 9 && 0 <= c < 9 && g[r][c] != 0 ==> #[trigger] h[r][c] == g[r][c]
}

/// Placing an allowed digit into an empty cell keeps the grid consistent.
proof fn lemma_place_consistent(g: Seq<Seq<u8>>, r: int, c: int, d: int)
    requires
        is_consistent(g),
        is_blank(g, r, c),
        allowed(g, r, c, d),
    ensures
        is_consistent(place(g, (r, c), d)),
        keeps_givens(g, place(g, (r, c), d)),
{
    let h = place(g, (r, c), d);
    assert forall|r1: int, c1: int| 0 <= r1 < 9 && 0 <= c1 < 9 implies #[trigger] h[r1][c1] == (if r1 == r && c1 == c { d as u8 } else { g[r1][c1] }) by {}
    assert forall|r1: int, c1: int, r2: int, c2: int|
        0 <= r1 < 9 && 0 <= c1 < 9 && 0 <= r2 < 9 && 0 <= c2 < 9 && same_group(r1, c1, r2, c2) && h[r1][c1] != 0
        implies #[trigger] h[r1][c1] != #[trigger] h[r2][c2] by {
        assert(h[r1][c1] == (if r1 == r && c1 == c { d as u8 } else { g[r1][c1] }));
        assert(h[r2][c2] == (if r2 == r && c2 == c { d as u8 } else { g[r2][c2] }));
        if r1 == r && c1 == c {
            if g[r2][c2] == d {
                lemma_group_conflict(g, r, c, r2, c2, d);
            }
        } else if r2 == r && c2 == c {
            if g[r1][c1] == d {
                lemma_group_conflict(g, r, c, r1, c1, d);
            }
        } else {
            assert(g[r1][c1] != g[r2][c2]);
        }
    }
}

/// A digit that stands in a cell sharing a group with `(r, c)` conflicts there.
proof fn lemma_group_conflict(g: Seq<Seq<u8>>, r: int, c: int, r2: int, c2: int, d: int)
    requires
        is_board(g),
        0 <= r < 9 && 0 <= c < 9 && 0 <= r2 < 9 && 0 <= c2 < 9,
        same_group(r, c, r2, c2) || same_group(r2, c2, r, c),
        g[r2][c2] == d,
    ensures
        conflicts(g, r, c, d),
{
    if r2 == r {
        assert(g[r][c2] == d);
    } else if c2 == c {
        assert(g[r2][c] == d);
    } else {
        assert((r / 3) * 3 <= r2 < (r / 3) * 3 + 3 && (c / 3) * 3 <= c2 < (c / 3) * 3 + 3 && g[r2][c2] == d);
    }
}

/// Law: from a consistent puzzle, every fill that the solver can place
/// gives a solved sudoku that keeps the puzzle's digits.
pub proof fn law_fill_solves(g: Seq<Seq<u8>>, w: Seq<int>)
    requires
        is_consistent(g),
        is_fill(g, w),
    ensures
        is_solved(filled(g, w)),
        keeps_givens(g, filled(g, w)),
    decreases w.len(),
{
    if has_blank(g) {
        lemma_most_constrained_exists(g);
        let (r, c) = next_cell(g);
        lemma_fill_split(g, r, c, w);
        let d = w[0];
        let g2 = place(g, (r, c), d);
        lemma_place_consistent(g, r, c, d);
        law_fill_solves(g2, w.drop_first());
        lemma_fill_cons(g, r, c, d, w.drop_first());
        let h = filled(g, w);
        assert forall|r1: int, c1: int| 0 <= r1 < 9 && 0 <= c1 < 9 && g[r1][c1] != 0 implies #[trigger] h[r1][c1] == g[r1][c1] by {
            assert(g2[r1][c1] == g[r1][c1]);
        }
    } else {
        assert(w.len() == 0);
    }
}

/// No row of the 9×9 square holds a digit from 1 to 9 past its ninth cell
/// (the solver counts such a digit as taken in its row).
pub open spec fn clear_past_square(g: Seq<Seq<u8>>) -> bool {
    forall|r: int, j: int| 0 <= r < 9 && 9 <= j < g[r].len() ==> !(1 <= #[trigger] g[r][j] <= 9)
}

/// Law: from a consistent puzzle, every solved sudoku that keeps the
/// puzzle's digits is reached by some fill of the solver, as long as no row
/// holds a digit past its ninth cell.
pub proof fn law_every_solution_filled(g: Seq<Seq<u8>>, h: Seq<Seq<u8>>)
    requires
        is_consistent(g),
        clear_past_square(g),
        is_solved(h),
        keeps_givens(g, h),
    ensures
        exists|w: Seq<int>| #[trigger] is_fill(g, w) && forall|r: int, c: int| 0 <= r < 9 && 0 <= c < 9 ==> #[trigger] filled(g, w)[r][c] == h[r][c],
    decreases blanks(g, 9),
{
    if has_blank(g) {
        lemma_most_constrained_exists(g);
        let (r, c) = next_cell(g);
        let d = h[r][c] as int;
        assert(d != 0) by {
            if d == 0 {
                assert(is_blank(h, r, c));
            }
        }
        assert(!conflicts(g, r, c, d)) by {
            if exists|j: int| 0 <= j < g[r].len() && g[r][j] == d {
                let j = choose|j: int| 0 <= j < g[r].len() && g[r][j] == d;
                if j >= 9 {
                    assert(!(1 <= g[r][j] <= 9));
                }
                assert(h[r][j] == g[r][j]);
                assert(same_group(r, c, r, j));
            }
            if exists|i: int| 0 <= i < 9 && g[i][c] == d {
                let i = choose|i: int| 0 <= i < 9 && g[i][c] == d;
                assert(h[i][c] == g[i][c]);
                assert(same_group(r, c, i, c));
            }
            if exists|i: int, j: int| (r / 3) * 3 <= i < (r / 3) * 3 + 3 && (c / 3) * 3 <= j < (c / 3) * 3 + 3 && g[i][j] == d {
                let (i, j) = choose|i: int, j: int| (r / 3) * 3 <= i < (r / 3) * 3 + 3 && (c / 3) * 3 <= j < (c / 3) * 3 + 3 && g[i][j] == d;
                assert(h[i][j] == g[i][j]);
                assert(i / 3 == r / 3 && j / 3 == c / 3);
                assert(same_group(r, c, i, j));
            }
        }
        assert(h[r][c] <= 9);
        let g2 = place(g, (r, c), d);
        lemma_place_consistent(g, r, c, d);
        lemma_place_blanks(g, r, c, d);
        assert(clear_past_square(g2)) by {
            assert forall|r1: int, j: int| 0 <= r1 < 9 && 9 <= j < g2[r1].len() implies !(1 <= #[trigger] g2[r1][j] <= 9) by {
                assert(g2[r1][j] == g[r1][j]);
            }
        }
        assert(keeps_givens(g2, h)) by {
            assert forall|r1: int, c1: int| 0 <= r1 < 9 && 0 <= c1 < 9 && g2[r1][c1] != 0 implies #[trigger] h[r1][c1] == g2[r1][c1] by {
                if r1 != r || c1 != c {
                    assert(g2[r1][c1] == g[r1][c1]);
                }
            }
        }
        law_every_solution_filled(g2, h);
        let w2 = choose|w: Seq<int>| #[trigger] is_fill(g2, w) && forall|r1: int, c1: int| 0 <= r1 < 9 && 0 <= c1 < 9 ==> #[trigger] filled(g2, w)[r1][c1] == h[r1][c1];
        lemma_fill_cons(g, r, c, d, w2);
        let w = seq![d] + w2;
        assert(is_fill(g, w));
        assert forall|r1: int, c1: int| 0 <= r1 < 9 && 0 <= c1 < 9 implies #[trigger] filled(g, w)[r1][c1] == h[r1][c1] by {
            assert(filled(g2, w2)[r1][c1] == h[r1][c1]);
        }
    } else {
        let w = Seq::<int>::empty();
        assert(is_fill(g, w));
        assert forall|r1: int, c1: int| 0 <= r1 < 9 && 0 <= c1 < 9 implies #[trigger] filled(g, w)[r1][c1] == h[r1][c1] by {
            if g[r1][c1] == 0 {
                assert(is_blank(g, r1, c1));
            }
        }
    }
}

} // verus!
