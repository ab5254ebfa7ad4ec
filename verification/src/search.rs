//! Generic depth-first backtracking, written as a step machine.
//!
//! The problem's own operations (is this state a solution, which moves are
//! open from it, apply a move, undo a move) belong to the caller. The machine
//! decides, one step at a time, which of them comes next; the caller performs
//! it on its state and reports back with a [`Reply`].
use vstd::prelude::*;

verus! {

/// What the caller is asked to do next.
#[derive(PartialEq, Eq, Structural, Clone, Copy, Debug)]
pub enum Step {
    /// Test whether the current state is a complete solution.
    Check,
    /// List the moves that are open from the current state.
    Expand,
    /// Apply [`Search::current_move`] to the state.
    Apply,
    /// Undo [`Search::current_move`] on the state.
    Undo,
    /// Hand out a copy of the current state: it is a solution.
    Emit,
    /// The search is over.
    Done,
}

/// The caller's answer to the last [`Step`].
pub enum Reply<M> {
    /// The answer to [`Step::Check`].
    Solved(bool),
    /// The answer to [`Step::Expand`]: the open moves, in the order to try them.
    Moves(Vec<M>),
    /// The answer to [`Step::Apply`], [`Step::Undo`] and [`Step::Emit`].
    Performed,
}

/// The open moves of one node on the current path, and how many of them
/// have been entered.
struct Frame<M> {
    moves: Vec<M>,
    next: usize,
}

/// A depth-first search over the moves the caller hands it.
pub struct Search<M> {
    frames: Vec<Frame<M>>,
    pending: Step,
}

/// One node on the path, as the model sees it: its moves and how many of
/// them have been entered.
pub type Level<M> = (Seq<M>, int);

/// The machine's invariant over its path of nodes and the step it waits on:
/// every node has entered at least one and at most all of its moves.
pub open spec fn well_formed<M>(st: Seq<Level<M>>, pending: Step) -> bool {
    &&& forall|k: int| 0 <= k < st.len() ==> 1 <= #[trigger] st[k].1 <= st[k].0.len()
    &&& (pending == Step::Done ==> st.len() == 0)
    &&& (pending == Step::Apply || pending == Step::Undo ==> st.len() > 0)
}

/// The move through which the search left a node: the last one it entered.
pub open spec fn entered<M>(l: Level<M>) -> M {
    l.0[l.1 - 1]
}

/// The moves entered on every level of the path.
pub open spec fn entered_moves<M>(st: Seq<Level<M>>) -> Seq<M> {
    Seq::new(st.len(), |k: int| entered(st[k]))
}

/// From the deepest node, enter its next move, or give it up when none is
/// left.
pub open spec fn choose_next<M>(st: Seq<Level<M>>) -> (Seq<Level<M>>, Step) {
    let top = st.last();
    if top.1 < top.0.len() {
        (st.update(st.len() - 1, (top.0, top.1 + 1)), Step::Apply)
    } else {
        retreat(st.drop_last())
    }
}

/// Go back up one move, or finish when the path is empty.
pub open spec fn retreat<M>(st: Seq<Level<M>>) -> (Seq<Level<M>>, Step) {
    if st.len() == 0 {
        (st, Step::Done)
    } else {
        (st, Step::Undo)
    }
}

/// The reply answers the step that was asked.
pub open spec fn answers<M>(pending: Step, reply: Reply<M>) -> bool {
    match reply {
        Reply::Solved(_) => pending == Step::Check,
        Reply::Moves(_) => pending == Step::Expand,
        Reply::Performed => pending == Step::Apply || pending == Step::Undo || pending
            == Step::Emit,
    }
}

/// The machine's next path and step after `reply`. A reply that does not
/// answer the step that was asked changes nothing.
pub open spec fn transition<M>(st: Seq<Level<M>>, pending: Step, reply: Reply<M>) -> (
    Seq<Level<M>>,
    Step,
) {
    if !answers(pending, reply) {
        (st, pending)
    } else {
        match reply {
            Reply::Solved(yes) => if yes {
                (st, Step::Emit)
            } else {
                (st, Step::Expand)
            },
            Reply::Moves(ms) => choose_next(st.push((ms@, 0))),
            Reply::Performed => if pending == Step::Apply {
                (st, Step::Check)
            } else if pending == Step::Undo {
                choose_next(st)
            } else {
                retreat(st)
            },
        }
    }
}

/// The moves that stand applied to the caller's state while `pending` is
/// asked: on [`Step::Apply`] the deepest move is chosen but not yet applied.
pub open spec fn applied<M>(st: Seq<Level<M>>, pending: Step) -> Seq<M> {
    if pending == Step::Apply {
        entered_moves(st.drop_last())
    } else {
        entered_moves(st)
    }
}

/// The moves that stand applied once the caller has performed `pending`.
pub open spec fn performed<M>(st: Seq<Level<M>>, pending: Step) -> Seq<M> {
    if pending == Step::Apply {
        applied(st, pending).push(entered(st.last()))
    } else if pending == Step::Undo {
        applied(st, pending).drop_last()
    } else {
        applied(st, pending)
    }
}

/// Every reply leaves the caller's state where the machine expects it: the
/// moves that stand applied when the next step is asked are those that stood
/// applied once the caller performed the previous one. Moves are thus
/// applied and undone last in, first out, and the search ends (`Done`) with
/// none applied.
pub proof fn law_applied_moves<M>(st: Seq<Level<M>>, pending: Step, reply: Reply<M>)
    requires
        well_formed(st, pending),
        answers(pending, reply),
    ensures
        applied(transition(st, pending, reply).0, transition(st, pending, reply).1)
            == performed(st, pending),
        transition(st, pending, reply).1 == Step::Done ==> performed(st, pending).len() == 0,
        pending == Step::Undo ==> entered(st.last()) == applied(st, pending).last(),
{
    let (st2, p2) = transition(st, pending, reply);
    if pending == Step::Apply {
        assert(entered_moves(st) =~= entered_moves(st.drop_last()).push(entered(st.last())));
    } else if pending == Step::Undo {
        assert(entered_moves(st.drop_last()) =~= entered_moves(st).drop_last());
        if st.last().1 < st.last().0.len() {
            assert(st2.drop_last() =~= st.drop_last());
        }
    } else if pending == Step::Expand {
        if let Reply::Moves(ms) = reply {
            let st1 = st.push((ms@, 0));
            assert(st1.drop_last() =~= st);
            if ms@.len() > 0 {
                assert(st2.drop_last() =~= st);
            }
        }
    }
}

/// A solution is handed out exactly when a check comes back positive, and a
/// node is expanded exactly when its check comes back negative: a solution
/// is never searched below.
pub proof fn law_solutions_are_leaves<M>(st: Seq<Level<M>>, pending: Step, reply: Reply<M>)
    requires
        well_formed(st, pending),
        answers(pending, reply),
    ensures
        transition(st, pending, reply).1 == Step::Emit <==> reply == Reply::<M>::Solved(true),
        transition(st, pending, reply).1 == Step::Expand <==> reply == Reply::<M>::Solved(false),
{
}

/// The moves of a node are entered one after another in the order they were
/// listed: right after a node is expanded its first move is entered, and
/// after a move is undone the node's next one is, until none is left.
pub proof fn law_moves_in_order<M>(st: Seq<Level<M>>, pending: Step, reply: Reply<M>)
    requires
        well_formed(st, pending),
        answers(pending, reply),
        transition(st, pending, reply).1 == Step::Apply,
    ensures
        ({
            let st2 = transition(st, pending, reply).0;
            match reply {
                Reply::Moves(ms) => st2 == st.push((ms@, 1)) && entered(st2.last()) == ms@[0],
                _ => pending == Step::Undo && st2.len() == st.len() && st2.last().0
                    == st.last().0 && st2.last().1 == st.last().1 + 1 && st2.drop_last()
                    == st.drop_last(),
            }
        }),
{
    let st2 = transition(st, pending, reply).0;
    match reply {
        Reply::Moves(ms) => {
            assert(st2 =~= st.push((ms@, 1)));
        },
        _ => {
            assert(st2.drop_last() =~= st.drop_last());
        },
    }
}

// ---------------------------------------------------------------------------
// Runs against a fixed problem
// ---------------------------------------------------------------------------

/// The solutions below `path`, depth first: `path` itself when it is a
/// solution (nothing below a solution is searched), else those below each of
/// its open moves in turn. `fuel` bounds how many moves further down it looks.
pub open spec fn found<M>(
    sol: spec_fn(Seq<M>) -> bool,
    cands: spec_fn(Seq<M>) -> Seq<M>,
    path: Seq<M>,
    fuel: nat,
) -> Seq<Seq<M>>
    decreases fuel, 0nat, 0nat,
{
    if sol(path) {
        seq![path]
    } else if fuel == 0 {
        Seq::empty()
    } else {
        found_among(sol, cands, path, cands(path), (fuel - 1) as nat)
    }
}

/// The solutions below each of the moves `ms` from `path`, in order.
pub open spec fn found_among<M>(
    sol: spec_fn(Seq<M>) -> bool,
    cands: spec_fn(Seq<M>) -> Seq<M>,
    path: Seq<M>,
    ms: Seq<M>,
    fuel: nat,
) -> Seq<Seq<M>>
    decreases fuel, 1nat, ms.len(),
{
    if ms.len() == 0 {
        Seq::empty()
    } else {
        found(sol, cands, path.push(ms[0]), fuel) + found_among(
            sol,
            cands,
            path,
            ms.drop_first(),
            fuel,
        )
    }
}

/// A reply that answers the pending step as the problem `(sol, cands)` does
/// for the moves applied: `sol` tells the solutions, `cands` the open moves.
pub open spec fn faithful<M>(
    sol: spec_fn(Seq<M>) -> bool,
    cands: spec_fn(Seq<M>) -> Seq<M>,
    st: Seq<Level<M>>,
    pending: Step,
    reply: Reply<M>,
) -> bool {
    match pending {
        Step::Check => reply == Reply::<M>::Solved(sol(applied(st, pending))),
        Step::Expand => match reply {
            Reply::Moves(ms) => ms@ == cands(applied(st, pending)),
            _ => false,
        },
        Step::Done => true,
        _ => reply == Reply::<M>::Performed,
    }
}

/// The next state of a run in which every reply is faithful to `(sol, cands)`.
pub open spec fn respond<M>(
    sol: spec_fn(Seq<M>) -> bool,
    cands: spec_fn(Seq<M>) -> Seq<M>,
    c: (Seq<Level<M>>, Step),
) -> (Seq<Level<M>>, Step) {
    let st = c.0;
    match c.1 {
        Step::Check => if sol(entered_moves(st)) {
            (st, Step::Emit)
        } else {
            (st, Step::Expand)
        },
        Step::Expand => choose_next(st.push((cands(entered_moves(st)), 0))),
        Step::Apply => (st, Step::Check),
        Step::Undo => choose_next(st),
        Step::Emit => retreat(st),
        Step::Done => (st, Step::Done),
    }
}

/// The machine after `k` faithful replies, starting from a new search.
pub open spec fn run<M>(
    sol: spec_fn(Seq<M>) -> bool,
    cands: spec_fn(Seq<M>) -> Seq<M>,
    k: nat,
) -> (Seq<Level<M>>, Step)
    decreases k,
{
    if k == 0 {
        (Seq::empty(), Step::Check)
    } else {
        respond(sol, cands, run(sol, cands, (k - 1) as nat))
    }
}

/// The solutions handed out between reply `i` and reply `j` of the run: the
/// moves that stand applied at each [`Step::Emit`].
pub open spec fn emitted<M>(
    sol: spec_fn(Seq<M>) -> bool,
    cands: spec_fn(Seq<M>) -> Seq<M>,
    i: nat,
    j: nat,
) -> Seq<Seq<M>>
    decreases j,
{
    if j <= i {
        Seq::empty()
    } else {
        let c = run(sol, cands, (j - 1) as nat);
        emitted(sol, cands, i, (j - 1) as nat) + if c.1 == Step::Emit {
            seq![entered_moves(c.0)]
        } else {
            Seq::<Seq<M>>::empty()
        }
    }
}

/// A reply faithful to a problem moves the machine along that problem's run.
pub proof fn law_faithful_reply<M>(
    sol: spec_fn(Seq<M>) -> bool,
    cands: spec_fn(Seq<M>) -> Seq<M>,
    st: Seq<Level<M>>,
    pending: Step,
    reply: Reply<M>,
)
    requires
        well_formed(st, pending),
        faithful(sol, cands, st, pending, reply),
    ensures
        transition(st, pending, reply) == respond(sol, cands, (st, pending)),
{
}

proof fn lemma_emitted_split<M>(
    sol: spec_fn(Seq<M>) -> bool,
    cands: spec_fn(Seq<M>) -> Seq<M>,
    i: nat,
    k: nat,
    j: nat,
)
    requires
        i <= k <= j,
    ensures
        emitted(sol, cands, i, j) == emitted(sol, cands, i, k) + emitted(sol, cands, k, j),
    decreases j,
{
    if j == k {
        assert(emitted(sol, cands, i, k) + emitted(sol, cands, k, j) =~= emitted(sol, cands, i, k));
    } else {
        lemma_emitted_split(sol, cands, i, k, (j - 1) as nat);
        let c = run(sol, cands, (j - 1) as nat);
        let x = if c.1 == Step::Emit {
            seq![entered_moves(c.0)]
        } else {
            Seq::<Seq<M>>::empty()
        };
        assert(emitted(sol, cands, i, j) == emitted(sol, cands, i, (j - 1) as nat) + x);
        assert(emitted(sol, cands, k, j) == emitted(sol, cands, k, (j - 1) as nat) + x);
        assert(emitted(sol, cands, i, k) + emitted(sol, cands, k, (j - 1) as nat) + x
            =~= emitted(sol, cands, i, k) + (emitted(sol, cands, k, (j - 1) as nat) + x));
    }
}

proof fn lemma_done_stays<M>(
    sol: spec_fn(Seq<M>) -> bool,
    cands: spec_fn(Seq<M>) -> Seq<M>,
    k: nat,
    t: nat,
)
    requires
        k <= t,
        run(sol, cands, k).1 == Step::Done,
    ensures
        run(sol, cands, t).1 == Step::Done,
        emitted(sol, cands, k, t) == Seq::<Seq<M>>::empty(),
    decreases t,
{
    if t > k {
        lemma_done_stays(sol, cands, k, (t - 1) as nat);
        assert(emitted(sol, cands, k, t) =~= emitted(sol, cands, k, (t - 1) as nat));
    }
}

proof fn lemma_emitted_one<M>(
    sol: spec_fn(Seq<M>) -> bool,
    cands: spec_fn(Seq<M>) -> Seq<M>,
    i: nat,
)
    ensures
        run(sol, cands, i).1 != Step::Emit ==> emitted(sol, cands, i, i + 1) == Seq::<Seq<M>>::empty(),
        run(sol, cands, i).1 == Step::Emit ==> emitted(sol, cands, i, i + 1) == seq![
            entered_moves(run(sol, cands, i).0),
        ],
{
    assert(emitted(sol, cands, i, i) == Seq::<Seq<M>>::empty());
    assert(emitted(sol, cands, i, i + 1) == emitted(sol, cands, i, i) + if run(sol, cands, i).1
        == Step::Emit {
        seq![entered_moves(run(sol, cands, i).0)]
    } else {
        Seq::<Seq<M>>::empty()
    });
    assert(Seq::<Seq<M>>::empty() + seq![entered_moves(run(sol, cands, i).0)] =~= seq![
        entered_moves(run(sol, cands, i).0),
    ]);
    assert(Seq::<Seq<M>>::empty() + Seq::<Seq<M>>::empty() =~= Seq::<Seq<M>>::empty());
}

proof fn lemma_entered_push<M>(st: Seq<Level<M>>, l: Level<M>)
    ensures
        entered_moves(st.push(l)) == entered_moves(st).push(entered(l)),
{
    assert(entered_moves(st.push(l)) =~= entered_moves(st).push(entered(l)));
}

/// The path `a` goes through the node reached by `st`: it starts with `st`.
pub open spec fn extends_stack<M>(a: Seq<Level<M>>, st: Seq<Level<M>>) -> bool {
    a.len() >= st.len() && a.take(st.len() as int) == st
}

proof fn lemma_extends_trans<M>(a: Seq<Level<M>>, b: Seq<Level<M>>, c: Seq<Level<M>>)
    requires
        extends_stack(a, b),
        extends_stack(b, c),
    ensures
        extends_stack(a, c),
{
    assert(a.take(c.len() as int) =~= a.take(b.len() as int).take(c.len() as int));
}

/// From a check at the node reached by `st`, the run searches that node's
/// subtree and comes back to retreat from it, handing out on the way exactly
/// the subtree's solutions.
proof fn lemma_subtree<M>(
    sol: spec_fn(Seq<M>) -> bool,
    cands: spec_fn(Seq<M>) -> Seq<M>,
    st: Seq<Level<M>>,
    i: nat,
    n: nat,
) -> (j: nat)
    requires
        run(sol, cands, i) == (st, Step::Check),
        i <= n,
        run(sol, cands, n).1 == Step::Done,
    ensures
        i < j <= n,
        run(sol, cands, j) == retreat(st),
        forall|t: nat| i <= t <= j ==> extends_stack(#[trigger] run(sol, cands, t).0, st),
        forall|f: nat|
            f + i >= n ==> #[trigger] found(sol, cands, entered_moves(st), f) == emitted(
                sol,
                cands,
                i,
                j,
            ),
    decreases n - i, 0nat,
{
    let path = entered_moves(st);
    assert(run(sol, cands, i + 1) == respond(sol, cands, run(sol, cands, i)));
    assert(run(sol, cands, i + 2) == respond(sol, cands, run(sol, cands, i + 1)));
    assert(st.take(st.len() as int) =~= st);
    lemma_emitted_one(sol, cands, i);
    lemma_emitted_one(sol, cands, i + 1);
    if sol(path) {
        assert(run(sol, cands, i + 1) == (st, Step::Emit));
        lemma_emitted_split(sol, cands, i, i + 1, i + 2);
        assert(emitted(sol, cands, i, i + 2) =~= seq![path]);
        assert(forall|f: nat| f + i >= n ==> #[trigger] found(sol, cands, path, f) == seq![path]);
        assert forall|t: nat| i <= t <= i + 2 implies extends_stack(#[trigger] run(sol, cands, t).0, st) by {
            if t == i + 1 {
            } else if t == i + 2 {
            }
        }
        i + 2
    } else {
        assert(run(sol, cands, i + 1) == (st, Step::Expand));
        lemma_emitted_split(sol, cands, i, i + 1, i + 2);
        assert(emitted(sol, cands, i, i + 2) =~= Seq::<Seq<M>>::empty());
        let ms = cands(path);
        assert(ms.skip(0) =~= ms);
        let j = lemma_siblings(sol, cands, st, ms, 0, i + 2, n);
        assert forall|t: nat| i <= t <= j implies extends_stack(#[trigger] run(sol, cands, t).0, st) by {
            if t == i + 1 {
            }
        }
        lemma_emitted_split(sol, cands, i, i + 2, j);
        assert(emitted(sol, cands, i, j) =~= emitted(sol, cands, i + 2, j));
        assert forall|f: nat| f + i >= n implies #[trigger] found(sol, cands, path, f) == emitted(
            sol,
            cands,
            i,
            j,
        ) by {
            assert(found(sol, cands, path, f) == found_among(sol, cands, path, ms, (f - 1) as nat));
        }
        j
    }
}

/// From the point where the node reached by `st` has entered `k` of its moves
/// `ms`, the run searches below the remaining ones in order and retreats from
/// the node, handing out exactly their solutions.
proof fn lemma_siblings<M>(
    sol: spec_fn(Seq<M>) -> bool,
    cands: spec_fn(Seq<M>) -> Seq<M>,
    st: Seq<Level<M>>,
    ms: Seq<M>,
    k: nat,
    i: nat,
    n: nat,
) -> (j: nat)
    requires
        k <= ms.len(),
        run(sol, cands, i) == choose_next(st.push((ms, k as int))),
        i <= n,
        run(sol, cands, n).1 == Step::Done,
    ensures
        i <= j <= n,
        run(sol, cands, j) == retreat(st),
        forall|t: nat| i <= t <= j ==> extends_stack(#[trigger] run(sol, cands, t).0, st),
        forall|g: nat|
            g + i >= n ==> #[trigger] found_among(sol, cands, entered_moves(st), ms.skip(k as int), g)
                == emitted(sol, cands, i, j),
    decreases n - i, 1nat,
{
    let path = entered_moves(st);
    let st1 = st.push((ms, k as int));
    assert(st1.drop_last() =~= st);
    assert(st.take(st.len() as int) =~= st);
    if k == ms.len() {
        assert(ms.skip(k as int) =~= Seq::<M>::empty());
        assert(emitted(sol, cands, i, i) =~= Seq::<Seq<M>>::empty());
        i
    } else {
        let st2 = st.push((ms, k + 1int));
        assert(st1.update(st1.len() - 1, (ms, k + 1int)) =~= st2);
        assert(run(sol, cands, i) == (st2, Step::Apply));
        assert(run(sol, cands, i + 1) == respond(sol, cands, run(sol, cands, i)));
        assert(run(sol, cands, i + 1) == (st2, Step::Check));
        lemma_entered_push(st, (ms, k + 1int));
        assert(entered_moves(st2) == path.push(ms[k as int]));
        let j1 = lemma_subtree(sol, cands, st2, i + 1, n);
        assert(run(sol, cands, j1) == (st2, Step::Undo));
        assert(j1 < n);
        assert(run(sol, cands, j1 + 1) == respond(sol, cands, run(sol, cands, j1)));
        assert(st2.drop_last() =~= st);
        assert(run(sol, cands, j1 + 1) == choose_next(st.push((ms, (k + 1) as int))));
        let j = lemma_siblings(sol, cands, st, ms, k + 1, j1 + 1, n);
        assert(extends_stack(st2, st)) by {
            assert(st2.take(st.len() as int) =~= st);
        }
        assert forall|t: nat| i <= t <= j implies extends_stack(#[trigger] run(sol, cands, t).0, st) by {
            if i + 1 <= t <= j1 {
                lemma_extends_trans(run(sol, cands, t).0, st2, st);
            }
        }
        lemma_emitted_one(sol, cands, i);
        lemma_emitted_one(sol, cands, j1);
        lemma_emitted_split(sol, cands, i, i + 1, j);
        lemma_emitted_split(sol, cands, i + 1, j1, j);
        lemma_emitted_split(sol, cands, j1, j1 + 1, j);
        let rest = ms.skip(k as int);
        assert(rest[0] == ms[k as int]);
        assert(rest.drop_first() =~= ms.skip(k + 1int));
        assert forall|g: nat| g + i >= n implies #[trigger] found_among(
            sol,
            cands,
            path,
            ms.skip(k as int),
            g,
        ) == emitted(sol, cands, i, j) by {
            assert(found_among(sol, cands, path, rest, g) == found(
                sol,
                cands,
                path.push(ms[k as int]),
                g,
            ) + found_among(sol, cands, path, ms.skip(k + 1int), g));
            assert(emitted(sol, cands, i, j) =~= emitted(sol, cands, i + 1, j1) + emitted(
                sol,
                cands,
                j1 + 1,
                j,
            ));
        }
        j
    }
}

/// A search answered faithfully by a problem that comes to an end hands out
/// every solution of that problem, each once, depth first, in the order the
/// moves are listed: exactly `found` from the root. A run that ends after `n`
/// replies never looks more than `n` moves deep.
pub proof fn law_depth_first<M>(
    sol: spec_fn(Seq<M>) -> bool,
    cands: spec_fn(Seq<M>) -> Seq<M>,
    n: nat,
)
    requires
        run(sol, cands, n).1 == Step::Done,
    ensures
        emitted(sol, cands, 0, n) == found(sol, cands, Seq::<M>::empty(), n),
{
    let root = Seq::<Level<M>>::empty();
    assert(entered_moves(root) =~= Seq::<M>::empty());
    let j = lemma_subtree(sol, cands, root, 0, n);
    lemma_done_stays(sol, cands, j, n);
    lemma_emitted_split(sol, cands, 0, j, n);
    assert(emitted(sol, cands, 0, j) + emitted(sol, cands, j, n) =~= emitted(sol, cands, 0, j));
    assert(found(sol, cands, entered_moves(root), n) == emitted(sol, cands, 0, j));
}

/// A faithful reply keeps the machine's invariant.
proof fn lemma_respond_wf<M>(
    sol: spec_fn(Seq<M>) -> bool,
    cands: spec_fn(Seq<M>) -> Seq<M>,
    c: (Seq<Level<M>>, Step),
)
    requires
        well_formed(c.0, c.1),
    ensures
        well_formed(respond(sol, cands, c).0, respond(sol, cands, c).1),
{
    let st = c.0;
    let next = respond(sol, cands, c);
    if c.1 == Step::Expand {
        let ms = cands(entered_moves(st));
        let st1 = st.push((ms, 0int));
        if ms.len() > 0 {
            assert forall|k: int| 0 <= k < next.0.len() implies 1 <= #[trigger] next.0[k].1 <= next.0[k].0.len() by {
                if k < st.len() {
                    assert(next.0[k] == st[k]);
                }
            }
        } else {
            assert(st1.drop_last() =~= st);
        }
    } else if c.1 == Step::Undo {
        let top = st.last();
        if top.1 < top.0.len() {
            assert forall|k: int| 0 <= k < next.0.len() implies 1 <= #[trigger] next.0[k].1 <= next.0[k].0.len() by {
                if k < st.len() - 1 {
                    assert(next.0[k] == st[k]);
                }
            }
        } else {
            assert forall|k: int| 0 <= k < next.0.len() implies 1 <= #[trigger] next.0[k].1 <= next.0[k].0.len() by {
                assert(next.0[k] == st[k]);
            }
        }
    }
}

/// Every state of a run satisfies the machine's invariant.
proof fn lemma_run_wf<M>(sol: spec_fn(Seq<M>) -> bool, cands: spec_fn(Seq<M>) -> Seq<M>, k: nat)
    ensures
        well_formed(run(sol, cands, k).0, run(sol, cands, k).1),
    decreases k,
{
    if k > 0 {
        lemma_run_wf(sol, cands, (k - 1) as nat);
        lemma_respond_wf(sol, cands, run(sol, cands, (k - 1) as nat));
    }
}

/// In a run, a node is expanded only right after its check came back
/// negative, and a solution is handed out only right after its check came
/// back positive.
pub proof fn law_check_before_expand<M>(
    sol: spec_fn(Seq<M>) -> bool,
    cands: spec_fn(Seq<M>) -> Seq<M>,
    t: nat,
)
    ensures
        run(sol, cands, t + 1).1 == Step::Expand <==> run(sol, cands, t).1 == Step::Check && !sol(
            entered_moves(run(sol, cands, t).0),
        ),
        run(sol, cands, t + 1).1 == Step::Emit <==> run(sol, cands, t).1 == Step::Check && sol(
            entered_moves(run(sol, cands, t).0),
        ),
{
    assert(run(sol, cands, t + 1) == respond(sol, cands, run(sol, cands, t)));
}

/// In a run that comes to an end, every move applied is undone again, on the
/// same path of nodes, and the path goes through the node it entered until
/// then; only after the undo does the search enter the node's next move (or
/// give the node up).
pub proof fn law_every_apply_undone<M>(
    sol: spec_fn(Seq<M>) -> bool,
    cands: spec_fn(Seq<M>) -> Seq<M>,
    n: nat,
    i: nat,
)
    requires
        run(sol, cands, n).1 == Step::Done,
        i < n,
        run(sol, cands, i).1 == Step::Apply,
    ensures
        exists|j: nat|
            {
                &&& i < j < n
                &&& #[trigger] run(sol, cands, j) == (run(sol, cands, i).0, Step::Undo)
                &&& forall|t: nat| i <= t <= j ==> extends_stack(#[trigger] run(sol, cands, t).0, run(sol, cands, i).0)
                &&& run(sol, cands, j + 1) == choose_next(run(sol, cands, i).0)
            },
{
    let st = run(sol, cands, i).0;
    lemma_run_wf(sol, cands, i);
    assert(run(sol, cands, i + 1) == respond(sol, cands, run(sol, cands, i)));
    assert(i + 1 <= n);
    let j = lemma_subtree(sol, cands, st, i + 1, n);
    assert(run(sol, cands, j) == (st, Step::Undo));
    assert(j < n);
    assert(run(sol, cands, j + 1) == respond(sol, cands, run(sol, cands, j)));
    assert(st.take(st.len() as int) =~= st);
    assert(extends_stack(run(sol, cands, i).0, st));
}

impl<M> Search<M> {
    /// The path of nodes the search stands on, root first.
    pub closed spec fn stack(&self) -> Seq<Level<M>> {
        Seq::new(self.frames.len() as nat, |k: int| (self.frames[k].moves@, self.frames[k].next as int))
    }

    /// The step the machine waits on.
    pub closed spec fn pending(&self) -> Step {
        self.pending
    }

    /// The machine's invariant.
    pub open spec fn wf(&self) -> bool {
        well_formed(self.stack(), self.pending())
    }

    /// A search at the root: the first step checks the initial state.
    pub fn new() -> (res: Self)
        ensures
            res.wf(),
            res.stack() == Seq::<Level<M>>::empty(),
            res.pending() == Step::Check,
    {
        let res = Search { frames: Vec::new(), pending: Step::Check };
        assert(res.stack() =~= Seq::<Level<M>>::empty());
        res
    }

    /// The step the machine waits on.
    pub fn step(&self) -> (res: Step)
        ensures
            res == self.pending(),
    {
        self.pending
    }

    /// The move to apply on [`Step::Apply`], or to undo on [`Step::Undo`]:
    /// the move through which the deepest node was left.
    pub fn current_move(&self) -> (m: &M)
        requires
            self.wf(),
            self.pending() == Step::Apply || self.pending() == Step::Undo,
        ensures
            *m == entered(self.stack().last()),
    {
        let last = self.frames.len() - 1;
        assert(self.stack()[last as int].1 >= 1);
        let frame = &self.frames[last];
        &frame.moves[frame.next - 1]
    }

    /// How many moves stand applied to the caller's state while the pending
    /// step is asked.
    pub fn applied_count(&self) -> (res: usize)
        requires
            self.wf(),
        ensures
            res == applied(self.stack(), self.pending()).len(),
    {
        match self.pending {
            Step::Apply => self.frames.len() - 1,
            _ => self.frames.len(),
        }
    }

    /// The `k`-th of the moves that stand applied, counted from the root:
    /// undoing them from the last to the first gives the caller back its
    /// initial state.
    pub fn applied_move(&self, k: usize) -> (m: &M)
        requires
            self.wf(),
            k < applied(self.stack(), self.pending()).len(),
        ensures
            *m == applied(self.stack(), self.pending())[k as int],
    {
        assert(self.stack()[k as int].1 >= 1);
        let frame = &self.frames[k];
        &frame.moves[frame.next - 1]
    }

    /// Enter the next move of the deepest node, or retreat when it has none
    /// left.
    fn enter_next(&mut self)
        requires
            old(self).frames.len() > 0,
            forall|k: int|
                0 <= k < old(self).stack().len() - 1 ==> 1 <= #[trigger] old(self).stack()[k].1
                    <= old(self).stack()[k].0.len(),
            old(self).stack().last().1 <= old(self).stack().last().0.len(),
        ensures
            (final(self).stack(), final(self).pending()) == choose_next(old(self).stack()),
    {
        let ghost st = self.stack();
        let mut top = self.frames.pop().unwrap();
        assert(self.stack() =~= st.drop_last());
        if top.next < top.moves.len() {
            top.next = top.next + 1;
            self.frames.push(top);
            self.pending = Step::Apply;
            assert(self.stack() =~= st.update(st.len() - 1, (st.last().0, st.last().1 + 1)));
        } else {
            if self.frames.len() == 0 {
                self.pending = Step::Done;
            } else {
                self.pending = Step::Undo;
            }
        }
    }

    /// Take the caller's reply to the pending step and return the next step.
    /// A reply that does not answer the pending step changes nothing.
    pub fn resume(&mut self, reply: Reply<M>) -> (res: Step)
        requires
            old(self).wf(),
        ensures
            final(self).wf(),
            (final(self).stack(), final(self).pending()) == transition(
                old(self).stack(),
                old(self).pending(),
                reply,
            ),
            res == final(self).pending(),
    {
        let ghost st = self.stack();
        let ghost pending = self.pending;
        match reply {
            Reply::Solved(yes) => {
                if let Step::Check = self.pending {
                    if yes {
                        self.pending = Step::Emit;
                    } else {
                        self.pending = Step::Expand;
                    }
                }
            },
            Reply::Moves(moves) => {
                if let Step::Expand = self.pending {
                    let ghost ms = moves@;
                    self.frames.push(Frame { moves, next: 0 });
                    assert(self.stack() =~= st.push((ms, 0)));
                    self.enter_next();
                }
            },
            Reply::Performed => {
                match self.pending {
                    Step::Apply => {
                        self.pending = Step::Check;
                    },
                    Step::Undo => {
                        self.enter_next();
                    },
                    Step::Emit => {
                        if self.frames.len() == 0 {
                            self.pending = Step::Done;
                        } else {
                            self.pending = Step::Undo;
                        }
                    },
                    _ => {},
                }
            },
        }
        self.pending
    }
}


// ---------------------------------------------------------------------------
// Running the caller's operations
// ---------------------------------------------------------------------------

/// Performs the pending step with the caller's operations on `state` and
/// hands the outcome to the search: the check asks `is_solution`, the
/// expansion asks `candidates`, the apply and the undo run `apply_move` and
/// `undo_move` with the current move, and the emit returns a clone of the
/// state. Nothing is done once the search is over.
pub fn perform_step<S: Clone, M, IsSolution, Candidates, ApplyMove, UndoMove>(
    search: &mut Search<M>,
    state: &mut S,
    is_solution: &IsSolution,
    candidates: &Candidates,
    apply_move: &ApplyMove,
    undo_move: &UndoMove,
) -> (res: Option<S>) where
    IsSolution: Fn(&S) -> bool,
    Candidates: Fn(&S) -> Vec<M>,
    ApplyMove: Fn(&mut S, &M),
    UndoMove: Fn(&mut S, &M),

    requires
        old(search).wf(),
        forall|s: &S| is_solution.requires((s,)),
        forall|s: &S| candidates.requires((s,)),
        forall|r: &mut S, m: &M| apply_move.requires((r, m)),
        forall|r: &mut S, m: &M| undo_move.requires((r, m)),
    ensures
        final(search).wf(),
        ({
            let st = old(search).stack();
            let p = old(search).pending();
            let next = (final(search).stack(), final(search).pending());
            match p {
                Step::Check => res is None && *final(state) == *old(state) && exists|b: bool|
                    #[trigger] is_solution.ensures((&*old(state),), b) && next == transition(st, p, Reply::Solved(b)),
                Step::Expand => res is None && *final(state) == *old(state) && exists|ms: Vec<M>|
                    #[trigger] candidates.ensures((&*old(state),), ms) && next == transition(st, p, Reply::Moves(ms)),
                Step::Apply => res is None && (exists|r: &mut S| #[trigger] apply_move.ensures((r, &entered(st.last())), ())
                    && *r == *old(state) && *final(r) == *final(state))
                    && next == transition(st, p, Reply::<M>::Performed),
                Step::Undo => res is None && (exists|r: &mut S| #[trigger] undo_move.ensures((r, &entered(st.last())), ())
                    && *r == *old(state) && *final(r) == *final(state))
                    && next == transition(st, p, Reply::<M>::Performed),
                Step::Emit => res matches Option::Some(c) && cloned(*old(state), c) && *final(state) == *old(state)
                    && next == transition(st, p, Reply::<M>::Performed),
                Step::Done => res is None && *final(state) == *old(state) && next == (st, p),
            }
        }),
{
    match search.step() {
        Step::Check => {
            let b = is_solution(&*state);
            search.resume(Reply::Solved(b));
            None
        },
        Step::Expand => {
            let ms = candidates(&*state);
            search.resume(Reply::Moves(ms));
            None
        },
        Step::Apply => {
            apply_move(state, search.current_move());
            search.resume(Reply::Performed);
            None
        },
        Step::Undo => {
            undo_move(state, search.current_move());
            search.resume(Reply::Performed);
            None
        },
        Step::Emit => {
            let c = state.clone();
            search.resume(Reply::Performed);
            Some(c)
        },
        Step::Done => None,
    }
}

/// Undoes with `undo_move` the `k`-th of the moves that stand applied,
/// counted from the root, and leaves the search as it is. A caller that
/// stops before the search is over undoes them all this way, from the last
/// (`k` = `applied_count() - 1`) down to the first.
pub fn undo_applied<S, M, UndoMove: Fn(&mut S, &M)>(search: &Search<M>, state: &mut S, undo_move: &UndoMove, k: usize)
    requires
        search.wf(),
        k < applied(search.stack(), search.pending()).len(),
        forall|r: &mut S, m: &M| undo_move.requires((r, m)),
    ensures
        exists|r: &mut S| #[trigger] undo_move.ensures((r, &applied(search.stack(), search.pending())[k as int]), ())
            && *r == *old(state) && *final(r) == *final(state),
{
    let m = search.applied_move(k);
    undo_move(state, m);
}

} // verus!
