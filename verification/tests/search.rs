//! Tests of the depth-first search machine, driven the way a caller drives it.

use combigen::search::{perform_step, undo_applied, Reply, Search, Step};

/// Runs a search to the end and returns every solution, in the order found.
fn run_search<S: Clone, M>(
    mut state: S,
    is_solution: impl Fn(&S) -> bool,
    candidates: impl Fn(&S) -> Vec<M>,
    apply_move: impl Fn(&mut S, &M),
    undo_move: impl Fn(&mut S, &M),
) -> Vec<S> {
    let mut search: Search<M> = Search::new();
    let mut found = Vec::new();
    while search.step() != Step::Done {
        if let Some(s) = perform_step(
            &mut search,
            &mut state,
            &is_solution,
            &candidates,
            &apply_move,
            &undo_move,
        ) {
            found.push(s);
        }
    }
    found
}

#[derive(Clone)]
struct SubsetSumState {
    index: usize,
    chosen: Vec<i32>,
}

fn subset_sums(nums: Vec<i32>, target: i32) -> Vec<SubsetSumState> {
    let state = SubsetSumState {
        index: 0,
        chosen: vec![],
    };

    let nums_a = nums.clone();
    let is_solution = move |s: &SubsetSumState| {
        s.index == nums_a.len() && s.chosen.iter().sum::<i32>() == target
    };

    let nums_b = nums.clone();
    let candidates = move |s: &SubsetSumState| -> Vec<bool> {
        if s.index >= nums_b.len() {
            vec![]
        } else {
            vec![true, false] // take it or leave it
        }
    };

    let nums_c = nums.clone();
    let apply_move = move |s: &mut SubsetSumState, taken: &bool| {
        if *taken {
            s.chosen.push(nums_c[s.index]);
        }
        s.index += 1;
    };

    let undo_move = move |s: &mut SubsetSumState, taken: &bool| {
        s.index -= 1;
        if *taken {
            s.chosen.pop();
        }
    };

    run_search(state, is_solution, candidates, apply_move, undo_move)
}

#[test]
fn test_subset_sum() {
    let nums = vec![1, 2, 3, 4, 5];
    let target = 6;
    let results = subset_sums(nums, target);
    assert_eq!(results.len(), 3); // [1,2,3], [1,5], [2,4]
}

#[test]
fn test_subset_sum_depth_first_order() {
    let results = subset_sums(vec![1, 2, 3, 4, 5], 6);
    let chosen: Vec<Vec<i32>> = results.into_iter().map(|s| s.chosen).collect();
    assert_eq!(chosen, vec![vec![1, 2, 3], vec![1, 5], vec![2, 4]]);
}

#[test]
fn test_search_root_solution_is_not_expanded() {
    let mut search: Search<u8> = Search::new();
    assert_eq!(search.step(), Step::Check);
    assert_eq!(search.resume(Reply::Solved(true)), Step::Emit);
    assert_eq!(search.resume(Reply::Performed), Step::Done);
}

#[test]
fn test_search_no_moves_ends() {
    let mut search: Search<u8> = Search::new();
    assert_eq!(search.resume(Reply::Solved(false)), Step::Expand);
    assert_eq!(search.resume(Reply::Moves(vec![])), Step::Done);
}

#[test]
fn test_search_ignores_reply_to_another_step() {
    let mut search: Search<u8> = Search::new();
    assert_eq!(search.resume(Reply::Performed), Step::Check);
    assert_eq!(search.resume(Reply::Moves(vec![1, 2])), Step::Check);
    assert_eq!(search.resume(Reply::Solved(false)), Step::Expand);
    assert_eq!(search.resume(Reply::Solved(true)), Step::Expand);
}

#[test]
fn test_search_first_move_entered_after_expand() {
    let mut search: Search<u8> = Search::new();
    search.resume(Reply::Solved(false));
    assert_eq!(search.resume(Reply::Moves(vec![7, 8])), Step::Apply);
    assert_eq!(*search.current_move(), 7);
    assert_eq!(search.resume(Reply::Performed), Step::Check);
    assert_eq!(search.resume(Reply::Solved(true)), Step::Emit);
    assert_eq!(search.resume(Reply::Performed), Step::Undo);
    assert_eq!(*search.current_move(), 7);
    assert_eq!(search.resume(Reply::Performed), Step::Apply);
    assert_eq!(*search.current_move(), 8);
}

#[test]
fn test_search_moves_are_undone_last_in_first_out() {
    // Binary strings of length two; every move is logged as it is applied
    // or undone.
    let log = std::cell::RefCell::new(Vec::new());
    let found = run_search(
        Vec::<u8>::new(),
        |s: &Vec<u8>| s.len() == 2,
        |_s: &Vec<u8>| vec![0u8, 1u8],
        |s: &mut Vec<u8>, m: &u8| {
            log.borrow_mut().push(format!("+{}", m));
            s.push(*m);
        },
        |s: &mut Vec<u8>, m: &u8| {
            log.borrow_mut().push(format!("-{}", m));
            assert_eq!(s.pop(), Some(*m));
        },
    );
    assert_eq!(found, vec![vec![0, 0], vec![0, 1], vec![1, 0], vec![1, 1]]);
    assert_eq!(
        log.into_inner(),
        vec!["+0", "+0", "-0", "+1", "-1", "-0", "+1", "+0", "-0", "+1", "-1", "-1"]
    );
}

#[test]
fn test_search_unwinds_applied_moves() {
    // Stop at the first solution of the binary strings of length two and
    // undo what stands applied, last first.
    let mut search: Search<u8> = Search::new();
    let mut state: Vec<u8> = Vec::new();
    let log = std::cell::RefCell::new(Vec::new());
    let is_solution = |s: &Vec<u8>| s.len() == 2;
    let candidates = |_s: &Vec<u8>| vec![0u8, 1u8];
    let apply_move = |s: &mut Vec<u8>, m: &u8| {
        log.borrow_mut().push(format!("+{}", m));
        s.push(*m);
    };
    let undo_move = |s: &mut Vec<u8>, m: &u8| {
        log.borrow_mut().push(format!("-{}", m));
        assert_eq!(s.pop(), Some(*m));
    };
    while search.step() != Step::Emit && search.step() != Step::Done {
        perform_step(&mut search, &mut state, &is_solution, &candidates, &apply_move, &undo_move);
    }
    assert_eq!(search.step(), Step::Emit);
    assert_eq!(search.applied_count(), 2);
    assert_eq!(*search.applied_move(0), 0);
    assert_eq!(*search.applied_move(1), 0);
    for k in (0..search.applied_count()).rev() {
        undo_applied(&search, &mut state, &undo_move, k);
    }
    assert!(state.is_empty());
    assert_eq!(log.into_inner(), vec!["+0", "+0", "-0", "-0"]);
}

#[test]
fn test_perform_step_emits_a_clone() {
    let mut search: Search<u8> = Search::new();
    let mut state: Vec<u8> = vec![7];
    let none = |_s: &mut Vec<u8>, _m: &u8| {};
    let found = perform_step(&mut search, &mut state, &|_s: &Vec<u8>| true, &|_s: &Vec<u8>| Vec::new(), &none, &none);
    assert_eq!(found, None);
    assert_eq!(search.step(), Step::Emit);
    let found = perform_step(&mut search, &mut state, &|_s: &Vec<u8>| true, &|_s: &Vec<u8>| Vec::new(), &none, &none);
    assert_eq!(found, Some(vec![7]));
    assert_eq!(search.step(), Step::Done);
}
