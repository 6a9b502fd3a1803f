use git_traverse::ancestors::{accept_all, ancestors_of, select_parents, Ancestors, Error, Parents};
use git_traverse::comment::Comment;
use git_traverse::id::ObjectId;
use git_traverse::state::{CommitInfo, Entry, Sorting, State};
use std::cell::RefCell;

fn id(n: u8) -> ObjectId {
    ObjectId::from_bytes([n; 20])
}

type Graph = Vec<(u8, Vec<u8>, i64)>;

fn lookup(g: &Graph, x: &ObjectId) -> Option<CommitInfo> {
    g.iter()
        .find(|(c, _, _)| id(*c) == *x)
        .map(|(_, ps, t)| CommitInfo { parents: ps.iter().map(|p| id(*p)).collect(), time: *t })
}

fn run(g: Graph, tips: &[u8], sorting: Sorting, mode: Parents, keep: impl Fn(&ObjectId) -> bool) -> Vec<Result<ObjectId, Error>> {
    let mut t = Ancestors::filtered(tips.iter().map(|n| id(*n)).collect(), State::new(), move |x: &ObjectId| lookup(&g, x), keep)
        .sorting(sorting)
        .mode(mode);
    let mut out = Vec::new();
    while let Some(r) = t.next() {
        out.push(r);
    }
    out
}

fn oks(ns: &[u8]) -> Vec<Result<ObjectId, Error>> {
    ns.iter().map(|n| Ok(id(*n))).collect()
}

// tip 1 -> A 2 -> B 3 -> C 4
fn chain() -> Graph {
    vec![(1, vec![2], 4), (2, vec![3], 3), (3, vec![4], 2), (4, vec![], 1)]
}

// tip 1 -> [A 2, B 3]; A -> X 4; B -> Y 5; X -> Z 6; Y -> Z 6
fn diamond() -> Graph {
    vec![(1, vec![2, 3], 9), (2, vec![4], 8), (3, vec![5], 7), (4, vec![6], 6), (5, vec![6], 5), (6, vec![], 4)]
}

#[test]
fn chain_default_config() {
    assert_eq!(run(chain(), &[1], Sorting::default(), Parents::default(), accept_all), oks(&[1, 2, 3, 4]));
}

#[test]
fn merge_default_config_emits_shared_ancestor_once() {
    assert_eq!(run(diamond(), &[1], Sorting::BreadthFirst, Parents::All, accept_all), oks(&[1, 2, 3, 4, 5, 6]));
}

#[test]
fn merge_first_parent_mode() {
    assert_eq!(run(diamond(), &[1], Sorting::BreadthFirst, Parents::First, accept_all), oks(&[1, 2, 4, 6]));
}

#[test]
fn first_parent_output_is_within_all_parents_output() {
    let all = run(diamond(), &[1], Sorting::BreadthFirst, Parents::All, accept_all);
    let first = run(diamond(), &[1], Sorting::BreadthFirst, Parents::First, accept_all);
    assert!(first.iter().all(|x| all.contains(x)));
    // 3 and 5 lie only behind a second parent
    assert!(!first.contains(&Ok(id(3))) && !first.contains(&Ok(id(5))));
}

#[test]
fn every_commit_emitted_once() {
    let out = run(diamond(), &[1, 2, 6], Sorting::BreadthFirst, Parents::All, accept_all);
    assert_eq!(out, oks(&[1, 2, 6, 3, 4, 5]));
}

#[test]
fn predicate_called_once_per_commit() {
    let calls = RefCell::new(Vec::new());
    let out = run(diamond(), &[1], Sorting::BreadthFirst, Parents::All, |x: &ObjectId| {
        calls.borrow_mut().push(*x);
        true
    });
    assert_eq!(out.len(), 6);
    // every commit but the tip, once each
    assert_eq!(*calls.borrow(), vec![id(2), id(3), id(4), id(5), id(6)]);
}

#[test]
fn pruning_keeps_ancestors_reachable_another_way() {
    let pruned = id(4);
    let out = run(diamond(), &[1], Sorting::BreadthFirst, Parents::All, move |x: &ObjectId| *x != pruned);
    assert_eq!(out, oks(&[1, 2, 3, 5, 6]));
}

#[test]
fn pruned_commit_is_not_looked_up() {
    let asked = RefCell::new(Vec::new());
    let g = diamond();
    let pruned = id(3);
    let mut t = Ancestors::filtered(
        vec![id(1)],
        State::new(),
        |x: &ObjectId| {
            asked.borrow_mut().push(*x);
            lookup(&g, x)
        },
        move |x: &ObjectId| *x != pruned,
    );
    let mut out = Vec::new();
    while let Some(r) = t.next() {
        out.push(r);
    }
    assert_eq!(out, oks(&[1, 2, 4, 6]));
    assert!(!asked.borrow().contains(&id(3)));
    assert!(!asked.borrow().contains(&id(5)));
}

fn pulls_with_log(sorting: Sorting) -> (Vec<Vec<ObjectId>>, Vec<Result<ObjectId, Error>>) {
    let asked = RefCell::new(Vec::new());
    let g = diamond();
    let mut t = ancestors_of(vec![id(1)], State::new(), |x: &ObjectId| {
        asked.borrow_mut().push(*x);
        lookup(&g, x)
    });
    let mut per_step = vec![asked.borrow().clone()];
    t = t.sorting(sorting);
    per_step.push(asked.borrow().clone());
    let mut out = Vec::new();
    while let Some(r) = t.next() {
        out.push(r);
        per_step.push(asked.borrow().clone());
    }
    (per_step, out)
}

#[test]
fn breadth_first_pull_asks_only_about_the_popped_commit() {
    let (per_step, out) = pulls_with_log(Sorting::BreadthFirst);
    assert_eq!(out, oks(&[1, 2, 3, 4, 5, 6]));
    // nothing is asked before the first pull
    assert!(per_step[0].is_empty() && per_step[1].is_empty());
    // pull k asks about exactly the k-th emitted commit
    for (k, r) in out.iter().enumerate() {
        assert_eq!(per_step[k + 2].len(), k + 1);
        assert_eq!(Ok(per_step[k + 2][k]), *r);
    }
}

#[test]
fn date_order_asks_about_each_commit_once() {
    let (per_step, out) = pulls_with_log(Sorting::ByCommitterDate);
    assert_eq!(out, oks(&[1, 2, 3, 4, 5, 6]));
    assert!(per_step[0].is_empty());
    // the tip's time is read when date order is chosen
    assert_eq!(per_step[1], vec![id(1)]);
    let mut all = per_step.last().unwrap().clone();
    assert_eq!(all.len(), 6);
    all.sort();
    all.dedup();
    assert_eq!(all.len(), 6);
}

#[test]
fn missing_tip_is_reported_by_the_first_pull_that_asks() {
    let asked = RefCell::new(0u32);
    let g = chain();
    let mut t = ancestors_of(vec![id(7)], State::new(), |x: &ObjectId| {
        *asked.borrow_mut() += 1;
        lookup(&g, x)
    });
    assert_eq!(*asked.borrow(), 0);
    assert_eq!(t.next(), Some(Err(Error::NotFound { oid: id(7) })));
    assert_eq!(*asked.borrow(), 1);
    assert_eq!(t.next(), None);
}

#[test]
fn tips_bypass_the_predicate() {
    let out = run(chain(), &[1, 3], Sorting::BreadthFirst, Parents::All, |_: &ObjectId| false);
    assert_eq!(out, oks(&[1, 3]));
}

#[test]
fn committer_date_emits_newest_first() {
    // 1 -> [2 (time 1), 3 (time 5)]; 2 -> 4 (time 3); 3 -> []
    let g: Graph = vec![(1, vec![2, 3], 9), (2, vec![4], 1), (3, vec![], 5), (4, vec![], 3)];
    let out = run(g.clone(), &[1], Sorting::ByCommitterDate, Parents::All, accept_all);
    assert_eq!(out, oks(&[1, 3, 2, 4]));
    let bfs = run(g, &[1], Sorting::BreadthFirst, Parents::All, accept_all);
    assert_eq!(bfs, oks(&[1, 2, 3, 4]));
}

#[test]
fn committer_date_ties_go_in_queue_order() {
    let g: Graph = vec![(1, vec![2, 3, 4], 9), (2, vec![], 5), (3, vec![], 5), (4, vec![], 5)];
    assert_eq!(run(g, &[1], Sorting::ByCommitterDate, Parents::All, accept_all), oks(&[1, 2, 3, 4]));
}

#[test]
fn missing_commit_ends_with_error() {
    let g: Graph = vec![(1, vec![2, 3], 9), (2, vec![], 5)];
    let out = run(g, &[1], Sorting::BreadthFirst, Parents::All, accept_all);
    assert_eq!(out, vec![Ok(id(1)), Ok(id(2)), Err(Error::NotFound { oid: id(3) })]);
}

#[test]
fn missing_tip_fails_on_first_pull() {
    let out = run(chain(), &[7], Sorting::BreadthFirst, Parents::All, accept_all);
    assert_eq!(out, vec![Err(Error::NotFound { oid: id(7) })]);
}

#[test]
fn no_tips_no_output() {
    assert!(run(chain(), &[], Sorting::BreadthFirst, Parents::All, accept_all).is_empty());
}

#[test]
fn repeated_tips_and_parents_count_once() {
    let g: Graph = vec![(1, vec![2, 2], 9), (2, vec![], 5)];
    assert_eq!(run(g, &[1, 1], Sorting::BreadthFirst, Parents::All, accept_all), oks(&[1, 2]));
}

#[test]
fn reset_state_repeats_the_traversal() {
    let g = diamond();
    let find = |x: &ObjectId| lookup(&g, x);
    let mut t = ancestors_of(vec![id(1)], State::new(), find);
    let mut first = Vec::new();
    while let Some(r) = t.next() {
        first.push(r);
    }
    let mut state = t.into_state();
    state.reset();
    assert!(state.is_empty());
    let mut again = ancestors_of(vec![id(1)], state, find);
    let mut second = Vec::new();
    while let Some(r) = again.next() {
        second.push(r);
    }
    assert_eq!(first, second);
    assert_eq!(first, oks(&[1, 2, 3, 4, 5, 6]));
}

#[test]
fn exhausted_traversal_stays_exhausted() {
    let g = chain();
    let mut t = ancestors_of(vec![id(4)], State::new(), |x: &ObjectId| lookup(&g, x));
    assert_eq!(t.next(), Some(Ok(id(4))));
    assert_eq!(t.next(), None);
    assert_eq!(t.next(), None);
}

#[test]
fn select_parents_by_mode() {
    let ps = vec![id(1), id(2), id(3)];
    assert_eq!(select_parents(ps.clone(), Parents::All), ps);
    assert_eq!(select_parents(ps, Parents::First), vec![id(1)]);
    assert_eq!(select_parents(Vec::new(), Parents::First), Vec::new());
}

#[test]
fn state_pops_by_discipline() {
    let mut s = State::default();
    s.mark_seen(id(1));
    assert!(s.has_seen(&id(1)));
    assert!(!s.has_seen(&id(2)));
    s.push(Entry { id: id(1), info: Some(Some(CommitInfo { parents: vec![], time: 2 })) });
    s.push(Entry { id: id(2), info: Some(Some(CommitInfo { parents: vec![], time: 7 })) });
    s.push(Entry { id: id(3), info: None });
    assert_eq!(s.len(), 3);
    assert_eq!(s.pop(Sorting::ByCommitterDate).map(|e| e.id), Some(id(2)));
    assert_eq!(s.pop(Sorting::BreadthFirst).map(|e| e.id), Some(id(1)));
    assert_eq!(s.pop(Sorting::ByCommitterDate).map(|e| e.id), Some(id(3)));
    assert!(s.pop(Sorting::BreadthFirst).is_none());
    s.reset();
    assert!(!s.has_seen(&id(1)));
}

#[test]
fn object_ids_compare_by_bytes() {
    let mut b = [0u8; 20];
    b[19] = 1;
    assert!(id(0).same_as(&id(0)));
    assert!(!id(0).same_as(&ObjectId::from_bytes(b)));
}

#[test]
fn comment_to_owned_keeps_tag_and_text() {
    let c = Comment { comment_tag: b'#', comment: b" hello".to_vec() };
    let o = c.to_owned();
    assert_eq!(o, c);
}

#[test]
fn comment_to_bstring_puts_tag_first() {
    let c = Comment { comment_tag: b';', comment: b" a note".to_vec() };
    let b = c.to_bstring();
    assert_eq!(b.as_slice(), b"; a note");
    let empty = Comment { comment_tag: b'#', comment: Vec::new() };
    assert_eq!(empty.to_bstring().as_slice(), b"#");
    assert_eq!(c.into_bstring().as_slice(), b"; a note");
}
