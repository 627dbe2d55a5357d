use januslens::error::JanusError;
use januslens::git::CommitRecord;
use januslens::graph::History;
use januslens::merge::{plan_by_ancestry, MergePlan};

fn record(id: &str, time: i64, parents: &[&str]) -> CommitRecord {
    CommitRecord {
        id: id.to_string(),
        summary: Some(format!("Commit {}", id)),
        message: Some(format!("Commit {}\n", id)),
        author: Some("Test User".to_string()),
        author_email: Some("test@example.com".to_string()),
        time,
        parent_ids: parents.iter().map(|p| p.to_string()).collect(),
    }
}

fn s(text: &str) -> String {
    text.to_string()
}

/// A first commit and `n` more, one after another.
fn chain(n: usize) -> History {
    let mut h = History::new();
    h.add_commit(record("c0", 1000, &[])).unwrap();
    for i in 1..=n {
        let parent = format!("c{}", i - 1);
        h.add_commit(record(&format!("c{}", i), 1000 + i as i64, &[parent.as_str()])).unwrap();
    }
    h
}

///      a - b - d - f (merge of d and e)
///       \     /
///        c - e
fn diamond() -> History {
    let mut h = History::new();
    h.add_commit(record("a", 10, &[])).unwrap();
    h.add_commit(record("b", 20, &["a"])).unwrap();
    h.add_commit(record("c", 30, &["a"])).unwrap();
    h.add_commit(record("d", 40, &["b"])).unwrap();
    h.add_commit(record("e", 50, &["c"])).unwrap();
    h.add_commit(record("f", 60, &["d", "e"])).unwrap();
    h
}

fn ids(h: &History, places: &[usize]) -> Vec<String> {
    places.iter().map(|&p| h.node(p).record.id.clone()).collect()
}

#[test]
fn n_commits_give_a_history_of_n_plus_one() {
    for n in [0usize, 1, 5, 120] {
        let h = chain(n);
        let tip = format!("c{}", n);
        let all = h.log(&tip, None).unwrap();
        assert_eq!(all.len(), n + 1);
        for (position, commit) in all.iter().enumerate() {
            assert_eq!(commit.id, format!("c{}", n - position));
        }
        for pair in all.windows(2) {
            assert!(pair[0].time > pair[1].time);
        }
        for k in [0u32, 1, 3, 200] {
            let some = h.log(&tip, Some(k)).unwrap();
            let expected = std::cmp::min(k as usize, n + 1);
            assert_eq!(&some[..], &all[..expected]);
        }
    }
}

#[test]
fn the_history_of_an_older_commit_ends_there() {
    let h = chain(5);
    let log = h.log(&s("c2"), None).unwrap();
    let shown: Vec<&str> = log.iter().map(|c| c.id.as_str()).collect();
    assert_eq!(shown, vec!["c2", "c1", "c0"]);
    assert_eq!(log[0].parent_ids, vec![s("c1")]);
    assert_eq!(log[0].summary, "Commit c2");
}

#[test]
fn the_history_of_an_unknown_commit_fails() {
    let h = chain(2);
    assert_eq!(h.log(&s("zz"), None), Err(JanusError::ObjectNotFound(s("zz"))));
    assert_eq!(History::new().log(&s("c0"), Some(1)), Err(JanusError::ObjectNotFound(s("c0"))));
}

#[test]
fn a_merge_is_walked_newest_first() {
    let h = diamond();
    assert_eq!(ids(&h, &h.walk(5, None)), vec!["f", "e", "d", "c", "b", "a"]);
    assert_eq!(ids(&h, &h.walk(5, Some(2))), vec!["f", "e"]);
    assert_eq!(ids(&h, &h.walk(3, None)), vec!["d", "b", "a"]);
    assert_eq!(ids(&h, &h.walk(4, None)), vec!["e", "c", "a"]);
    assert_eq!(ids(&h, &h.walk(0, None)), vec!["a"]);
    assert!(h.walk(5, Some(0)).is_empty());
}

#[test]
fn a_parent_is_never_shown_before_its_child() {
    // the clocks disagree: the parent `b` claims to be newer than its child
    let mut h = History::new();
    h.add_commit(record("a", 10, &[])).unwrap();
    h.add_commit(record("b", 99, &["a"])).unwrap();
    h.add_commit(record("c", 20, &["a"])).unwrap();
    h.add_commit(record("d", 30, &["b"])).unwrap();
    h.add_commit(record("m", 40, &["c", "d"])).unwrap();
    assert_eq!(ids(&h, &h.walk(4, None)), vec!["m", "d", "b", "c", "a"]);
}

#[test]
fn commits_of_the_same_time_are_shown_latest_first() {
    let mut h = History::new();
    h.add_commit(record("a", 5, &[])).unwrap();
    h.add_commit(record("b", 5, &["a"])).unwrap();
    h.add_commit(record("c", 5, &["a"])).unwrap();
    h.add_commit(record("m", 5, &["b", "c"])).unwrap();
    assert_eq!(ids(&h, &h.walk(3, None)), vec!["m", "c", "b", "a"]);
}

#[test]
fn ancestors_are_found_by_search() {
    let h = diamond();
    assert_eq!(h.ancestors(3), vec![true, true, false, true, false, false]);
    assert_eq!(h.ancestors(5), vec![true; 6]);
    assert!(h.is_ancestor(0, 4));
    assert!(h.is_ancestor(4, 4));
    assert!(!h.is_ancestor(1, 4));
    assert!(!h.is_ancestor(5, 4));
    assert!(!h.is_ancestor(17, 4));
}

#[test]
fn the_merge_base_is_the_nearest_common_ancestor() {
    let h = diamond();
    assert_eq!(h.merge_base(3, 4), Some(0));
    assert_eq!(h.merge_base(3, 1), Some(1));
    assert_eq!(h.merge_base(1, 3), Some(1));
    assert_eq!(h.merge_base(5, 4), Some(4));
    assert_eq!(h.merge_base(2, 2), Some(2));
    assert_eq!(h.merge_base_of(&s("d"), &s("e")), Ok(Some(s("a"))));
    assert_eq!(h.merge_base_of(&s("f"), &s("b")), Ok(Some(s("b"))));
    assert_eq!(h.merge_base_of(&s("x"), &s("y")), Err(JanusError::ObjectNotFound(s("x"))));
    assert_eq!(h.merge_base_of(&s("a"), &s("y")), Err(JanusError::ObjectNotFound(s("y"))));
}

#[test]
fn unrelated_histories_have_no_merge_base() {
    let mut h = History::new();
    h.add_commit(record("a", 1, &[])).unwrap();
    h.add_commit(record("b", 2, &[])).unwrap();
    h.add_commit(record("c", 3, &["b"])).unwrap();
    assert_eq!(h.merge_base(0, 2), None);
    assert_eq!(h.merge_base_of(&s("a"), &s("c")), Ok(None));
}

#[test]
fn a_criss_cross_takes_the_latest_common_ancestor() {
    //  a - b - d
    //    X   X
    //  a - c - e     d = merge(b, c), e = merge(c, b)
    let mut h = History::new();
    h.add_commit(record("a", 1, &[])).unwrap();
    h.add_commit(record("b", 2, &["a"])).unwrap();
    h.add_commit(record("c", 3, &["a"])).unwrap();
    h.add_commit(record("d", 4, &["b", "c"])).unwrap();
    h.add_commit(record("e", 5, &["c", "b"])).unwrap();
    assert_eq!(h.merge_base_of(&s("d"), &s("e")), Ok(Some(s("c"))));
}

#[test]
fn a_commit_needs_its_parents() {
    let mut h = History::new();
    assert_eq!(h.add_commit(record("b", 2, &["a"])), Err(JanusError::ObjectNotFound(s("a"))));
    assert_eq!(h.len(), 0);
    assert_eq!(h.add_commit(record("a", 1, &[])), Ok(0));
    assert_eq!(h.add_commit(record("b", 2, &["a", "zz"])), Err(JanusError::ObjectNotFound(s("zz"))));
    assert_eq!(h.add_commit(record("b", 2, &["a"])), Ok(1));
    assert_eq!(h.node(1).parents, vec![0]);
    assert_eq!(h.index_of(&s("b")), Some(1));
    assert_eq!(h.index_of(&s("c")), None);
}

#[test]
fn the_same_commit_is_added_once() {
    let mut h = History::new();
    assert_eq!(h.add_commit(record("a", 1, &[])), Ok(0));
    assert_eq!(h.add_commit(record("b", 2, &["a"])), Ok(1));
    assert_eq!(h.add_commit(record("a", 1, &[])), Ok(0));
    assert_eq!(h.add_commit(record("a", 7, &["nowhere"])), Ok(0));
    assert_eq!(h.len(), 2);
    assert_eq!(h.node(0).record.time, 1);
}

#[test]
fn the_plan_of_a_merge_follows_ancestry() {
    let h = diamond();
    // a=0 b=1 c=2 d=3 e=4 f=5
    assert_eq!(plan_by_ancestry(&h, 5, 3), MergePlan::UpToDate);
    assert_eq!(plan_by_ancestry(&h, 3, 3), MergePlan::UpToDate);
    assert_eq!(plan_by_ancestry(&h, 1, 3), MergePlan::FastForward);
    assert_eq!(plan_by_ancestry(&h, 0, 5), MergePlan::FastForward);
    assert_eq!(plan_by_ancestry(&h, 3, 4), MergePlan::ThreeWay);
    assert_eq!(plan_by_ancestry(&h, 1, 2), MergePlan::ThreeWay);
}
