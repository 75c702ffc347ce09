use dlist::{List, Node};

fn s(x: &str) -> String {
    x.to_owned()
}

fn collect(l: &List) -> Vec<String> {
    let mut it = l.iter();
    let mut out = Vec::new();
    while let Some(v) = it.next() {
        out.push(v.clone());
    }
    out
}

#[test]
fn demo_scenario() {
    let mut l = List::new();
    l.push_front(s("test"));
    assert_eq!(collect(&l), vec![s("test")]);
    l.push_front(s("exercise"));
    assert_eq!(collect(&l), vec![s("exercise"), s("test")]);
    l.push_back(s("list"));
    assert_eq!(collect(&l), vec![s("exercise"), s("test"), s("list")]);
    assert_eq!(l.print_all(), "[exercise, test, list]");
    assert_eq!(l.pop_front(), Some(s("exercise")));
    assert_eq!(collect(&l), vec![s("test"), s("list")]);
    assert!(l.contain("test"));
    assert_eq!(l.pop_back(), Some(s("list")));
    assert_eq!(collect(&l), vec![s("test")]);
    assert!(!l.contain("list"));
    assert_eq!(l.len(), 1);
}

#[test]
fn mixed_pushes_order_and_length() {
    let mut l = List::new();
    l.push_back(s("b1"));
    l.push_front(s("f1"));
    l.push_back(s("b2"));
    l.push_front(s("f2"));
    l.push_front(s("f3"));
    assert_eq!(l.len(), 5);
    assert_eq!(
        collect(&l),
        vec![s("f3"), s("f2"), s("f1"), s("b1"), s("b2")]
    );
}

#[test]
fn push_front_then_pop_front_empties() {
    let mut l = List::new();
    l.push_front(s("x"));
    assert_eq!(l.pop_front(), Some(s("x")));
    assert_eq!(l.len(), 0);
    assert!(l.is_empty());
    assert_eq!(collect(&l), Vec::<String>::new());
}

#[test]
fn push_back_then_pop_back_empties() {
    let mut l = List::new();
    l.push_back(s("x"));
    assert_eq!(l.pop_back(), Some(s("x")));
    assert_eq!(l.len(), 0);
    assert!(l.is_empty());
}

#[test]
fn pops_on_empty_return_none_repeatedly() {
    let mut l = List::new();
    for _ in 0..3 {
        assert_eq!(l.pop_front(), None);
        assert_eq!(l.pop_back(), None);
        assert_eq!(l.len(), 0);
    }
    l.push_back(s("a"));
    assert_eq!(collect(&l), vec![s("a")]);
}

#[test]
fn remove_interior_keeps_order() {
    let mut l = List::new();
    l.push_back(s("a"));
    let hb = l.push_back(s("b"));
    l.push_back(s("c"));
    l.push_back(s("d"));
    assert_eq!(l.remove(hb), Some(s("b")));
    assert_eq!(l.len(), 3);
    assert_eq!(collect(&l), vec![s("a"), s("c"), s("d")]);
    assert_eq!(l.rev_print_all(), "[d, c, a]");
}

#[test]
fn remove_head_and_tail_by_handle() {
    let mut l = List::new();
    let ha = l.push_back(s("a"));
    l.push_back(s("b"));
    let hc = l.push_back(s("c"));
    let mut m = List::new();
    m.push_back(s("a"));
    m.push_back(s("b"));
    m.push_back(s("c"));
    assert_eq!(l.remove(ha), m.pop_front());
    assert_eq!(collect(&l), collect(&m));
    assert_eq!(l.remove(hc), m.pop_back());
    assert_eq!(collect(&l), collect(&m));
    assert_eq!(collect(&l), vec![s("b")]);
}

#[test]
fn stale_handle_is_refused() {
    let mut l = List::new();
    let ha = l.push_back(s("a"));
    assert_eq!(l.remove(ha), Some(s("a")));
    assert_eq!(l.remove(ha), None);
    // the vacated slot is reused, and the old handle still does not match it
    let hb = l.push_back(s("b"));
    assert_ne!(ha, hb);
    assert_eq!(l.remove(ha), None);
    assert_eq!(collect(&l), vec![s("b")]);
    assert_eq!(l.remove(hb), Some(s("b")));
    assert!(l.is_empty());
}

#[test]
fn handles_survive_other_removals() {
    let mut l = List::new();
    let h: Vec<_> = (0..6).map(|i| l.push_back(format!("v{}", i))).collect();
    assert_eq!(l.remove(h[2]), Some(s("v2")));
    assert_eq!(l.pop_front(), Some(s("v0")));
    l.push_front(s("n"));
    assert_eq!(l.remove(h[4]), Some(s("v4")));
    assert_eq!(l.remove(h[1]), Some(s("v1")));
    assert_eq!(collect(&l), vec![s("n"), s("v3"), s("v5")]);
}

#[test]
fn round_trip_back() {
    let mut l = List::new();
    let vals = ["a", "b", "c", "d"];
    for v in vals {
        l.push_back(s(v));
    }
    let mut out = Vec::new();
    for _ in 0..vals.len() {
        out.push(l.pop_back().unwrap());
    }
    assert_eq!(out, vec![s("d"), s("c"), s("b"), s("a")]);
    assert!(l.is_empty());
}

#[test]
fn round_trip_front() {
    let mut l = List::new();
    let vals = ["a", "b", "c"];
    for v in vals {
        l.push_front(s(v));
    }
    let mut out = Vec::new();
    for _ in 0..vals.len() {
        out.push(l.pop_front().unwrap());
    }
    assert_eq!(out, vec![s("c"), s("b"), s("a")]);
    assert!(l.is_empty());
    assert_eq!(l.pop_front(), None);
}

#[test]
fn contains_after_push_and_removal() {
    let mut l = List::new();
    assert!(!l.contain("v"));
    l.push_front(s("v"));
    assert!(l.contain("v"));
    let h = l.push_back(s("w"));
    assert!(l.contain("w"));
    l.remove(h);
    assert!(!l.contain("w"));
    assert_eq!(l.pop_front(), Some(s("v")));
    assert!(!l.contain("v"));
}

#[test]
fn contains_matches_whole_values_only() {
    let mut l = List::new();
    l.push_back(s("abc"));
    assert!(!l.contain("ab"));
    assert!(!l.contain("abcd"));
    assert!(!l.contain(""));
    l.push_back(s(""));
    assert!(l.contain(""));
}

#[test]
fn print_all_renders_in_both_directions() {
    let mut l = List::new();
    assert_eq!(l.print_all(), "[]");
    assert_eq!(l.rev_print_all(), "[]");
    l.push_back(s("one"));
    assert_eq!(l.print_all(), "[one]");
    l.push_back(s("two"));
    l.push_back(s("three"));
    assert_eq!(l.print_all(), "[one, two, three]");
    assert_eq!(l.rev_print_all(), "[three, two, one]");
}

#[test]
fn iterator_meets_from_both_ends() {
    let mut l = List::new();
    for v in ["a", "b", "c", "d"] {
        l.push_back(s(v));
    }
    let mut it = l.iter();
    assert_eq!(it.size_hint(), (4, Some(4)));
    assert_eq!(it.next(), Some(&s("a")));
    assert_eq!(it.next_back(), Some(&s("d")));
    assert_eq!(it.size_hint(), (2, Some(2)));
    assert_eq!(it.next_back(), Some(&s("c")));
    assert_eq!(it.next(), Some(&s("b")));
    assert_eq!(it.next(), None);
    assert_eq!(it.next_back(), None);
    assert_eq!(it.size_hint(), (0, Some(0)));
}

#[test]
fn iterator_last_and_reverse() {
    let mut l = List::new();
    assert_eq!(l.iter().last(), None);
    for v in ["a", "b", "c"] {
        l.push_back(s(v));
    }
    assert_eq!(l.iter().last(), Some(&s("c")));
    let mut r = l.iter_reverse();
    let mut out = Vec::new();
    while let Some(v) = r.next() {
        out.push(v.clone());
    }
    assert_eq!(out, vec![s("c"), s("b"), s("a")]);
}

#[test]
fn node_keeps_its_payload() {
    let n = Node::new(s("payload"));
    assert_eq!(n.into_inner(), "payload");
}

#[test]
fn many_slots_are_reused() {
    let mut l = List::new();
    for round in 0..3 {
        for i in 0..50 {
            l.push_back(format!("{}-{}", round, i));
        }
        for i in 0..50 {
            assert_eq!(l.pop_front(), Some(format!("{}-{}", round, i)));
        }
        assert!(l.is_empty());
    }
}

#[test]
fn handle_names_its_node_after_pushes_and_pops() {
    let mut l = List::new();
    let ha = l.push_back(s("a"));
    l.push_front(s("b"));
    let hc = l.push_back(s("c"));
    l.push_back(s("d"));
    assert_eq!(l.pop_front(), Some(s("b")));
    assert_eq!(l.pop_back(), Some(s("d")));
    assert_eq!(l.remove(hc), Some(s("c")));
    assert_eq!(l.remove(ha), Some(s("a")));
    assert!(l.is_empty());
}
