use rbtree::{Node, Tree};

fn build(keys: &[u64]) -> Tree {
    let mut t = Tree::place();
    for &k in keys {
        t.insert(Box::new(Node::new(k)));
    }
    t
}

fn next_chain(t: &Tree) -> Vec<u64> {
    let mut out = Vec::new();
    let mut cur = t.first();
    while let Some(k) = cur {
        out.push(k);
        cur = t.next(k);
    }
    out
}

fn prev_chain(t: &Tree) -> Vec<u64> {
    let mut out = Vec::new();
    let mut cur = t.last();
    while let Some(k) = cur {
        out.push(k);
        cur = t.prev(k);
    }
    out
}

#[test]
fn example_scenario() {
    let mut t = build(&[5, 3, 8, 1, 4, 7, 9]);
    assert_eq!(t.first(), Some(1));
    assert_eq!(t.last(), Some(9));
    assert_eq!(t.keys_from(None), vec![1, 3, 4, 5, 7, 8, 9]);
    let removed = t.remove(5);
    assert_eq!(removed.get_key(), 5);
    assert_eq!(t.keys_from(None), vec![1, 3, 4, 7, 8, 9]);
    assert_eq!(t.search(6), None);
    assert_eq!(t.nsearch(6), Some(7));
    assert_eq!(t.psearch(6), Some(4));
}

#[test]
fn empty_tree() {
    let t = Tree::place();
    assert_eq!(t.first(), None);
    assert_eq!(t.last(), None);
    assert_eq!(t.search(0), None);
    assert_eq!(t.nsearch(0), None);
    assert_eq!(t.psearch(u64::MAX), None);
    assert!(t.keys_from(None).is_empty());
    assert!(t.keys_down_from(Some(3)).is_empty());
}

#[test]
fn init_empties_the_tree() {
    let mut t = build(&[2, 1, 3]);
    t.init();
    assert_eq!(t.first(), None);
    assert!(t.keys_from(None).is_empty());
    t.insert(Box::new(Node::new(10)));
    assert_eq!(t.keys_from(None), vec![10]);
}

#[test]
fn single_element_insert_and_remove() {
    let mut t = build(&[42]);
    assert_eq!(t.first(), Some(42));
    assert_eq!(t.last(), Some(42));
    assert_eq!(t.next(42), None);
    assert_eq!(t.prev(42), None);
    let n = t.remove(42);
    assert_eq!(n.get_key(), 42);
    assert_eq!(t.first(), None);
}

#[test]
fn extreme_keys() {
    let mut t = build(&[u64::MAX, 0, 7]);
    assert_eq!(t.first(), Some(0));
    assert_eq!(t.last(), Some(u64::MAX));
    assert_eq!(t.nsearch(8), Some(u64::MAX));
    assert_eq!(t.psearch(6), Some(0));
    assert_eq!(t.next(7), Some(u64::MAX));
    assert_eq!(t.prev(7), Some(0));
    t.remove(u64::MAX);
    assert_eq!(t.nsearch(8), None);
    assert_eq!(t.keys_down_from(None), vec![7, 0]);
}

#[test]
fn next_and_prev_walk_the_order() {
    let keys: Vec<u64> = (0..200u64).map(|i| (i * 37) % 211).collect();
    let t = build(&keys);
    let mut sorted = keys.clone();
    sorted.sort();
    assert_eq!(next_chain(&t), sorted);
    let mut rev = sorted.clone();
    rev.reverse();
    assert_eq!(prev_chain(&t), rev);
    for w in sorted.windows(2) {
        assert_eq!(t.next(w[0]), Some(w[1]));
        assert_eq!(t.prev(w[1]), Some(w[0]));
    }
}

#[test]
fn search_ceiling_and_floor() {
    let t = build(&[10, 20, 30, 40]);
    assert_eq!(t.search(20), Some(20));
    assert_eq!(t.search(25), None);
    assert_eq!(t.nsearch(20), Some(20));
    assert_eq!(t.nsearch(21), Some(30));
    assert_eq!(t.nsearch(5), Some(10));
    assert_eq!(t.nsearch(41), None);
    assert_eq!(t.psearch(20), Some(20));
    assert_eq!(t.psearch(29), Some(20));
    assert_eq!(t.psearch(50), Some(40));
    assert_eq!(t.psearch(9), None);
}

#[test]
fn iter_from_a_start_key() {
    let t = build(&[5, 3, 8, 1, 4, 7, 9]);
    assert_eq!(t.keys_from(Some(4)), vec![4, 5, 7, 8, 9]);
    assert_eq!(t.keys_from(Some(6)), vec![7, 8, 9]);
    assert_eq!(t.keys_from(Some(10)), Vec::<u64>::new());
    assert_eq!(t.keys_from(Some(0)), vec![1, 3, 4, 5, 7, 8, 9]);
    assert_eq!(t.keys_down_from(None), vec![9, 8, 7, 5, 4, 3, 1]);
    assert_eq!(t.keys_down_from(Some(7)), vec![7, 5, 4, 3, 1]);
    assert_eq!(t.keys_down_from(Some(6)), vec![5, 4, 3, 1]);
    assert_eq!(t.keys_down_from(Some(0)), Vec::<u64>::new());
}

#[test]
fn insert_then_remove_restores_members() {
    let mut t = build(&[50, 20, 80, 10, 30]);
    let before = t.keys_from(None);
    t.insert(Box::new(Node::new(25)));
    assert_eq!(t.search(25), Some(25));
    let n = t.remove(25);
    assert_eq!(n.get_key(), 25);
    assert_eq!(t.keys_from(None), before);
    t.insert(n);
    assert_eq!(t.keys_from(None), vec![10, 20, 25, 30, 50, 80]);
}

#[test]
fn removed_node_can_be_reinserted() {
    let mut t = build(&[1, 2, 3, 4, 5, 6]);
    let n = t.remove(4);
    let mut other = Tree::place();
    other.insert(n);
    assert_eq!(other.keys_from(None), vec![4]);
    assert_eq!(t.keys_from(None), vec![1, 2, 3, 5, 6]);
}

#[test]
fn ascending_and_descending_insertions() {
    let mut t = Tree::place();
    for k in 0..500u64 {
        t.insert(Box::new(Node::new(k)));
    }
    for k in (500..1000u64).rev() {
        t.insert(Box::new(Node::new(k)));
    }
    assert_eq!(t.keys_from(None), (0..1000u64).collect::<Vec<_>>());
    for k in (0..1000u64).filter(|k| k % 3 == 0) {
        assert_eq!(t.remove(k).get_key(), k);
    }
    let expect: Vec<u64> = (0..1000u64).filter(|k| k % 3 != 0).collect();
    assert_eq!(t.keys_from(None), expect);
    assert_eq!(next_chain(&t), expect);
}

#[test]
fn differential_against_sorted_vec() {
    let mut t = Tree::place();
    let mut model: Vec<u64> = Vec::new();
    let mut seed: u64 = 0x9e37_79b9_7f4a_7c15;
    for _ in 0..4000 {
        seed = seed.wrapping_mul(6364136223846793005).wrapping_add(1442695040888963407);
        let op = (seed >> 60) % 4;
        let key = (seed >> 20) % 300;
        match op {
            0 | 1 => {
                if model.binary_search(&key).is_err() {
                    t.insert(Box::new(Node::new(key)));
                    let pos = model.binary_search(&key).unwrap_err();
                    model.insert(pos, key);
                } else if let Ok(pos) = model.binary_search(&key) {
                    assert_eq!(t.remove(key).get_key(), key);
                    model.remove(pos);
                }
            }
            2 => {
                if let Ok(pos) = model.binary_search(&key) {
                    assert_eq!(t.remove(key).get_key(), key);
                    model.remove(pos);
                }
            }
            _ => {}
        }
        let expect_search = model.binary_search(&key).ok().map(|_| key);
        assert_eq!(t.search(key), expect_search);
        let ceil = model.iter().copied().find(|&x| x >= key);
        assert_eq!(t.nsearch(key), ceil);
        let floor = model.iter().rev().copied().find(|&x| x <= key);
        assert_eq!(t.psearch(key), floor);
        assert_eq!(t.first(), model.first().copied());
        assert_eq!(t.last(), model.last().copied());
    }
    assert_eq!(t.keys_from(None), model);
}

#[test]
fn iter_visits_in_order_until_stopped() {
    let t = build(&[5, 3, 8, 1, 4, 7, 9]);
    let seen = std::cell::RefCell::new(Vec::new());
    let r: Option<u64> = t.iter(None, &|k: u64| {
        seen.borrow_mut().push(k);
        None
    });
    assert_eq!(r, None);
    assert_eq!(*seen.borrow(), vec![1, 3, 4, 5, 7, 8, 9]);

    seen.borrow_mut().clear();
    let r = t.iter(Some(4), &|k: u64| {
        seen.borrow_mut().push(k);
        if k > 6 { Some(k * 10) } else { None }
    });
    assert_eq!(r, Some(70));
    assert_eq!(*seen.borrow(), vec![4, 5, 7]);
}

#[test]
fn reverse_iter_visits_in_order_until_stopped() {
    let t = build(&[5, 3, 8, 1, 4, 7, 9]);
    let seen = std::cell::RefCell::new(Vec::new());
    let r = t.reverse_iter(Some(7), &|k: u64| {
        seen.borrow_mut().push(k);
        if k < 5 { Some(k) } else { None }
    });
    assert_eq!(r, Some(4));
    assert_eq!(*seen.borrow(), vec![7, 5, 4]);

    seen.borrow_mut().clear();
    let r: Option<()> = t.reverse_iter(Some(6), &|k: u64| {
        seen.borrow_mut().push(k);
        None
    });
    assert_eq!(r, None);
    assert_eq!(*seen.borrow(), vec![5, 4, 3, 1]);
}
