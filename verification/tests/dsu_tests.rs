use dsu::Dsu;

fn leaders_of(d: &mut Dsu, n: usize) -> Vec<usize> {
    let mut ls = Vec::new();
    for v in 0..n {
        ls.push(d.leader(v));
    }
    ls
}

#[test]
fn initial_isolation() {
    let n = 4;
    let mut d = Dsu::new(n);
    for i in 0..n {
        for j in 0..n {
            assert_eq!(d.same(i, j), i == j);
        }
    }
    for i in 0..n {
        assert_eq!(d.size(i), 1);
        assert_eq!(d.leader(i), i);
    }
    let gs = d.groups();
    assert_eq!(gs, vec![vec![0], vec![1], vec![2], vec![3]]);
}

#[test]
fn singleton_groups_of_three() {
    let mut d = Dsu::new(3);
    assert_eq!(d.groups(), vec![vec![0], vec![1], vec![2]]);
}

#[test]
fn empty_forest() {
    let mut d = Dsu::new(0);
    assert_eq!(d.groups(), Vec::<Vec<usize>>::new());
}

#[test]
fn single_element() {
    let mut d = Dsu::new(1);
    assert_eq!(d.leader(0), 0);
    assert_eq!(d.size(0), 1);
    assert!(d.same(0, 0));
    assert_eq!(d.groups(), vec![vec![0]]);
}

#[test]
fn example_scenario() {
    let mut d = Dsu::new(5);
    assert!(d.merge(0, 1));
    assert!(d.merge(1, 2));
    assert!(d.merge(3, 4));
    assert!(d.same(0, 2));
    assert_eq!(d.size(0), 3);
    assert_eq!(d.size(3), 2);
    assert!(d.merge(2, 3));
    assert_eq!(d.size(0), 5);
    let gs = d.groups();
    assert_eq!(gs.len(), 1);
    assert_eq!(gs[0], vec![0, 1, 2, 3, 4]);
}

#[test]
fn merge_idempotent() {
    let mut d = Dsu::new(6);
    assert!(d.merge(2, 5));
    assert!(!d.merge(2, 5));
    assert!(!d.merge(5, 2));
    assert!(!d.merge(2, 5));
    // a pair connected only indirectly also reports no change
    assert!(d.merge(5, 0));
    assert!(!d.merge(0, 2));
}

#[test]
fn same_is_symmetric() {
    let mut d = Dsu::new(5);
    d.merge(0, 1);
    d.merge(3, 4);
    for u in 0..5 {
        for v in 0..5 {
            let a = d.same(u, v);
            let b = d.same(v, u);
            assert_eq!(a, b);
        }
    }
}

#[test]
fn merge_is_symmetric_in_outcome() {
    let n = 6;
    // two mirrored histories: each merge done with its arguments swapped
    let mut d1 = Dsu::new(n);
    let mut d2 = Dsu::new(n);
    let edges = [(0, 1), (2, 3), (1, 3), (4, 5)];
    for &(u, v) in edges.iter() {
        let b1 = d1.merge(u, v);
        let b2 = d2.merge(v, u);
        assert_eq!(b1, b2);
    }
    for u in 0..n {
        for v in 0..n {
            assert_eq!(d1.same(u, v), d2.same(v, u));
        }
        assert_eq!(d1.size(u), d2.size(u));
    }
}

#[test]
fn tie_goes_to_first_arguments_root() {
    let mut d = Dsu::new(2);
    assert!(d.merge(0, 1));
    assert_eq!(d.leader(0), 0);
    assert_eq!(d.leader(1), 0);

    let mut e = Dsu::new(2);
    assert!(e.merge(1, 0));
    assert_eq!(e.leader(0), 1);
    assert_eq!(e.leader(1), 1);
}

#[test]
fn union_by_size_attaches_smaller_group() {
    let mut d = Dsu::new(5);
    d.merge(0, 1);
    d.merge(0, 2);
    // {0,1,2} is larger than {3,4}, so its root survives
    d.merge(3, 4);
    let big = d.leader(0);
    assert!(d.merge(3, 0));
    assert_eq!(d.leader(3), big);
    assert_eq!(d.leader(4), big);
}

#[test]
fn size_conservation() {
    let n = 9;
    let mut d = Dsu::new(n);
    let edges = [(0, 3), (3, 6), (1, 4), (2, 2), (4, 7), (5, 8), (0, 6)];
    for &(u, v) in edges.iter() {
        d.merge(u, v);
    }
    // summing size(r) over the distinct leaders gives n back
    let ls = leaders_of(&mut d, n);
    let mut seen: Vec<usize> = Vec::new();
    let mut total = 0;
    for &r in ls.iter() {
        if !seen.contains(&r) {
            seen.push(r);
            total += d.size(r);
        }
    }
    assert_eq!(total, n);
    // and the groups' lengths sum to n as well
    let gs = d.groups();
    assert_eq!(gs.iter().map(|g| g.len()).sum::<usize>(), n);
}

#[test]
fn same_is_transitive() {
    let mut d = Dsu::new(7);
    d.merge(0, 1);
    d.merge(1, 2);
    assert!(d.same(0, 1));
    assert!(d.same(1, 2));
    assert!(d.same(0, 2));
    d.merge(4, 5);
    d.merge(6, 5);
    assert!(d.same(4, 6));
    assert!(!d.same(0, 4));
}

#[test]
fn groups_form_a_partition() {
    let n = 8;
    let mut d = Dsu::new(n);
    let edges = [(1, 2), (2, 5), (0, 7), (3, 3)];
    for &(u, v) in edges.iter() {
        d.merge(u, v);
    }
    let gs = d.groups();
    // every element occurs exactly once
    let mut count = vec![0usize; n];
    for g in gs.iter() {
        assert!(!g.is_empty());
        for &x in g.iter() {
            assert!(x < n);
            count[x] += 1;
        }
    }
    assert!(count.iter().all(|&c| c == 1));
    // members ascend within each group and share that group's leader
    for g in gs.iter() {
        let r = d.leader(g[0]);
        for w in g.windows(2) {
            assert!(w[0] < w[1]);
        }
        for &x in g.iter() {
            assert_eq!(d.leader(x), r);
        }
    }
    // the groups ascend by leader
    let reps: Vec<usize> = gs.iter().map(|g| g[0]).collect();
    let mut led: Vec<usize> = Vec::new();
    for &r in reps.iter() {
        led.push(d.leader(r));
    }
    for w in led.windows(2) {
        assert!(w[0] < w[1]);
    }
}

#[test]
fn groups_reflect_merges() {
    let mut d = Dsu::new(6);
    d.merge(4, 2);
    d.merge(1, 5);
    let gs = d.groups();
    assert_eq!(gs, vec![vec![0], vec![1, 5], vec![3], vec![2, 4]]);
}

#[test]
fn long_chain() {
    let n = 100;
    let mut d = Dsu::new(n);
    for v in 1..n {
        assert!(d.merge(v - 1, v));
        assert_eq!(d.size(0), v + 1);
    }
    assert!(d.same(0, n - 1));
    assert_eq!(d.size(n - 1), n);
    let gs = d.groups();
    assert_eq!(gs.len(), 1);
    assert_eq!(gs[0], (0..n).collect::<Vec<usize>>());
}
