use serializability::chains::{check, Chains};
use serializability::closure::EdgeClosure;
use serializability::history::TxnInfo;

fn txn(pos: (usize, usize), reads: Vec<(usize, (usize, usize))>, writes: Vec<usize>) -> TxnInfo {
    TxnInfo { pos, reads, writes }
}

const X: usize = 10;
const Y: usize = 20;

fn write_skew() -> (Vec<usize>, Vec<TxnInfo>) {
    (
        vec![1, 1],
        vec![
            txn((1, 0), vec![(X, (0, 0))], vec![Y]),
            txn((2, 0), vec![(Y, (0, 0))], vec![X]),
        ],
    )
}

fn stale_read() -> (Vec<usize>, Vec<TxnInfo>) {
    (
        vec![2, 1],
        vec![
            txn((1, 0), vec![], vec![X]),
            txn((1, 1), vec![], vec![X]),
            txn((2, 0), vec![(X, (1, 0))], vec![]),
        ],
    )
}

fn lost_update() -> (Vec<usize>, Vec<TxnInfo>) {
    (
        vec![2],
        vec![txn((1, 0), vec![], vec![X]), txn((1, 1), vec![(X, (0, 0))], vec![])],
    )
}

#[test]
fn empty_history() {
    assert_eq!(check(&vec![], &vec![]), Some(vec![]));
}

#[test]
fn single_read_of_initial_value() {
    let info = vec![txn((1, 0), vec![(X, (0, 0))], vec![])];
    assert_eq!(check(&vec![1], &info), Some(vec![1]));
}

#[test]
fn write_read_dependency() {
    let info = vec![
        txn((1, 0), vec![], vec![X]),
        txn((2, 0), vec![(X, (1, 0))], vec![]),
    ];
    assert_eq!(check(&vec![1, 1], &info), Some(vec![1, 2]));
}

#[test]
fn write_read_dependency_listed_backwards() {
    let info = vec![
        txn((2, 0), vec![(X, (1, 0))], vec![]),
        txn((1, 0), vec![], vec![X]),
    ];
    assert_eq!(check(&vec![1, 1], &info), Some(vec![1, 2]));
}

#[test]
fn write_skew_is_infeasible() {
    let (n, info) = write_skew();
    assert_eq!(check(&n, &info), None);
}

#[test]
fn stale_read_is_ordered_before_overwrite() {
    let (n, info) = stale_read();
    assert_eq!(check(&n, &info), Some(vec![1, 2, 1]));
}

#[test]
fn lost_update_is_infeasible() {
    let (n, info) = lost_update();
    assert_eq!(check(&n, &info), None);
}

#[test]
fn saturation_rejects_write_skew() {
    let (n, info) = write_skew();
    let mut c = Chains::new(&n, &info);
    assert!(!c.preprocess());
}

#[test]
fn saturation_adds_read_write_edge() {
    let (n, info) = stale_read();
    let mut c = Chains::new(&n, &info);
    assert_eq!(c.txn_count(), 4);
    assert!(!c.visible(3, 2));
    assert!(c.preprocess());
    // ids: root 0, (1,0) 1, (1,1) 2, (2,0) 3
    assert!(c.visible(0, 1));
    assert!(c.visible(1, 2));
    assert!(c.visible(1, 3));
    assert!(c.visible(3, 2));
    assert!(!c.visible(2, 3));
}

#[test]
fn saturation_keeps_seeded_edges() {
    let (n, info) = stale_read();
    let mut c = Chains::new(&n, &info);
    c.preprocess_wr();
    c.preprocess_vis();
    let mut before = Vec::new();
    for u in 0..4 {
        for v in 0..4 {
            if c.visible(u, v) {
                before.push((u, v));
            }
        }
    }
    assert!(!before.is_empty());
    assert!(c.preprocess_ww_rw());
    for (u, v) in before {
        assert!(c.visible(u, v));
    }
}

#[test]
fn serialization_ids_lists_every_transaction_once() {
    let (n, info) = stale_read();
    let mut c = Chains::new(&n, &info);
    assert!(c.preprocess());
    let ord = c.serialization_ids().unwrap();
    assert_eq!(ord, vec![0, 1, 3, 2]);
    for u in 0..4 {
        for v in 0..4 {
            if c.visible(u, v) {
                let pu = ord.iter().position(|&t| t == u).unwrap();
                let pv = ord.iter().position(|&t| t == v).unwrap();
                assert!(pu < pv);
                assert!(!c.visible(v, u));
            }
        }
    }
    assert_eq!(c.serializable_order_dfs(), Some(vec![1, 2, 1]));
}

#[test]
fn closure_add_edge_closes_transitively() {
    let mut c = EdgeClosure::new();
    assert!(!c.contains(1, 2));
    assert!(c.add_edge(1, 2));
    assert!(c.add_edge(2, 3));
    assert!(c.contains(1, 3));
    assert!(!c.contains(3, 1));
    assert!(!c.add_edge(1, 3));
    assert!(c.add_edge(0, 1));
    assert!(c.contains(0, 3));
    assert!(c.contains(0, 2));
}

#[test]
fn closure_indexes_agree() {
    let mut c = EdgeClosure::new();
    c.add_edge(4, 5);
    c.add_edge(5, 6);
    c.add_edge(2, 4);
    let mut succ = c.successors(4);
    succ.sort();
    assert_eq!(succ, vec![5, 6]);
    let mut pred = c.predecessors(6);
    pred.sort();
    assert_eq!(pred, vec![2, 4, 5]);
    for u in 0..8 {
        for v in 0..8 {
            assert_eq!(c.successors(u).contains(&v), c.predecessors(v).contains(&u));
        }
    }
}

#[test]
fn closure_transitive_after_many_insertions() {
    let mut c = EdgeClosure::new();
    let edges = [(0, 3), (3, 1), (5, 0), (1, 4), (6, 5), (2, 6)];
    for &(u, v) in edges.iter() {
        c.add_edge(u, v);
    }
    for a in 0..8 {
        for b in 0..8 {
            for d in 0..8 {
                if c.contains(a, b) && c.contains(b, d) {
                    assert!(c.contains(a, d));
                }
            }
        }
    }
    assert!(c.contains(2, 4));
}

#[test]
fn root_writes_only_keys_read_from_it() {
    // (1,0) writes X, nobody reads X from the root: the search may place it anywhere
    let info = vec![
        txn((1, 0), vec![], vec![X]),
        txn((2, 0), vec![(Y, (0, 0))], vec![]),
    ];
    assert_eq!(check(&vec![1, 1], &info), Some(vec![1, 2]));
}

// Exhaustive search over every order of the non-root transactions, used to
// compare the verdict of `check` on small histories.
fn brute_force(n_sizes: &Vec<usize>, info: &Vec<TxnInfo>) -> bool {
    let mut txns: Vec<(usize, usize)> = Vec::new();
    for (p, &len) in n_sizes.iter().enumerate() {
        for k in 0..len {
            txns.push((p + 1, k));
        }
    }
    let find = |pos: (usize, usize)| info.iter().find(|e| e.pos == pos);
    let mut root_writes: Vec<usize> = Vec::new();
    for e in info.iter() {
        for &(x, src) in e.reads.iter() {
            if src == (0, 0) {
                root_writes.push(x);
            }
        }
    }
    let writes = |pos: (usize, usize)| -> Vec<usize> {
        if pos == (0, 0) {
            root_writes.clone()
        } else {
            find(pos).map(|e| e.writes.clone()).unwrap_or_default()
        }
    };
    let mut perm: Vec<usize> = (0..txns.len()).collect();
    loop {
        let order: Vec<(usize, usize)> = perm.iter().map(|&i| txns[i]).collect();
        let mut ok = true;
        for (i, &t) in order.iter().enumerate() {
            if t.1 > 0 && !order[..i].contains(&(t.0, t.1 - 1)) {
                ok = false;
            }
            if let Some(e) = find(t) {
                for &(x, src) in e.reads.iter() {
                    let mut last = if root_writes.contains(&x) { Some((0, 0)) } else { None };
                    for &w in order[..i].iter() {
                        if writes(w).contains(&x) {
                            last = Some(w);
                        }
                    }
                    if last != Some(src) {
                        ok = false;
                    }
                }
            }
        }
        if ok {
            return true;
        }
        let mut i = perm.len();
        loop {
            if i < 2 {
                return false;
            }
            i -= 1;
            if perm[i - 1] < perm[i] {
                break;
            }
        }
        let mut j = perm.len() - 1;
        while perm[j] <= perm[i - 1] {
            j -= 1;
        }
        perm.swap(i - 1, j);
        perm[i..].reverse();
    }
}

#[test]
fn agrees_with_brute_force_on_small_histories() {
    let mut cases = vec![write_skew(), stale_read(), lost_update()];
    cases.push((vec![1, 1], vec![txn((1, 0), vec![], vec![X]), txn((2, 0), vec![(X, (1, 0))], vec![])]));
    cases.push((
        vec![2, 2],
        vec![
            txn((1, 0), vec![], vec![X]),
            txn((1, 1), vec![(Y, (2, 0))], vec![]),
            txn((2, 0), vec![], vec![Y]),
            txn((2, 1), vec![(X, (1, 0))], vec![]),
        ],
    ));
    cases.push((
        vec![2, 2],
        vec![
            txn((1, 0), vec![], vec![X]),
            txn((1, 1), vec![(Y, (0, 0))], vec![]),
            txn((2, 0), vec![], vec![Y]),
            txn((2, 1), vec![(X, (0, 0))], vec![]),
        ],
    ));
    for (n, info) in cases.iter() {
        assert_eq!(check(n, info).is_some(), brute_force(n, info));
    }
}

#[test]
fn self_read_is_rejected_by_seeding() {
    // the write-read edge from a transaction to itself is a cycle of the seed
    let info = vec![txn((1, 0), vec![(X, (1, 0))], vec![X])];
    let mut c = Chains::new(&vec![1], &info);
    assert!(!c.preprocess());
    assert_eq!(check(&vec![1], &info), None);
    assert!(!brute_force(&vec![1], &info));
}
