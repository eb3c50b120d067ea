use rustcp::hoare_partition;
use rustcp::lis_len;
use rustcp::lomuto_partition;
use rustcp::quickselect;
use rustcp::toposort;
use rustcp::SegmentTree;
use rustcp::UnionFind;

#[test]
fn lis_mixed_values() {
    assert_eq!(lis_len(&vec![10, 9, 2, 5, 3, 7, 101, 18]), 4);
}

#[test]
fn lis_all_equal() {
    assert_eq!(lis_len(&vec![7, 7, 7, 7, 7, 7, 7]), 1);
}

#[test]
fn lis_with_repeats() {
    assert_eq!(lis_len(&vec![0, 1, 0, 3, 2, 3]), 4);
}

#[test]
fn lis_empty_and_single() {
    assert_eq!(lis_len(&vec![]), 0);
    assert_eq!(lis_len(&vec![42]), 1);
}

#[test]
fn toposort_chain() {
    let graph: Vec<Vec<usize>> = vec![vec![], vec![0], vec![1]];
    assert_eq!(toposort(&graph), Some(vec![2, 1, 0]));
}

#[test]
fn toposort_cycle() {
    let graph: Vec<Vec<usize>> = vec![vec![2], vec![0], vec![1]];
    assert_eq!(toposort(&graph), None);
}

#[test]
fn toposort_empty_graph() {
    let graph: Vec<Vec<usize>> = vec![];
    assert_eq!(toposort(&graph), Some(vec![]));
}

#[test]
fn toposort_order_respects_edges() {
    let graph: Vec<Vec<usize>> = vec![vec![1, 2], vec![3], vec![3], vec![]];
    let order = toposort(&graph).unwrap();
    assert_eq!(order.len(), 4);
    let pos = |v: usize| order.iter().position(|&x| x == v).unwrap();
    for (node, prereqs) in graph.iter().enumerate() {
        for &p in prereqs {
            assert!(pos(node) < pos(p));
        }
    }
}

#[test]
fn union_find_repeated_union_is_noop() {
    let mut uf = UnionFind::new(4);
    assert!(uf.union_set(0, 1));
    assert_eq!(uf.n_sets(), 3);
    assert!(!uf.union_set(0, 1));
    assert_eq!(uf.n_sets(), 3);
    assert!(!uf.union_set(1, 0));
    assert_eq!(uf.n_sets(), 3);
    assert!(uf.union_set(2, 3));
    assert!(uf.union_set(1, 3));
    assert_eq!(uf.n_sets(), 1);
    assert!(uf.connected(0, 2));
}

#[test]
fn partition_single_element_range() {
    let mut data: Vec<i64> = vec![9, 4, 7];
    assert_eq!(lomuto_partition(&mut data, 1, 1, 1), 1);
    assert_eq!(data, vec![9, 4, 7]);
    let mut data2: Vec<i64> = vec![9, 4, 7];
    assert_eq!(hoare_partition(&mut data2, 1, 1, 1), 1);
    assert_eq!(data2, vec![9, 4, 7]);
}

#[test]
fn quickselect_with_duplicates() {
    let data: Vec<i64> = vec![3, 1, 3, 2, 1];
    let sorted = {
        let mut t = data.clone();
        t.sort();
        t
    };
    for (k, s) in sorted.into_iter().enumerate() {
        assert_eq!(quickselect(&mut data.clone(), 0, 4, k), s);
    }
}

#[test]
fn segment_tree_negative_values() {
    let data: Vec<i64> = vec![-4, 2, -1];
    let mut st = SegmentTree::new(&data);
    assert_eq!(st.sum_range(0, 2), -3);
    assert_eq!(st.sum_range(0, 0), -4);
    assert_eq!(st.sum_range(1, 2), 1);
    st.update(0, 10);
    assert_eq!(st.sum_range(0, 2), 11);
    assert_eq!(st.sum_range(1, 2), 1);
}

#[test]
fn segment_tree_single_element() {
    let mut st = SegmentTree::new(&vec![5]);
    assert_eq!(st.sum_range(0, 0), 5);
    st.update(0, -8);
    assert_eq!(st.sum_range(0, 0), -8);
}
