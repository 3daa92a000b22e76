use inferno::autograd::topological_order;
use inferno::backend::{active_backend, is_available, Backend};

#[test]
fn diamond_graph_order() {
    let parents = vec![vec![1, 2], vec![3], vec![3], vec![]];
    assert_eq!(topological_order(&parents, 0), vec![3, 1, 2, 0]);
}

#[test]
fn unreachable_nodes_are_left_out() {
    let parents = vec![vec![], vec![0], vec![1], vec![0]];
    assert_eq!(topological_order(&parents, 2), vec![0, 1, 2]);
}

#[test]
fn leaf_root_is_alone() {
    let parents = vec![vec![], vec![0]];
    assert_eq!(topological_order(&parents, 0), vec![0]);
}

#[test]
fn repeated_parent_is_listed_once() {
    let parents = vec![vec![1, 1], vec![]];
    assert_eq!(topological_order(&parents, 0), vec![1, 0]);
}

#[test]
fn parents_come_before_children() {
    let parents = vec![vec![4, 1], vec![2, 3], vec![4], vec![2], vec![]];
    let order = topological_order(&parents, 0);
    assert_eq!(order, vec![4, 2, 3, 1, 0]);
    for (pos, &node) in order.iter().enumerate() {
        for &p in &parents[node] {
            let ppos = order.iter().position(|&x| x == p).unwrap();
            assert!(ppos < pos);
        }
    }
}

#[test]
fn backend_is_cpu_by_default() {
    assert_eq!(active_backend(), Backend::Cpu);
    assert_eq!(active_backend().name(), "CPU");
    assert_eq!(Backend::Metal.name(), "Metal (GPU)");
}

#[test]
fn no_gpu_in_this_build() {
    assert!(!is_available());
}
