use comparer_rust::tree_gen::Tree;

struct UnionFind {
    size: usize,
    parents: Vec<usize>,
    group_size: Vec<usize>,
    group_num: usize,
}

impl UnionFind {
    /// Returns a new UnionFind instance where `size` number of elements are in their own disjoint set.
    fn new(size: usize) -> Self {
        Self {
            size,
            parents: vec![size; size],
            group_size: vec![1; size],
            group_num: size,
        }
    }

    fn find_root(&mut self, x: usize) -> usize {
        if self.parents[x] == self.size {
            return x;
        }
        let root = self.find_root(self.parents[x]);
        self.parents[x] = root;
        root
    }

    /// Returns true if there exists a path from a to b.
    fn is_reachable(&mut self, a: usize, b: usize) -> bool {
        self.find_root(a) == self.find_root(b)
    }

    /// Add an edge between a and b.
    fn union(&mut self, a: usize, b: usize) {
        let a_root = self.find_root(a);
        let b_root = self.find_root(b);

        if a_root != b_root {
            self.group_num -= 1;
            let a_size = self.group_size[a_root];
            let b_size = self.group_size[b_root];
            if a_size < b_size {
                self.parents[a_root] = b_root;
                self.group_size[b_root] += a_size;
            } else {
                self.parents[b_root] = a_root;
                self.group_size[a_root] += b_size;
            }
        }
    }
}

#[test]
fn generate_random_tree() {
    let n: usize = 100000;
    let tree = Tree::random_tree(n, &mut rand::thread_rng());
    let mut uf = UnionFind::new(n);
    for &(u, v) in tree.get_edges() {
        assert!(!uf.is_reachable(u, v));
        uf.union(u, v);
    }
}

#[test]
fn prufer_all_zero() {
    // The sequence [0, 0] describes the star on four nodes centered at 0,
    // decoded smallest-leaf-first.
    let tree = Tree::from_prufer(&[0, 0]).unwrap();
    assert_eq!(tree.get_edges(), &[(1, 0), (2, 0), (0, 3)]);
}

#[test]
fn prufer_out_of_range_entry() {
    // One entry beyond n - 1 = 2 makes the sequence invalid.
    assert!(Tree::from_prufer(&[5]).is_none());
}

#[test]
fn prufer_empty_sequence() {
    // The empty sequence describes the single edge on two nodes.
    let tree = Tree::from_prufer(&[]).unwrap();
    assert_eq!(tree.get_edges(), &[(0, 1)]);
}

#[test]
fn prufer_path_graph() {
    // [2, 3] on four nodes: leaves 0 then 1 attach, then the two remaining
    // leaves join.
    let tree = Tree::from_prufer(&[2, 3]).unwrap();
    let edges = tree.get_edges();
    assert_eq!(edges.len(), 3);
    let mut uf = UnionFind::new(4);
    for &(u, v) in edges {
        assert!(!uf.is_reachable(u, v));
        uf.union(u, v);
    }
    assert_eq!(uf.group_num, 1);
}

#[test]
fn set_root_star() {
    let tree = Tree::from_prufer(&[0, 0]).unwrap();
    let parent = tree.set_root(0);
    assert_eq!(parent, vec![None, Some(0), Some(0), Some(0)]);
}

#[test]
fn set_root_makes_all_reachable_nodes_point_home() {
    let tree = Tree::random_tree(50, &mut rand::thread_rng());
    let parent = tree.set_root(7);
    assert_eq!(parent.len(), 50);
    assert_eq!(parent[7], None);
    let edges = tree.get_edges();
    for v in 0..50 {
        if v == 7 {
            continue;
        }
        // A tree is connected, so every other node holds a parent link that
        // is one of the tree's edges.
        let p = parent[v].unwrap();
        assert!(edges.contains(&(p, v)) || edges.contains(&(v, p)));
    }
}
