use rustitude::qtree::{QTree, QTreeKey, QTreeNode};

#[test]
fn test_valid() {
    let key = QTreeKey::new(1, 0, 0).unwrap();
    assert!(key.depth() == 1 && key.x() == 0 && key.y() == 0);
    let key1 = key.child_rb().unwrap();
    assert!(key1.depth() == 2 && key1.x() == 1 && key1.y() == 1);
    let key2 = QTreeKey::new(12, 4096, 8191).unwrap();
    assert!(key2.depth() == 12 && key2.x() == 0 && key2.y() == 4095);
    let key3 = key2.child_lb().unwrap();
    assert!(key3.depth() == 13 && key3.x() == 0 && key3.y() == 8191);
    let key4 = key3.left();
    assert!(key4.depth() == 13 && key4.x() == 8191 && key4.y() == 8191);

    let key5 = QTreeKey::new(12, 2333, 2334).unwrap();
    assert!(key5.left() == QTreeKey::new(12, 2332, 2334).unwrap());
    assert!(key5.right() == QTreeKey::new(12, 2334, 2334).unwrap());
    assert!(key5.top() == QTreeKey::new(12, 2333, 2333).unwrap());
    assert!(key5.bottom() == QTreeKey::new(12, 2333, 2335).unwrap());
}

#[test]
fn test_tree() {
    let mut tree = QTree::new();
    tree.insert(QTreeKey::root(), "1");
    tree.insert(QTreeKey::new(1, 0, 0).unwrap(), "2");
    tree.insert(QTreeKey::new(27, 12353, 99910).unwrap(), "3");
    tree.insert(QTreeKey::new(27, 131072, 999999).unwrap(), "3");
    tree.insert(QTreeKey::new(1, 0, 1).unwrap(), "s");
    for k in tree.walk(QTreeKey::root(), 0xffu8) {
        let node = tree.get(k).unwrap();
        println!(
            "key:[depth:{},x:{},y:{}]\t{}",
            k.depth(),
            k.x(),
            k.y(),
            node.data.unwrap_or("default")
        );
    }
}

#[test]
fn accessors_return_construction_values() {
    for depth in [0u8, 1, 5, 13, 28] {
        let side: u32 = 1u32 << depth;
        for (x, y) in [(0u32, 0u32), (side - 1, side / 2), (side / 3, side - 1)] {
            let k = QTreeKey::new(depth, x, y).unwrap();
            assert_eq!(k.depth(), depth);
            assert_eq!(k.x(), x);
            assert_eq!(k.y(), y);
        }
    }
}

#[test]
fn construction_fails_above_depth_28() {
    assert!(QTreeKey::new(29, 0, 0).is_none());
    assert!(QTreeKey::new(255, 1, 1).is_none());
    assert!(QTreeKey::new(28, 0, 0).is_some());
}

#[test]
fn parent_child_roundtrip() {
    for (depth, x, y) in [(1u8, 0u32, 1u32), (5, 19, 6), (12, 2333, 2334), (28, 1, (1 << 28) - 1)]
    {
        let k = QTreeKey::new(depth, x, y).unwrap();
        let p = k.parent().unwrap();
        let back = match (x % 2, y % 2) {
            (0, 0) => p.child_lt(),
            (1, 0) => p.child_rt(),
            (0, 1) => p.child_lb(),
            _ => p.child_rb(),
        };
        assert_eq!(back.unwrap(), k);
    }
}

#[test]
fn children_end_at_depth_28() {
    let k = QTreeKey::new(28, 5, 6).unwrap();
    assert!(k.child_lt().is_none());
    assert!(k.child_rt().is_none());
    assert!(k.child_lb().is_none());
    assert!(k.child_rb().is_none());
    assert!(QTreeKey::root().parent().is_none());
}

#[test]
fn coordinates_are_masked() {
    // out-of-range coordinates are truncated to the low depth bits
    let k = QTreeKey::new(3, 8 + 5, 16 + 2).unwrap();
    assert_eq!(k.x(), 5);
    assert_eq!(k.y(), 2);
}

#[test]
fn inner_key_packs_fields() {
    let k = QTreeKey::new(12, 2333, 2334).unwrap();
    let enc = k.inner_key();
    assert_eq!(enc >> 56, 12);
    assert_eq!((enc >> 28) & 0xfff_ffff, 2333);
    assert_eq!(enc & 0xfff_ffff, 2334);
    assert_eq!(QTreeKey::root().inner_key(), 0);
}

#[test]
fn insert_creates_ancestor_placeholders() {
    let mut tree: QTree<u32> = QTree::new();
    let deep = QTreeKey::new(5, 3, 7).unwrap();
    tree.insert(deep, 55);
    // every ancestor from depth 0 to 5 is now present
    let mut k = deep;
    assert_eq!(tree.get(deep).unwrap().data, Some(55));
    while let Some(p) = k.parent() {
        let node = tree.get(p).expect("ancestor placeholder missing");
        assert_eq!(node.data, None);
        k = p;
    }
    assert_eq!(tree.size(), 6);
}

#[test]
fn remove_sweeps_subtree_but_spares_siblings() {
    let mut tree: QTree<u32> = QTree::new();
    let deep = QTreeKey::new(5, 3, 7).unwrap();
    let sibling = QTreeKey::new(5, 31, 31).unwrap();
    tree.insert(deep, 1);
    tree.insert(sibling, 2);
    let anc2 = QTreeKey::new(2, 0, 0).unwrap();
    tree.remove(anc2);
    // the whole subtree under the depth-2 ancestor is gone
    assert!(tree.get(anc2).is_none());
    assert!(tree.get(QTreeKey::new(3, 0, 1).unwrap()).is_none());
    assert!(tree.get(QTreeKey::new(4, 1, 3).unwrap()).is_none());
    assert!(tree.get(deep).is_none());
    // ancestors above the removed key stay
    assert!(tree.get(QTreeKey::root()).is_some());
    assert!(tree.get(QTreeKey::new(1, 0, 0).unwrap()).is_some());
    // the sibling subtree is untouched
    assert_eq!(tree.get(sibling).unwrap().data, Some(2));
    assert!(tree.get(QTreeKey::new(2, 3, 3).unwrap()).is_some());
}

#[test]
fn get_mut_updates_payload_in_place() {
    let mut tree: QTree<u32> = QTree::new();
    let k = QTreeKey::new(2, 1, 2).unwrap();
    tree.insert(k, 7);
    assert!(tree.get_mut(QTreeKey::new(2, 2, 2).unwrap()).is_none());
    let node = tree.get_mut(k).unwrap();
    node.data = Some(9);
    assert_eq!(tree.get(k).unwrap().data, Some(9));
}

#[test]
fn insert_returns_replaced_node() {
    let mut tree: QTree<u32> = QTree::new();
    let k = QTreeKey::new(1, 1, 0).unwrap();
    assert!(tree.insert(k, 4).is_none());
    let prev = tree.insert(k, 5).unwrap();
    assert_eq!(prev.data, Some(4));
    assert_eq!(tree.get(k).unwrap().data, Some(5));
    let fresh = QTreeNode::new(3u32);
    assert_eq!(fresh.data, Some(3));
}

#[test]
fn walk_is_breadth_first_over_present_nodes() {
    let mut tree: QTree<u32> = QTree::new();
    let root = QTreeKey::root();
    let c_lt = root.child_lt().unwrap();
    let c_rb = root.child_rb().unwrap();
    let gc = c_rb.child_lb().unwrap();
    tree.insert(root, 0);
    tree.insert(c_lt, 1);
    tree.insert(c_rb, 2);
    tree.insert(gc, 3);
    let visited = tree.walk(root, 28);
    assert_eq!(visited.len(), 4);
    assert_eq!(visited[0], root);
    // depths never decrease along the walk
    for w in visited.windows(2) {
        assert!(w[0].depth() <= w[1].depth());
    }
    assert!(visited.contains(&gc));
    // the target depth cuts the walk off
    let shallow = tree.walk(root, 1);
    assert_eq!(shallow.len(), 3);
    assert!(!shallow.contains(&gc));
    // walking from an absent key yields nothing
    assert_eq!(tree.walk(QTreeKey::new(1, 0, 1).unwrap(), 28).len(), 0);
}
