use rustitude::map_state::walk;
use rustitude::qtree::QTreeKey;

#[test]
fn two_by_two_block_yields_four_keys_ending_at_lt() {
    for d in [1u8, 5, 27] {
        let lt = QTreeKey::new(d, 0, 0).unwrap();
        let rb = QTreeKey::new(d, 1, 1).unwrap();
        let keys = walk(lt, rb);
        assert_eq!(keys.len(), 4);
        assert_eq!(keys[0], QTreeKey::new(d, 1, 1).unwrap());
        assert_eq!(keys[1], QTreeKey::new(d, 0, 1).unwrap());
        assert_eq!(keys[2], QTreeKey::new(d, 1, 0).unwrap());
        assert_eq!(keys[3], lt);
        for i in 0..keys.len() {
            for l in 0..keys.len() {
                if i != l {
                    assert_ne!(keys[i], keys[l]);
                }
            }
        }
    }
}

#[test]
fn serpentine_rectangle_enumeration() {
    let lt = QTreeKey::new(27, 10, 10).unwrap();
    let rb = QTreeKey::new(27, 14, 11).unwrap();
    let keys = walk(lt, rb);
    assert_eq!(keys.len(), 10);
    // bottom row right to left, then the row above
    assert_eq!(keys[0], QTreeKey::new(27, 14, 11).unwrap());
    assert_eq!(keys[4], QTreeKey::new(27, 10, 11).unwrap());
    assert_eq!(keys[5], QTreeKey::new(27, 14, 10).unwrap());
    assert_eq!(keys[9], lt);
}

#[test]
fn single_cell_rectangle() {
    let k = QTreeKey::new(9, 77, 99).unwrap();
    let keys = walk(k, k);
    assert_eq!(keys.len(), 1);
    assert_eq!(keys[0], k);
}
