use spaced_list::SpacedListSkeleton;

fn list_of(dists: &[u64]) -> SpacedListSkeleton {
    let mut list = SpacedListSkeleton::new();
    for &d in dists {
        list.append_node(d);
    }
    list
}

#[test]
fn test_empty_list_queries() {
    let list = SpacedListSkeleton::new();
    assert_eq!(list.node_at(0), None);
    assert_eq!(list.node_at(5), None);
    assert_eq!(list.node_before(5), None);
    assert_eq!(list.node_after(5), None);
}

#[test]
fn test_round_trip_lookup() {
    // round-trip: the cumulative position of every appended element resolves
    // back to exactly that element
    let dists: Vec<u64> = vec![2, 3, 4, 1, 7];
    let list = list_of(&dists);
    let mut position: u64 = 0;
    for (i, &d) in dists.iter().enumerate() {
        position += d;
        assert_eq!(list.node_at(position), Some(vec![i]));
    }
    assert_eq!(list.total_length, 17);
    assert_eq!(list.offset, 2);
}

#[test]
fn test_gap_absence() {
    // positions strictly between two consecutive nodes with no sublist match
    // nothing
    let list = list_of(&[2, 3, 4]);
    assert_eq!(list.node_at(0), None);
    assert_eq!(list.node_at(1), None);
    assert_eq!(list.node_at(3), None);
    assert_eq!(list.node_at(4), None);
    assert_eq!(list.node_at(6), None);
    assert_eq!(list.node_at(7), None);
    assert_eq!(list.node_at(8), None);
    assert_eq!(list.node_at(10), None);
}

#[test]
fn test_node_before_past_the_tail() {
    // a position beyond the total length still has the last node before it
    let list = list_of(&[1, 2, 3]);
    assert_eq!(list.node_before(7), Some((vec![2], 1)));
    assert_eq!(list.node_before(100), Some((vec![2], 94)));
}

#[test]
fn test_node_after_plain() {
    let list = list_of(&[1, 2, 3]);
    assert_eq!(list.node_after(0), Some((vec![0], 1)));
    assert_eq!(list.node_after(1), Some((vec![1], 2)));
    assert_eq!(list.node_after(2), Some((vec![1], 1)));
    assert_eq!(list.node_after(3), Some((vec![2], 3)));
    assert_eq!(list.node_after(5), Some((vec![2], 1)));
    assert_eq!(list.node_after(6), None);
    assert_eq!(list.node_after(100), None);
}

#[test]
fn test_node_after_with_sublists() {
    let mut list = list_of(&[1, 4]);
    {
        let child = list.make_sublist_space(1);
        child.append_node(1);
        child.append_node(2);
    }
    // parent nodes at 1 and 5; child nodes at 2 and 4
    assert_eq!(list.node_after(0), Some((vec![0], 1)));
    assert_eq!(list.node_after(1), Some((vec![0, 0], 1)));
    assert_eq!(list.node_after(2), Some((vec![0, 1], 2)));
    assert_eq!(list.node_after(3), Some((vec![0, 1], 1)));
    assert_eq!(list.node_after(4), Some((vec![1], 1)));
    assert_eq!(list.node_after(5), None);
}

#[test]
fn test_node_before_with_sublists() {
    let mut list = list_of(&[1, 4]);
    {
        let child = list.make_sublist_space(1);
        child.append_node(1);
        child.append_node(2);
    }
    // parent nodes at 1 and 5; child nodes at 2 and 4
    assert_eq!(list.node_before(1), None);
    assert_eq!(list.node_before(2), Some((vec![0], 1)));
    assert_eq!(list.node_before(3), Some((vec![0, 0], 1)));
    assert_eq!(list.node_before(4), Some((vec![0, 0], 2)));
    assert_eq!(list.node_before(5), Some((vec![0, 1], 1)));
    assert_eq!(list.node_before(6), Some((vec![1], 1)));
}

#[test]
fn test_node_after_prefers_nodes_inside_the_gap() {
    // a child node landing at or past the next parent node never wins
    let mut list = list_of(&[1, 2]);
    {
        let child = list.make_sublist_space(1);
        child.append_node(1);
        child.append_node(5);
    }
    // parent nodes at 1 and 3; child nodes at 2 and (out of the gap) 7
    assert_eq!(list.node_after(1), Some((vec![0, 0], 1)));
    assert_eq!(list.node_after(2), Some((vec![1], 1)));
    assert_eq!(list.node_at(2), Some(vec![0, 0]));
    assert_eq!(list.node_at(7), None);
}

#[test]
fn test_queries_across_block_boundaries() {
    // 600 nodes of distance 1: three level-0 blocks and one level-1 block,
    // so lookups must descend through the level-1 partial sums
    let mut list = SpacedListSkeleton::new();
    for _ in 0..600 {
        list.append_node(1);
    }
    assert_eq!(list.levels.len(), 2);
    assert_eq!(list.levels[0].len(), 3);
    for k in 1..=600u64 {
        assert_eq!(list.node_at(k), Some(vec![(k - 1) as usize]));
    }
    assert_eq!(list.node_at(601), None);
    assert_eq!(list.node_before(300), Some((vec![298], 1)));
    assert_eq!(list.node_after(300), Some((vec![300], 1)));
}

#[test]
fn test_queries_across_block_boundaries_spaced() {
    // distances of 3 leave gaps that must come back absent, also across the
    // block boundary at node 256
    let mut list = SpacedListSkeleton::new();
    for _ in 0..300 {
        list.append_node(3);
    }
    for i in 0..300u64 {
        let position = 3 * (i + 1);
        assert_eq!(list.node_at(position), Some(vec![i as usize]));
        assert_eq!(list.node_at(position + 1), None);
        assert_eq!(list.node_at(position + 2), None);
        if i > 0 {
            assert_eq!(list.node_before(position), Some((vec![(i - 1) as usize], 3)));
            assert_eq!(list.node_before(position + 1), Some((vec![i as usize], 1)));
        }
        if i < 299 {
            assert_eq!(list.node_after(position), Some((vec![(i + 1) as usize], 3)));
            assert_eq!(list.node_after(position + 1), Some((vec![(i + 1) as usize], 2)));
        }
    }
}
