use spaced_list::{link_index, SpacedListSkeleton};

#[test]
fn test_append_node_and_node_at() {
    let mut list = SpacedListSkeleton::new();
    list.append_node(1);
    assert_eq!(list.offset, 1);
    assert_eq!(list.levels[0][0].link_lengths, [0; 511]);

    list.append_node(2);
    assert_eq!(list.offset, 1);
    assert_eq!(list.levels[0][0].link_lengths[link_index(0, 0)], 2);

    list.append_node(3);
    assert_eq!(list.offset, 1);
    assert_eq!(list.levels[0][0].link_lengths[link_index(0, 0)], 2);
    assert_eq!(list.levels[0][0].link_lengths[link_index(1, 0)], 3);
    assert_eq!(list.levels[0][0].link_lengths[link_index(0, 1)], 5);
    assert_eq!(list.levels[0][0].link_lengths[link_index(0, 2)], 5);

    assert_eq!(list.node_at(0), None);
    assert_eq!(list.node_at(1), Some(vec![0]));
    assert_eq!(list.node_at(2), None);
    assert_eq!(list.node_at(3), Some(vec![1]));
}

#[test]
fn test_append_node_and_node_at_with_sublists() {
    let mut list = SpacedListSkeleton::new();
    list.append_node(1);
    assert_eq!(list.offset, 1);
    assert_eq!(list.levels[0][0].link_lengths, [0; 511]);

    list.append_node(4);
    assert_eq!(list.offset, 1);
    assert_eq!(list.levels[0][0].link_lengths[link_index(0, 0)], 4);

    let sublist = list.make_sublist_space(1);

    sublist.append_node(1);
    sublist.append_node(2);

    assert_eq!(list.node_at(0), None);
    assert_eq!(list.node_at(1), Some(vec![0]));
    assert_eq!(list.node_at(2), Some(vec![0, 0]));
    assert_eq!(list.node_at(3), None);
    assert_eq!(list.node_at(4), Some(vec![0, 1]));
    assert_eq!(list.node_at(5), Some(vec![1]));
    assert_eq!(list.node_at(6), None);
}

#[test]
fn test_append_node_and_node_before() {
    let mut list = SpacedListSkeleton::new();
    list.append_node(1);
    assert_eq!(list.offset, 1);
    assert_eq!(list.levels[0][0].link_lengths, [0; 511]);

    list.append_node(2);
    assert_eq!(list.offset, 1);
    assert_eq!(list.levels[0][0].link_lengths[link_index(0, 0)], 2);

    list.append_node(3);
    assert_eq!(list.offset, 1);
    assert_eq!(list.levels[0][0].link_lengths[link_index(0, 0)], 2);
    assert_eq!(list.levels[0][0].link_lengths[link_index(1, 0)], 3);
    assert_eq!(list.levels[0][0].link_lengths[link_index(0, 1)], 5);
    assert_eq!(list.levels[0][0].link_lengths[link_index(0, 2)], 5);

    assert_eq!(list.node_before(0), None);
    assert_eq!(list.node_before(1), None);
    assert_eq!(list.node_before(2), Some((vec![0], 1)));
    assert_eq!(list.node_before(3), Some((vec![0], 2)));
    assert_eq!(list.node_before(4), Some((vec![1], 1)));
}

#[test]
fn test_append_accounting_with_zero_distances() {
    // append monotonicity: total length is the sum, offset the first distance
    let mut list = SpacedListSkeleton::new();
    list.append_node(3);
    list.append_node(0);
    list.append_node(5);
    assert_eq!(list.size, 3);
    assert_eq!(list.total_length, 8);
    assert_eq!(list.offset, 3);
}

#[test]
fn test_level_promotion_at_257() {
    let mut list = SpacedListSkeleton::new();
    for _ in 0..257 {
        list.append_node(1);
    }
    assert_eq!(list.size, 257);
    assert_eq!(list.total_length, 257);
    assert_eq!(list.levels.len(), 2);
    assert_eq!(list.levels[0].len(), 2);
    assert_eq!(list.levels[1].len(), 1);
    assert_eq!(list.levels[0][0].size, 256);
    assert_eq!(list.levels[0][1].size, 1);
    assert_eq!(list.levels[1][0].size, 2);
    // the one recorded element of the level-1 block spans the whole first
    // block, incoming distance included
    assert_eq!(list.levels[1][0].total_length, 256);
    assert_eq!(list.levels[1][0].link_lengths[link_index(0, 0)], 256);
}

#[test]
fn test_block_capacity_boundary() {
    // a level-0 block absorbs exactly 256 nodes before the list opens a new
    // one; the 256th append still lands in the first block
    let mut list = SpacedListSkeleton::new();
    for _ in 0..256 {
        list.append_node(2);
    }
    assert_eq!(list.levels.len(), 1);
    assert_eq!(list.levels[0].len(), 1);
    assert_eq!(list.levels[0][0].size, 256);
    list.append_node(2);
    assert_eq!(list.levels[0].len(), 2);
    assert_eq!(list.levels[0][0].size, 256);
    assert_eq!(list.levels[0][1].size, 1);
}

#[test]
fn test_chunk_append_directly() {
    let mut chunk = spaced_list::ChunkSkeleton::new();
    assert_eq!(chunk.size, 0);
    assert_eq!(chunk.total_length, 0);
    chunk.append_node(7);
    // the first node of a block records no distance
    assert_eq!(chunk.size, 1);
    assert_eq!(chunk.total_length, 0);
    chunk.append_node(5);
    assert_eq!(chunk.size, 2);
    assert_eq!(chunk.total_length, 5);
    assert_eq!(chunk.link_lengths[link_index(0, 0)], 5);
    assert_eq!(chunk.link_lengths[link_index(0, 8)], 5);
}

#[test]
fn test_make_sublist_space_idempotent() {
    let mut list = SpacedListSkeleton::new();
    list.append_node(1);
    list.append_node(10);
    {
        let child = list.make_sublist_space(1);
        child.append_node(2);
    }
    {
        // asking again hands back the same child, not a fresh one
        let child = list.make_sublist_space(1);
        assert_eq!(child.size, 1);
        assert_eq!(child.offset, 2);
        child.append_node(3);
    }
    assert_eq!(list.node_at(3), Some(vec![0, 0]));
    assert_eq!(list.node_at(6), Some(vec![0, 1]));
    assert_eq!(list.node_at(11), Some(vec![1]));
}
