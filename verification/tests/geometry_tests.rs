use spaced_list::{
    generate_link_indices_above, generate_link_length_degree_indices, link_index, number_of_links,
};

#[test]
fn test_link_index() {
    assert_eq!(link_index(0, 0), 0);
    assert_eq!(link_index(1, 0), 1);
    assert_eq!(link_index(2, 0), 2);
    assert_eq!(link_index(3, 0), 3);
    assert_eq!(link_index(0, 1), 256);
    assert_eq!(link_index(1, 1), 256);
    assert_eq!(link_index(2, 1), 256 + 1);
    assert_eq!(link_index(0, 2), 256 + 128);
    assert_eq!(link_index(1, 2), 256 + 128);
    assert_eq!(link_index(2, 2), 256 + 128);
    assert_eq!(link_index(3, 2), 256 + 128);
    assert_eq!(link_index(4, 2), 256 + 128 + 1);
    assert_eq!(link_index(5, 2), 256 + 128 + 1);
    assert_eq!(link_index(6, 2), 256 + 128 + 1);
    assert_eq!(link_index(7, 2), 256 + 128 + 1);
    assert_eq!(link_index(8, 2), 256 + 128 + 2);
    assert_eq!(link_index(0, 3), 256 + 128 + 64);
    assert_eq!(link_index(0, 4), 256 + 128 + 64 + 32);
    assert_eq!(link_index(0, 5), 256 + 128 + 64 + 32 + 16);
    assert_eq!(link_index(0, 6), 256 + 128 + 64 + 32 + 16 + 8);
    assert_eq!(link_index(0, 7), 256 + 128 + 64 + 32 + 16 + 8 + 4);
    assert_eq!(link_index(0, 8), 256 + 128 + 64 + 32 + 16 + 8 + 4 + 2);
}

#[test]
fn test_link_indices_above() {
    let table = generate_link_indices_above();
    assert_eq!(table[0], vec![0usize; 9]);
    assert_eq!(
        table[1],
        vec![
            link_index(0, 0),
            link_index(0, 1),
            link_index(0, 2),
            link_index(0, 3),
            link_index(0, 4),
            link_index(0, 5),
            link_index(0, 6),
            link_index(0, 7),
            link_index(0, 8),
        ]
    );
    assert_eq!(
        table[2],
        vec![
            link_index(1, 0),
            link_index(0, 1),
            link_index(0, 2),
            link_index(0, 3),
            link_index(0, 4),
            link_index(0, 5),
            link_index(0, 6),
            link_index(0, 7),
            link_index(0, 8),
        ]
    );
    assert_eq!(
        table[3],
        vec![
            link_index(2, 0),
            link_index(2, 1),
            link_index(0, 2),
            link_index(0, 3),
            link_index(0, 4),
            link_index(0, 5),
            link_index(0, 6),
            link_index(0, 7),
            link_index(0, 8),
        ]
    );
    assert_eq!(
        table[4],
        vec![
            link_index(3, 0),
            link_index(2, 1),
            link_index(2, 2),
            link_index(0, 3),
            link_index(0, 4),
            link_index(0, 5),
            link_index(0, 6),
            link_index(0, 7),
            link_index(0, 8),
        ]
    );
    assert_eq!(
        table[5],
        vec![
            link_index(4, 0),
            link_index(4, 1),
            link_index(4, 2),
            link_index(1, 3),
            link_index(0, 4),
            link_index(0, 5),
            link_index(0, 6),
            link_index(0, 7),
            link_index(0, 8),
        ]
    );
}

#[test]
fn test_link_length_degree_indices() {
    let starts = generate_link_length_degree_indices();
    assert_eq!(starts[0], 0);
    assert_eq!(starts[1], 256);
    assert_eq!(starts[2], 256 + 128);
    assert_eq!(starts[3], 256 + 128 + 64);
    assert_eq!(starts[4], 256 + 128 + 64 + 32);
    assert_eq!(starts[5], 256 + 128 + 64 + 32 + 16);
    assert_eq!(starts[6], 256 + 128 + 64 + 32 + 16 + 8);
    assert_eq!(starts[7], 256 + 128 + 64 + 32 + 16 + 8 + 4);
    assert_eq!(starts[8], 256 + 128 + 64 + 32 + 16 + 8 + 4 + 2);
}

#[test]
fn test_number_of_links() {
    assert_eq!(number_of_links(0), 9);
    assert_eq!(number_of_links(1), 1);
    assert_eq!(number_of_links(2), 2);
    assert_eq!(number_of_links(3), 1);
    assert_eq!(number_of_links(4), 3);
    assert_eq!(number_of_links(128), 8);
    assert_eq!(number_of_links(255), 1);
}

#[test]
fn test_link_index_rows_cover_all_degrees() {
    let table = generate_link_indices_above();
    assert_eq!(table.len(), 256);
    for row in &table {
        assert_eq!(row.len(), 9);
    }
    // each row of a node index holds one slot per degree band
    let starts = generate_link_length_degree_indices();
    for j in 1..256usize {
        for d in 0..9usize {
            let idx = table[j][d];
            assert!(idx >= starts[d]);
            if d < 8 {
                assert!(idx < starts[d + 1]);
            } else {
                assert!(idx < 511);
            }
        }
    }
}
