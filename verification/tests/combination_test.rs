use parser300b::combination::expand_combinations;
use parser300b::combination::expand_combinations_iter;
use parser300b::combination::expand_indices;
use parser300b::combination::generate_combinations;
use parser300b::combination::Combination;

#[test]
fn generate_combinations_test() {
    assert_eq!(
        generate_combinations(2, 6, 3),
        vec![
            Combination { marks: vec![2, 3, 4] },
            Combination { marks: vec![2, 3, 5] },
            Combination { marks: vec![2, 4, 5] },
            Combination { marks: vec![3, 4, 5] }
        ]
    )
}

#[test]
fn generate_combinations_invalid_test() {
    assert_eq!(generate_combinations(2, 4, 3), vec![])
}

#[test]
fn expand_combinations_test() {
    assert_eq!(
        expand_combinations(vec![vec![1, 2], vec![3, 4], vec![5],]),
        vec![vec![1, 3, 5], vec![1, 4, 5], vec![2, 3, 5], vec![2, 4, 5],]
    );
}

#[test]
fn expand_combinations_iter_test() {
    assert_eq!(
        expand_combinations_iter(vec![vec![1, 2], vec![3, 4], vec![5],]),
        vec![vec![1, 3, 5], vec![1, 4, 5], vec![2, 3, 5], vec![2, 4, 5],]
    );
}

#[test]
fn generate_combinations_of_nothing_is_one_empty_tuple() {
    assert_eq!(generate_combinations(3, 7, 0), vec![Combination { marks: vec![] }]);
    assert_eq!(generate_combinations(7, 7, 0), vec![Combination { marks: vec![] }]);
    assert_eq!(generate_combinations(9, 7, 0), vec![Combination { marks: vec![] }]);
}

#[test]
fn generate_combinations_over_a_reversed_range_is_empty() {
    assert_eq!(generate_combinations(9, 7, 1), vec![]);
    assert_eq!(generate_combinations(7, 7, 1), vec![]);
}

#[test]
fn generate_combinations_takes_the_whole_range() {
    assert_eq!(generate_combinations(4, 7, 3), vec![Combination { marks: vec![4, 5, 6] }]);
}

#[test]
fn generate_combinations_near_the_largest_number() {
    let top = usize::MAX;
    assert_eq!(
        generate_combinations(top - 2, top, 1),
        vec![Combination { marks: vec![top - 2] }, Combination { marks: vec![top - 1] }]
    );
}

#[test]
fn generate_combinations_counts_the_subsets() {
    assert_eq!(generate_combinations(0, 10, 4).len(), 210);
    let all = generate_combinations(0, 6, 2);
    assert_eq!(all.len(), 15);
    for pair in all.windows(2) {
        assert!(pair[0].marks < pair[1].marks);
    }
    for c in &all {
        assert!(c.marks[0] < c.marks[1] && c.marks[1] < 6);
    }
}

#[test]
fn expand_combinations_of_no_row_is_empty() {
    let none: Vec<Vec<i32>> = Vec::new();
    assert_eq!(expand_combinations(none), Vec::<Vec<i32>>::new());
}

#[test]
fn expand_combinations_with_an_empty_row_is_empty() {
    assert_eq!(expand_combinations(vec![vec![1, 2], vec![], vec![5]]), Vec::<Vec<i32>>::new());
    assert_eq!(expand_combinations(vec![vec![], vec![1]]), Vec::<Vec<i32>>::new());
}

#[test]
fn expand_combinations_of_one_row() {
    assert_eq!(
        expand_combinations(vec![vec!['a', 'b', 'c']]),
        vec![vec!['a'], vec!['b'], vec!['c']]
    );
}

#[test]
fn expand_combinations_clones_the_elements() {
    let rows = vec![vec!["x".to_string()], vec!["y".to_string(), "z".to_string()]];
    assert_eq!(
        expand_combinations(rows),
        vec![vec!["x".to_string(), "y".to_string()], vec!["x".to_string(), "z".to_string()]]
    );
}

#[test]
fn expand_indices_orders_the_first_row_slowest() {
    assert_eq!(
        expand_indices(&vec![2, 1, 3]),
        vec![
            vec![0, 0, 0],
            vec![0, 0, 1],
            vec![0, 0, 2],
            vec![1, 0, 0],
            vec![1, 0, 1],
            vec![1, 0, 2]
        ]
    );
    assert_eq!(expand_indices(&vec![]), Vec::<Vec<usize>>::new());
    assert_eq!(expand_indices(&vec![2, 0]), Vec::<Vec<usize>>::new());
}

#[test]
fn a_combination_is_written_as_a_list() {
    assert_eq!(Combination { marks: vec![2, 3, 14] }.to_text(), "[2, 3, 14]");
    assert_eq!(Combination { marks: vec![0] }.to_text(), "[0]");
    assert_eq!(Combination { marks: vec![] }.to_text(), "[]");
    let top = Combination { marks: vec![9, 10, 109, usize::MAX] };
    assert_eq!(top.to_text(), format!("[9, 10, 109, {}]", usize::MAX));
    assert_eq!(top.clone(), top);
}
