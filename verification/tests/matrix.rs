use reduction_server::matrix::{split_by_job, transpose, vec_of_none};

#[test]
fn transpose_turns_rows_into_columns() {
    assert_eq!(transpose(vec![vec![1, 2, 3], vec![4, 5, 6]]), vec![vec![1, 4], vec![2, 5], vec![3, 6]]);
}

#[test]
fn transpose_drops_what_exceeds_the_first_row() {
    assert_eq!(transpose(vec![vec!['a'], vec!['b', 'c']]), vec![vec!['a', 'b']]);
    assert_eq!(transpose(vec![Vec::<u8>::new(), vec![1]]), Vec::<Vec<u8>>::new());
}

#[test]
fn transpose_moves_values_that_cannot_be_copied() {
    let columns = transpose(vec![vec![String::from("x"), String::from("y")]]);
    assert_eq!(columns, vec![vec!["x"], vec!["y"]]);
}

#[test]
fn transpose_twice_gives_the_matrix_back() {
    let m = vec![vec![1, 2], vec![3, 4], vec![5, 6]];
    assert_eq!(transpose(transpose(m.clone())), m);
}

#[test]
fn vec_of_none_holds_as_many_nones_as_asked_for() {
    assert_eq!(vec_of_none::<u8>(3), vec![None, None, None]);
    assert_eq!(vec_of_none::<String>(0), Vec::new());
}

#[test]
fn split_by_job_regroups_pairs() {
    // Two threads, three jobs.
    let readys = vec![vec![(1, 'a'), (2, 'b'), (3, 'c')], vec![(4, 'd'), (5, 'e'), (6, 'f')]];
    let (left, right) = split_by_job(readys, 3);
    assert_eq!(left, vec![vec![1, 4], vec![2, 5], vec![3, 6]]);
    assert_eq!(right, vec![vec!['a', 'd'], vec!['b', 'e'], vec!['c', 'f']]);
}

#[test]
fn split_by_job_without_threads_or_jobs() {
    let (left, right) = split_by_job(Vec::<Vec<(u8, u8)>>::new(), 2);
    assert_eq!((left, right), (vec![vec![], vec![]], vec![vec![], vec![]]));
    let (left, right) = split_by_job(vec![vec![(1, 2)]], 0);
    assert!(left.is_empty() && right.is_empty());
}
