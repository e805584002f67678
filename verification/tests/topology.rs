use reduction_server::topology::{connections_of_thread, find_connection, ranks_of_thread, thread_of_rank};

#[test]
fn ranks_are_dealt_out_in_turn() {
    assert_eq!(ranks_of_thread(8, 3, 0), vec![0, 3, 6]);
    assert_eq!(ranks_of_thread(8, 3, 1), vec![1, 4, 7]);
    assert_eq!(ranks_of_thread(8, 3, 2), vec![2, 5]);
    assert_eq!(ranks_of_thread(8, 3, 3), Vec::<usize>::new());
    assert_eq!(ranks_of_thread(0, 3, 0), Vec::<usize>::new());
}

#[test]
fn every_rank_has_one_thread() {
    for threads in 1..6 {
        for rank in 0..13 {
            for thread in 0..threads {
                let serves = ranks_of_thread(13, threads, thread).contains(&rank);
                assert_eq!(serves, thread == thread_of_rank(rank, threads));
            }
        }
    }
}

#[test]
fn even_shares_are_the_connections_awaited() {
    for thread in 0..4 {
        assert_eq!(ranks_of_thread(12, 4, thread).len(), connections_of_thread(12, 4));
    }
    // With an uneven share the first threads serve one rank more than they wait for.
    assert_eq!(connections_of_thread(3, 2), 1);
    assert_eq!(ranks_of_thread(3, 2, 0).len(), 2);
}

#[test]
fn the_last_connection_of_a_number_is_found() {
    let numbered = vec![(3, 'a'), (1, 'b'), (3, 'c')];
    assert_eq!(find_connection(&numbered, 3), Some(2));
    assert_eq!(find_connection(&numbered, 1), Some(1));
    assert_eq!(find_connection(&numbered, 2), None);
}
