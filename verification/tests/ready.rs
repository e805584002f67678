use reduction_server::ready::{expected, first_words, is_raised, thread_bit};

#[test]
fn expected_word_has_one_bit_per_thread() {
    assert_eq!(expected(0), 0);
    assert_eq!(expected(1), 0b1);
    assert_eq!(expected(5), 0b11111);
    assert_eq!(expected(63), usize::MAX >> 1);
}

#[test]
fn bits_are_told_apart() {
    assert_eq!(thread_bit(0), 1);
    assert_eq!(thread_bit(6), 64);
    assert!(is_raised(0b100, 2));
    assert!(!is_raised(0b100, 1));
    assert!(!is_raised(0, 63));
    assert!(is_raised(usize::MAX, 63));
}

#[test]
fn raising_all_bits_in_any_order_completes_the_word() {
    let mut word: usize = 0;
    for i in [3, 0, 2, 1] {
        assert!(!is_raised(word, i));
        let others: Vec<bool> = (0..64).map(|k| is_raised(word, k)).collect();
        word += thread_bit(i);
        for k in 0..64 {
            assert_eq!(is_raised(word, k), k == i || others[k]);
        }
    }
    assert_eq!(word, expected(4));
}

#[test]
fn at_first_everything_is_sent_and_nothing_received() {
    assert_eq!(first_words(3), (0b111, 0));
    assert_eq!(first_words(0), (0, 0));
}
