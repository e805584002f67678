//! Readiness flags: one word per job and reduce thread, one bit per transfer thread.
//!
//! A transfer thread raises its bit by adding it to the word once it is through with a job, and
//! a reduce thread takes the job up when the bits of all transfer threads are raised.

use vstd::prelude::*;

verus! {

/// Whether thread `i` has raised its bit in `word`.
pub open spec fn raised(word: usize, i: usize) -> bool {
    word & (1usize << i) != 0
}

/// The word in which exactly the threads `0..n` have raised their bits.
pub open spec fn all_raised(n: usize) -> usize {
    ((1usize << n) - 1) as usize
}

/// The word after thread `i` has added its bit to it.
pub open spec fn with_bit(word: usize, i: usize) -> usize {
    (word + (1usize << i)) as usize
}

/// Only threads `0..n` have raised a bit in `word`.
pub open spec fn only_below(word: usize, n: usize) -> bool {
    forall|i: usize| i < usize::BITS && #[trigger] raised(word, i) ==> i < n
}

/// The bit of thread `i`.
pub fn thread_bit(i: usize) -> (bit: usize)
    requires
        i < usize::BITS,
    ensures
        bit == 1usize << i,
{
    1usize << i
}

/// Whether thread `i` has raised its bit in `word`.
pub fn is_raised(word: usize, i: usize) -> (up: bool)
    requires
        i < usize::BITS,
    ensures
        up == raised(word, i),
{
    word & (1usize << i) != 0
}

/// The word that a reduce thread waits for: the bits of `n` threads, and no other.
pub fn expected(n: usize) -> (word: usize)
    requires
        n < usize::BITS,
    ensures
        word == all_raised(n),
        forall|i: usize| i < usize::BITS ==> (#[trigger] raised(word, i) <==> i < n),
{
    proof {
        law_all_raised(n);
        assert(1usize << n >= 1) by (bit_vector)
            requires n < usize::BITS;
    }
    (1usize << n) - 1
}

/// What the two flags of a reduce thread hold before any transfer: that of the send threads all
/// bits, since there is nothing to send yet, and that of the receive threads none.
pub fn first_words(send_threads: usize) -> (words: (usize, usize))
    requires
        send_threads < usize::BITS,
    ensures
        words.0 == all_raised(send_threads),
        words.1 == 0,
        forall|i: usize| i < usize::BITS ==> (#[trigger] raised(words.0, i) <==> i < send_threads),
        forall|i: usize| i < usize::BITS ==> !#[trigger] raised(words.1, i),
{
    proof {
        assert forall|i: usize| i < usize::BITS implies !#[trigger] raised(0, i) by {
            law_none_raised(i);
        }
    }
    (expected(send_threads), 0)
}

/// The awaited word has the bits of exactly the threads `0..n`.
pub proof fn law_all_raised(n: usize)
    requires
        n < usize::BITS,
    ensures
        forall|i: usize| i < usize::BITS ==> (#[trigger] raised(all_raised(n), i) <==> i < n),
{
    assert(1usize << n >= 1) by (bit_vector)
        requires n < usize::BITS;
    assert forall|i: usize| i < usize::BITS implies (#[trigger] raised(all_raised(n), i) <==> i < n) by {
        let w = all_raised(n);
        assert(w & (1usize << i) != 0 <==> i < n) by (bit_vector)
            requires n < usize::BITS, i < usize::BITS, w == (1usize << n) - 1;
    }
}

/// A thread whose bit is down raises it by adding it: the sum does not overflow, and no other
/// thread's bit changes.
pub proof fn law_raising(word: usize, i: usize)
    requires
        i < usize::BITS,
        !raised(word, i),
    ensures
        word + (1usize << i) <= usize::MAX,
        forall|k: usize| k < usize::BITS ==>
            (#[trigger] raised(with_bit(word, i), k) <==> k == i || raised(word, k)),
{
    assert(word + (1usize << i) == word | (1usize << i)) by (bit_vector)
        requires i < usize::BITS, word & (1usize << i) == 0;
    let sum = with_bit(word, i);
    assert forall|k: usize| k < usize::BITS implies
        (#[trigger] raised(sum, k) <==> k == i || raised(word, k)) by {
        assert((sum & (1usize << k) != 0) <==> (k == i || word & (1usize << k) != 0)) by (bit_vector)
            requires i < usize::BITS, k < usize::BITS, word & (1usize << i) == 0, sum == word + (1usize << i);
    }
}

/// No bit is raised in the word zero.
pub proof fn law_none_raised(i: usize)
    requires
        i < usize::BITS,
    ensures
        !raised(0, i),
{
    assert(0usize & (1usize << i) == 0) by (bit_vector);
}

/// Once all of the threads `0..n` and no others have raised their bits, the word is the one that
/// the reduce thread waits for.
pub proof fn law_complete(word: usize, n: usize)
    requires
        n < usize::BITS,
        only_below(word, n),
        forall|i: usize| i < n ==> #[trigger] raised(word, i),
    ensures
        word == all_raised(n),
{
    law_all_raised(n);
    lemma_same_bits(word, all_raised(n));
}

/// Two words with the same bits are equal.
proof fn lemma_same_bits(a: usize, b: usize)
    requires
        forall|i: usize| i < usize::BITS ==> #[trigger] raised(a, i) == raised(b, i),
    ensures
        a == b,
{
    if a != b {
        let d = a ^ b;
        assert(d != 0) by (bit_vector)
            requires a != b, d == a ^ b;
        let i = lemma_some_bit(d, usize::BITS as usize);
        assert(raised(a, i) == raised(b, i));
        assert((a & (1usize << i) != 0) == (b & (1usize << i) != 0) ==> (a ^ b) & (1usize << i) == 0)
            by (bit_vector);
    }
}

/// A word other than zero has a raised bit.
proof fn lemma_some_bit(d: usize, n: usize) -> (i: usize)
    requires
        d != 0,
        n <= usize::BITS,
        n < usize::BITS ==> d >> n == 0,
    ensures
        i < n,
        raised(d, i),
    decreases n,
{
    if n == 0 {
        assert(d >> 0usize == d) by (bit_vector);
        0
    } else {
        let top = (n - 1) as usize;
        if raised(d, top) {
            top
        } else {
            assert(d >> top == 0) by (bit_vector)
                requires d & (1usize << top) == 0, n <= usize::BITS, top == n - 1, n > 0,
                    n < usize::BITS ==> d >> n == 0;
            lemma_some_bit(d, top)
        }
    }
}

} // verus!
