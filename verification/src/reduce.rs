//! Summing up buffers element by element.
//!
//! The numbers are summed in groups of `LANES`, as the vector units of a processor take them. A
//! group starts at an address that is a multiple of `GROUP_BYTES`, so that the groups of a buffer
//! start at its head: the place of its first number at such an address. What stands before the
//! head, and what is left over behind the last whole group, stays as it is. A buffer that is
//! aligned to a group has its head at the start. How two
//! numbers are summed is up to the caller; the contributions are always summed in the order of
//! the ranks, so that rounding comes out the same in every run.

use vstd::prelude::*;
use crate::memory::{as_words, as_words_mut, MemoryState, WorkingMemory};

verus! {

/// How many numbers are summed at a time.
pub const LANES: usize = 4;

/// The alignment of a group, in bytes.
pub const GROUP_BYTES: usize = 16;

/// How many of `len` numbers make up whole groups.
pub open spec fn grouped(len: int) -> int {
    len - len % (LANES as int)
}

/// The numbers at position `j` of each buffer.
pub open spec fn terms_at<T>(bufs: Seq<Seq<T>>, j: int) -> Seq<T> {
    Seq::new(bufs.len(), |i: int| bufs[i][j])
}

/// The buffers as sequences.
pub open spec fn contents<T>(bufs: Seq<&[T]>) -> Seq<Seq<T>> {
    Seq::new(bufs.len(), |i: int| bufs[i]@)
}

/// `sums` are the running sums of `terms`: the first term, and then each sum the one before it
/// plus the next term.
pub open spec fn running_sums<T, F: Fn(T, T) -> T>(plus: F, terms: Seq<T>, sums: Seq<T>) -> bool {
    &&& sums.len() == terms.len()
    &&& terms.len() > 0
    &&& sums[0] == terms[0]
    &&& forall|k: int| 0 < k < terms.len() ==> call_ensures(plus, (sums[k - 1], terms[k]), #[trigger] sums[k])
}

/// `total` comes of summing `terms` from the first to the last, two numbers at a time.
pub open spec fn is_sum<T, F: Fn(T, T) -> T>(plus: F, terms: Seq<T>, total: T) -> bool {
    exists|sums: Seq<T>| #[trigger] running_sums(plus, terms, sums) && total == sums.last()
}

/// The buffers are long enough to be summed into one of `len` numbers: the first has as many
/// whole groups, and the others have no fewer.
pub open spec fn can_sum<T>(len: int, bufs: Seq<Seq<T>>) -> bool {
    forall|i: int| 0 <= i < bufs.len() ==> if i == 0 {
        grouped((#[trigger] bufs[i]).len() as int) == grouped(len)
    } else {
        grouped(bufs[i].len() as int) >= grouped(len)
    }
}

/// `new` comes of summing `bufs` into a buffer that held `old_send`: where there is something to
/// sum, each number in a whole group is the sum of those at its position, and all other numbers
/// stay.
pub open spec fn summed<T, F: Fn(T, T) -> T>(plus: F, bufs: Seq<Seq<T>>, old_send: Seq<T>, new: Seq<T>) -> bool {
    &&& new.len() == old_send.len()
    &&& forall|j: int| 0 <= j < new.len() ==>
        if bufs.len() > 0 && j < grouped(new.len() as int) {
            is_sum(plus, terms_at(bufs, j), #[trigger] new[j])
        } else {
            new[j] == old_send[j]
        }
}

/// The numbers of a buffer that stand in whole groups, when the first group starts at `head`.
pub open spec fn groups_of<T>(s: Seq<T>, head: int) -> Seq<T> {
    if head > s.len() { Seq::empty() } else { s.subrange(head, head + grouped(s.len() - head)) }
}

/// The numbers in whole groups of each buffer.
pub open spec fn groups_of_all<T>(bufs: Seq<Seq<T>>, heads: Seq<usize>) -> Seq<Seq<T>> {
    Seq::new(bufs.len(), |i: int| groups_of(bufs[i], heads[i] as int))
}

/// `new` comes of summing `bufs`, whose groups start at `heads`, into a buffer that held
/// `old_send` and whose groups start at `head`: the groups are summed, the first of each buffer,
/// then the second and so on, and all other numbers stay.
pub open spec fn summed_from<T, F: Fn(T, T) -> T>(
    plus: F,
    bufs: Seq<Seq<T>>,
    heads: Seq<usize>,
    old_send: Seq<T>,
    head: int,
    new: Seq<T>,
) -> bool {
    &&& new.len() == old_send.len()
    &&& summed(plus, groups_of_all(bufs, heads), groups_of(old_send, head), groups_of(new, head))
    &&& forall|j: int| 0 <= j < new.len() && !(head <= j < head + groups_of(new, head).len()) ==>
        #[trigger] new[j] == old_send[j]
}

/// Summing one more term.
proof fn lemma_one_more<T, F: Fn(T, T) -> T>(plus: F, terms: Seq<T>, part: T, total: T)
    requires
        terms.len() > 1,
        is_sum(plus, terms.drop_last(), part),
        call_ensures(plus, (part, terms.last()), total),
    ensures
        is_sum(plus, terms, total),
{
    let sums = choose|sums: Seq<T>|
        #[trigger] running_sums(plus, terms.drop_last(), sums) && part == sums.last();
    let more = sums.push(total);
    assert forall|k: int| 0 < k < terms.len() implies call_ensures(
        plus,
        (more[k - 1], terms[k]),
        #[trigger] more[k],
    ) by {
        if k < terms.len() - 1 {
            assert(call_ensures(plus, (sums[k - 1], terms.drop_last()[k]), sums[k]));
        }
    }
    assert(running_sums(plus, terms, more));
}

/// Sums the buffers into `send`.
///
/// `send_head` and `recv_heads` are the places of the first numbers at the address of a group.
pub fn reduce<T: Copy, F: Fn(T, T) -> T>(
    send: &mut [T],
    send_head: usize,
    recv_bufs: &Vec<&[T]>,
    recv_heads: &Vec<usize>,
    plus: &F,
)
    requires
        forall|x: T, y: T| call_requires(*plus, (x, y)),
        recv_heads@.len() == recv_bufs@.len(),
        can_sum(
            groups_of(old(send)@, send_head as int).len() as int,
            groups_of_all(contents(recv_bufs@), recv_heads@),
        ),
    ensures
        summed_from(*plus, contents(recv_bufs@), recv_heads@, old(send)@, send_head as int, final(send)@),
{
    let ghost first = send@;
    let ghost bufs = groups_of_all(contents(recv_bufs@), recv_heads@);
    let len: usize = send.len();
    let lanes: usize = if send_head <= len {
        (len - send_head) - (len - send_head) % LANES
    } else {
        0
    };
    let ghost head = send_head as int;
    assert(lanes == groups_of(first, head).len());
    assert(grouped(lanes as int) == lanes);
    for i in 0..recv_bufs.len()
        invariant
            bufs == groups_of_all(contents(recv_bufs@), recv_heads@),
            recv_heads@.len() == recv_bufs@.len(),
            send@.len() == first.len(),
            head == send_head,
            lanes == groups_of(first, head).len(),
            grouped(lanes as int) == lanes,
            lanes > 0 ==> head + lanes <= first.len(),
            first.len() == len,
            can_sum(lanes as int, bufs),
            forall|x: T, y: T| call_requires(*plus, (x, y)),
            i == 0 ==> send@ == first,
            forall|j: int| 0 <= j < first.len() && !(head <= j < head + lanes) ==> send@[j] == first[j],
            i > 0 ==> forall|j: int| head <= j < head + lanes ==>
                is_sum(*plus, terms_at(bufs.take(i as int), j - head), #[trigger] send@[j]),
    {
        let recv: &[T] = recv_bufs[i];
        let start: usize = recv_heads[i];
        let recv_len: usize = recv.len();
        let ghost before = send@;
        assert(bufs[i as int] == groups_of(recv@, start as int));
        assert(bufs[i as int].len() >= lanes) by {
            assert(grouped(bufs[i as int].len() as int) >= grouped(lanes as int));
        }
        for j in 0..lanes
            invariant
                0 <= i < bufs.len(),
                bufs[i as int] == groups_of(recv@, start as int),
                lanes <= bufs[i as int].len(),
                recv@.len() == recv_len,
                send@.len() == first.len(),
                before.len() == first.len(),
                head == send_head,
                lanes > 0 ==> head + lanes <= first.len(),
                first.len() == len,
                forall|x: T, y: T| call_requires(*plus, (x, y)),
                forall|k: int| 0 <= k < first.len() && !(head <= k < head + j) ==> send@[k] == before[k],
                i > 0 ==> forall|k: int| head <= k < head + lanes ==>
                    is_sum(*plus, terms_at(bufs.take(i as int), k - head), #[trigger] before[k]),
                forall|k: int| head <= k < head + j ==>
                    is_sum(*plus, terms_at(bufs.take(i + 1), k - head), #[trigger] send@[k]),
        {
            let ghost terms = terms_at(bufs.take(i + 1), j as int);
            assert(terms.drop_last() =~= terms_at(bufs.take(i as int), j as int));
            assert(terms.last() == recv@[start + j]);
            let total: T = if i == 0 { recv[start + j] } else { plus(send[send_head + j], recv[start + j]) };
            proof {
                if i > 0 {
                    assert(is_sum(*plus, terms_at(bufs.take(i as int), (head + j) - head), before[head + j]));
                    lemma_one_more(*plus, terms, before[head + j], total);
                } else {
                    assert(running_sums(*plus, terms, seq![total]));
                }
            }
            send[send_head + j] = total;
        }
    }
    proof {
        assert(bufs.take(bufs.len() as int) =~= bufs);
        let old_groups = groups_of(first, head);
        let new_groups = groups_of(send@, head);
        assert forall|j: int| 0 <= j < new_groups.len() implies if bufs.len() > 0 && j < grouped(
            new_groups.len() as int,
        ) {
            is_sum(*plus, terms_at(bufs, j), #[trigger] new_groups[j])
        } else {
            new_groups[j] == old_groups[j]
        } by {
            assert(new_groups[j] == send@[head + j]);
            if bufs.len() > 0 {
                assert(is_sum(*plus, terms_at(bufs.take(bufs.len() as int), (head + j) - head), send@[head + j]));
            }
        }
    }
}

/// Buffers that are aligned to a group can be summed if they are long enough, and are then summed
/// from the start.
pub proof fn law_from_start<T, F: Fn(T, T) -> T>(plus: F, bufs: Seq<Seq<T>>, heads: Seq<usize>, old_send: Seq<T>, new: Seq<T>)
    requires
        heads == Seq::new(bufs.len(), |i: int| 0usize),
        can_sum(old_send.len() as int, bufs),
    ensures
        can_sum(groups_of(old_send, 0).len() as int, groups_of_all(bufs, heads)),
        summed_from(plus, bufs, heads, old_send, 0, new) <==> summed(plus, bufs, old_send, new),
{
    let mids = groups_of_all(bufs, heads);
    let len = grouped(old_send.len() as int);
    assert(groups_of(old_send, 0).len() == len);
    assert(grouped(len) == len);
    assert forall|i: int| 0 <= i < mids.len() implies if i == 0 {
        grouped((#[trigger] mids[i]).len() as int) == grouped(len)
    } else {
        grouped(mids[i].len() as int) >= grouped(len)
    } by {
        assert(mids[i].len() == grouped(bufs[i].len() as int));
    }
    if new.len() == old_send.len() {
        let a = groups_of(old_send, 0);
        let b = groups_of(new, 0);
        assert forall|j: int| 0 <= j < len implies #[trigger] terms_at(mids, j) == terms_at(bufs, j) by {
            assert forall|i: int| 0 <= i < bufs.len() implies mids[i][j] == bufs[i][j] by {
                assert(grouped(bufs[i].len() as int) >= len);
            }
            assert(terms_at(mids, j) =~= terms_at(bufs, j));
        }
        if summed_from(plus, bufs, heads, old_send, 0, new) {
            assert forall|j: int| 0 <= j < new.len() implies if bufs.len() > 0 && j < grouped(new.len() as int) {
                is_sum(plus, terms_at(bufs, j), #[trigger] new[j])
            } else {
                new[j] == old_send[j]
            } by {
                if j < len {
                    assert(b[j] == new[j] && a[j] == old_send[j]);
                    assert(terms_at(mids, j) == terms_at(bufs, j));
                }
            }
        }
        if summed(plus, bufs, old_send, new) {
            assert forall|j: int| 0 <= j < b.len() implies if mids.len() > 0 && j < grouped(b.len() as int) {
                is_sum(plus, terms_at(mids, j), #[trigger] b[j])
            } else {
                b[j] == a[j]
            } by {
                assert(b[j] == new[j] && a[j] == old_send[j]);
                assert(terms_at(mids, j) == terms_at(bufs, j));
            }
        }
    }
}

/// The words that `words` stand for: each comes of widening the number at its place.
pub open spec fn all_widened<H, W: Fn(H) -> u32>(widen: W, numbers: Seq<H>, words: Seq<u32>) -> bool {
    &&& words.len() == numbers.len()
    &&& forall|k: int| 0 <= k < numbers.len() ==> call_ensures(widen, (numbers[k],), #[trigger] words[k])
}

/// The numbers that come of narrowing `words`, each at its place.
pub open spec fn all_narrowed<H, N: Fn(u32) -> H>(narrow: N, words: Seq<u32>, numbers: Seq<H>) -> bool {
    &&& numbers.len() == words.len()
    &&& forall|k: int| 0 <= k < words.len() ==> call_ensures(narrow, (words[k],), #[trigger] numbers[k])
}

/// Writes the numbers into a buffer of the working memory, widened.
fn widen_into<H: Copy, W: Fn(H) -> u32>(numbers: &[H], dst: &mut [u32], widen: &W)
    requires
        numbers@.len() == old(dst)@.len(),
        forall|x: H| call_requires(*widen, (x,)),
    ensures
        all_widened(*widen, numbers@, final(dst)@),
{
    for k in 0..numbers.len()
        invariant
            dst@.len() == numbers@.len(),
            forall|x: H| call_requires(*widen, (x,)),
            forall|i: int| 0 <= i < k ==> call_ensures(*widen, (numbers@[i],), #[trigger] dst@[i]),
    {
        dst[k] = widen(numbers[k]);
    }
}

/// Writes the words of the working memory into `numbers`, narrowed.
fn narrow_into<H: Copy, N: Fn(u32) -> H>(src: &[u32], numbers: &mut [H], narrow: &N)
    requires
        src@.len() == old(numbers)@.len(),
        forall|x: u32| call_requires(*narrow, (x,)),
    ensures
        all_narrowed(*narrow, src@, final(numbers)@),
{
    for k in 0..src.len()
        invariant
            src@.len() == numbers@.len(),
            forall|x: u32| call_requires(*narrow, (x,)),
            forall|i: int| 0 <= i < k ==> call_ensures(*narrow, (src@[i],), #[trigger] numbers@[i]),
    {
        numbers[k] = narrow(src[k]);
    }
}

/// `send` comes of summing `bufs` through a working memory that held `before` and then holds
/// `after`: the first of its buffers take up the contributions, widened, the others stay; all of
/// them are summed up, and the sum is narrowed. No buffer moves.
pub open spec fn widened_sum<H, W: Fn(H) -> u32, N: Fn(u32) -> H, F: Fn(u32, u32) -> u32>(
    widen: W,
    narrow: N,
    plus: F,
    bufs: Seq<Seq<H>>,
    before: MemoryState,
    after: MemoryState,
    send: Seq<H>,
) -> bool {
    &&& after.recv.len() == before.recv.len()
    &&& forall|i: int| 0 <= i < bufs.len() ==> all_widened(widen, bufs[i], #[trigger] after.recv[i])
    &&& forall|i: int| bufs.len() <= i < before.recv.len() ==> (#[trigger] after.recv[i]) == before.recv[i]
    &&& summed(plus, after.recv, before.send, after.send)
    &&& all_narrowed(narrow, after.send, send)
    &&& after.recv_align == before.recv_align
    &&& after.send_align == before.send_align
}

/// Sums buffers of narrow numbers into `send` through the working memory: the contributions are
/// widened, all buffers of the working memory are summed up, and the sum is narrowed. The buffers
/// of the memory are aligned to a group, so that their groups start at their first numbers.
pub fn reduce_widened<H: Copy, W: Fn(H) -> u32, N: Fn(u32) -> H, F: Fn(u32, u32) -> u32>(
    send: &mut [H],
    recv_bufs: &Vec<&[H]>,
    work_mem: &mut WorkingMemory,
    widen: &W,
    narrow: &N,
    plus: &F,
)
    requires
        forall|x: H| call_requires(*widen, (x,)),
        forall|x: u32| call_requires(*narrow, (x,)),
        forall|x: u32, y: u32| call_requires(*plus, (x, y)),
        recv_bufs@.len() <= old(work_mem)@.recv.len(),
        forall|i: int| 0 <= i < recv_bufs@.len() ==>
            (#[trigger] recv_bufs@[i])@.len() == old(work_mem)@.recv[i].len(),
        old(send)@.len() == old(work_mem)@.send.len(),
        can_sum(old(work_mem)@.send.len() as int, old(work_mem)@.recv),
        old(work_mem)@.in_groups(),
    ensures
        widened_sum(
            *widen,
            *narrow,
            *plus,
            contents(recv_bufs@),
            old(work_mem)@,
            final(work_mem)@,
            final(send)@,
        ),
{
    let ghost m0 = work_mem@;
    for i in 0..recv_bufs.len()
        invariant
            recv_bufs@.len() <= m0.recv.len(),
            work_mem@.recv.len() == m0.recv.len(),
            work_mem@.send == m0.send,
            work_mem@.recv_align == m0.recv_align,
            work_mem@.send_align == m0.send_align,
            forall|x: H| call_requires(*widen, (x,)),
            forall|k: int| 0 <= k < recv_bufs@.len() ==> (#[trigger] recv_bufs@[k])@.len() == m0.recv[k].len(),
            forall|k: int| 0 <= k < i ==> all_widened(*widen, recv_bufs@[k]@, #[trigger] work_mem@.recv[k]),
            forall|k: int| i <= k < m0.recv.len() ==> (#[trigger] work_mem@.recv[k]) == m0.recv[k],
    {
        let ghost before = work_mem@;
        assert(work_mem@.recv[i as int] == m0.recv[i as int]);
        widen_into(recv_bufs[i], as_words_mut(&mut work_mem.recv_bufs[i]), widen);
        assert forall|k: int| 0 <= k < m0.recv.len() && k != i implies
            (#[trigger] work_mem@.recv[k]) == before.recv[k] by {}
        assert(work_mem@.recv_align =~= before.recv_align);
    }
    let ghost m1 = work_mem@;
    let mut wide: Vec<&[u32]> = Vec::new();
    let mut heads: Vec<usize> = Vec::new();
    for i in 0..work_mem.recv_bufs.len()
        invariant
            work_mem@ == m1,
            wide@.len() == i,
            forall|k: int| 0 <= k < i ==> (#[trigger] wide@[k])@ == m1.recv[k],
            heads@ == Seq::new(i as nat, |k: int| 0usize),
    {
        wide.push(as_words(&work_mem.recv_bufs[i]));
        heads.push(0);
        assert(heads@ =~= Seq::new((i + 1) as nat, |k: int| 0usize));
    }
    proof {
        assert(contents(wide@) =~= m1.recv);
        assert forall|i: int| 0 <= i < m1.recv.len() implies (#[trigger] m1.recv[i]).len() == m0.recv[i].len() by {
            if i < recv_bufs@.len() {
                assert(all_widened(*widen, recv_bufs@[i]@, m1.recv[i]));
            }
        }
        assert(can_sum(m1.send.len() as int, m1.recv)) by {
            assert forall|i: int| 0 <= i < m1.recv.len() implies if i == 0 {
                grouped((#[trigger] m1.recv[i]).len() as int) == grouped(m1.send.len() as int)
            } else {
                grouped(m1.recv[i].len() as int) >= grouped(m1.send.len() as int)
            } by {
                assert(m0.recv[i].len() == m1.recv[i].len());
            }
        }
    }
    proof {
        law_from_start(*plus, m1.recv, heads@, m1.send, m1.send);
    }
    reduce(as_words_mut(&mut work_mem.send_buf), 0, &wide, &heads, plus);
    proof {
        law_from_start(*plus, m1.recv, heads@, m1.send, work_mem@.send);
    }
    narrow_into(as_words(&work_mem.send_buf), send, narrow);
}

/// A single contribution is its own sum.
pub proof fn law_single_contribution<T, F: Fn(T, T) -> T>(plus: F, buf: Seq<T>, old_send: Seq<T>, new: Seq<T>)
    requires
        can_sum(old_send.len() as int, seq![buf]),
        summed(plus, seq![buf], old_send, new),
    ensures
        forall|j: int| 0 <= j < grouped(new.len() as int) ==> new[j] == buf[j],
{
    assert forall|j: int| 0 <= j < grouped(new.len() as int) implies new[j] == buf[j] by {
        let terms = terms_at(seq![buf], j);
        assert(is_sum(plus, terms, new[j]));
        let sums = choose|sums: Seq<T>| #[trigger] running_sums(plus, terms, sums) && new[j] == sums.last();
        assert(sums.last() == sums[0]);
    }
}

/// Two numbers always have the same sum.
pub open spec fn one_sum<T, F: Fn(T, T) -> T>(plus: F) -> bool {
    forall|x: T, y: T, s: T, t: T|
        #[trigger] call_ensures(plus, (x, y), s) && #[trigger] call_ensures(plus, (x, y), t) ==> s == t
}

/// Two numbers have the same sum in either order.
pub open spec fn commutes<T, F: Fn(T, T) -> T>(plus: F) -> bool {
    forall|x: T, y: T, s: T, t: T|
        #[trigger] call_ensures(plus, (x, y), s) && #[trigger] call_ensures(plus, (y, x), t) ==> s == t
}

/// A number is always converted to the same number.
pub open spec fn one_image<A, B, C: Fn(A) -> B>(convert: C) -> bool {
    forall|x: A, s: B, t: B|
        #[trigger] call_ensures(convert, (x,), s) && #[trigger] call_ensures(convert, (x,), t) ==> s == t
}

/// Where two numbers always have the same sum, so has every list of numbers: the sum of a
/// reduction does not depend on when it is formed.
pub proof fn law_one_sum<T, F: Fn(T, T) -> T>(plus: F, terms: Seq<T>, a: T, b: T)
    requires
        one_sum(plus),
        is_sum(plus, terms, a),
        is_sum(plus, terms, b),
    ensures
        a == b,
{
    let p = choose|sums: Seq<T>| #[trigger] running_sums(plus, terms, sums) && a == sums.last();
    let q = choose|sums: Seq<T>| #[trigger] running_sums(plus, terms, sums) && b == sums.last();
    lemma_same_running_sums(plus, terms, p, q, terms.len() - 1);
}

proof fn lemma_same_running_sums<T, F: Fn(T, T) -> T>(plus: F, terms: Seq<T>, p: Seq<T>, q: Seq<T>, k: int)
    requires
        one_sum(plus),
        running_sums(plus, terms, p),
        running_sums(plus, terms, q),
        0 <= k < terms.len(),
    ensures
        p[k] == q[k],
    decreases k,
{
    if k > 0 {
        lemma_same_running_sums(plus, terms, p, q, k - 1);
        assert(call_ensures(plus, (p[k - 1], terms[k]), p[k]));
        assert(call_ensures(plus, (q[k - 1], terms[k]), q[k]));
    }
}

/// Nothing of what a buffer held shows in the sum that is formed in it: where two numbers always
/// have the same sum, the same contributions give the same numbers in all whole groups, and the
/// same buffer where its length divides evenly.
pub proof fn law_former_contents<T, F: Fn(T, T) -> T>(
    plus: F,
    bufs: Seq<Seq<T>>,
    old_a: Seq<T>,
    a: Seq<T>,
    old_b: Seq<T>,
    b: Seq<T>,
)
    requires
        one_sum(plus),
        bufs.len() > 0,
        old_a.len() == old_b.len(),
        summed(plus, bufs, old_a, a),
        summed(plus, bufs, old_b, b),
    ensures
        forall|j: int| 0 <= j < grouped(a.len() as int) ==> a[j] == b[j],
        a.len() % (LANES as nat) == 0 ==> a == b,
{
    assert forall|j: int| 0 <= j < grouped(a.len() as int) implies a[j] == b[j] by {
        law_one_sum(plus, terms_at(bufs, j), a[j], b[j]);
    }
    if a.len() % (LANES as nat) == 0 {
        assert(a =~= b);
    }
}

/// Summing the same contributions into a buffer once more leaves it as it is.
pub proof fn law_summed_again<T, F: Fn(T, T) -> T>(plus: F, bufs: Seq<Seq<T>>, first: Seq<T>, once: Seq<T>, twice: Seq<T>)
    requires
        one_sum(plus),
        summed(plus, bufs, first, once),
        summed(plus, bufs, once, twice),
    ensures
        twice == once,
{
    assert forall|j: int| 0 <= j < once.len() implies twice[j] == once[j] by {
        if bufs.len() > 0 && j < grouped(once.len() as int) {
            law_one_sum(plus, terms_at(bufs, j), once[j], twice[j]);
        }
    }
    assert(twice =~= once);
}

/// Reducing the same contributions into a buffer once more leaves it as it is, wherever the groups
/// start.
pub proof fn law_reduced_again<T, F: Fn(T, T) -> T>(
    plus: F,
    bufs: Seq<Seq<T>>,
    heads: Seq<usize>,
    head: int,
    first: Seq<T>,
    once: Seq<T>,
    twice: Seq<T>,
)
    requires
        one_sum(plus),
        head >= 0,
        summed_from(plus, bufs, heads, first, head, once),
        summed_from(plus, bufs, heads, once, head, twice),
    ensures
        twice == once,
{
    law_summed_again(
        plus,
        groups_of_all(bufs, heads),
        groups_of(first, head),
        groups_of(once, head),
        groups_of(twice, head),
    );
    assert forall|j: int| 0 <= j < once.len() implies twice[j] == once[j] by {
        if head <= j < head + groups_of(once, head).len() {
            assert(groups_of(once, head)[j - head] == once[j]);
            assert(groups_of(twice, head)[j - head] == twice[j]);
        }
    }
    assert(twice =~= once);
}

/// The contributions with the first two in the other order.
pub open spec fn swapped<T>(bufs: Seq<T>) -> Seq<T> {
    bufs.update(0, bufs[1]).update(1, bufs[0])
}

/// The first two of a list of numbers may be swapped where addition commutes.
proof fn lemma_swapped_terms<T, F: Fn(T, T) -> T>(plus: F, terms: Seq<T>, p: Seq<T>, q: Seq<T>, k: int)
    requires
        one_sum(plus),
        commutes(plus),
        terms.len() >= 2,
        running_sums(plus, terms, p),
        running_sums(plus, swapped(terms), q),
        1 <= k < terms.len(),
    ensures
        p[k] == q[k],
    decreases k,
{
    assert(call_ensures(plus, (p[k - 1], terms[k]), p[k]));
    assert(call_ensures(plus, (q[k - 1], swapped(terms)[k]), q[k]));
    if k > 1 {
        lemma_swapped_terms(plus, terms, p, q, k - 1);
    }
}

/// Where two numbers have one sum in either order, the first two contributions may be swapped,
/// whatever the buffers held: the sum is the same in all whole groups, and the same buffer where
/// its length divides evenly. Of two contributions the order does not matter at all.
pub proof fn law_swapped<T, F: Fn(T, T) -> T>(
    plus: F,
    bufs: Seq<Seq<T>>,
    old_a: Seq<T>,
    a: Seq<T>,
    old_b: Seq<T>,
    b: Seq<T>,
)
    requires
        one_sum(plus),
        commutes(plus),
        bufs.len() >= 2,
        old_a.len() == old_b.len(),
        summed(plus, bufs, old_a, a),
        summed(plus, swapped(bufs), old_b, b),
    ensures
        forall|j: int| 0 <= j < grouped(a.len() as int) ==> a[j] == b[j],
        a.len() % (LANES as nat) == 0 ==> a == b,
{
    assert forall|j: int| 0 <= j < grouped(a.len() as int) implies a[j] == b[j] by {
        let terms = terms_at(bufs, j);
        assert(terms_at(swapped(bufs), j) =~= swapped(terms));
        assert(is_sum(plus, terms, a[j]));
        assert(is_sum(plus, swapped(terms), b[j]));
        let p = choose|sums: Seq<T>| #[trigger] running_sums(plus, terms, sums) && a[j] == sums.last();
        let q = choose|sums: Seq<T>| #[trigger] running_sums(plus, swapped(terms), sums) && b[j] == sums.last();
        lemma_swapped_terms(plus, terms, p, q, terms.len() - 1);
    }
    if a.len() % (LANES as nat) == 0 {
        assert(a =~= b);
    }
}

/// A used working memory leaves no trace: where the conversions and the addition are functions,
/// and there is a contribution for every buffer of the memory, two sums of the same contributions
/// agree in all whole groups whatever the memories held, and altogether where their length
/// divides evenly.
pub proof fn law_no_trace<H, W: Fn(H) -> u32, N: Fn(u32) -> H, F: Fn(u32, u32) -> u32>(
    widen: W,
    narrow: N,
    plus: F,
    bufs: Seq<Seq<H>>,
    before_a: MemoryState,
    after_a: MemoryState,
    a: Seq<H>,
    before_b: MemoryState,
    after_b: MemoryState,
    b: Seq<H>,
)
    requires
        one_image(widen),
        one_image(narrow),
        one_sum(plus),
        bufs.len() > 0,
        before_a.recv.len() == bufs.len(),
        before_b.recv.len() == bufs.len(),
        before_a.send.len() == before_b.send.len(),
        widened_sum(widen, narrow, plus, bufs, before_a, after_a, a),
        widened_sum(widen, narrow, plus, bufs, before_b, after_b, b),
    ensures
        forall|j: int| 0 <= j < grouped(a.len() as int) ==> a[j] == b[j],
        a.len() % (LANES as nat) == 0 ==> a == b,
{
    assert forall|i: int| 0 <= i < bufs.len() implies after_a.recv[i] == after_b.recv[i] by {
        let x = after_a.recv[i];
        let y = after_b.recv[i];
        assert(all_widened(widen, bufs[i], x));
        assert(all_widened(widen, bufs[i], y));
        assert forall|k: int| 0 <= k < x.len() implies x[k] == y[k] by {
            assert(call_ensures(widen, (bufs[i][k],), x[k]));
            assert(call_ensures(widen, (bufs[i][k],), y[k]));
        }
        assert(x =~= y);
    }
    assert(after_a.recv =~= after_b.recv);
    law_former_contents(plus, after_a.recv, before_a.send, after_a.send, before_b.send, after_b.send);
    assert forall|j: int| 0 <= j < grouped(a.len() as int) implies a[j] == b[j] by {
        assert(call_ensures(narrow, (after_a.send[j],), a[j]));
        assert(call_ensures(narrow, (after_b.send[j],), b[j]));
    }
    if a.len() % (LANES as nat) == 0 {
        assert(a =~= b);
    }
}

/// Where narrowing undoes widening, a single contribution of narrow numbers comes back as it
/// was: what `reduce_widened` ensures of one contribution implies it.
pub proof fn law_single_widened<H, W: Fn(H) -> u32, N: Fn(u32) -> H, F: Fn(u32, u32) -> u32>(
    widen: W,
    narrow: N,
    plus: F,
    buf: Seq<H>,
    wide: Seq<u32>,
    old_sum: Seq<u32>,
    sum: Seq<u32>,
    send: Seq<H>,
)
    requires
        forall|h: H, w: u32, x: H|
            #[trigger] call_ensures(widen, (h,), w) && #[trigger] call_ensures(narrow, (w,), x) ==> x == h,
        all_widened(widen, buf, wide),
        can_sum(old_sum.len() as int, seq![wide]),
        summed(plus, seq![wide], old_sum, sum),
        all_narrowed(narrow, sum, send),
    ensures
        forall|j: int| 0 <= j < grouped(send.len() as int) ==> send[j] == buf[j],
{
    law_single_contribution(plus, wide, old_sum, sum);
    assert(seq![wide][0] == wide);
    assert forall|j: int| 0 <= j < grouped(send.len() as int) implies send[j] == buf[j] by {
        assert(grouped(seq![wide][0].len() as int) == grouped(old_sum.len() as int));
        assert(sum[j] == wide[j]);
        assert(call_ensures(widen, (buf[j],), wide[j]));
        assert(call_ensures(narrow, (sum[j],), send[j]));
    }
}

/// What `plus` gives is told by the function `f`.
pub open spec fn is_function<T, F: Fn(T, T) -> T>(plus: F, f: spec_fn(T, T) -> T) -> bool {
    forall|x: T, y: T, z: T| #[trigger] call_ensures(plus, (x, y), z) ==> z == f(x, y)
}

/// A sum is the first number with all others added to it from the right, one after the other.
pub proof fn law_sum_folds<T, F: Fn(T, T) -> T>(plus: F, f: spec_fn(T, T) -> T, terms: Seq<T>, total: T)
    requires
        is_function(plus, f),
        is_sum(plus, terms, total),
    ensures
        terms.len() > 0,
        total == terms.skip(1).fold_left(terms[0], f),
{
    let sums = choose|sums: Seq<T>| #[trigger] running_sums(plus, terms, sums) && total == sums.last();
    lemma_sums_fold(plus, f, terms, sums, terms.len() as int);
    assert(terms.take(terms.len() as int) =~= terms);
}

proof fn lemma_sums_fold<T, F: Fn(T, T) -> T>(plus: F, f: spec_fn(T, T) -> T, terms: Seq<T>, sums: Seq<T>, n: int)
    requires
        is_function(plus, f),
        running_sums(plus, terms, sums),
        1 <= n <= terms.len(),
    ensures
        sums[n - 1] == terms.take(n).skip(1).fold_left(terms[0], f),
    decreases n,
{
    let rest = terms.take(n).skip(1);
    if n > 1 {
        lemma_sums_fold(plus, f, terms, sums, n - 1);
        assert(call_ensures(plus, (sums[n - 2], terms[n - 1]), sums[n - 1]));
        assert(rest.drop_last() =~= terms.take(n - 1).skip(1));
        assert(rest.last() == terms[n - 1]);
    } else {
        assert(rest.len() == 0);
    }
}

/// What `reduce` does, number by number. Behind the head of the buffer lie as many numbers as make
/// up whole groups of four; each of them becomes the sum of the numbers of all contributions that
/// stand as far behind their own heads, from the first contribution to the last. All others stay,
/// and without contributions all do.
pub proof fn law_reduced<T, F: Fn(T, T) -> T>(
    plus: F,
    f: spec_fn(T, T) -> T,
    bufs: Seq<Seq<T>>,
    heads: Seq<usize>,
    old_send: Seq<T>,
    head: int,
    new: Seq<T>,
)
    requires
        is_function(plus, f),
        head >= 0,
        heads.len() == bufs.len(),
        can_sum(groups_of(old_send, head).len() as int, groups_of_all(bufs, heads)),
        summed_from(plus, bufs, heads, old_send, head, new),
    ensures
        new.len() == old_send.len(),
        forall|j: int| 0 <= j < new.len() ==> #[trigger] new[j] == if bufs.len() > 0 && head <= j && (j - head) / 4 < (
        new.len() - head) / 4 {
            let terms = Seq::new(bufs.len(), |i: int| bufs[i][heads[i] + (j - head)]);
            terms.skip(1).fold_left(terms[0], f)
        } else {
            old_send[j]
        },
{
    let mids = groups_of_all(bufs, heads);
    let a = groups_of(old_send, head);
    let b = groups_of(new, head);
    assert forall|j: int| 0 <= j < new.len() implies #[trigger] new[j] == if bufs.len() > 0 && head <= j && (j - head)
        / 4 < (new.len() - head) / 4 {
        let terms = Seq::new(bufs.len(), |i: int| bufs[i][heads[i] + (j - head)]);
        terms.skip(1).fold_left(terms[0], f)
    } else {
        old_send[j]
    } by {
        let k = j - head;
        if head <= j && k / 4 < (new.len() - head) / 4 {
            assert(0 <= k < b.len());
            assert(b[k] == new[j] && a[k] == old_send[j]);
            assert(grouped(b.len() as int) == b.len());
            if bufs.len() > 0 {
                let terms = Seq::new(bufs.len(), |i: int| bufs[i][heads[i] + k]);
                assert(is_sum(plus, terms_at(mids, k), b[k]));
                assert forall|i: int| 0 <= i < bufs.len() implies mids[i][k] == bufs[i][heads[i] + k] by {
                    assert(grouped(mids[i].len() as int) >= grouped(a.len() as int));
                }
                assert(terms_at(mids, k) =~= terms);
                law_sum_folds(plus, f, terms, new[j]);
            }
        } else {
            assert(!(head <= j < head + b.len()));
        }
    }
}

/// Buffers of the same length whose heads are at the same place can always be summed.
pub proof fn law_can_sum<T>(bufs: Seq<Seq<T>>, heads: Seq<usize>, send: Seq<T>, head: usize)
    requires
        forall|i: int| 0 <= i < bufs.len() ==> (#[trigger] bufs[i]).len() == send.len(),
        heads == Seq::new(bufs.len(), |i: int| head),
    ensures
        can_sum(groups_of(send, head as int).len() as int, groups_of_all(bufs, heads)),
{
    let mids = groups_of_all(bufs, heads);
    assert forall|i: int| 0 <= i < mids.len() implies (#[trigger] mids[i]).len() == groups_of(send, head as int).len() by {
        assert(bufs[i].len() == send.len());
    }
}

/// What `reduce_widened` does, number by number: each number in a whole group becomes the sum of
/// the numbers at its place, all of them widened, from the first contribution to the last and on
/// through the further buffers of the working memory, and then narrowed. Behind the last whole
/// group come the numbers that the working memory held there, narrowed.
pub proof fn law_reduced_widened<H, W: Fn(H) -> u32, N: Fn(u32) -> H, F: Fn(u32, u32) -> u32>(
    widen: W,
    narrow: N,
    plus: F,
    wide: spec_fn(H) -> u32,
    slim: spec_fn(u32) -> H,
    f: spec_fn(u32, u32) -> u32,
    bufs: Seq<Seq<H>>,
    before: MemoryState,
    after: MemoryState,
    send: Seq<H>,
)
    requires
        forall|x: H, y: u32| #[trigger] call_ensures(widen, (x,), y) ==> y == wide(x),
        forall|x: u32, y: H| #[trigger] call_ensures(narrow, (x,), y) ==> y == slim(x),
        is_function(plus, f),
        bufs.len() <= before.recv.len(),
        before.recv.len() > 0,
        forall|i: int| 0 <= i < bufs.len() ==> (#[trigger] bufs[i]).len() == before.send.len(),
        widened_sum(widen, narrow, plus, bufs, before, after, send),
    ensures
        send.len() == before.send.len(),
        forall|j: int| 0 <= j < send.len() ==> #[trigger] send[j] == if j / 4 < send.len() as int / 4 {
            let terms = Seq::new(
                before.recv.len(),
                |i: int| if i < bufs.len() { wide(bufs[i][j]) } else { before.recv[i][j] },
            );
            slim(terms.skip(1).fold_left(terms[0], f))
        } else {
            slim(before.send[j])
        },
{
    assert forall|j: int| 0 <= j < send.len() implies #[trigger] send[j] == if j / 4 < send.len() as int / 4 {
        let terms = Seq::new(
            before.recv.len(),
            |i: int| if i < bufs.len() { wide(bufs[i][j]) } else { before.recv[i][j] },
        );
        slim(terms.skip(1).fold_left(terms[0], f))
    } else {
        slim(before.send[j])
    } by {
        assert(call_ensures(narrow, (after.send[j],), send[j]));
        if j / 4 < send.len() as int / 4 {
            let terms = Seq::new(
                before.recv.len(),
                |i: int| if i < bufs.len() { wide(bufs[i][j]) } else { before.recv[i][j] },
            );
            assert(is_sum(plus, terms_at(after.recv, j), after.send[j]));
            assert forall|i: int| 0 <= i < before.recv.len() implies after.recv[i][j] == terms[i] by {
                if i < bufs.len() {
                    assert(all_widened(widen, bufs[i], after.recv[i]));
                    assert(call_ensures(widen, (bufs[i][j],), after.recv[i][j]));
                } else {
                    assert(after.recv[i] == before.recv[i]);
                }
            }
            assert(terms_at(after.recv, j) =~= terms);
            law_sum_folds(plus, f, terms, after.send[j]);
        } else {
            assert(after.send[j] == before.send[j]);
        }
    }
}

} // verus!
