//! Aligned buffers of 32-bit words, and the working memory of a reduce thread.

use vstd::prelude::*;
use vstd::arithmetic::power2;
use aligned_box::{AlignedBox, AlignedBoxError};
use crate::align::alignment;
use crate::reduce::GROUP_BYTES;

verus! {

/// The boxed slice with a chosen alignment of the crate `aligned_box`.
#[verifier::external_type_specification]
#[verifier::external_body]
#[verifier::reject_recursive_types(T)]
pub struct ExAlignedBox<T: ?Sized>(AlignedBox<T>);

/// The words that an aligned box holds, in order.
pub uninterp spec fn words(b: AlignedBox<[u32]>) -> Seq<u32>;

/// The alignment with which an aligned box was allocated: its first word lies at an address that
/// is a multiple of it.
pub uninterp spec fn layout_align(b: AlignedBox<[u32]>) -> int;

/// Why a buffer could not be allocated.
#[derive(Clone, Copy, Debug, PartialEq, Eq, Structural)]
pub enum MemoryError {
    /// The words would not fit into a slice.
    TooManyElements,
    /// The allocator has no memory left.
    OutOfMemory,
    /// A buffer without words was asked for.
    ZeroAlloc,
    /// The alignment is no power of two, or the size rounded up to it is too large.
    InvalidAlign,
}

/// An alignment raised to that of a word.
pub open spec fn word_align(align: int) -> int {
    if align < vstd::layout::align_of::<u32>() { vstd::layout::align_of::<u32>() as int } else { align }
}

/// A word is aligned to its four bytes at most.
pub proof fn law_word_align(align: int)
    ensures
        align >= 4 ==> word_align(align) == align,
{
    broadcast use vstd::layout::layout_of_primitives;
    broadcast use vstd::layout::align_properties;

    assert(vstd::layout::size_of::<u32>() == 4);
    let a = vstd::layout::align_of::<u32>() as int;
    if a > 4 {
        vstd::arithmetic::div_mod::lemma_small_mod(4, a as nat);
    }
}

/// The error that the arguments alone bring about, if they do: an allocation of `nelems` words
/// needs a number of words that fits into a slice and is not zero, and an alignment that is a
/// power of two once it is raised to that of a word, up to which the size can be rounded.
pub open spec fn refusal(align: int, nelems: int) -> Option<MemoryError> {
    let a = word_align(align);
    if nelems > isize::MAX / 4 {
        Some(MemoryError::TooManyElements)
    } else if nelems == 0 {
        Some(MemoryError::ZeroAlloc)
    } else if !power2::is_pow2(a) || crate::align::rounded_up(4 * nelems, a) > isize::MAX {
        Some(MemoryError::InvalidAlign)
    } else {
        None
    }
}

/// `n` words, all zero.
pub open spec fn zeros(n: nat) -> Seq<u32> {
    Seq::new(n, |i: int| 0u32)
}

/// Calls `AlignedBox::<[u32]>::slice_from_default`.
///
/// It refuses the arguments that `refusal` names, each with the error named there. Else it
/// allocates `nelems` words with their default value, zero, with the given alignment raised to
/// that of a word, unless the allocator fails. When the allocator fails is not stated.
#[verifier::external_body]
fn slice_from_default(align: usize, nelems: usize) -> (r: Result<AlignedBox<[u32]>, MemoryError>)
    ensures
        match refusal(align as int, nelems as int) {
            Some(e) => r == Err::<AlignedBox<[u32]>, MemoryError>(e),
            None => match r {
                Ok(b) => words(b) == zeros(nelems as nat) && layout_align(b) == word_align(align as int),
                Err(e) => e == MemoryError::OutOfMemory,
            },
        },
{
    match AlignedBox::<[u32]>::slice_from_default(align, nelems) {
        Ok(b) => Ok(b),
        Err(AlignedBoxError::TooManyElements) => Err(MemoryError::TooManyElements),
        Err(AlignedBoxError::OutOfMemory) => Err(MemoryError::OutOfMemory),
        Err(AlignedBoxError::ZeroAlloc) => Err(MemoryError::ZeroAlloc),
        Err(AlignedBoxError::InvalidAlign) => Err(MemoryError::InvalidAlign),
    }
}

/// Calls `AlignedBox::deref`, which gives the words of the box to read.
#[verifier::external_body]
pub(crate) fn as_words(b: &AlignedBox<[u32]>) -> (s: &[u32])
    ensures
        s@ == words(*b),
{
    &**b
}

/// Calls `AlignedBox::deref_mut`, which gives the words of the box to read and write: what they
/// are once the reference is given up is what the box then holds. The words stay where they are,
/// with their alignment.
#[verifier::external_body]
pub(crate) fn as_words_mut(b: &mut AlignedBox<[u32]>) -> (s: &mut [u32])
    ensures
        s@ == words(*old(b)),
        words(*final(b)) == final(s)@,
        layout_align(*final(b)) == layout_align(*old(b)),
{
    &mut **b
}

/// What a working memory holds, and how its buffers are aligned.
pub struct MemoryState {
    pub recv: Seq<Seq<u32>>,
    pub send: Seq<u32>,
    pub recv_align: Seq<int>,
    pub send_align: int,
}

impl MemoryState {
    /// All buffers start at the address of a group of numbers.
    pub open spec fn in_groups(self) -> bool {
        &&& self.send_align % (GROUP_BYTES as int) == 0
        &&& forall|i: int| 0 <= i < self.recv_align.len() ==> (#[trigger] self.recv_align[i]) % (GROUP_BYTES as int) == 0
    }
}

/// A size that is rounded up to pages of whole groups is itself made of whole groups.
proof fn lemma_whole_groups(count: usize, page: usize)
    requires
        page > 0,
        count + page - 1 <= usize::MAX,
        page % GROUP_BYTES == 0,
    ensures
        ({
            let align = ((count + page - 1) as usize) & !((page - 1) as usize);
            &&& align % GROUP_BYTES == 0
            &&& count > 0 ==> align >= GROUP_BYTES
        }),
{
    let x = (count + page - 1) as usize;
    let mask = (page - 1) as usize;
    let align = x & !mask;
    assert(align % 16 == 0) by (bit_vector)
        requires
            align == x & !mask,
            mask == page - 1,
            page > 0,
            page % 16 == 0,
    ;
    if count > 0 {
        assert(align > 0) by (bit_vector)
            requires
                align == x & !mask,
                x > mask,
        ;
    }
}

/// Buffers in which a reduce thread sums up numbers that are wider than those it was sent: one
/// for each contribution, and one for the sum.
pub struct WorkingMemory {
    pub(crate) recv_bufs: Vec<AlignedBox<[u32]>>,
    pub(crate) send_buf: AlignedBox<[u32]>,
}

impl View for WorkingMemory {
    type V = MemoryState;

    open(crate) spec fn view(&self) -> MemoryState {
        MemoryState {
            recv: Seq::new(self.recv_bufs@.len(), |i: int| words(self.recv_bufs@[i])),
            send: words(self.send_buf),
            recv_align: Seq::new(self.recv_bufs@.len(), |i: int| layout_align(self.recv_bufs@[i])),
            send_align: layout_align(self.send_buf),
        }
    }
}

impl WorkingMemory {
    /// Allocates a working memory for `num_recv` contributions of `count` numbers, all buffers
    /// aligned to `count` rounded up to whole pages.
    pub fn new(count: usize, num_recv: usize, page: usize) -> (r: Result<Self, MemoryError>)
        requires
            page > 0,
            count + page - 1 <= usize::MAX,
        ensures
            ({
                let align = ((count + page - 1) as usize) & !((page - 1) as usize);
                match refusal(align as int, count as int) {
                    Some(e) => r == Err::<Self, MemoryError>(e),
                    None => match r {
                        Ok(m) => {
                            &&& m@.recv == Seq::new(num_recv as nat, |i: int| zeros(count as nat))
                            &&& m@.send == zeros(count as nat)
                            &&& m@.recv_align == Seq::new(num_recv as nat, |i: int| word_align(align as int))
                            &&& m@.send_align == word_align(align as int)
                            &&& page % GROUP_BYTES == 0 ==> m@.in_groups()
                        },
                        Err(e) => e == MemoryError::OutOfMemory,
                    },
                }
            }),
    {
        let align: usize = alignment(count, page);
        let mut recv_bufs: Vec<AlignedBox<[u32]>> = Vec::new();
        for i in 0..num_recv
            invariant
                recv_bufs@.len() == i,
                i > 0 ==> refusal(align as int, count as int) is None,
                forall|k: int| 0 <= k < i ==> words(#[trigger] recv_bufs@[k]) == zeros(count as nat)
                    && layout_align(recv_bufs@[k]) == word_align(align as int),
                page > 0,
                count + page - 1 <= usize::MAX,
                align == ((count + page - 1) as usize) & !((page - 1) as usize),
        {
            match slice_from_default(align, count) {
                Ok(b) => recv_bufs.push(b),
                Err(e) => {
                    return Err(e);
                },
            }
        }
        match slice_from_default(align, count) {
            Ok(send_buf) => {
                let m = WorkingMemory { recv_bufs, send_buf };
                assert(m@.recv =~= Seq::new(num_recv as nat, |i: int| zeros(count as nat)));
                assert(m@.recv_align =~= Seq::new(num_recv as nat, |i: int| word_align(align as int)));
                proof {
                    if page % GROUP_BYTES == 0 {
                        lemma_whole_groups(count, page);
                        law_word_align(align as int);
                    }
                }
                Ok(m)
            },
            Err(e) => Err(e),
        }
    }
}

/// A new working memory holds nothing but zeros.
pub proof fn law_zeros(n: nat, i: int)
    requires
        0 <= i < n,
    ensures
        zeros(n).len() == n,
        zeros(n)[i] == 0,
{
}

} // verus!
