use half::f16;
use reduction_server::memory::{MemoryError, WorkingMemory};
use reduction_server::reduce::{reduce, reduce_widened, GROUP_BYTES, LANES};

fn plus(x: f32, y: f32) -> f32 {
    x + y
}

/// Sums buffers that are aligned to a group.
fn reduce_aligned<T: Copy, F: Fn(T, T) -> T>(send: &mut [T], recv_bufs: &Vec<&[T]>, plus: &F) {
    reduce(send, 0, recv_bufs, &vec![0; recv_bufs.len()], plus);
}

fn widen(h: f16) -> u32 {
    h.to_f32().to_bits()
}

fn narrow(w: u32) -> f16 {
    f16::from_f32(f32::from_bits(w))
}

fn plus_words(x: u32, y: u32) -> u32 {
    (f32::from_bits(x) + f32::from_bits(y)).to_bits()
}

#[test]
fn buffers_are_summed_element_by_element() {
    let mut send = vec![-1.0f32; 8];
    let a: Vec<f32> = (0..8).map(|i| i as f32).collect();
    let b = vec![2.0f32; 8];
    let c = vec![0.5f32; 8];
    reduce_aligned(&mut send, &vec![a.as_slice(), b.as_slice(), c.as_slice()], &plus);
    assert_eq!(send, vec![2.5, 3.5, 4.5, 5.5, 6.5, 7.5, 8.5, 9.5]);
}

#[test]
fn numbers_beyond_the_last_whole_group_stay() {
    assert_eq!(LANES, 4);
    let mut send = vec![-1i64; 7];
    let a = vec![1i64; 7];
    let b = vec![2i64; 8];
    reduce_aligned(&mut send, &vec![a.as_slice(), b.as_slice()], &|x: i64, y: i64| x + y);
    assert_eq!(send, vec![3, 3, 3, 3, -1, -1, -1]);
}

#[test]
fn without_contributions_nothing_changes() {
    let mut send = vec![5u8; 4];
    reduce_aligned(&mut send, &Vec::new(), &|x: u8, _: u8| x);
    assert_eq!(send, vec![5; 4]);
}

#[test]
fn a_single_contribution_is_the_sum() {
    let mut send = vec![0.0f32; 4];
    let a = vec![1.25f32, -3.5, 1e30, 0.0];
    reduce_aligned(&mut send, &vec![a.as_slice()], &plus);
    assert_eq!(send, a);
}

#[test]
fn contributions_are_summed_in_their_order() {
    // Rounding makes the result depend on the order.
    let (big, one) = (vec![1e8f32; 4], vec![1.0f32; 4]);
    let minus = vec![-1e8f32; 4];
    let mut send = vec![0.0f32; 4];
    reduce_aligned(&mut send, &vec![big.as_slice(), one.as_slice(), minus.as_slice()], &plus);
    assert_eq!(send, vec![0.0; 4]);
    reduce_aligned(&mut send, &vec![big.as_slice(), minus.as_slice(), one.as_slice()], &plus);
    assert_eq!(send, vec![1.0; 4]);
}

#[test]
fn half_precision_is_summed_in_single_precision() {
    let mut mem = WorkingMemory::new(4, 3, 4096).unwrap();
    let halves = |x: f32| vec![f16::from_f32(x); 4];
    let (a, b, c) = (halves(2048.0), halves(1.0), halves(1.0));
    let mut send = halves(7.0);
    reduce_widened(
        &mut send,
        &vec![a.as_slice(), b.as_slice(), c.as_slice()],
        &mut mem,
        &widen,
        &narrow,
        &plus_words,
    );
    // In half precision alone, 2048 + 1 would be rounded to 2048 each time.
    assert_eq!(send, halves(2050.0));
    // The memory can be used again; each of its buffers is written anew.
    let d = halves(0.5);
    reduce_widened(
        &mut send,
        &vec![d.as_slice(), b.as_slice(), d.as_slice()],
        &mut mem,
        &widen,
        &narrow,
        &plus_words,
    );
    assert_eq!(send, halves(2.0));
}

#[test]
fn working_memory_starts_with_zeros() {
    // One contribution for three buffers: the other two hold zeros.
    let mut mem = WorkingMemory::new(4, 3, 4096).unwrap();
    let a: Vec<u16> = vec![1, 2, 3, 4];
    let mut send = vec![9u16; 4];
    reduce_widened(
        &mut send,
        &vec![a.as_slice()],
        &mut mem,
        &|h: u16| h as u32 * 10,
        &|w: u32| w as u16,
        &|x: u32, y: u32| x + y + 1,
    );
    assert_eq!(send, vec![12, 22, 32, 42]);
    // Without any contribution the buffers keep what they hold.
    reduce_widened(
        &mut send,
        &Vec::new(),
        &mut mem,
        &|h: u16| h as u32,
        &|w: u32| w as u16,
        &|x: u32, y: u32| x + y,
    );
    assert_eq!(send, vec![10, 20, 30, 40]);
}

#[test]
fn working_memory_without_contributions_has_a_zero_sum() {
    let mut mem = WorkingMemory::new(4, 0, 4096).unwrap();
    let mut send = vec![9u16; 4];
    reduce_widened(
        &mut send,
        &Vec::new(),
        &mut mem,
        &|h: u16| h as u32,
        &|w: u32| w as u16,
        &|x: u32, y: u32| x + y,
    );
    assert_eq!(send, vec![0; 4]);
}

#[test]
fn working_memory_is_refused_for_each_reason() {
    assert_eq!(WorkingMemory::new(0, 2, 4096).err(), Some(MemoryError::ZeroAlloc));
    // Three pages are no power of two.
    assert_eq!(WorkingMemory::new(12000, 2, 4096).err(), Some(MemoryError::InvalidAlign));
    assert_eq!(WorkingMemory::new(1 << 62, 0, 4096).err(), Some(MemoryError::TooManyElements));
    assert_eq!(WorkingMemory::new(1 << 58, 1, 4096).err(), Some(MemoryError::OutOfMemory));
    assert!(WorkingMemory::new(4096, 2, 4096).is_ok());
    assert!(WorkingMemory::new(5000, 2, 4096).is_ok());
}

#[test]
fn a_single_half_precision_contribution_comes_back() {
    let mut mem = WorkingMemory::new(4, 1, 4096).unwrap();
    let a: Vec<f16> = [0.1f32, -65504.0, 6e-8, 0.0].iter().map(|x| f16::from_f32(*x)).collect();
    let mut send = vec![f16::from_f32(1.0); 4];
    reduce_widened(&mut send, &vec![a.as_slice()], &mut mem, &widen, &narrow, &plus_words);
    assert_eq!(send, a);
}

#[test]
fn two_contributions_may_be_swapped_and_summed_again() {
    let a: Vec<f32> = (0..8).map(|i| 0.1 * i as f32).collect();
    let b: Vec<f32> = (0..8).map(|i| 1e7 - 0.3 * i as f32).collect();
    let mut s = vec![1.0f32; 8];
    let mut t = vec![-5.0f32; 8];
    reduce_aligned(&mut s, &vec![a.as_slice(), b.as_slice()], &plus);
    reduce_aligned(&mut t, &vec![b.as_slice(), a.as_slice()], &plus);
    assert_eq!(s, t);
    reduce_aligned(&mut s, &vec![a.as_slice(), b.as_slice()], &plus);
    assert_eq!(s, t);
}

#[test]
fn a_used_working_memory_leaves_no_trace() {
    let halves = |x: f32| vec![f16::from_f32(x); 8];
    let (a, b) = (halves(3.5), halves(-100.25));
    let (c, d) = (halves(0.1), halves(7.0));
    let mut used = WorkingMemory::new(8, 2, 4096).unwrap();
    let mut x = halves(1.0);
    reduce_widened(&mut x, &vec![a.as_slice(), b.as_slice()], &mut used, &widen, &narrow, &plus_words);
    assert_eq!(x, halves(-96.75));
    let mut y = halves(9.0);
    reduce_widened(&mut y, &vec![c.as_slice(), d.as_slice()], &mut used, &widen, &narrow, &plus_words);
    let mut fresh = WorkingMemory::new(8, 2, 4096).unwrap();
    let mut z = halves(-9.0);
    reduce_widened(&mut z, &vec![c.as_slice(), d.as_slice()], &mut fresh, &widen, &narrow, &plus_words);
    assert_eq!(y, z);
}

#[test]
fn numbers_before_the_first_group_stay() {
    assert_eq!(GROUP_BYTES, 16);
    let a: Vec<i32> = (0..12).collect();
    let b: Vec<i32> = (0..12).map(|i| 100 * i).collect();
    // The groups start at places 1, 3 and 2, and two whole groups follow in each buffer.
    let mut send = vec![-1i32; 10];
    reduce(&mut send, 1, &vec![&a[..], &b[..]], &vec![3, 2], &|x: i32, y: i32| x + y);
    assert_eq!(send, vec![-1, 203, 304, 405, 506, 607, 708, 809, 910, -1]);
    // A buffer that ends before a group starts has none.
    let mut send = vec![-1i32; 3];
    reduce(&mut send, 7, &vec![&a[..2]], &vec![5], &|x: i32, y: i32| x + y);
    assert_eq!(send, vec![-1; 3]);
}

#[test]
fn groups_start_at_aligned_addresses() {
    let data: Vec<f32> = (0..40).map(|i| i as f32).collect();
    for skip in 0..4 {
        let recv = &data[skip..skip + 20];
        let mut room = vec![-1.0f32; 24];
        let send = &mut room[skip..skip + 20];
        let (from, to) = (recv.as_ptr().align_offset(GROUP_BYTES), send.as_ptr().align_offset(GROUP_BYTES));
        if (20 - from) / LANES == (20 - to) / LANES {
            reduce(send, to, &vec![recv], &vec![from], &plus);
            let groups = (20 - to) / LANES * LANES;
            for j in 0..20 {
                let expect = if j >= to && j < to + groups { recv[from + j - to] } else { -1.0 };
                assert_eq!(send[j], expect);
            }
        }
    }
}
