use spectral_morph::util::ring_buffer::RingBuffer;

#[test]
fn ring_buffer_slice_and_shift() {
    let mut rb = RingBuffer::new(10, 0);
    *rb.get_mut(1) = 1;
    *rb.get_mut(2) = 2;
    assert_eq!(rb.slice_raw(0, 10), (&[0,1,2,0,0,0,0,0,0,0]as &[i32],&[]as &[i32]), "rb[0..10]");
    rb.shift(2);
    assert_eq!(rb.slice_raw(0, 10), (&[2,0,0,0,0,0,0,0]as &[i32],&[0,1]as &[i32]), "rb.shift(2)[0..10]");
    assert_eq!(rb.slice_raw(-2, 8), (&[0,1,2,0,0,0,0,0,0,0]as &[i32],&[]as &[i32]), "rb.shift(2)[-2..8]");
}

#[test]
fn ring_buffer_push() {
    let mut rb = RingBuffer::new(4, 9);
    assert_eq!(rb.slice_raw(0, 4), (&[9,9,9,9] as &[i32],&[]as &[i32]), "rb[0..4]");
    rb.push_clone_from_slice(&[2,3]);
    assert_eq!(rb.slice_raw(-2, 2), (&[2,3,9,9] as &[i32],&[]as &[i32]), "rb.push(&[2,3]); rb[-2..2]");
}

#[test]
fn from_vec_keeps_order_and_len() {
    let rb = RingBuffer::from_vec(vec![5, 6, 7]);
    assert_eq!(rb.len(), 3);
    assert_eq!(rb[0], 5);
    assert_eq!(rb[1], 6);
    assert_eq!(rb[2], 7);
    assert_eq!(rb.slice_raw(0, 3), (&[5, 6, 7] as &[i32], &[] as &[i32]));
}

#[test]
fn index_wraps_both_ways() {
    let rb = RingBuffer::from_vec(vec![10, 11, 12, 13]);
    assert_eq!(rb[4], 10);
    assert_eq!(rb[7], 13);
    assert_eq!(rb[-1], 13);
    assert_eq!(rb[-4], 10);
    assert_eq!(rb[-5], 13);
    assert_eq!(rb[isize::MIN], rb[0]);
    assert_eq!(rb[isize::MAX], rb[3]);
}

#[test]
fn shift_moves_logical_zero() {
    let mut rb = RingBuffer::from_vec(vec![0, 1, 2, 3, 4]);
    rb.shift(2);
    assert_eq!(rb[0], 2);
    assert_eq!(rb[4], 1);
    rb.shift(-3);
    assert_eq!(rb[0], 4);
    assert_eq!(rb[1], 0);
    rb.shift(5);
    assert_eq!(rb[0], 4);
    rb.shift(-1);
    rb.shift(-4);
    assert_eq!(rb[0], 4);
    assert_eq!(rb.len(), 5);
}

#[test]
fn slice_raw_splits_at_the_storage_end() {
    let mut rb = RingBuffer::from_vec(vec![0, 1, 2, 3, 4, 5]);
    rb.shift(4);
    assert_eq!(rb.slice_raw(0, 3), (&[4, 5] as &[i32], &[0] as &[i32]));
    assert_eq!(rb.slice_raw(2, 5), (&[0, 1, 2] as &[i32], &[] as &[i32]));
    assert_eq!(rb.slice_raw(1, 1), (&[5] as &[i32], &[0, 1, 2, 3, 4] as &[i32]));
}

#[test]
fn slice_raw_mut_writes_through() {
    let mut rb = RingBuffer::from_vec(vec![0, 1, 2, 3, 4, 5]);
    rb.shift(4);
    {
        let (lower, upper) = rb.slice_raw_mut(0, 3);
        assert_eq!(lower.len(), 2);
        assert_eq!(upper.len(), 1);
        lower[0] = 40;
        lower[1] = 50;
        upper[0] = 60;
    }
    assert_eq!(rb[0], 40);
    assert_eq!(rb[1], 50);
    assert_eq!(rb[2], 60);
    assert_eq!(rb[3], 1);
    assert_eq!(rb[4], 2);
    assert_eq!(rb[5], 3);
    {
        let (lower, upper) = rb.slice_raw_mut(3, 5);
        assert_eq!(lower, &mut [1, 2]);
        assert_eq!(upper.len(), 0);
    }
}

#[test]
fn get_mut_writes_one_element() {
    let mut rb = RingBuffer::from_vec(vec![1, 2, 3]);
    rb.shift(1);
    *rb.get_mut(-1) = 9;
    assert_eq!(rb.slice_raw(0, 3), (&[2, 3] as &[i32], &[9] as &[i32]));
}

#[test]
fn push_pop_drops_oldest_appends_newest() {
    let mut rb = RingBuffer::from_vec(vec![1, 2, 3]);
    assert_eq!(rb.push_pop(4), 1);
    assert_eq!((rb[0], rb[1], rb[2]), (2, 3, 4));
    assert_eq!(rb.push_pop(5), 2);
    assert_eq!(rb.push_pop(6), 3);
    assert_eq!(rb.push_pop(7), 4);
    assert_eq!((rb[0], rb[1], rb[2]), (5, 6, 7));
    assert_eq!(rb.len(), 3);
}

#[test]
fn push_pop_slice_exchanges_contents() {
    let mut rb = RingBuffer::from_vec(vec![1, 2, 3, 4, 5]);
    rb.shift(3);
    let mut chunk = [10, 20, 30];
    rb.push_pop_slice(&mut chunk);
    assert_eq!(chunk, [4, 5, 1]);
    assert_eq!((rb[0], rb[1], rb[2], rb[3], rb[4]), (2, 3, 10, 20, 30));
    let mut whole = [6, 7, 8, 9, 0];
    rb.push_pop_slice(&mut whole);
    assert_eq!(whole, [2, 3, 10, 20, 30]);
    assert_eq!((rb[0], rb[1], rb[2], rb[3], rb[4]), (6, 7, 8, 9, 0));
    let mut none: [i32; 0] = [];
    rb.push_pop_slice(&mut none);
    assert_eq!((rb[0], rb[4]), (6, 0));
}

#[test]
fn push_clone_keeps_length_over_many_pushes() {
    let mut rb = RingBuffer::new(7, 0u8);
    let mut next = 1u8;
    for n in [1usize, 6, 3, 0, 2, 5, 4, 6, 1] {
        let chunk: Vec<u8> = (0..n).map(|_| { next += 1; next }).collect();
        let before: Vec<u8> = (0..7).map(|i| rb[i]).collect();
        rb.push_clone_from_slice(&chunk);
        assert_eq!(rb.len(), 7);
        for j in 0..7 - n {
            assert_eq!(rb[j as isize], before[j + n]);
        }
        for k in 0..n {
            assert_eq!(rb[(7 - n + k) as isize], chunk[k]);
        }
    }
}

#[test]
fn writes_and_pushes_cut_the_ring_where_it_was_turned() {
    let mut rb = RingBuffer::from_vec(vec![1, 2, 3, 4, 5]);
    *rb.get_mut(7) = 30;
    assert_eq!(rb.slice_raw(0, 5), (&[1, 2, 30, 4, 5] as &[i32], &[] as &[i32]));
    assert_eq!(rb.push_pop(6), 1);
    assert_eq!(rb.slice_raw(0, 5), (&[2, 30, 4, 5] as &[i32], &[6] as &[i32]));
    rb.push_clone_from_slice(&[7, 8]);
    assert_eq!(rb.slice_raw(0, 5), (&[4, 5] as &[i32], &[6, 7, 8] as &[i32]));
    let mut chunk = [9, 10, 11];
    rb.push_pop_slice(&mut chunk);
    assert_eq!(chunk, [4, 5, 6]);
    assert_eq!(rb.slice_raw(0, 5), (&[7, 8, 9, 10] as &[i32], &[11] as &[i32]));
    let mut turn = [12, 13, 14, 15, 16];
    rb.push_pop_slice(&mut turn);
    assert_eq!(turn, [7, 8, 9, 10, 11]);
    assert_eq!(rb.slice_raw(0, 5), (&[12, 13, 14, 15] as &[i32], &[16] as &[i32]));
    rb.shift(-1);
    let mut turn = [1, 2, 3, 4, 5];
    rb.push_pop_slice(&mut turn);
    assert_eq!(turn, [16, 12, 13, 14, 15]);
    assert_eq!(rb.slice_raw(0, 5), (&[1, 2, 3, 4, 5] as &[i32], &[] as &[i32]));
}
