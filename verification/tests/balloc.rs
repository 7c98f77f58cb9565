use ckb_rt::balloc::{Algorithm, Allocator, Blockinfo};
use ckb_rt::{MAX_ORDER, MAX_TOTAL, MIN_BLOCK};

#[test]
fn fresh_arena_is_one_top_block() {
    let a = Algorithm::new();
    for o in 0..MAX_ORDER {
        assert_eq!(a.free_count(o), 0);
    }
    assert_eq!(a.free_count(MAX_ORDER), 1);
    assert_eq!(a.avail(), MAX_TOTAL);
}

#[test]
fn allocate_pops_and_splits() {
    let mut a = Algorithm::new();
    let b = a.allocate(0);
    // the cascade splits the top block all the way down; the lower half of
    // each split is kept, so the result is the block at offset zero
    assert_eq!(b.offset, 0);
    assert_eq!(b.length, MIN_BLOCK);
    assert_eq!(a.avail(), MAX_TOTAL - MIN_BLOCK);
    // every order below the top now holds exactly one free block (the
    // upper half of each split), and the top order none
    for o in 0..MAX_ORDER {
        assert_eq!(a.free_count(o), 1);
    }
    assert_eq!(a.free_count(MAX_ORDER), 0);
    // releasing it merges all the way back to the single top block
    a.close(b);
    for o in 0..MAX_ORDER {
        assert_eq!(a.free_count(o), 0);
    }
    assert_eq!(a.free_count(MAX_ORDER), 1);
    assert_eq!(a.avail(), MAX_TOTAL);
}

#[test]
fn conservation_over_mixed_sequence() {
    let mut a = Algorithm::new();
    let before = a.avail();
    let b1 = a.allocate(3);
    let b2 = a.allocate(0);
    let b3 = a.allocate(5);
    assert_eq!(
        a.avail(),
        MAX_TOTAL - (MIN_BLOCK << 3) - MIN_BLOCK - (MIN_BLOCK << 5)
    );
    a.close(b2);
    a.close(b1);
    a.close(b3);
    assert_eq!(a.avail(), before);
    assert_eq!(a.free_count(MAX_ORDER), 1);
}

#[test]
fn full_coalescence_any_release_order() {
    // allocate the whole arena as order-11 blocks, release in a scrambled
    // order, and check the single initial top block returns
    let mut a = Algorithm::new();
    let count = 1 << (MAX_ORDER - 11);
    let mut blocks: Vec<Blockinfo> = Vec::new();
    for _ in 0..count {
        let b = a.allocate(11);
        assert_ne!(b.offset, usize::MAX);
        blocks.push(b);
    }
    assert_eq!(a.avail(), 0);
    // exhausted: nothing further can be carved out
    let f = a.allocate(0);
    assert_eq!(f.offset, usize::MAX);
    // release even-indexed blocks first, then odd-indexed in reverse
    let mut order: Vec<usize> = (0..blocks.len()).step_by(2).collect();
    order.extend((0..blocks.len()).skip(1).step_by(2).rev());
    for i in order {
        a.close(blocks[i]);
    }
    for o in 0..MAX_ORDER {
        assert_eq!(a.free_count(o), 0);
    }
    assert_eq!(a.free_count(MAX_ORDER), 1);
    assert_eq!(a.avail(), MAX_TOTAL);
}

#[test]
fn live_blocks_never_overlap() {
    let mut a = Algorithm::new();
    let mut blocks: Vec<Blockinfo> = Vec::new();
    for order in [0usize, 3, 0, 7, 2, 0, 5] {
        let b = a.allocate(order);
        assert_ne!(b.offset, usize::MAX);
        blocks.push(b);
    }
    for i in 0..blocks.len() {
        for j in 0..blocks.len() {
            if i != j {
                let (x, y) = (blocks[i], blocks[j]);
                assert!(x.offset + x.length <= y.offset || y.offset + y.length <= x.offset);
            }
        }
    }
    for b in blocks {
        a.close(b);
    }
    assert_eq!(a.avail(), MAX_TOTAL);
}

#[test]
fn exhaustion_leaves_state_unchanged() {
    let mut a = Algorithm::new();
    // an order beyond the maximum fails outright
    let b = a.allocate(MAX_ORDER + 1);
    assert_eq!(b.offset, usize::MAX);
    assert_eq!(b.length, 0);
    assert_eq!(a.avail(), MAX_TOTAL);
    assert_eq!(a.free_count(MAX_ORDER), 1);
    // take the whole arena, then ask for more
    let whole = a.allocate(MAX_ORDER);
    assert_eq!(whole.offset, 0);
    let counts: Vec<usize> = (0..=MAX_ORDER).map(|o| a.free_count(o)).collect();
    let avail = a.avail();
    let f = a.allocate(4);
    assert_eq!(f.offset, usize::MAX);
    assert_eq!(a.avail(), avail);
    let counts2: Vec<usize> = (0..=MAX_ORDER).map(|o| a.free_count(o)).collect();
    assert_eq!(counts, counts2);
    a.close(whole);
    assert_eq!(a.avail(), MAX_TOTAL);
}

#[test]
fn close_ignores_no_block() {
    let mut a = Algorithm::new();
    a.close(Blockinfo { offset: usize::MAX, length: 0 });
    assert_eq!(a.avail(), MAX_TOTAL);
    assert_eq!(a.free_count(MAX_ORDER), 1);
}

#[test]
fn adapter_rounds_sizes_up() {
    let mut a = Allocator::new();
    // one byte rounds up to the minimum block
    let b = a.allocate(1);
    assert_eq!(b.offset, 0);
    assert_eq!(b.length, MIN_BLOCK);
    assert_eq!(a.avail(), MAX_TOTAL - MIN_BLOCK);
    a.release(b.offset, 1);
    assert_eq!(a.avail(), MAX_TOTAL);
    // 65 bytes round up to 128
    let b = a.allocate(65);
    assert_eq!(b.length, 2 * MIN_BLOCK);
    a.release(b.offset, 65);
    assert_eq!(a.avail(), MAX_TOTAL);
    // an impossible size fails with the sentinel
    let b = a.allocate(MAX_TOTAL + 1);
    assert_eq!(b.offset, usize::MAX);
    assert_eq!(a.avail(), MAX_TOTAL);
}

#[test]
fn adapter_whole_arena_fits() {
    let mut a = Allocator::new();
    let b = a.allocate(MAX_TOTAL);
    assert_eq!(b.offset, 0);
    assert_eq!(b.length, MAX_TOTAL);
    assert_eq!(a.avail(), 0);
    a.release(b.offset, MAX_TOTAL);
    assert_eq!(a.avail(), MAX_TOTAL);
}

#[test]
fn adapter_release_ignores_sentinel() {
    let mut a = Allocator::new();
    a.release(usize::MAX, 64);
    assert_eq!(a.avail(), MAX_TOTAL);
}
