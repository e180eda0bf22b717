use lionfs::btree::tree::{BTree, BlockAllocator, FailingAllocator, SequentialAllocator};
use lionfs::error::FsError;
use lionfs::transaction::TxContext;

fn fresh_tree(ctx: &mut TxContext) -> BTree<u64, u64> {
    BTree::<u64, u64>::init_empty(ctx, 100, 1).unwrap();
    BTree::<u64, u64>::new(100, 1)
}

#[test]
fn test_btree_insert_lookup() {
    let mut ctx = TxContext::new();
    let mut btree = fresh_tree(&mut ctx);
    let mut allocator = SequentialAllocator::new(101);
    for i in 0..10000u64 {
        btree.insert(&mut ctx, i, i * 2, &mut allocator).unwrap();
    }
    for i in 0..10000u64 {
        let val = btree.lookup(&ctx, &i).unwrap();
        assert_eq!(val, Some(i * 2));
    }
    let val = btree.lookup(&ctx, &10001).unwrap();
    assert_eq!(val, None);
}

#[test]
fn test_btree_backward_insert() {
    let mut ctx = TxContext::new();
    let mut btree = fresh_tree(&mut ctx);
    let mut allocator = SequentialAllocator::new(101);
    for i in (0..5000u64).rev() {
        btree.insert(&mut ctx, i, i * 3, &mut allocator).unwrap();
    }
    for i in 0..5000u64 {
        let val = btree.lookup(&ctx, &i).unwrap();
        assert_eq!(val, Some(i * 3));
    }
}

#[test]
fn test_btree_remove() {
    let mut ctx = TxContext::new();
    let mut btree = fresh_tree(&mut ctx);
    let mut allocator = SequentialAllocator::new(101);
    for i in 0..100u64 {
        btree.insert(&mut ctx, i, i * 5, &mut allocator).unwrap();
    }
    for i in (0..100u64).step_by(2) {
        let removed = btree.remove(&mut ctx, &i).unwrap();
        assert!(removed);
    }
    for i in 0..100u64 {
        let val = btree.lookup(&ctx, &i).unwrap();
        if i % 2 == 0 {
            assert_eq!(val, None);
        } else {
            assert_eq!(val, Some(i * 5));
        }
    }
}

#[test]
fn btree_remove_missing_key_reports_false() {
    let mut ctx = TxContext::new();
    let mut btree = fresh_tree(&mut ctx);
    let mut allocator = SequentialAllocator::new(101);
    btree.insert(&mut ctx, 7, 70, &mut allocator).unwrap();
    assert!(!btree.remove(&mut ctx, &8).unwrap());
    assert_eq!(btree.lookup(&ctx, &7).unwrap(), Some(70));
}

#[test]
fn btree_insert_overwrites_value() {
    let mut ctx = TxContext::new();
    let mut btree = fresh_tree(&mut ctx);
    let mut allocator = SequentialAllocator::new(101);
    btree.insert(&mut ctx, 5, 1, &mut allocator).unwrap();
    btree.insert(&mut ctx, 5, 2, &mut allocator).unwrap();
    assert_eq!(btree.lookup(&ctx, &5).unwrap(), Some(2));
}

#[test]
fn btree_validate_counts_nodes() {
    let mut ctx = TxContext::new();
    let mut btree = fresh_tree(&mut ctx);
    assert_eq!(btree.validate(&ctx).unwrap(), 1);
    let mut allocator = SequentialAllocator::new(101);
    for i in 0..1000u64 {
        btree.insert(&mut ctx, i, i, &mut allocator).unwrap();
    }
    // Every node but the root came from the allocator.
    assert_eq!(btree.validate(&ctx).unwrap(), 1 + (allocator.next - 101));
    assert!(allocator.next > 101);
}

#[test]
fn btree_full_leaf_with_refusing_allocator_fails_and_keeps_tree() {
    let mut ctx = TxContext::new();
    let mut btree = fresh_tree(&mut ctx);
    let max = BTree::<u64, u64>::max_leaf_items() as u64;
    let mut refuse = FailingAllocator { error: FsError::OutOfMemory };
    // A leaf holds one less than its capacity before it must split.
    for i in 0..max - 1 {
        btree.insert(&mut ctx, i, i, &mut refuse).unwrap();
    }
    let before = ctx.read_block(100);
    let r = btree.insert(&mut ctx, max, max, &mut refuse);
    assert_eq!(r, Err(FsError::OutOfMemory));
    assert_eq!(ctx.read_block(100), before);
    assert_eq!(btree.root_block, 100);
    assert_eq!(btree.lookup(&ctx, &max).unwrap(), None);
    assert_eq!(btree.lookup(&ctx, &3).unwrap(), Some(3));
}

#[test]
fn btree_capacities() {
    // Items of 8-byte keys and values in a node payload.
    assert!(BTree::<u64, u64>::max_leaf_items() > 100);
    assert!(BTree::<u64, u64>::max_internal_items() > 100);
}

#[test]
fn failing_allocator_refuses_with_its_error() {
    let mut refuse = FailingAllocator { error: FsError::NotFound };
    assert_eq!(refuse.allocate_block(), Err(FsError::NotFound));
    assert_eq!(refuse.allocate_block(), Err(FsError::NotFound));
    assert_eq!(refuse.error, FsError::NotFound);
}

#[test]
fn btree_validate_finds_a_damaged_or_foreign_inner_node() {
    let mut ctx = TxContext::new();
    let mut btree = fresh_tree(&mut ctx);
    let mut allocator = SequentialAllocator::new(101);
    for i in 0..1000u64 {
        btree.insert(&mut ctx, i, i, &mut allocator).unwrap();
    }
    let total = btree.validate(&ctx).unwrap();
    assert!(total > 2);
    // Block 101 is the first block the allocator gave: a node below the root.
    assert_ne!(btree.root_block, 101);
    let good = ctx.read_block(101);
    let mut damaged = good.clone();
    damaged[3000] ^= 0x10;
    ctx.write_block(101, &damaged);
    assert_eq!(btree.validate(&ctx), Err(FsError::NodeChecksumMismatch));
    let mut foreign = good.clone();
    foreign[0] ^= 0x01;
    ctx.write_block(101, &foreign);
    assert_eq!(btree.validate(&ctx), Err(FsError::InvalidData));
    ctx.write_block(101, &good);
    assert_eq!(btree.validate(&ctx), Ok(total));
}
