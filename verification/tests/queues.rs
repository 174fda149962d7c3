use yaks::mod_queue::{ModQueuePool, ModificationQueuePool};

#[test]
fn mod_queues_come_from_distinct_slots() {
    let mut pool: ModQueuePool<u32> = ModQueuePool::with_capacity(2);
    let mut first = pool.new_mod_queue();
    let mut second = pool.new_mod_queue();
    // Every queue is out: a new slot is opened.
    let mut third = pool.new_mod_queue();
    first.push(1);
    second.push(2);
    third.push(3);
    third.push(4);
    pool.return_mod_queue(second);
    pool.return_mod_queue(third);
    pool.return_mod_queue(first);
    assert_eq!(pool.apply_all(), vec![1, 2, 3, 4]);
    // Applying empties the queues.
    assert_eq!(pool.apply_all(), Vec::<u32>::new());
}

#[test]
fn mod_queue_reuses_returned_slot() {
    let mut pool: ModQueuePool<&'static str> = ModQueuePool::new();
    let mut queue = pool.new_mod_queue();
    queue.push("a");
    pool.return_mod_queue(queue);
    // The first slot still holds "a"; taking it again hands its closures back out.
    let mut again = pool.new_mod_queue();
    again.push("b");
    pool.return_mod_queue(again);
    assert_eq!(pool.apply_all(), vec!["a", "b"]);
}

#[test]
fn queues_not_returned_are_not_applied() {
    let mut pool: ModQueuePool<u8> = ModQueuePool::with_capacity(1);
    let mut kept = pool.new_mod_queue();
    kept.push(9);
    assert_eq!(pool.apply_all(), Vec::<u8>::new());
    pool.return_mod_queue(kept);
    assert_eq!(pool.apply_all(), vec![9]);
}

#[test]
fn modification_queue_absorb_drain_extend() {
    let mut pool: ModificationQueuePool<u32> = ModificationQueuePool::new();
    let mut first = pool.get();
    let mut second = pool.get();
    first.push(1);
    first.push(2);
    second.extend(vec![3, 4, 5]);
    first.absorb(&mut second);
    assert_eq!(first.drain(1, 3), vec![2, 3]);
    assert_eq!(first.drain(0, 3), vec![1, 4, 5]);
    assert_eq!(second.drain(0, 0), Vec::<u32>::new());
    pool.return_queue(second);
    pool.return_queue(first);
}

#[test]
fn modification_queue_comes_back_empty() {
    let mut pool: ModificationQueuePool<u32> = ModificationQueuePool::with_capacity(1);
    let mut queue = pool.get();
    queue.push(1);
    pool.return_queue(queue);
    let mut again = pool.get();
    assert_eq!(again.drain(0, 0), Vec::<u32>::new());
    again.push(2);
    assert_eq!(again.drain(0, 1), vec![2]);
    pool.return_queue(again);
}
