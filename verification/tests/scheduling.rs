use lib::task::scheduling::{StrideQueue, StrideWrapper, BIG_STRIDE};

#[test]
fn pop_of_empty_queue_is_none() {
    let mut q: StrideQueue<u32> = StrideQueue::new();
    assert!(q.pop().is_none());
    assert_eq!(q.len(), 0);
}

#[test]
fn pop_takes_smallest_stride_and_advances_it() {
    let mut q: StrideQueue<&str> = StrideQueue::new();
    q.push("a", 300, 2);
    q.push("b", 100, 4);
    q.push("c", 200, 5);
    let w = q.pop().unwrap();
    assert_eq!(w.task, "b");
    assert_eq!(w.stride, 100 + BIG_STRIDE / 4);
    assert_eq!(w.priority, 4);
    assert_eq!(q.len(), 2);
    let w = q.pop().unwrap();
    assert_eq!(w.task, "c");
    assert_eq!(w.stride, 200 + BIG_STRIDE / 5);
    let w = q.pop().unwrap();
    assert_eq!(w.task, "a");
    assert_eq!(w.stride, 300 + BIG_STRIDE / 2);
    assert!(q.pop().is_none());
}

#[test]
fn higher_priority_runs_more_often() {
    let mut q: StrideQueue<u32> = StrideQueue::new();
    q.push(1, 0, 2);
    q.push(2, 0, 10);
    let mut runs = [0u32; 3];
    for _ in 0..60 {
        let w = q.pop().unwrap();
        runs[w.task as usize] += 1;
        q.push(w.task, w.stride, w.priority);
    }
    assert_eq!(runs[1] + runs[2], 60);
    assert_eq!(runs[2], 50);
    assert_eq!(runs[1], 10);
}

#[test]
fn strides_stay_within_half_big_stride() {
    let mut q: StrideQueue<u32> = StrideQueue::new();
    q.push(1, 0, 2);
    q.push(2, 0, 3);
    q.push(3, 0, 7);
    for _ in 0..100 {
        let w = q.pop().unwrap();
        q.push(w.task, w.stride, w.priority);
        let mut strides = Vec::new();
        let mut back = Vec::new();
        while let Some(x) = q.pop() {
            // undo the advance that pop recorded, to look at the queue as it was
            strides.push(x.stride - BIG_STRIDE / x.priority as u128);
            back.push(x);
        }
        for x in back {
            q.push(x.task, x.stride - BIG_STRIDE / x.priority as u128, x.priority);
        }
        let lo = *strides.iter().min().unwrap();
        let hi = *strides.iter().max().unwrap();
        assert!(hi - lo <= BIG_STRIDE / 2);
    }
}

#[test]
fn scheduled_adds_big_stride_over_priority() {
    let mut w = StrideWrapper::new('x', 7, 5);
    w.scheduled();
    assert_eq!(w.stride, 7 + 4_000_000_000);
    assert_eq!(w.priority, 5);
    assert_eq!(w.task, 'x');
}
