use icfpc2023::heap::DistQueue;

#[test]
fn queue_pops_smallest_distance_then_largest_vertex() {
    let mut q = DistQueue::new();
    for e in [(5i128, 1usize), (3, 4), (3, 7), (-2, 0), (5, 9), (3, 4)] {
        q.push(e);
    }
    assert_eq!(q.len(), 6);
    let mut out = vec![];
    while let Some(e) = q.pop() {
        out.push(e);
    }
    assert_eq!(out, vec![(-2, 0), (3, 7), (3, 4), (3, 4), (5, 9), (5, 1)]);
    assert_eq!(q.pop(), None);
}

#[test]
fn queue_matches_sorting_on_many_entries() {
    let mut q = DistQueue::new();
    let mut all = vec![];
    let mut x: i128 = 17;
    for v in 0..200usize {
        x = (x * 31 + 7) % 101;
        q.push((x - 50, v % 13));
        all.push((x - 50, v % 13));
    }
    all.sort_by(|a, b| a.0.cmp(&b.0).then(b.1.cmp(&a.1)));
    let mut out = vec![];
    while let Some(e) = q.pop() {
        out.push(e);
    }
    assert_eq!(out, all);
}
