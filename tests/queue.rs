use route_graph::queue::MinQueue;

#[test]
fn pops_in_priority_order() {
    let mut q: MinQueue<&str> = MinQueue::new();
    assert!(q.is_empty());
    q.push(5, "e");
    q.push(1, "a");
    q.push(3, "c");
    q.push(1, "b");
    let mut got = Vec::new();
    while let Some((p, v)) = q.pop_min() {
        got.push((p, v));
    }
    assert_eq!(got.len(), 4);
    assert_eq!(got[0].0, 1);
    assert_eq!(got[1].0, 1);
    assert_eq!(got[2], (3, "c"));
    assert_eq!(got[3], (5, "e"));
    assert!(q.is_empty());
    assert_eq!(q.pop_min(), None);
}
