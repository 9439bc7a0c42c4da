use crossbeam::channel::{bounded, unbounded, Receiver};
use minitrace::{new_span, new_span_root, ContextStack, Registry, Span};

fn drain(rx: &Receiver<Span>) -> Vec<Span> {
    rx.try_iter().collect()
}

#[test]
fn root_released_reports_once() {
    let (tx, rx) = unbounded();
    let mut registry = Registry::new();
    let root = new_span_root(&mut registry, tx, 100).unwrap();
    let id = root.id();
    let reported = registry.release(root, 250);
    assert_eq!(reported.len(), 1);
    let got = drain(&rx);
    assert_eq!(got, reported);
    assert_eq!(got[0].id, id);
    assert_eq!(got[0].parent, None);
    assert_eq!(got[0].start_time, 100);
    assert_eq!(got[0].end_time, 250);
}

#[test]
fn end_time_never_precedes_start() {
    let (tx, rx) = unbounded();
    let mut registry = Registry::new();
    let root = new_span_root(&mut registry, tx, 500).unwrap();
    registry.release(root, 400);
    let got = drain(&rx);
    assert_eq!(got.len(), 1);
    assert_eq!(got[0].end_time, 500);
}

#[test]
fn no_active_span_gives_noop_guard() {
    let (tx, rx) = unbounded();
    let mut registry = Registry::new();
    let mut stack = ContextStack::new();
    let root = new_span_root(&mut registry, tx, 1).unwrap();
    let child = new_span(&mut registry, &stack, 2).unwrap();
    assert!(child.enter(&mut stack).is_none());
    assert_eq!(stack.depth(), 0);
    assert!(child.into_inner().is_none());
    assert!(drain(&rx).is_empty());
    // The root keeps its single reference: one release reports it.
    let reported = registry.release(root, 3);
    assert_eq!(reported.len(), 1);
}

#[test]
fn children_reported_before_parent() {
    let (tx, rx) = unbounded();
    let mut registry = Registry::new();
    let mut stack = ContextStack::new();
    let parent = new_span_root(&mut registry, tx, 10).unwrap();
    let pid = parent.id();
    let mut children = Vec::new();
    {
        let entered = parent.enter(&mut stack);
        for t in 0..3u64 {
            children.push(new_span(&mut registry, &stack, 11 + t).unwrap().into_inner().unwrap());
        }
        entered.exit(&mut stack);
    }
    let c1 = children.remove(1);
    assert_eq!(registry.release(c1, 20).len(), 1);
    for c in children {
        assert_eq!(registry.release(c, 21).len(), 1);
    }
    assert_eq!(registry.release(parent, 30).len(), 1);
    let got = drain(&rx);
    assert_eq!(got.len(), 4);
    for s in &got[..3] {
        assert_eq!(s.parent, Some(pid));
    }
    assert_eq!(got[3].id, pid);
    assert_eq!(got[3].parent, None);
}

#[test]
fn out_of_order_exit_is_visible_before_exit() {
    let (tx, _rx) = unbounded();
    let mut registry = Registry::new();
    let mut stack = ContextStack::new();
    let a = new_span_root(&mut registry, tx.clone(), 1).unwrap();
    let b = new_span_root(&mut registry, tx, 2).unwrap();
    let ea = a.enter(&mut stack);
    let eb = b.enter(&mut stack);
    // Ending `ea` now would break the nesting: it is not innermost.
    assert_ne!(stack.current(), Some(ea.id()));
    assert_eq!(stack.current(), Some(eb.id()));
    eb.exit(&mut stack);
    assert_eq!(stack.current(), Some(ea.id()));
    ea.exit(&mut stack);
    assert_eq!(stack.current(), None);
}

#[test]
fn empty_stack_has_no_current_span() {
    let stack = ContextStack::new();
    assert_eq!(stack.current(), None);
    assert_eq!(stack.depth(), 0);
}

#[test]
fn reported_span_is_not_resolvable() {
    let (tx, rx) = unbounded();
    let mut registry = Registry::new();
    let mut stack = ContextStack::new();
    let root = new_span_root(&mut registry, tx, 1).unwrap();
    let rid = root.id();
    let e = root.enter(&mut stack);
    let child = new_span(&mut registry, &stack, 2).unwrap().into_inner().unwrap();
    let cid = child.id();
    e.exit(&mut stack);
    let first = registry.release(child, 3);
    assert_eq!(first.len(), 1);
    assert_eq!(first[0].id, cid);
    let second = registry.release(root, 4);
    assert_eq!(second.len(), 1);
    assert_eq!(second[0].id, rid);
    assert_eq!(drain(&rx).len(), 2);
}

#[test]
fn nested_chain_reports_in_post_order() {
    let (tx, rx) = unbounded();
    let mut registry = Registry::new();
    let mut stack = ContextStack::new();
    let r = new_span_root(&mut registry, tx, 1).unwrap();
    let er = r.enter(&mut stack);
    let c1 = new_span(&mut registry, &stack, 2).unwrap().into_inner().unwrap();
    let e1 = c1.enter(&mut stack);
    let c2 = new_span(&mut registry, &stack, 3).unwrap().into_inner().unwrap();
    e1.exit(&mut stack);
    er.exit(&mut stack);
    let (rid, c1id, c2id) = (r.id(), c1.id(), c2.id());

    registry.release(c2, 4);
    let got = drain(&rx);
    assert_eq!(got.len(), 1);
    assert_eq!(got[0].id, c2id);
    assert_eq!(got[0].parent, Some(c1id));

    registry.release(c1, 5);
    let got = drain(&rx);
    assert_eq!(got.len(), 1);
    assert_eq!(got[0].id, c1id);
    assert_eq!(got[0].parent, Some(rid));

    registry.release(r, 6);
    let got = drain(&rx);
    assert_eq!(got.len(), 1);
    assert_eq!(got[0].id, rid);
    assert_eq!(got[0].parent, None);
}

#[test]
fn last_guard_released_first_cascades_to_ancestors() {
    let (tx, rx) = unbounded();
    let mut registry = Registry::new();
    let mut stack = ContextStack::new();
    let r = new_span_root(&mut registry, tx, 1).unwrap();
    let er = r.enter(&mut stack);
    let c1 = new_span(&mut registry, &stack, 2).unwrap().into_inner().unwrap();
    let e1 = c1.enter(&mut stack);
    let c2 = new_span(&mut registry, &stack, 3).unwrap().into_inner().unwrap();
    e1.exit(&mut stack);
    er.exit(&mut stack);
    let (rid, c1id, c2id) = (r.id(), c1.id(), c2.id());
    assert!(registry.release(r, 4).is_empty());
    assert!(registry.release(c1, 5).is_empty());
    let reported = registry.release(c2, 6);
    let ids: Vec<usize> = reported.iter().map(|s| s.id).collect();
    assert_eq!(ids, vec![c2id, c1id, rid]);
    assert_eq!(drain(&rx), reported);
}

#[test]
fn child_reports_to_parent_sink() {
    let (tx_a, rx_a) = unbounded();
    let (tx_b, rx_b) = unbounded();
    let mut registry = Registry::new();
    let mut stack = ContextStack::new();
    let a = new_span_root(&mut registry, tx_a, 1).unwrap();
    let b = new_span_root(&mut registry, tx_b, 1).unwrap();
    let eb = b.enter(&mut stack);
    let child = new_span(&mut registry, &stack, 2).unwrap().into_inner().unwrap();
    eb.exit(&mut stack);
    registry.release(child, 3);
    assert!(drain(&rx_a).is_empty());
    assert_eq!(drain(&rx_b).len(), 1);
    registry.release(a, 4);
    registry.release(b, 4);
    assert_eq!(drain(&rx_a).len(), 1);
    assert_eq!(drain(&rx_b).len(), 1);
}

#[test]
fn full_or_closed_sink_drops_silently() {
    let (tx, rx) = bounded(1);
    let mut registry = Registry::new();
    let a = new_span_root(&mut registry, tx.clone(), 1).unwrap();
    let b = new_span_root(&mut registry, tx.clone(), 1).unwrap();
    assert_eq!(registry.release(a, 2).len(), 1);
    assert_eq!(registry.release(b, 2).len(), 1);
    assert_eq!(drain(&rx).len(), 1);
    drop(rx);
    let c = new_span_root(&mut registry, tx, 3).unwrap();
    let cid = c.id();
    let reported = registry.release(c, 4);
    assert_eq!(reported.len(), 1);
    assert_eq!(reported[0].id, cid);
}

#[test]
fn entering_pushes_and_exiting_pops() {
    let (tx, _rx) = unbounded();
    let mut registry = Registry::new();
    let mut stack = ContextStack::new();
    let r = new_span_root(&mut registry, tx, 1).unwrap();
    let e1 = r.enter(&mut stack);
    let e2 = r.enter(&mut stack);
    assert_eq!(stack.depth(), 2);
    assert_eq!(stack.current(), Some(r.id()));
    e2.exit(&mut stack);
    e1.exit(&mut stack);
    assert_eq!(stack.current(), None);
}
