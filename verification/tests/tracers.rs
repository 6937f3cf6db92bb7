use ms_gc::GC;
use ms_gc::GCObj;
use ms_gc::Trace;

#[test]
fn scalar_tracers_report_nothing() {
    assert_eq!(5i32.trace(), Vec::<usize>::new());
    assert_eq!(0u8.trace(), Vec::<usize>::new());
    assert_eq!(true.trace(), Vec::<usize>::new());
    assert_eq!(7usize.trace(), Vec::<usize>::new());
    assert_eq!((-3i64).trace(), Vec::<usize>::new());
}

#[test]
fn handle_tracer_reports_its_block() {
    let mut gc: GC<i32> = GC::new();
    let a = gc.allocate(1);
    let out = a.trace();
    assert_eq!(out.len(), 1);
    let again = a.clone().trace();
    assert_eq!(out, again);
}

#[test]
fn option_tracer_follows_the_inner_value() {
    let mut gc: GC<i32> = GC::new();
    let a = gc.allocate(1);
    assert_eq!(Some(a.clone()).trace(), a.trace());
    assert_eq!(None::<GCObj<i32>>.trace(), Vec::<usize>::new());
}

#[test]
fn sequence_tracer_visits_elements_in_order() {
    let mut gc: GC<i32> = GC::new();
    let a = gc.allocate(1);
    let b = gc.allocate(2);
    let v = vec![a.clone(), b.clone()];
    let expected = [a.trace(), b.trace()].concat();
    assert_eq!(v.trace(), expected);
    assert_eq!(Vec::<GCObj<i32>>::new().trace(), Vec::<usize>::new());
}

#[test]
fn vectors_of_handles_keep_their_targets_alive() {
    let mut gc: GC<i32> = GC::new();
    let a = gc.allocate(1);
    let b = gc.allocate(2);
    let c = gc.allocate(3);
    let roots = vec![a.clone(), c.clone()];
    gc.collect(&roots);
    assert!(gc.contains(&a));
    assert!(!gc.contains(&b));
    assert!(gc.contains(&c));
    assert_eq!(gc.len(), 2);
}

#[test]
fn put_replaces_only_that_payload() {
    let mut gc: GC<i32> = GC::new();
    let a = gc.allocate(1);
    let b = gc.allocate(2);
    gc.put(&a, 100);
    assert_eq!(*gc.get(&a), 100);
    assert_eq!(*gc.get(&b), 2);
    assert_eq!(gc.len(), 2);
}
