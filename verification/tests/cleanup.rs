use ms_gc::GC;
use ms_gc::Trace;
use std::cell::Cell;
use std::rc::Rc;

struct Counted(Rc<Cell<u32>>);

impl Drop for Counted {
    fn drop(&mut self) {
        self.0.set(self.0.get() + 1);
    }
}

impl Trace for Counted {
    fn trace(&self) -> Vec<usize> {
        Vec::new()
    }
}

#[test]
fn destructors_run_on_reclamation() {
    let drops = Rc::new(Cell::new(0u32));
    let mut gc: GC<Counted> = GC::new();
    let _a = gc.allocate(Counted(drops.clone()));
    let b = gc.allocate(Counted(drops.clone()));
    let _c = gc.allocate(Counted(drops.clone()));

    gc.mark(&vec![b.clone()]);
    gc.sweep();
    assert_eq!(drops.get(), 2);

    gc.sweep();
    assert_eq!(drops.get(), 3);
    assert_eq!(gc.len(), 0);
}

#[test]
fn simple_cleanup() {
    let mut gc: GC<i32> = GC::new();
    let o1 = gc.allocate(5);
    let o2 = gc.allocate(10);
    let o3 = gc.allocate(15);

    gc.sweep();

    assert!(!gc.contains(&o1));
    assert!(!gc.contains(&o2));
    assert!(!gc.contains(&o3));
}

#[test]
fn sweep_without_mark_empties_list() {
    let mut gc: GC<i32> = GC::new();
    let a = gc.allocate(5);
    let b = gc.allocate(10);
    let c = gc.allocate(15);
    assert_eq!(gc.len(), 3);
    assert_eq!(*gc.get(&a), 5);
    assert_eq!(*gc.get(&b), 10);
    assert_eq!(*gc.get(&c), 15);

    gc.sweep();

    assert_eq!(gc.len(), 0);
    assert!(!gc.contains(&a));
    assert!(!gc.contains(&b));
    assert!(!gc.contains(&c));
}

#[test]
fn single_survivor() {
    let mut gc: GC<i32> = GC::new();
    let a = gc.allocate(1);
    let b = gc.allocate(2);
    let c = gc.allocate(3);

    gc.mark(&vec![b.clone()]);
    gc.sweep();

    assert!(!gc.contains(&a));
    assert!(gc.contains(&b));
    assert!(!gc.contains(&c));
    assert_eq!(gc.len(), 1);
    assert!(!gc.marked(&b));
    assert_eq!(*gc.get(&b), 2);
}

#[test]
fn mark_sets_and_sweep_clears() {
    let mut gc: GC<u64> = GC::new();
    let a = gc.allocate(7);
    assert!(!gc.marked(&a));

    gc.mark(&vec![a.clone()]);
    assert!(gc.marked(&a));

    gc.sweep();
    assert!(gc.contains(&a));
    assert!(!gc.marked(&a));
}

#[test]
fn repeated_collection_reuses_slots() {
    let mut gc: GC<usize> = GC::new();
    for _ in 0..5 {
        for j in 0..100 {
            gc.allocate(j);
        }
        gc.mark(&vec![]);
        gc.sweep();
        assert_eq!(gc.len(), 0);
        assert_eq!(gc.slots(), 100);
    }
}

#[test]
fn collect_with_empty_roots_reclaims_everything() {
    let mut gc: GC<i64> = GC::new();
    let a = gc.allocate(-1);
    let b = gc.allocate(-2);
    gc.collect(&vec![]);
    assert_eq!(gc.len(), 0);
    assert!(!gc.contains(&a));
    assert!(!gc.contains(&b));
}
