use ms_gc::GC;
use ms_gc::GCObj;
use ms_gc::Trace;

struct Circular(Option<GCObj<Circular>>, i32);

impl Trace for Circular {
    fn trace(&self) -> Vec<usize> {
        match &self.0 {
            Some(obj) => obj.trace(),
            None => Vec::new(),
        }
    }
}

#[test]
fn circular_ref() {
    let mut gc: GC<Circular> = GC::new();
    let c1 = gc.allocate(Circular(None, 0));
    let c2 = gc.allocate(Circular(None, 1));

    println!("PRE: {}", gc.get(&c1).1);
    println!("PRE: {}", gc.get(&c2).1);

    gc.put(&c1, Circular(Some(c2.clone()), 0));
    gc.put(&c2, Circular(Some(c1.clone()), 1));

    gc.mark(&vec![c1.clone(), c2.clone()]);
    gc.sweep();

    gc.mark(&vec![c1.clone()]);
    gc.sweep();

    println!("POST: {}", gc.get(&c1).1);
    println!("POST: {}", gc.get(&c2).1);
}

#[test]
fn two_node_cycle_survives_then_dies() {
    let mut gc: GC<Circular> = GC::new();
    let c1 = gc.allocate(Circular(None, 0));
    let c2 = gc.allocate(Circular(None, 1));
    gc.put(&c1, Circular(Some(c2.clone()), 0));
    gc.put(&c2, Circular(Some(c1.clone()), 1));

    gc.mark(&vec![c1.clone(), c2.clone()]);
    gc.sweep();
    assert_eq!(gc.len(), 2);
    assert!(gc.contains(&c1) && gc.contains(&c2));

    // c1 alone still reaches c2 through the cycle.
    gc.mark(&vec![c1.clone()]);
    gc.sweep();
    assert_eq!(gc.len(), 2);
    assert!(gc.contains(&c1) && gc.contains(&c2));
    assert_eq!(gc.get(&c2).1, 1);

    // With no roots the whole cycle is unreachable.
    gc.mark(&vec![]);
    gc.sweep();
    assert_eq!(gc.len(), 0);
    assert!(!gc.contains(&c1) && !gc.contains(&c2));
}

#[test]
fn mixed_survivors_and_cycles() {
    let mut gc: GC<Circular> = GC::new();
    let a = gc.allocate(Circular(None, 10));
    let b = gc.allocate(Circular(None, 11));
    let c = gc.allocate(Circular(None, 12));
    gc.put(&a, Circular(Some(b.clone()), 10));
    gc.put(&b, Circular(Some(c.clone()), 11));
    gc.put(&c, Circular(Some(a.clone()), 12));
    let x = gc.allocate(Circular(None, 99));

    gc.collect(&vec![x.clone()]);

    assert_eq!(gc.len(), 1);
    assert!(gc.contains(&x));
    assert!(!gc.contains(&a) && !gc.contains(&b) && !gc.contains(&c));
    assert_eq!(gc.get(&x).1, 99);
}

#[test]
fn linear_chain_rooted_at_head() {
    let n: usize = 16;
    let mut gc: GC<Circular> = GC::new();
    let mut next: Option<GCObj<Circular>> = None;
    let mut first: Option<GCObj<Circular>> = None;
    let mut i: i32 = n as i32;
    while i > 0 {
        let h = gc.allocate(Circular(next.take(), i - 1));
        next = Some(h.clone());
        first = Some(h);
        i -= 1;
    }
    let b0 = first.unwrap();
    assert_eq!(gc.len(), n);

    gc.mark(&vec![b0.clone()]);
    gc.sweep();
    assert_eq!(gc.len(), n);
    assert!(gc.contains(&b0));

    gc.mark(&vec![]);
    gc.sweep();
    assert_eq!(gc.len(), 0);
    assert!(!gc.contains(&b0));
}
