// End-to-end tests: a two-button lock with diff-suppressed writes, nested
// derived values, and a graph mixing several value types through one enum.

use reactive_graph::Observable;
use reactive_graph::ReactiveContext;

#[derive(Debug, Clone, PartialEq)]
enum Part {
    Button { active: bool },
    Lock { unlocked: bool },
}

impl Part {
    const OFF: Self = Part::Button { active: false };
    const ON: Self = Part::Button { active: true };

    fn active(&self) -> bool {
        match self {
            Part::Button { active } => *active,
            Part::Lock { .. } => false,
        }
    }

    fn unlocked(&self) -> bool {
        match self {
            Part::Lock { unlocked } => *unlocked,
            Part::Button { .. } => false,
        }
    }
}

/// A lock will only unlock if both of its buttons are active
fn two_buttons(vals: Vec<Part>) -> Part {
    let unlocked = vals[0].active() && vals[1].active();
    println!("Recomputing lock. Unlocked: {unlocked}");
    Part::Lock { unlocked }
}

#[test]
fn basic() {
    let mut reactor = ReactiveContext::new(|_op: u64, vals: Vec<Part>| two_buttons(vals));

    let button1 = reactor.new_signal(Part::OFF);
    let button2 = reactor.new_signal(Part::OFF);
    let lock1 = reactor.new_memo(
        vec![button1.reactive_entity(), button2.reactive_entity()],
        0,
    );
    assert!(!reactor.read(lock1).unlocked());

    let button3 = reactor.new_signal(Part::OFF);
    let lock2 = reactor.new_memo(
        vec![button1.reactive_entity(), button3.reactive_entity()],
        0,
    );
    assert!(!reactor.read(lock2).unlocked());

    reactor.send_signal(button1, Part::ON); // Automatically recomputes lock1 & lock2!
    reactor.send_signal(button2, Part::ON);
    for _ in 0..1000 {
        button1.send(&mut reactor, Part::ON); // diffing prevents triggering a recompute
    }
    assert!(lock1.read(&reactor).unlocked());

    reactor.send_signal(button3, Part::ON);
    assert!(reactor.read(lock2).unlocked());
}

#[test]
fn nested_derive() {
    let mut reactor = ReactiveContext::new(|_op: u64, n: Vec<f32>| n[0] + n[1]);

    let n1 = reactor.new_signal(1.0f32);
    let n2 = reactor.new_signal(10.0);
    let n3 = reactor.new_signal(100.0);

    // The following derives use signals as inputs
    let d1 = reactor.new_memo(vec![n1.reactive_entity(), n2.reactive_entity()], 0); // 1 + 10
    let d2 = reactor.new_memo(vec![n3.reactive_entity(), n2.reactive_entity()], 0); // 100 + 10

    // This derive uses other derives as inputs
    let d3 = reactor.new_memo(vec![d1.reactive_entity(), d2.reactive_entity()], 0); // 11 + 110
    assert_eq!(*reactor.read(d3), 121.0);
}

#[derive(Debug, Clone, PartialEq)]
enum Many {
    Foo(f32),
    Bar(f32),
    Baz(f32),
}

impl Many {
    fn raw(&self) -> f32 {
        match self {
            Many::Foo(x) | Many::Bar(x) | Many::Baz(x) => *x,
        }
    }
}

#[test]
fn many_types() {
    let mut reactor =
        ReactiveContext::new(|_op: u64, vals: Vec<Many>| Many::Baz(vals[0].raw() + vals[1].raw()));

    let foo = reactor.new_signal(Many::Foo(1.0));
    let bar = reactor.new_signal(Many::Bar(1.0));

    let baz = reactor.new_memo(vec![foo.reactive_entity(), bar.reactive_entity()], 0);

    assert_eq!(reactor.read(baz), &Many::Baz(2.0));
}
