// Exploration of value moves, mutable references and pinned references:
// how swapping values behind plain and pinned pointers behaves.

use std::borrow::BorrowMut;
use std::marker::PhantomPinned;
use std::pin::Pin;

// The exact type names are not observable here without unstable machinery;
// a value's size is printed in their place.
fn size_of_value<T>(_v: &T) -> usize {
    std::mem::size_of::<T>()
}

#[derive(Debug)]
struct S {
    _x: i32,
    _y: PhantomPinned,
}

impl S {
    fn new(x: i32) -> S {
        S { _x: x, _y: PhantomPinned::default() }
    }
}

#[test]
fn test_1() {
    let mut a: i32 = 2;
    let mut b: i32 = 200;
    println!("(a, b) = ({a:?}, {b:?})");
    println!("(pa, pb) = ({:p}, {:p})", &a, &b);

    core::mem::swap(&mut a, &mut b);
    println!("(a, b) = ({a:?}, {b:?})");
    println!("(pa, pb) = ({:p}, {:p})", &a, &b);
}

#[test]
fn test_2() {
    let mut a: i32 = 2;
    println!("a -> {a:?}");

    let pa = &mut a;
    println!("*pa -> {}", *pa);
    println!("type of pa -> {}", size_of_value(pa));
    println!("type of &pa -> {}", size_of_value(&pa));
    *pa = 200;

    println!("a -> {a:?}");
}

#[test]
fn test_3() {
    let a: i32 = 2;
    let b: i32 = 200;
    let mut c = Pin::new(&a);
    let mut d = Pin::new(&b);

    println!("type of c -> {}", size_of_value(&c));

    println!("\n(a, b) -> ({a:?}, {b:?}) / ({:p}, {:p})", &a, &b);
    println!("(c, d) -> ({c:?}, {d:?}) / ({c:p}, {d:p})");
    println!("(&c, &d) -> ({0:?}, {1:?}) / ({0:p}, {1:p})", &c, &d);

    core::mem::swap(c.borrow_mut(), d.borrow_mut());
    println!("\n(a, b) -> ({a:?}, {b:?}) / ({:p}, {:p})", &a, &b);
    println!("(c, d) -> ({c:?}, {d:?}) / ({c:p}, {d:p})");
    println!("(&c, &d) -> ({0:?}, {1:?}) / ({0:p}, {1:p})", &c, &d);
}

#[test]
fn test_4() {
    let mut a: i32 = 2;
    let mut b: i32 = 200;
    println!("(a, b) -> ({a:?}, {b:?}) / ({:p}, {:p})", &a, &b);
    {
        let mut c = Pin::new(&mut a);
        let mut d = Pin::new(&mut b);

        println!("\ntype of c -> {}", size_of_value(&c));

        println!("\n(c, d) -> ({c:?}, {d:?}) / ({c:p}, {d:p})");
        println!("(&c, &d) -> ({0:?}, {1:?}) / ({0:p}, {1:p})", &c, &d);

        core::mem::swap::<i32>(c.borrow_mut(), d.borrow_mut());
        println!("(c, d) -> ({c:?}, {d:?}) / ({c:p}, {d:p})");
        println!("(&c, &d) -> ({0:?}, {1:?}) / ({0:p}, {1:p})", &c, &d);
    }
    println!("\n(a, b) -> ({a:?}, {b:?}) / ({:p}, {:p})", &a, &b);
}

#[test]
fn test_5() {
    let a = S::new(2);
    let b = S::new(200);

    println!("type of a -> {}", size_of_value(&a));
    println!("a -> {a:?}");

    // S is !Unpin because of the PhantomPinned field, so Pin::new is not
    // available; a pinned box works instead.
    let mut c = Box::pin(&a);
    let mut d = Box::pin(&b);

    println!("\ntype of c -> {}", size_of_value(&c));
    println!("\n(c, d) -> ({c:?}, {d:?}) / ({c:p}, {d:p})");
    println!("(&c, &d) -> ({0:?}, {1:?}) / ({0:p}, {1:p})", &c, &d);

    // The pins themselves (pointers to the pinned values) can still be swapped.
    core::mem::swap(c.borrow_mut(), d.borrow_mut());
    println!("\n(c, d) -> ({c:?}, {d:?}) / ({c:p}, {d:p})");
    println!("(&c, &d) -> ({0:?}, {1:?}) / ({0:p}, {1:p})", &c, &d);
}
