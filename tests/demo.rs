use json_core::demo::{add, fibonacci, greet, print, print_with_timestamp};

#[test]
fn adds() {
    assert_eq!(add(2, 3), 5);
    assert_eq!(add(-7, 2), -5);
}

#[test]
fn greets() {
    assert_eq!(greet("Ann"), "Hello, Ann! Welcome to Low-Code Platform WASM.");
}

#[test]
fn fibonacci_numbers() {
    assert_eq!(fibonacci(0), 0);
    assert_eq!(fibonacci(1), 1);
    assert_eq!(fibonacci(2), 1);
    assert_eq!(fibonacci(10), 55);
    assert_eq!(fibonacci(93), 12200160415121876738);
}

#[test]
fn prints() {
    assert_eq!(print("x"), "[WASM] x");
    assert_eq!(print_with_timestamp("y"), "[WASM] y");
}
