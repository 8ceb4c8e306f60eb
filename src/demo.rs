//! Small demonstration functions: arithmetic and greetings.

use vstd::prelude::*;
use crate::text::concat;

verus! {

/// The sum of two integers; the sum must fit in an `i32`.
pub fn add(a: i32, b: i32) -> (r: i32)
    requires
        i32::MIN <= a + b <= i32::MAX,
    ensures
        r == a + b,
{
    a + b
}

/// A greeting for `name`.
pub fn greet(name: &str) -> (r: String)
    ensures
        r@ == "Hello, "@ + name@ + "! Welcome to Low-Code Platform WASM."@,
{
    let mut s = concat("Hello, ", name);
    s.append("! Welcome to Low-Code Platform WASM.");
    s
}

/// `message` marked as coming from this module.
pub fn print(message: &str) -> (r: String)
    ensures
        r@ == "[WASM] "@ + message@,
{
    concat("[WASM] ", message)
}

/// `message` marked as coming from this module; the caller adds the time.
pub fn print_with_timestamp(message: &str) -> (r: String)
    ensures
        r@ == "[WASM] "@ + message@,
{
    concat("[WASM] ", message)
}

/// The Fibonacci numbers, from 0 and 1.
pub open spec fn fib(n: nat) -> nat
    decreases n,
{
    if n <= 1 {
        n
    } else {
        fib((n - 1) as nat) + fib((n - 2) as nat)
    }
}

proof fn lemma_fib_monotonic(i: nat, j: nat)
    requires
        i <= j,
    ensures
        fib(i) <= fib(j),
    decreases j,
{
    if i < j {
        lemma_fib_monotonic(i, (j - 1) as nat);
        if j >= 2 {
            assert(fib(j) == fib((j - 1) as nat) + fib((j - 2) as nat));
        } else {
            assert(j == 1 && i == 0);
        }
    }
}

/// The `n`th Fibonacci number; it must fit in a `u64`.
pub fn fibonacci(n: u32) -> (r: u64)
    requires
        fib(n as nat) <= u64::MAX,
    ensures
        r == fib(n as nat),
{
    if n <= 1 {
        return n as u64;
    }
    let mut a: u64 = 0;
    let mut b: u64 = 1;
    let mut i: u32 = 1;
    while i < n
        invariant
            1 <= i <= n,
            a == fib((i - 1) as nat),
            b == fib(i as nat),
            fib(n as nat) <= u64::MAX,
        decreases n - i,
    {
        proof {
            lemma_fib_monotonic((i + 1) as nat, n as nat);
            assert(fib((i + 1) as nat) == fib(i as nat) + fib((i - 1) as nat));
        }
        let t = a + b;
        a = b;
        b = t;
        i += 1;
    }
    b
}

} // verus!
