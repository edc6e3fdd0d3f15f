//! Executable closures seen as mathematical functions.
//!
//! Arithmetic on amplitudes is handed to the verified code as closures. The
//! code relies on one thing only: that a closure can be called on every
//! argument. Where a contract speaks of several calls, it speaks of the function
//! that a closure computes.

use vstd::prelude::*;

verus! {

/// `f` takes every argument.
pub open spec fn total1<A, R, F: Fn(A) -> R>(f: F) -> bool {
    forall|x: A| #[trigger] call_requires(f, (x,))
}

/// `f` takes every pair of arguments.
pub open spec fn total2<A, B, R, F: Fn(A, B) -> R>(f: F) -> bool {
    forall|x: A, y: B| #[trigger] call_requires(f, (x, y))
}

/// `f` takes all triples of arguments.
pub open spec fn total3<A, B, C, R, F: Fn(A, B, C) -> R>(f: F) -> bool {
    forall|x: A, y: B, z: C| #[trigger] call_requires(f, (x, y, z))
}

/// Whatever `f` returns is what the function `g` gives.
pub open spec fn computes1<A, R, F: Fn(A) -> R>(f: F, g: spec_fn(A) -> R) -> bool {
    forall|x: A, r: R| #[trigger] call_ensures(f, (x,), r) ==> r == g(x)
}

/// `f` can return the given text for `x`.
pub open spec fn writes<A, F: Fn(A) -> String>(f: F, x: A, text: Seq<char>) -> bool {
    exists|r: String| #[trigger] call_ensures(f, (x,), r) && r@ == text
}

/// Whatever `f` returns is what the function `g` gives.
pub open spec fn computes2<A, B, R, F: Fn(A, B) -> R>(f: F, g: spec_fn(A, B) -> R) -> bool {
    forall|x: A, y: B, r: R| #[trigger] call_ensures(f, (x, y), r) ==> r == g(x, y)
}

/// Whatever `f` returns is what the function `g` gives.
pub open spec fn computes3<A, B, C, R, F: Fn(A, B, C) -> R>(
    f: F,
    g: spec_fn(A, B, C) -> R,
) -> bool {
    forall|x: A, y: B, z: C, r: R| #[trigger]
        call_ensures(f, (x, y, z), r) ==> r == g(x, y, z)
}

/// A closure that can be called on every argument counts as such.
pub proof fn callable_is_total<A, B, C, R, F: Fn(A) -> R, G: Fn(A, B) -> R, H: Fn(A, B, C) -> R>(
    f: F,
    g: G,
    h: H,
)
    ensures
        (forall|x: A| #[trigger] call_requires(f, (x,))) <==> total1(f),
        (forall|x: A, y: B| #[trigger] call_requires(g, (x, y))) <==> total2(g),
        (forall|x: A, y: B, z: C| #[trigger] call_requires(h, (x, y, z))) <==> total3(h),
{
}

/// A closure that returns nothing but what a function gives computes that function.
pub proof fn returning_is_computing<
    A,
    B,
    C,
    R,
    F: Fn(A) -> R,
    G: Fn(A, B) -> R,
    H: Fn(A, B, C) -> R,
>(
    f: F,
    f_spec: spec_fn(A) -> R,
    g: G,
    g_spec: spec_fn(A, B) -> R,
    h: H,
    h_spec: spec_fn(A, B, C) -> R,
)
    ensures
        (forall|x: A, r: R| #[trigger] call_ensures(f, (x,), r) ==> r == f_spec(x)) <==> computes1(
            f,
            f_spec,
        ),
        (forall|x: A, y: B, r: R| #[trigger] call_ensures(g, (x, y), r) ==> r == g_spec(x, y))
            <==> computes2(g, g_spec),
        (forall|x: A, y: B, z: C, r: R| #[trigger]
            call_ensures(h, (x, y, z), r) ==> r == h_spec(x, y, z)) <==> computes3(h, h_spec),
{
}

/// A text that a closure writes is one that it can return.
pub proof fn writing_is_returning<A, F: Fn(A) -> String>(f: F, x: A, text: Seq<char>)
    ensures
        writes(f, x, text) <==> exists|r: String| #[trigger] call_ensures(f, (x,), r) && r@ == text,
{
}

} // verus!
