use vstd::prelude::*;

use crate::ast::{ap, App, SKI};

verus! {

/// Reduction with a bound on the depth of nested reduction calls: `None` when
/// the bound is reached before a result.
///
/// The rules, tried at the root before anything else:
/// - `I x` gives the reduct of `x`;
/// - `K x y` gives the reduct of `x`;
/// - `S x y z` gives the reduct of `x z (y z)`;
/// - `K x` and `S x` give the combinator applied to the reduct of `x`, and
///   `S x y` the reducts of `x` and `y` under `S`;
/// - any other application `h a` reduces its head `h` first, then reduces
///   the application of that result to `a`;
/// - a combinator alone is its own reduct.
pub open spec fn reduce_within(t: SKI, fuel: nat) -> Option<SKI>
    decreases fuel,
{
    if fuel == 0 {
        None
    } else {
        let f = (fuel - 1) as nat;
        match t {
            SKI::Application(x) => {
                let c = x.combinator;
                let a = x.arg;
                match c {
                    SKI::I => reduce_within(a, f),
                    SKI::K => match reduce_within(a, f) {
                        Some(v) => Some(ap(SKI::K, v)),
                        None => None,
                    },
                    SKI::S => match reduce_within(a, f) {
                        Some(v) => Some(ap(SKI::S, v)),
                        None => None,
                    },
                    SKI::Application(y) => {
                        if y.combinator is K {
                            reduce_within(y.arg, f)
                        } else if y.combinator is S {
                            match (reduce_within(y.arg, f), reduce_within(a, f)) {
                                (Some(u), Some(v)) => Some(ap(ap(SKI::S, u), v)),
                                _ => None,
                            }
                        } else if y.combinator is Application && y.combinator->Application_0.combinator is S {
                            let x3 = y.combinator->Application_0.arg;
                            reduce_within(ap(ap(x3, a), ap(y.arg, a)), f)
                        } else {
                            match reduce_within(c, f) {
                                Some(h) => reduce_within(ap(h, a), f),
                                None => None,
                            }
                        }
                    },
                }
            },
            _ => Some(t),
        }
    }
}

/// `t` reduces to `r`: reduction of `t` ends, and its result is `r`.
pub open spec fn reduces_to(t: SKI, r: SKI) -> bool {
    exists|n: nat| #[trigger] reduce_within(t, n) == Some(r)
}

/// A term that no rule rewrites: a combinator, or `K x`, `S x`, `S x y`
/// with `x` and `y` in normal form.
pub open spec fn is_normal(t: SKI) -> bool
    decreases t,
{
    match t {
        SKI::Application(x) => match x.combinator {
            SKI::K => is_normal(x.arg),
            SKI::S => is_normal(x.arg),
            SKI::I => false,
            SKI::Application(y) => y.combinator is S && is_normal(y.arg) && is_normal(x.arg),
        },
        _ => true,
    }
}

/// A larger bound does not change a result that a smaller one reached.
pub proof fn lemma_more_fuel(t: SKI, n: nat, m: nat)
    requires
        reduce_within(t, n) is Some,
        n <= m,
    ensures
        reduce_within(t, m) == reduce_within(t, n),
    decreases n,
{
    let f = (n - 1) as nat;
    let g = (m - 1) as nat;
    if let SKI::Application(x) = t {
        let c = x.combinator;
        let a = x.arg;
        match c {
            SKI::Application(y) => {
                if y.combinator is K {
                    lemma_more_fuel(y.arg, f, g);
                } else if y.combinator is S {
                    lemma_more_fuel(y.arg, f, g);
                    lemma_more_fuel(a, f, g);
                } else if y.combinator is Application && y.combinator->Application_0.combinator is S {
                    let x3 = y.combinator->Application_0.arg;
                    lemma_more_fuel(ap(ap(x3, a), ap(y.arg, a)), f, g);
                } else {
                    lemma_more_fuel(c, f, g);
                    let h = reduce_within(c, f)->Some_0;
                    lemma_more_fuel(ap(h, a), f, g);
                }
            },
            _ => {
                lemma_more_fuel(a, f, g);
            },
        }
    }
}

/// Reduction is a function: a term reduces to at most one result.
pub proof fn lemma_reduction_deterministic(t: SKI, r1: SKI, r2: SKI)
    requires
        reduces_to(t, r1),
        reduces_to(t, r2),
    ensures
        r1 == r2,
{
    let n1 = choose|n: nat| reduce_within(t, n) == Some(r1);
    let n2 = choose|n: nat| reduce_within(t, n) == Some(r2);
    if n1 <= n2 {
        lemma_more_fuel(t, n1, n2);
    } else {
        lemma_more_fuel(t, n2, n1);
    }
}

/// What reduction returns is in normal form.
pub proof fn lemma_result_normal(t: SKI, n: nat)
    requires
        reduce_within(t, n) is Some,
    ensures
        is_normal(reduce_within(t, n)->Some_0),
    decreases n,
{
    let f = (n - 1) as nat;
    if let SKI::Application(x) = t {
        let c = x.combinator;
        let a = x.arg;
        match c {
            SKI::Application(y) => {
                if y.combinator is K {
                    lemma_result_normal(y.arg, f);
                } else if y.combinator is S {
                    lemma_result_normal(y.arg, f);
                    lemma_result_normal(a, f);
                } else if y.combinator is Application && y.combinator->Application_0.combinator is S {
                    let x3 = y.combinator->Application_0.arg;
                    lemma_result_normal(ap(ap(x3, a), ap(y.arg, a)), f);
                } else {
                    let h = reduce_within(c, f)->Some_0;
                    lemma_result_normal(ap(h, a), f);
                }
            },
            _ => {
                lemma_result_normal(a, f);
            },
        }
    }
}

/// Reducing a result again gives that same result.
pub proof fn lemma_reduce_idempotent(t: SKI, r: SKI)
    requires
        reduces_to(t, r),
    ensures
        reduces_to(r, r),
        forall|r2: SKI| reduces_to(r, r2) ==> r2 == r,
{
    let n = choose|n: nat| reduce_within(t, n) == Some(r);
    lemma_reduct_stable(t, n);
    assert(reduce_within(r, n) == Some(r));
    assert forall|r2: SKI| reduces_to(r, r2) implies r2 == r by {
        lemma_reduction_deterministic(r, r, r2);
    }
}

/// A result reached within a bound reduces to itself within that same bound.
pub proof fn lemma_reduct_stable(t: SKI, n: nat)
    requires
        reduce_within(t, n) is Some,
    ensures
        reduce_within(reduce_within(t, n)->Some_0, n) == reduce_within(t, n),
    decreases n,
{
    let f = (n - 1) as nat;
    let r = reduce_within(t, n)->Some_0;
    if let SKI::Application(x) = t {
        let c = x.combinator;
        let a = x.arg;
        match c {
            SKI::I => {
                lemma_reduct_stable(a, f);
                lemma_more_fuel(r, f, n);
            },
            SKI::Application(y) => {
                if y.combinator is K {
                    lemma_reduct_stable(y.arg, f);
                    lemma_more_fuel(r, f, n);
                } else if y.combinator is S {
                    lemma_reduct_stable(y.arg, f);
                    lemma_reduct_stable(a, f);
                } else if y.combinator is Application && y.combinator->Application_0.combinator is S {
                    let x3 = y.combinator->Application_0.arg;
                    lemma_reduct_stable(ap(ap(x3, a), ap(y.arg, a)), f);
                    lemma_more_fuel(r, f, n);
                } else {
                    let h = reduce_within(c, f)->Some_0;
                    lemma_reduct_stable(ap(h, a), f);
                    lemma_more_fuel(r, f, n);
                }
            },
            _ => {
                lemma_reduct_stable(a, f);
            },
        }
    }
}

/// `eval` applied to its own result gives that result back.
pub proof fn lemma_eval_idempotent(t: SKI)
    ensures
        eval_result(eval_result(t)) == eval_result(t),
{
    if reduce_within(t, EVAL_BUDGET as nat) is Some {
        lemma_reduct_stable(t, EVAL_BUDGET as nat);
    }
}

/// `I t` reduces to exactly what `t` reduces to.
pub proof fn lemma_identity_law(t: SKI)
    ensures
        forall|r: SKI| reduces_to(ap(SKI::I, t), r) <==> reduces_to(t, r),
{
    assert forall|r: SKI| reduces_to(ap(SKI::I, t), r) <==> reduces_to(t, r) by {
        if reduces_to(ap(SKI::I, t), r) {
            let n = choose|n: nat| reduce_within(ap(SKI::I, t), n) == Some(r);
            assert(reduce_within(t, (n - 1) as nat) == Some(r));
        }
        if reduces_to(t, r) {
            let n = choose|n: nat| reduce_within(t, n) == Some(r);
            assert(reduce_within(ap(SKI::I, t), n + 1) == Some(r));
        }
    }
}

/// `K t1 t2` reduces to exactly what `t1` reduces to.
pub proof fn lemma_constancy_law(t1: SKI, t2: SKI)
    ensures
        forall|r: SKI| reduces_to(ap(ap(SKI::K, t1), t2), r) <==> reduces_to(t1, r),
{
    let t = ap(ap(SKI::K, t1), t2);
    assert forall|r: SKI| reduces_to(t, r) <==> reduces_to(t1, r) by {
        if reduces_to(t, r) {
            let n = choose|n: nat| reduce_within(t, n) == Some(r);
            assert(reduce_within(t1, (n - 1) as nat) == Some(r));
        }
        if reduces_to(t1, r) {
            let n = choose|n: nat| reduce_within(t1, n) == Some(r);
            assert(reduce_within(t, n + 1) == Some(r));
        }
    }
}

/// `S K t2 t1` reduces to exactly what `t1` reduces to: `S K x` acts as `I`.
pub proof fn lemma_sk_identity_law(t1: SKI, t2: SKI)
    ensures
        forall|r: SKI| reduces_to(ap(ap(ap(SKI::S, SKI::K), t2), t1), r) <==> reduces_to(t1, r),
{
    let t = ap(ap(ap(SKI::S, SKI::K), t2), t1);
    let mid = ap(ap(SKI::K, t1), ap(t2, t1));
    assert forall|r: SKI| reduces_to(t, r) <==> reduces_to(t1, r) by {
        if reduces_to(t, r) {
            let n = choose|n: nat| reduce_within(t, n) == Some(r);
            assert(reduce_within(mid, (n - 1) as nat) == Some(r));
            assert(reduce_within(t1, (n - 2) as nat) == Some(r));
        }
        if reduces_to(t1, r) {
            let n = choose|n: nat| reduce_within(t1, n) == Some(r);
            assert(reduce_within(mid, n + 1) == Some(r));
            assert(reduce_within(t, n + 2) == Some(r));
        }
    }
}

fn reduce_fuel(t: SKI, fuel: u64) -> (r: Option<SKI>)
    ensures
        r == reduce_within(t, fuel as nat),
    decreases fuel,
{
    if fuel == 0 {
        return None;
    }
    let f = fuel - 1;
    match t {
        SKI::Application(x) => {
            let App { combinator: c, arg: a } = *x;
            match c {
                SKI::I => reduce_fuel(a, f),
                SKI::K => match reduce_fuel(a, f) {
                    Some(v) => Some(SKI::app(SKI::K, v)),
                    None => None,
                },
                SKI::S => match reduce_fuel(a, f) {
                    Some(v) => Some(SKI::app(SKI::S, v)),
                    None => None,
                },
                SKI::Application(y) => {
                    let App { combinator: c2, arg: a2 } = *y;
                    match c2 {
                        SKI::K => reduce_fuel(a2, f),
                        SKI::S => match reduce_fuel(a2, f) {
                            Some(u) => match reduce_fuel(a, f) {
                                Some(v) => Some(SKI::app(SKI::app(SKI::S, u), v)),
                                None => None,
                            },
                            None => None,
                        },
                        SKI::Application(z) => {
                            let App { combinator: c3, arg: a3 } = *z;
                            match c3 {
                                SKI::S => {
                                    let a_copy = a.clone();
                                    reduce_fuel(SKI::app(SKI::app(a3, a), SKI::app(a2, a_copy)), f)
                                },
                                other => {
                                    let head = SKI::app(SKI::app(other, a3), a2);
                                    match reduce_fuel(head, f) {
                                        Some(h) => reduce_fuel(SKI::app(h, a), f),
                                        None => None,
                                    }
                                },
                            }
                        },
                        SKI::I => {
                            let head = SKI::app(SKI::I, a2);
                            match reduce_fuel(head, f) {
                                Some(h) => reduce_fuel(SKI::app(h, a), f),
                                None => None,
                            }
                        },
                    }
                },
            }
        },
        other => Some(other),
    }
}

/// The largest bound on nesting that `eval` gives reduction; in practice
/// reduction runs out of stack long before.
pub const EVAL_BUDGET: u64 = 0xffff_ffff_ffff_ffff;

/// Reduces `skiexp` with at most `budget` nested reduction calls; `None` when
/// that bound is reached first.
pub fn eval_within(skiexp: SKI, budget: u64) -> (r: Option<SKI>)
    ensures
        r == reduce_within(skiexp, budget as nat),
{
    reduce_fuel(skiexp, budget)
}

/// What `eval` returns: the reduct of `t` within `EVAL_BUDGET`, and `t`
/// itself if that bound is reached first.
pub open spec fn eval_result(t: SKI) -> SKI {
    match reduce_within(t, EVAL_BUDGET as nat) {
        Some(v) => v,
        None => t,
    }
}

/// Reduces `skiexp` toward normal form.
pub fn eval(skiexp: SKI) -> (r: SKI)
    ensures
        r == eval_result(skiexp),
        reduce_within(skiexp, EVAL_BUDGET as nat) matches Some(v) ==> r == v && is_normal(r),
{
    proof {
        if reduce_within(skiexp, EVAL_BUDGET as nat) is Some {
            lemma_result_normal(skiexp, EVAL_BUDGET as nat);
        }
    }
    let kept = skiexp.clone();
    match reduce_fuel(skiexp, EVAL_BUDGET) {
        Some(v) => v,
        None => kept,
    }
}

} // verus!
