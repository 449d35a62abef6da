//! Trigger activation conditions: a boolean expression tree over
//! identifier-active predicates, with a verified simplifier.
//!
//! Simplification is a pure function over the tree; the proof obligation is
//! that the simplified condition evaluates exactly as the original does under
//! every assignment of active identifiers, and that it is never larger.

use vstd::prelude::*;

verus! {

/// An activation condition over identifier-active predicates.
pub enum Cond {
    /// A constant condition.
    Lit(bool),
    /// True exactly when the identifier is active.
    Var(u64),
    /// Negation.
    Not(Box<Cond>),
    /// Conjunction.
    And(Box<Cond>, Box<Cond>),
    /// Disjunction.
    Or(Box<Cond>, Box<Cond>),
}

/// The truth value of a condition under a set of active identifiers.
pub open spec fn eval_cond(c: Cond, active: Set<u64>) -> bool
    decreases c,
{
    match c {
        Cond::Lit(b) => b,
        Cond::Var(g) => active.contains(g),
        Cond::Not(a) => !eval_cond(*a, active),
        Cond::And(a, b) => eval_cond(*a, active) && eval_cond(*b, active),
        Cond::Or(a, b) => eval_cond(*a, active) || eval_cond(*b, active),
    }
}

/// Two conditions are equivalent when they evaluate alike under every
/// assignment of active identifiers.
pub open spec fn equiv(a: Cond, b: Cond) -> bool {
    forall|active: Set<u64>| eval_cond(a, active) == eval_cond(b, active)
}

/// The number of nodes in a condition tree.
pub open spec fn cond_size(c: Cond) -> nat
    decreases c,
{
    match c {
        Cond::Lit(_) => 1,
        Cond::Var(_) => 1,
        Cond::Not(a) => 1 + cond_size(*a),
        Cond::And(a, b) => 1 + cond_size(*a) + cond_size(*b),
        Cond::Or(a, b) => 1 + cond_size(*a) + cond_size(*b),
    }
}

/// Structural copy of a condition.
pub fn clone_cond(c: &Cond) -> (r: Cond)
    ensures
        r == *c,
    decreases *c,
{
    match c {
        Cond::Lit(b) => Cond::Lit(*b),
        Cond::Var(g) => Cond::Var(*g),
        Cond::Not(a) => Cond::Not(Box::new(clone_cond(a))),
        Cond::And(a, b) => Cond::And(Box::new(clone_cond(a)), Box::new(clone_cond(b))),
        Cond::Or(a, b) => Cond::Or(Box::new(clone_cond(a)), Box::new(clone_cond(b))),
    }
}

/// Structural equality of two condition trees.
pub fn eq_cond(a: &Cond, b: &Cond) -> (r: bool)
    ensures
        r == (*a == *b),
    decreases *a,
{
    match (a, b) {
        (Cond::Lit(x), Cond::Lit(y)) => x == y,
        (Cond::Var(x), Cond::Var(y)) => x == y,
        (Cond::Not(x), Cond::Not(y)) => eq_cond(x, y),
        (Cond::And(x1, x2), Cond::And(y1, y2)) => eq_cond(x1, y1) && eq_cond(x2, y2),
        (Cond::Or(x1, x2), Cond::Or(y1, y2)) => eq_cond(x1, y1) && eq_cond(x2, y2),
        _ => false,
    }
}

/// Executable evaluation of a condition against the active identifiers.
pub fn eval_cond_exec(c: &Cond, active: &Vec<u64>) -> (r: bool)
    ensures
        r == eval_cond(*c, active@.to_set()),
    decreases *c,
{
    match c {
        Cond::Lit(b) => *b,
        Cond::Var(g) => contains_id(active, *g),
        Cond::Not(a) => !eval_cond_exec(a, active),
        Cond::And(a, b) => eval_cond_exec(a, active) && eval_cond_exec(b, active),
        Cond::Or(a, b) => eval_cond_exec(a, active) || eval_cond_exec(b, active),
    }
}

/// Whether a vector of identifiers contains `id`.
pub fn contains_id(v: &Vec<u64>, id: u64) -> (r: bool)
    ensures
        r == v@.to_set().contains(id),
{
    let mut i: usize = 0;
    while i < v.len()
        invariant
            0 <= i <= v.len(),
            forall|j: int| 0 <= j < i ==> v@[j] != id,
        decreases v.len() - i,
    {
        if v[i] == id {
            proof {
                assert(v@.contains(id));
                assert(v@.to_set().contains(id));
            }
            return true;
        }
        i = i + 1;
    }
    proof {
        if v@.to_set().contains(id) {
            assert(v@.contains(id));
        }
    }
    false
}

/// One operand is exactly the negation of the other.
pub open spec fn complement_pair(a: Cond, b: Cond) -> bool {
    (match a {
        Cond::Not(x) => *x == b,
        _ => false,
    }) || (match b {
        Cond::Not(y) => *y == a,
        _ => false,
    })
}

/// An absorption redex of a conjunction: one operand is a disjunction that
/// contains the other.
pub open spec fn and_absorb_redex(a: Cond, b: Cond) -> bool {
    (match b {
        Cond::Or(p, q) => a == *p || a == *q,
        _ => false,
    }) || (match a {
        Cond::Or(p, q) => b == *p || b == *q,
        _ => false,
    })
}

/// An absorption redex of a disjunction: one operand is a conjunction that
/// contains the other.
pub open spec fn or_absorb_redex(a: Cond, b: Cond) -> bool {
    (match b {
        Cond::And(p, q) => a == *p || a == *q,
        _ => false,
    }) || (match a {
        Cond::And(p, q) => b == *p || b == *q,
        _ => false,
    })
}

/// A condition with no redex the simplifier rewrites: no double negation or
/// negated literal, no conjunction or disjunction with a literal operand,
/// with equal operands, with complementary operands, or with an absorption
/// redex.
pub open spec fn reduced(c: Cond) -> bool
    decreases c,
{
    match c {
        Cond::Lit(_) => true,
        Cond::Var(_) => true,
        Cond::Not(a) => reduced(*a) && !(*a matches Cond::Lit(_)) && !(*a matches Cond::Not(_)),
        Cond::And(a, b) => {
            &&& reduced(*a)
            &&& reduced(*b)
            &&& !(*a matches Cond::Lit(_))
            &&& !(*b matches Cond::Lit(_))
            &&& *a != *b
            &&& !complement_pair(*a, *b)
            &&& !and_absorb_redex(*a, *b)
        },
        Cond::Or(a, b) => {
            &&& reduced(*a)
            &&& reduced(*b)
            &&& !(*a matches Cond::Lit(_))
            &&& !(*b matches Cond::Lit(_))
            &&& *a != *b
            &&& !complement_pair(*a, *b)
            &&& !or_absorb_redex(*a, *b)
        },
    }
}

/// Simplifies a condition by constant folding, double-negation removal,
/// idempotence, absorption and complement elimination.  The result is
/// equivalent to the input under every assignment, never larger, and holds
/// none of the redexes the rules rewrite.
pub fn simplify(c: &Cond) -> (r: Cond)
    ensures
        equiv(r, *c),
        cond_size(r) <= cond_size(*c),
        reduced(r),
    decreases *c,
{
    match c {
        Cond::Lit(b) => Cond::Lit(*b),
        Cond::Var(g) => Cond::Var(*g),
        Cond::Not(a) => {
            let sa = simplify(a);
            let ghost gsa: Cond = sa;
            match sa {
                Cond::Lit(b) => {
                    let r = Cond::Lit(!b);
                    proof {
                        assert forall|active: Set<u64>|
                            eval_cond(r, active) == eval_cond(*c, active) by {
                            assert(eval_cond(gsa, active) == eval_cond(**a, active));
                        }
                    }
                    r
                },
                Cond::Not(inner) => {
                    let r = *inner;
                    proof {
                        assert forall|active: Set<u64>|
                            eval_cond(r, active) == eval_cond(*c, active) by {
                            assert(eval_cond(gsa, active) == !eval_cond(r, active));
                            assert(eval_cond(gsa, active) == eval_cond(**a, active));
                        }
                    }
                    r
                },
                _ => {
                    let r = Cond::Not(Box::new(sa));
                    proof {
                        assert forall|active: Set<u64>|
                            eval_cond(r, active) == eval_cond(*c, active) by {
                            assert(eval_cond(gsa, active) == eval_cond(**a, active));
                        }
                    }
                    r
                },
            }
        },
        Cond::And(a, b) => {
            let sa = simplify(a);
            let sb = simplify(b);
            simplify_and(sa, sb, Ghost(**a), Ghost(**b), Ghost(*c))
        },
        Cond::Or(a, b) => {
            let sa = simplify(a);
            let sb = simplify(b);
            simplify_or(sa, sb, Ghost(**a), Ghost(**b), Ghost(*c))
        },
    }
}

/// Simplification rules for a conjunction whose operands are already
/// simplified.
fn simplify_and(sa: Cond, sb: Cond, oa: Ghost<Cond>, ob: Ghost<Cond>, whole: Ghost<Cond>) -> (r: Cond)
    requires
        equiv(sa, oa@),
        equiv(sb, ob@),
        cond_size(sa) <= cond_size(oa@),
        cond_size(sb) <= cond_size(ob@),
        reduced(sa),
        reduced(sb),
        whole@ == Cond::And(Box::new(oa@), Box::new(ob@)),
    ensures
        equiv(r, whole@),
        cond_size(r) <= cond_size(whole@),
        reduced(r),
{
    proof {
        assert forall|active: Set<u64>|
            eval_cond(whole@, active) == (eval_cond(sa, active) && eval_cond(sb, active)) by {
            assert(eval_cond(sa, active) == eval_cond(oa@, active));
            assert(eval_cond(sb, active) == eval_cond(ob@, active));
        }
    }
    if let Cond::Lit(x) = &sa {
        if *x {
            return sb;
        } else {
            return Cond::Lit(false);
        }
    }
    if let Cond::Lit(y) = &sb {
        if *y {
            return sa;
        } else {
            return Cond::Lit(false);
        }
    }
    if eq_cond(&sa, &sb) {
        return sa;
    }
    if complement(&sa, &sb) {
        return Cond::Lit(false);
    }
    // absorption: x && (x || y) == x
    if let Cond::Or(p, q) = &sb {
        if eq_cond(&sa, p) || eq_cond(&sa, q) {
            proof {
                assert forall|active: Set<u64>|
                    eval_cond(sa, active) == eval_cond(whole@, active) by {
                    assert(eval_cond(sb, active) == (eval_cond(**p, active) || eval_cond(**q, active)));
                }
            }
            return sa;
        }
    }
    if let Cond::Or(p, q) = &sa {
        if eq_cond(&sb, p) || eq_cond(&sb, q) {
            proof {
                assert forall|active: Set<u64>|
                    eval_cond(sb, active) == eval_cond(whole@, active) by {
                    assert(eval_cond(sa, active) == (eval_cond(**p, active) || eval_cond(**q, active)));
                }
            }
            return sb;
        }
    }
    Cond::And(Box::new(sa), Box::new(sb))
}

/// Simplification rules for a disjunction whose operands are already
/// simplified.
fn simplify_or(sa: Cond, sb: Cond, oa: Ghost<Cond>, ob: Ghost<Cond>, whole: Ghost<Cond>) -> (r: Cond)
    requires
        equiv(sa, oa@),
        equiv(sb, ob@),
        cond_size(sa) <= cond_size(oa@),
        cond_size(sb) <= cond_size(ob@),
        reduced(sa),
        reduced(sb),
        whole@ == Cond::Or(Box::new(oa@), Box::new(ob@)),
    ensures
        equiv(r, whole@),
        cond_size(r) <= cond_size(whole@),
        reduced(r),
{
    proof {
        assert forall|active: Set<u64>|
            eval_cond(whole@, active) == (eval_cond(sa, active) || eval_cond(sb, active)) by {
            assert(eval_cond(sa, active) == eval_cond(oa@, active));
            assert(eval_cond(sb, active) == eval_cond(ob@, active));
        }
    }
    if let Cond::Lit(x) = &sa {
        if *x {
            return Cond::Lit(true);
        } else {
            return sb;
        }
    }
    if let Cond::Lit(y) = &sb {
        if *y {
            return Cond::Lit(true);
        } else {
            return sa;
        }
    }
    if eq_cond(&sa, &sb) {
        return sa;
    }
    if complement(&sa, &sb) {
        return Cond::Lit(true);
    }
    // absorption: x || (x && y) == x
    if let Cond::And(p, q) = &sb {
        if eq_cond(&sa, p) || eq_cond(&sa, q) {
            proof {
                assert forall|active: Set<u64>|
                    eval_cond(sa, active) == eval_cond(whole@, active) by {
                    assert(eval_cond(sb, active) == (eval_cond(**p, active) && eval_cond(**q, active)));
                }
            }
            return sa;
        }
    }
    if let Cond::And(p, q) = &sa {
        if eq_cond(&sb, p) || eq_cond(&sb, q) {
            proof {
                assert forall|active: Set<u64>|
                    eval_cond(sb, active) == eval_cond(whole@, active) by {
                    assert(eval_cond(sa, active) == (eval_cond(**p, active) && eval_cond(**q, active)));
                }
            }
            return sb;
        }
    }
    Cond::Or(Box::new(sa), Box::new(sb))
}

/// Whether one operand is exactly the negation of the other.
fn complement(a: &Cond, b: &Cond) -> (r: bool)
    ensures
        r == complement_pair(*a, *b),
        r ==> forall|active: Set<u64>| eval_cond(*a, active) == !eval_cond(*b, active),
{
    if let Cond::Not(x) = a {
        if eq_cond(x, b) {
            return true;
        }
    }
    if let Cond::Not(y) = b {
        if eq_cond(a, y) {
            return true;
        }
    }
    false
}

} // verus!
