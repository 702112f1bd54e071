//! The interpreter: evaluates expression trees to IEEE 754 binary64
//! values (as bit patterns), and keeps a variable store that maps each
//! name to the expression most recently assigned to it — not to a value.
//! Reading a variable re-evaluates its stored expression, so later
//! changes to the variables that expression mentions are visible on the
//! next read.
//!
//! Before a binding is committed, the assignment is checked for
//! legality: its right-hand side must not read the assigned name back,
//! directly or through chains of stored expressions. Every committed
//! binding therefore leaves the store free of reference cycles, and
//! evaluation always terminates — the proof tracks a ghost rank for each
//! name, strictly decreasing along stored references.
//!
//! Evaluation is specified by [`eval_spec`], a fuel-bounded big-step
//! semantics; [`Interpreter::interpret`] returns exactly what the
//! semantics yields at some sufficient fuel.
use crate::ast::{assign_free, line_shaped, vars_of, ExprModel, Expression};
use crate::num::{
    add_bits_of, div_bits_of, is_zero_bits_spec, mul_bits_of, sub_bits_of, ZERO_BITS,
};
use vstd::prelude::*;

verus! {

/// The ways evaluation can fail.
pub enum EvalErr {
    /// The right-hand side of an assignment reads the assigned name back.
    Illegal,
    /// A variable is not in the store.
    NotFound(Seq<char>),
    /// Division by an evaluated right-hand side of zero.
    DivZero,
    /// The end-of-line sentinel has no value.
    EofValue,
}

/// The message each failure carries.
pub open spec fn err_msg(k: EvalErr) -> Seq<char> {
    match k {
        EvalErr::Illegal => "Illegal assignation"@,
        EvalErr::NotFound(name) => "Variable "@ + name + " not found"@,
        EvalErr::DivZero => "Cannot divide by 0."@,
        EvalErr::EofValue => "EOF"@,
    }
}

// ---------------------------------------------------------------------
// Legality of an assignment
// ---------------------------------------------------------------------
/// Whether binding `name` to an expression would be legal, checked by
/// walking the expression and every stored expression it reads:
/// `Some(Ok(true))` when no path reads `name` back, `Some(Ok(false))`
/// when one does, `Some(Err(w))` when a read variable `w` has no
/// binding, and `None` when `fuel` ran out before the walk finished.
pub open spec fn legal_spec(
    m: Map<Seq<char>, ExprModel>,
    name: Seq<char>,
    e: ExprModel,
    fuel: nat,
) -> Option<Result<bool, Seq<char>>>
    decreases fuel, e,
{
    match e {
        ExprModel::Assignment(_, _) => Some(Ok(true)),
        ExprModel::Literal(_) => Some(Ok(true)),
        ExprModel::Eof => Some(Ok(true)),
        ExprModel::Variable(w) => if w == name {
            Some(Ok(false))
        } else if m.dom().contains(w) {
            if fuel > 0 {
                legal_spec(m, name, m[w], (fuel - 1) as nat)
            } else {
                None
            }
        } else {
            Some(Err(w))
        },
        ExprModel::Addition(l, r) => match legal_spec(m, name, *l, fuel) {
            Some(Ok(true)) => legal_spec(m, name, *r, fuel),
            other => other,
        },
        ExprModel::Subtraction(l, r) => match legal_spec(m, name, *l, fuel) {
            Some(Ok(true)) => legal_spec(m, name, *r, fuel),
            other => other,
        },
        ExprModel::Multiplication(l, r) => match legal_spec(m, name, *l, fuel) {
            Some(Ok(true)) => legal_spec(m, name, *r, fuel),
            other => other,
        },
        ExprModel::Division(l, r) => match legal_spec(m, name, *l, fuel) {
            Some(Ok(true)) => legal_spec(m, name, *r, fuel),
            other => other,
        },
        ExprModel::UnaryPlus(x) => legal_spec(m, name, *x, fuel),
        ExprModel::UnaryMinus(x) => legal_spec(m, name, *x, fuel),
        ExprModel::ParenthesisExpression(x) => legal_spec(m, name, *x, fuel),
    }
}

// ---------------------------------------------------------------------
// Evaluation
// ---------------------------------------------------------------------
/// Fuel-bounded big-step evaluation: the store after the step and the
/// result, or `None` when `fuel` ran out. The store is threaded because
/// an assignment mutates it — and mutates it even when the evaluation of
/// its right-hand side then fails. A division evaluates its right
/// operand first and does not touch the left one when the right is
/// zero. The unary operators compute `0 + x` and `0 - x`.
pub open spec fn eval_spec(m: Map<Seq<char>, ExprModel>, e: ExprModel, fuel: nat) -> Option<
    (Map<Seq<char>, ExprModel>, Result<u64, EvalErr>),
>
    decreases fuel, e,
{
    match e {
        ExprModel::Assignment(name, ex) => match legal_spec(m, name, *ex, fuel) {
            None => None,
            Some(Err(w)) => Some((m, Err(EvalErr::NotFound(w)))),
            Some(Ok(false)) => Some((m, Err(EvalErr::Illegal))),
            Some(Ok(true)) => eval_spec(m.insert(name, *ex), *ex, fuel),
        },
        ExprModel::Addition(l, r) => match eval_spec(m, *l, fuel) {
            None => None,
            Some((m1, Err(k))) => Some((m1, Err(k))),
            Some((m1, Ok(a))) => match eval_spec(m1, *r, fuel) {
                None => None,
                Some((m2, Err(k))) => Some((m2, Err(k))),
                Some((m2, Ok(b))) => Some((m2, Ok(add_bits_of(a, b)))),
            },
        },
        ExprModel::Subtraction(l, r) => match eval_spec(m, *l, fuel) {
            None => None,
            Some((m1, Err(k))) => Some((m1, Err(k))),
            Some((m1, Ok(a))) => match eval_spec(m1, *r, fuel) {
                None => None,
                Some((m2, Err(k))) => Some((m2, Err(k))),
                Some((m2, Ok(b))) => Some((m2, Ok(sub_bits_of(a, b)))),
            },
        },
        ExprModel::Multiplication(l, r) => match eval_spec(m, *l, fuel) {
            None => None,
            Some((m1, Err(k))) => Some((m1, Err(k))),
            Some((m1, Ok(a))) => match eval_spec(m1, *r, fuel) {
                None => None,
                Some((m2, Err(k))) => Some((m2, Err(k))),
                Some((m2, Ok(b))) => Some((m2, Ok(mul_bits_of(a, b)))),
            },
        },
        ExprModel::Division(l, r) => match eval_spec(m, *r, fuel) {
            None => None,
            Some((m1, Err(k))) => Some((m1, Err(k))),
            Some((m1, Ok(b))) => if is_zero_bits_spec(b) {
                Some((m1, Err(EvalErr::DivZero)))
            } else {
                match eval_spec(m1, *l, fuel) {
                    None => None,
                    Some((m2, Err(k))) => Some((m2, Err(k))),
                    Some((m2, Ok(a))) => Some((m2, Ok(div_bits_of(a, b)))),
                }
            },
        },
        ExprModel::UnaryPlus(x) => match eval_spec(m, *x, fuel) {
            None => None,
            Some((m1, Err(k))) => Some((m1, Err(k))),
            Some((m1, Ok(v))) => Some((m1, Ok(add_bits_of(ZERO_BITS, v)))),
        },
        ExprModel::UnaryMinus(x) => match eval_spec(m, *x, fuel) {
            None => None,
            Some((m1, Err(k))) => Some((m1, Err(k))),
            Some((m1, Ok(v))) => Some((m1, Ok(sub_bits_of(ZERO_BITS, v)))),
        },
        ExprModel::ParenthesisExpression(x) => eval_spec(m, *x, fuel),
        ExprModel::Literal(bits) => Some((m, Ok(bits))),
        ExprModel::Variable(w) => if m.dom().contains(w) {
            if fuel > 0 {
                eval_spec(m, m[w], (fuel - 1) as nat)
            } else {
                None
            }
        } else {
            Some((m, Err(EvalErr::NotFound(w))))
        },
        ExprModel::Eof => Some((m, Err(EvalErr::EofValue))),
    }
}

// ---------------------------------------------------------------------
// Reachability through the store
// ---------------------------------------------------------------------
/// Whether the expression reads `target`, directly or through at most
/// `fuel` steps into stored expressions. Assignment nodes are not
/// entered, mirroring the legality walk.
pub open spec fn reaches(
    m: Map<Seq<char>, ExprModel>,
    e: ExprModel,
    target: Seq<char>,
    fuel: nat,
) -> bool
    decreases fuel, e,
{
    match e {
        ExprModel::Assignment(_, _) => false,
        ExprModel::Literal(_) => false,
        ExprModel::Eof => false,
        ExprModel::Variable(w) => w == target || (m.dom().contains(w) && fuel > 0 && reaches(
            m,
            m[w],
            target,
            (fuel - 1) as nat,
        )),
        ExprModel::Addition(l, r) => reaches(m, *l, target, fuel) || reaches(m, *r, target, fuel),
        ExprModel::Subtraction(l, r) => reaches(m, *l, target, fuel) || reaches(
            m,
            *r,
            target,
            fuel,
        ),
        ExprModel::Multiplication(l, r) => reaches(m, *l, target, fuel) || reaches(
            m,
            *r,
            target,
            fuel,
        ),
        ExprModel::Division(l, r) => reaches(m, *l, target, fuel) || reaches(m, *r, target, fuel),
        ExprModel::UnaryPlus(x) => reaches(m, *x, target, fuel),
        ExprModel::UnaryMinus(x) => reaches(m, *x, target, fuel),
        ExprModel::ParenthesisExpression(x) => reaches(m, *x, target, fuel),
    }
}

/// Whether the expression reads `target` through the store at any depth.
pub open spec fn cyclic(m: Map<Seq<char>, ExprModel>, e: ExprModel, target: Seq<char>) -> bool {
    exists|fuel: nat| reaches(m, e, target, fuel)
}

// ---------------------------------------------------------------------
// Ranks: the termination measure for evaluation
// ---------------------------------------------------------------------
/// The rank of an expression under a ranking of names: the largest rank
/// of any variable it reads.
pub open spec fn erank(rk: Map<Seq<char>, nat>, e: ExprModel) -> nat
    decreases e,
{
    match e {
        ExprModel::Assignment(_, ex) => erank(rk, *ex),
        ExprModel::Addition(l, r) => if erank(rk, *l) >= erank(rk, *r) {
            erank(rk, *l)
        } else {
            erank(rk, *r)
        },
        ExprModel::Subtraction(l, r) => if erank(rk, *l) >= erank(rk, *r) {
            erank(rk, *l)
        } else {
            erank(rk, *r)
        },
        ExprModel::Multiplication(l, r) => if erank(rk, *l) >= erank(rk, *r) {
            erank(rk, *l)
        } else {
            erank(rk, *r)
        },
        ExprModel::Division(l, r) => if erank(rk, *l) >= erank(rk, *r) {
            erank(rk, *l)
        } else {
            erank(rk, *r)
        },
        ExprModel::UnaryPlus(x) => erank(rk, *x),
        ExprModel::UnaryMinus(x) => erank(rk, *x),
        ExprModel::ParenthesisExpression(x) => erank(rk, *x),
        ExprModel::Literal(_) => 0,
        ExprModel::Variable(w) => rk[w],
        ExprModel::Eof => 0,
    }
}

/// The invariant tying a store to a ranking: every stored expression is
/// free of assignment nodes, reads only stored names, and has a rank
/// strictly below its own name's rank. It makes the walk from any
/// expression into the store well-founded.
pub open spec fn store_inv(m: Map<Seq<char>, ExprModel>, rk: Map<Seq<char>, nat>) -> bool {
    forall|v: Seq<char>| #[trigger] m.dom().contains(v) ==> {
        &&& assign_free(m[v])
        &&& vars_of(m[v]).subset_of(m.dom())
        &&& erank(rk, m[v]) < rk[v]
    }
}

// ---------------------------------------------------------------------
// Fuel monotonicity
// ---------------------------------------------------------------------
/// Once the legality walk finishes at some fuel, more fuel changes
/// nothing.
pub proof fn lemma_legal_mono(
    m: Map<Seq<char>, ExprModel>,
    name: Seq<char>,
    e: ExprModel,
    f1: nat,
    f2: nat,
)
    requires
        f1 <= f2,
        legal_spec(m, name, e, f1) is Some,
    ensures
        legal_spec(m, name, e, f2) == legal_spec(m, name, e, f1),
    decreases f1, e,
{
    match e {
        ExprModel::Variable(w) => {
            if w != name && m.dom().contains(w) {
                lemma_legal_mono(m, name, m[w], (f1 - 1) as nat, (f2 - 1) as nat);
            }
        },
        ExprModel::Addition(l, r) => {
            lemma_legal_mono(m, name, *l, f1, f2);
            if legal_spec(m, name, *l, f1) == Some(Ok::<bool, Seq<char>>(true)) {
                lemma_legal_mono(m, name, *r, f1, f2);
            }
        },
        ExprModel::Subtraction(l, r) => {
            lemma_legal_mono(m, name, *l, f1, f2);
            if legal_spec(m, name, *l, f1) == Some(Ok::<bool, Seq<char>>(true)) {
                lemma_legal_mono(m, name, *r, f1, f2);
            }
        },
        ExprModel::Multiplication(l, r) => {
            lemma_legal_mono(m, name, *l, f1, f2);
            if legal_spec(m, name, *l, f1) == Some(Ok::<bool, Seq<char>>(true)) {
                lemma_legal_mono(m, name, *r, f1, f2);
            }
        },
        ExprModel::Division(l, r) => {
            lemma_legal_mono(m, name, *l, f1, f2);
            if legal_spec(m, name, *l, f1) == Some(Ok::<bool, Seq<char>>(true)) {
                lemma_legal_mono(m, name, *r, f1, f2);
            }
        },
        ExprModel::UnaryPlus(x) => {
            lemma_legal_mono(m, name, *x, f1, f2);
        },
        ExprModel::UnaryMinus(x) => {
            lemma_legal_mono(m, name, *x, f1, f2);
        },
        ExprModel::ParenthesisExpression(x) => {
            lemma_legal_mono(m, name, *x, f1, f2);
        },
        _ => {},
    }
}

/// Once evaluation finishes at some fuel, more fuel changes nothing.
pub proof fn lemma_eval_mono(m: Map<Seq<char>, ExprModel>, e: ExprModel, f1: nat, f2: nat)
    requires
        f1 <= f2,
        eval_spec(m, e, f1) is Some,
    ensures
        eval_spec(m, e, f2) == eval_spec(m, e, f1),
    decreases f1, e,
{
    match e {
        ExprModel::Assignment(name, ex) => {
            lemma_legal_mono(m, name, *ex, f1, f2);
            if legal_spec(m, name, *ex, f1) == Some(Ok::<bool, Seq<char>>(true)) {
                lemma_eval_mono(m.insert(name, *ex), *ex, f1, f2);
            }
        },
        ExprModel::Addition(l, r) => {
            lemma_eval_mono(m, *l, f1, f2);
            match eval_spec(m, *l, f1) {
                Some((m1, Ok(a))) => {
                    lemma_eval_mono(m1, *r, f1, f2);
                },
                _ => {},
            }
        },
        ExprModel::Subtraction(l, r) => {
            lemma_eval_mono(m, *l, f1, f2);
            match eval_spec(m, *l, f1) {
                Some((m1, Ok(a))) => {
                    lemma_eval_mono(m1, *r, f1, f2);
                },
                _ => {},
            }
        },
        ExprModel::Multiplication(l, r) => {
            lemma_eval_mono(m, *l, f1, f2);
            match eval_spec(m, *l, f1) {
                Some((m1, Ok(a))) => {
                    lemma_eval_mono(m1, *r, f1, f2);
                },
                _ => {},
            }
        },
        ExprModel::Division(l, r) => {
            lemma_eval_mono(m, *r, f1, f2);
            match eval_spec(m, *r, f1) {
                Some((m1, Ok(b))) => {
                    if !is_zero_bits_spec(b) {
                        lemma_eval_mono(m1, *l, f1, f2);
                    }
                },
                _ => {},
            }
        },
        ExprModel::UnaryPlus(x) => {
            lemma_eval_mono(m, *x, f1, f2);
        },
        ExprModel::UnaryMinus(x) => {
            lemma_eval_mono(m, *x, f1, f2);
        },
        ExprModel::ParenthesisExpression(x) => {
            lemma_eval_mono(m, *x, f1, f2);
        },
        ExprModel::Variable(w) => {
            if m.dom().contains(w) {
                lemma_eval_mono(m, m[w], (f1 - 1) as nat, (f2 - 1) as nat);
            }
        },
        _ => {},
    }
}

// ---------------------------------------------------------------------
// What a successful legality walk guarantees
// ---------------------------------------------------------------------
/// A legality walk that answers `true` has shown the expression never
/// reads `name` back, at any depth.
proof fn lemma_legal_true_no_reach(
    m: Map<Seq<char>, ExprModel>,
    name: Seq<char>,
    e: ExprModel,
    f: nat,
    k: nat,
)
    requires
        legal_spec(m, name, e, f) == Some(Ok::<bool, Seq<char>>(true)),
    ensures
        !reaches(m, e, name, k),
    decreases k, e,
{
    match e {
        ExprModel::Variable(w) => {
            if k > 0 && m.dom().contains(w) {
                lemma_legal_true_no_reach(m, name, m[w], (f - 1) as nat, (k - 1) as nat);
            }
        },
        ExprModel::Addition(l, r) => {
            lemma_legal_true_no_reach(m, name, *l, f, k);
            lemma_legal_true_no_reach(m, name, *r, f, k);
        },
        ExprModel::Subtraction(l, r) => {
            lemma_legal_true_no_reach(m, name, *l, f, k);
            lemma_legal_true_no_reach(m, name, *r, f, k);
        },
        ExprModel::Multiplication(l, r) => {
            lemma_legal_true_no_reach(m, name, *l, f, k);
            lemma_legal_true_no_reach(m, name, *r, f, k);
        },
        ExprModel::Division(l, r) => {
            lemma_legal_true_no_reach(m, name, *l, f, k);
            lemma_legal_true_no_reach(m, name, *r, f, k);
        },
        ExprModel::UnaryPlus(x) => {
            lemma_legal_true_no_reach(m, name, *x, f, k);
        },
        ExprModel::UnaryMinus(x) => {
            lemma_legal_true_no_reach(m, name, *x, f, k);
        },
        ExprModel::ParenthesisExpression(x) => {
            lemma_legal_true_no_reach(m, name, *x, f, k);
        },
        _ => {},
    }
}

/// A legality walk that answers `true` on an assignment-free expression
/// has visited each of its variables: all are stored and none is `name`.
proof fn lemma_legal_true_vars(m: Map<Seq<char>, ExprModel>, name: Seq<char>, e: ExprModel, f: nat)
    requires
        legal_spec(m, name, e, f) == Some(Ok::<bool, Seq<char>>(true)),
        assign_free(e),
    ensures
        vars_of(e).subset_of(m.dom()),
        !vars_of(e).contains(name),
    decreases e,
{
    match e {
        ExprModel::Addition(l, r) => {
            lemma_legal_true_vars(m, name, *l, f);
            lemma_legal_true_vars(m, name, *r, f);
        },
        ExprModel::Subtraction(l, r) => {
            lemma_legal_true_vars(m, name, *l, f);
            lemma_legal_true_vars(m, name, *r, f);
        },
        ExprModel::Multiplication(l, r) => {
            lemma_legal_true_vars(m, name, *l, f);
            lemma_legal_true_vars(m, name, *r, f);
        },
        ExprModel::Division(l, r) => {
            lemma_legal_true_vars(m, name, *l, f);
            lemma_legal_true_vars(m, name, *r, f);
        },
        ExprModel::UnaryPlus(x) => {
            lemma_legal_true_vars(m, name, *x, f);
        },
        ExprModel::UnaryMinus(x) => {
            lemma_legal_true_vars(m, name, *x, f);
        },
        ExprModel::ParenthesisExpression(x) => {
            lemma_legal_true_vars(m, name, *x, f);
        },
        _ => {},
    }
}

// ---------------------------------------------------------------------
// Reachability facts
// ---------------------------------------------------------------------
/// A path to `v` in a store changed only at `v` is a path in the old
/// store: the walk stops as soon as it arrives at `v`, so it never
/// enters `v`'s changed binding.
proof fn lemma_reaches_update_other(
    m: Map<Seq<char>, ExprModel>,
    v: Seq<char>,
    enew: ExprModel,
    e: ExprModel,
    k: nat,
)
    requires
        reaches(m.insert(v, enew), e, v, k),
    ensures
        reaches(m, e, v, k),
    decreases k, e,
{
    let m2 = m.insert(v, enew);
    match e {
        ExprModel::Variable(w) => {
            if w != v {
                assert(m2[w] == m[w]);
                lemma_reaches_update_other(m, v, enew, m[w], (k - 1) as nat);
            }
        },
        ExprModel::Addition(l, r) => {
            if reaches(m2, *l, v, k) {
                lemma_reaches_update_other(m, v, enew, *l, k);
            } else {
                lemma_reaches_update_other(m, v, enew, *r, k);
            }
        },
        ExprModel::Subtraction(l, r) => {
            if reaches(m2, *l, v, k) {
                lemma_reaches_update_other(m, v, enew, *l, k);
            } else {
                lemma_reaches_update_other(m, v, enew, *r, k);
            }
        },
        ExprModel::Multiplication(l, r) => {
            if reaches(m2, *l, v, k) {
                lemma_reaches_update_other(m, v, enew, *l, k);
            } else {
                lemma_reaches_update_other(m, v, enew, *r, k);
            }
        },
        ExprModel::Division(l, r) => {
            if reaches(m2, *l, v, k) {
                lemma_reaches_update_other(m, v, enew, *l, k);
            } else {
                lemma_reaches_update_other(m, v, enew, *r, k);
            }
        },
        ExprModel::UnaryPlus(x) => {
            lemma_reaches_update_other(m, v, enew, *x, k);
        },
        ExprModel::UnaryMinus(x) => {
            lemma_reaches_update_other(m, v, enew, *x, k);
        },
        ExprModel::ParenthesisExpression(x) => {
            lemma_reaches_update_other(m, v, enew, *x, k);
        },
        _ => {},
    }
}

/// A path from a stored variable's expression extends to any expression
/// that reads that variable.
proof fn lemma_reaches_via_var(
    m: Map<Seq<char>, ExprModel>,
    e: ExprModel,
    w: Seq<char>,
    target: Seq<char>,
    k: nat,
)
    requires
        assign_free(e),
        vars_of(e).contains(w),
        w != target,
        m.dom().contains(w),
        reaches(m, m[w], target, k),
    ensures
        reaches(m, e, target, k + 1),
    decreases e,
{
    match e {
        ExprModel::Addition(l, r) => {
            if vars_of(*l).contains(w) {
                lemma_reaches_via_var(m, *l, w, target, k);
            } else {
                lemma_reaches_via_var(m, *r, w, target, k);
            }
        },
        ExprModel::Subtraction(l, r) => {
            if vars_of(*l).contains(w) {
                lemma_reaches_via_var(m, *l, w, target, k);
            } else {
                lemma_reaches_via_var(m, *r, w, target, k);
            }
        },
        ExprModel::Multiplication(l, r) => {
            if vars_of(*l).contains(w) {
                lemma_reaches_via_var(m, *l, w, target, k);
            } else {
                lemma_reaches_via_var(m, *r, w, target, k);
            }
        },
        ExprModel::Division(l, r) => {
            if vars_of(*l).contains(w) {
                lemma_reaches_via_var(m, *l, w, target, k);
            } else {
                lemma_reaches_via_var(m, *r, w, target, k);
            }
        },
        ExprModel::UnaryPlus(x) => {
            lemma_reaches_via_var(m, *x, w, target, k);
        },
        ExprModel::UnaryMinus(x) => {
            lemma_reaches_via_var(m, *x, w, target, k);
        },
        ExprModel::ParenthesisExpression(x) => {
            lemma_reaches_via_var(m, *x, w, target, k);
        },
        _ => {},
    }
}

/// An expression that reads `target` directly reaches it with no fuel.
proof fn lemma_reaches_direct(
    m: Map<Seq<char>, ExprModel>,
    e: ExprModel,
    target: Seq<char>,
    k: nat,
)
    requires
        assign_free(e),
        vars_of(e).contains(target),
    ensures
        reaches(m, e, target, k),
    decreases e,
{
    match e {
        ExprModel::Addition(l, r) => {
            if vars_of(*l).contains(target) {
                lemma_reaches_direct(m, *l, target, k);
            } else {
                lemma_reaches_direct(m, *r, target, k);
            }
        },
        ExprModel::Subtraction(l, r) => {
            if vars_of(*l).contains(target) {
                lemma_reaches_direct(m, *l, target, k);
            } else {
                lemma_reaches_direct(m, *r, target, k);
            }
        },
        ExprModel::Multiplication(l, r) => {
            if vars_of(*l).contains(target) {
                lemma_reaches_direct(m, *l, target, k);
            } else {
                lemma_reaches_direct(m, *r, target, k);
            }
        },
        ExprModel::Division(l, r) => {
            if vars_of(*l).contains(target) {
                lemma_reaches_direct(m, *l, target, k);
            } else {
                lemma_reaches_direct(m, *r, target, k);
            }
        },
        ExprModel::UnaryPlus(x) => {
            lemma_reaches_direct(m, *x, target, k);
        },
        ExprModel::UnaryMinus(x) => {
            lemma_reaches_direct(m, *x, target, k);
        },
        ExprModel::ParenthesisExpression(x) => {
            lemma_reaches_direct(m, *x, target, k);
        },
        _ => {},
    }
}

// ---------------------------------------------------------------------
// Rank facts
// ---------------------------------------------------------------------
/// Rankings that agree on every variable an expression reads give it
/// the same rank.
proof fn lemma_erank_agree(rk1: Map<Seq<char>, nat>, rk2: Map<Seq<char>, nat>, e: ExprModel)
    requires
        forall|w: Seq<char>| #[trigger] vars_of(e).contains(w) ==> rk1[w] == rk2[w],
    ensures
        erank(rk1, e) == erank(rk2, e),
    decreases e,
{
    match e {
        ExprModel::Assignment(_, ex) => {
            assert forall|w: Seq<char>| #[trigger] vars_of(*ex).contains(w) implies rk1[w] == rk2[w] by {
                assert(vars_of(e).contains(w));
            }
            lemma_erank_agree(rk1, rk2, *ex);
        },
        ExprModel::Addition(l, r) => {
            assert forall|w: Seq<char>| #[trigger] vars_of(*l).contains(w) implies rk1[w] == rk2[w] by {
                assert(vars_of(e).contains(w));
            }
            assert forall|w: Seq<char>| #[trigger] vars_of(*r).contains(w) implies rk1[w] == rk2[w] by {
                assert(vars_of(e).contains(w));
            }
            lemma_erank_agree(rk1, rk2, *l);
            lemma_erank_agree(rk1, rk2, *r);
        },
        ExprModel::Subtraction(l, r) => {
            assert forall|w: Seq<char>| #[trigger] vars_of(*l).contains(w) implies rk1[w] == rk2[w] by {
                assert(vars_of(e).contains(w));
            }
            assert forall|w: Seq<char>| #[trigger] vars_of(*r).contains(w) implies rk1[w] == rk2[w] by {
                assert(vars_of(e).contains(w));
            }
            lemma_erank_agree(rk1, rk2, *l);
            lemma_erank_agree(rk1, rk2, *r);
        },
        ExprModel::Multiplication(l, r) => {
            assert forall|w: Seq<char>| #[trigger] vars_of(*l).contains(w) implies rk1[w] == rk2[w] by {
                assert(vars_of(e).contains(w));
            }
            assert forall|w: Seq<char>| #[trigger] vars_of(*r).contains(w) implies rk1[w] == rk2[w] by {
                assert(vars_of(e).contains(w));
            }
            lemma_erank_agree(rk1, rk2, *l);
            lemma_erank_agree(rk1, rk2, *r);
        },
        ExprModel::Division(l, r) => {
            assert forall|w: Seq<char>| #[trigger] vars_of(*l).contains(w) implies rk1[w] == rk2[w] by {
                assert(vars_of(e).contains(w));
            }
            assert forall|w: Seq<char>| #[trigger] vars_of(*r).contains(w) implies rk1[w] == rk2[w] by {
                assert(vars_of(e).contains(w));
            }
            lemma_erank_agree(rk1, rk2, *l);
            lemma_erank_agree(rk1, rk2, *r);
        },
        ExprModel::UnaryPlus(x) => {
            assert forall|w: Seq<char>| #[trigger] vars_of(*x).contains(w) implies rk1[w] == rk2[w] by {
                assert(vars_of(e).contains(w));
            }
            lemma_erank_agree(rk1, rk2, *x);
        },
        ExprModel::UnaryMinus(x) => {
            assert forall|w: Seq<char>| #[trigger] vars_of(*x).contains(w) implies rk1[w] == rk2[w] by {
                assert(vars_of(e).contains(w));
            }
            lemma_erank_agree(rk1, rk2, *x);
        },
        ExprModel::ParenthesisExpression(x) => {
            assert forall|w: Seq<char>| #[trigger] vars_of(*x).contains(w) implies rk1[w] == rk2[w] by {
                assert(vars_of(e).contains(w));
            }
            lemma_erank_agree(rk1, rk2, *x);
        },
        ExprModel::Variable(w) => {
            assert(vars_of(e).contains(w));
        },
        _ => {},
    }
}

/// Raising every read variable's rank by at most `kk` raises the
/// expression's rank by at most `kk`.
proof fn lemma_erank_bounded(
    rk1: Map<Seq<char>, nat>,
    rk2: Map<Seq<char>, nat>,
    e: ExprModel,
    kk: nat,
)
    requires
        forall|w: Seq<char>| #[trigger] vars_of(e).contains(w) ==> rk2[w] <= rk1[w] + kk,
    ensures
        erank(rk2, e) <= erank(rk1, e) + kk,
    decreases e,
{
    match e {
        ExprModel::Assignment(_, ex) => {
            assert forall|w: Seq<char>| #[trigger] vars_of(*ex).contains(w) implies rk2[w] <= rk1[w] + kk by {
                assert(vars_of(e).contains(w));
            }
            lemma_erank_bounded(rk1, rk2, *ex, kk);
        },
        ExprModel::Addition(l, r) => {
            assert forall|w: Seq<char>| #[trigger] vars_of(*l).contains(w) implies rk2[w] <= rk1[w] + kk by {
                assert(vars_of(e).contains(w));
            }
            assert forall|w: Seq<char>| #[trigger] vars_of(*r).contains(w) implies rk2[w] <= rk1[w] + kk by {
                assert(vars_of(e).contains(w));
            }
            lemma_erank_bounded(rk1, rk2, *l, kk);
            lemma_erank_bounded(rk1, rk2, *r, kk);
        },
        ExprModel::Subtraction(l, r) => {
            assert forall|w: Seq<char>| #[trigger] vars_of(*l).contains(w) implies rk2[w] <= rk1[w] + kk by {
                assert(vars_of(e).contains(w));
            }
            assert forall|w: Seq<char>| #[trigger] vars_of(*r).contains(w) implies rk2[w] <= rk1[w] + kk by {
                assert(vars_of(e).contains(w));
            }
            lemma_erank_bounded(rk1, rk2, *l, kk);
            lemma_erank_bounded(rk1, rk2, *r, kk);
        },
        ExprModel::Multiplication(l, r) => {
            assert forall|w: Seq<char>| #[trigger] vars_of(*l).contains(w) implies rk2[w] <= rk1[w] + kk by {
                assert(vars_of(e).contains(w));
            }
            assert forall|w: Seq<char>| #[trigger] vars_of(*r).contains(w) implies rk2[w] <= rk1[w] + kk by {
                assert(vars_of(e).contains(w));
            }
            lemma_erank_bounded(rk1, rk2, *l, kk);
            lemma_erank_bounded(rk1, rk2, *r, kk);
        },
        ExprModel::Division(l, r) => {
            assert forall|w: Seq<char>| #[trigger] vars_of(*l).contains(w) implies rk2[w] <= rk1[w] + kk by {
                assert(vars_of(e).contains(w));
            }
            assert forall|w: Seq<char>| #[trigger] vars_of(*r).contains(w) implies rk2[w] <= rk1[w] + kk by {
                assert(vars_of(e).contains(w));
            }
            lemma_erank_bounded(rk1, rk2, *l, kk);
            lemma_erank_bounded(rk1, rk2, *r, kk);
        },
        ExprModel::UnaryPlus(x) => {
            assert forall|w: Seq<char>| #[trigger] vars_of(*x).contains(w) implies rk2[w] <= rk1[w] + kk by {
                assert(vars_of(e).contains(w));
            }
            lemma_erank_bounded(rk1, rk2, *x, kk);
        },
        ExprModel::UnaryMinus(x) => {
            assert forall|w: Seq<char>| #[trigger] vars_of(*x).contains(w) implies rk2[w] <= rk1[w] + kk by {
                assert(vars_of(e).contains(w));
            }
            lemma_erank_bounded(rk1, rk2, *x, kk);
        },
        ExprModel::ParenthesisExpression(x) => {
            assert forall|w: Seq<char>| #[trigger] vars_of(*x).contains(w) implies rk2[w] <= rk1[w] + kk by {
                assert(vars_of(e).contains(w));
            }
            lemma_erank_bounded(rk1, rk2, *x, kk);
        },
        ExprModel::Variable(w) => {
            assert(vars_of(e).contains(w));
        },
        _ => {},
    }
}

/// After a legal assignment the store stays well-ranked: names that
/// reach the assigned name move above it, everything else keeps its
/// rank, and the new binding's rank does not change — so the measure of
/// the pending right-hand side is untouched.
proof fn lemma_rank_update(
    m: Map<Seq<char>, ExprModel>,
    rk: Map<Seq<char>, nat>,
    v: Seq<char>,
    e: ExprModel,
    f: nat,
) -> (rk2: Map<Seq<char>, nat>)
    requires
        store_inv(m, rk),
        assign_free(e),
        legal_spec(m, v, e, f) == Some(Ok::<bool, Seq<char>>(true)),
    ensures
        store_inv(m.insert(v, e), rk2),
        forall|w: Seq<char>| #[trigger] vars_of(e).contains(w) ==> rk2[w] == rk[w],
        erank(rk2, e) == erank(rk, e),
{
    let m2 = m.insert(v, e);
    let kk: nat = erank(rk, e) + 1;
    let a_set = Set::new(
        |u: Seq<char>| u == v || (m2.dom().contains(u) && cyclic(m2, m2[u], v)),
    );
    let rk2 = Map::new(
        |u: Seq<char>| true,
        |u: Seq<char>|
            if a_set.contains(u) {
                (rk[u] + kk) as nat
            } else {
                rk[u]
            },
    );
    lemma_legal_true_vars(m, v, e, f);

    // No variable the new binding reads can reach the assigned name.
    assert forall|w: Seq<char>| #[trigger] vars_of(e).contains(w) implies !a_set.contains(w) by {
        if a_set.contains(w) {
            assert(w != v);
            let k0 = choose|k: nat| reaches(m2, m2[w], v, k);
            assert(m2[w] == m[w]);
            lemma_reaches_update_other(m, v, e, m[w], k0);
            lemma_reaches_via_var(m, e, w, v, k0);
            lemma_legal_true_no_reach(m, v, e, f, (k0 + 1) as nat);
        }
    }
    assert forall|w: Seq<char>| #[trigger] vars_of(e).contains(w) implies rk2[w] == rk[w] by {}
    lemma_erank_agree(rk, rk2, e);

    // Every binding of the updated store sits strictly below its name.
    assert forall|u: Seq<char>| #[trigger] m2.dom().contains(u) implies {
        &&& assign_free(m2[u])
        &&& vars_of(m2[u]).subset_of(m2.dom())
        &&& erank(rk2, m2[u]) < rk2[u]
    } by {
        if u == v {
            assert(m2[u] == e);
            assert(vars_of(e).subset_of(m.dom()));
            assert(m.dom().subset_of(m2.dom()));
            assert(a_set.contains(v));
            assert(rk2[v] == rk[v] + kk);
            assert(erank(rk2, e) == erank(rk, e));
            assert(erank(rk2, e) < kk);
        } else {
            assert(m.dom().contains(u));
            assert(m2[u] == m[u]);
            assert(assign_free(m[u]));
            assert(vars_of(m[u]).subset_of(m.dom()));
            assert(erank(rk, m[u]) < rk[u]);
            if a_set.contains(u) {
                assert forall|w: Seq<char>| #[trigger] vars_of(m[u]).contains(w) implies rk2[w]
                    <= rk[w] + kk by {}
                lemma_erank_bounded(rk, rk2, m[u], kk);
                assert(rk2[u] == rk[u] + kk);
            } else {
                // If any variable the binding reads were above the
                // assigned name, the binding itself would be too.
                assert forall|w: Seq<char>| #[trigger] vars_of(m[u]).contains(w) implies !a_set
                    .contains(w) by {
                    if a_set.contains(w) {
                        if w == v {
                            lemma_reaches_direct(m2, m2[u], v, 0);
                            assert(cyclic(m2, m2[u], v));
                        } else {
                            let k0 = choose|k: nat| reaches(m2, m2[w], v, k);
                            lemma_reaches_via_var(m2, m2[u], w, v, k0);
                            assert(cyclic(m2, m2[u], v));
                        }
                        assert(a_set.contains(u));
                    }
                }
                lemma_erank_agree(rk, rk2, m[u]);
            }
        }
    }
    rk2
}

// ---------------------------------------------------------------------
// The store as a list of bindings
// ---------------------------------------------------------------------
/// The map a list of bindings denotes; a later binding would override an
/// earlier one, but the list never holds a name twice.
pub open spec fn store_of(entries: Seq<(String, Expression)>) -> Map<Seq<char>, ExprModel>
    decreases entries.len(),
{
    if entries.len() == 0 {
        Map::empty()
    } else {
        store_of(entries.drop_last()).insert(entries.last().0@, entries.last().1@)
    }
}

/// No two bindings share a name.
pub open spec fn keys_unique(entries: Seq<(String, Expression)>) -> bool {
    forall|i: int, j: int|
        0 <= i < j < entries.len() ==> (#[trigger] entries[i]).0@ != (#[trigger] entries[j]).0@
}

/// Each binding of the list is in the map it denotes.
proof fn lemma_store_entry(entries: Seq<(String, Expression)>, i: int)
    requires
        keys_unique(entries),
        0 <= i < entries.len(),
    ensures
        store_of(entries).dom().contains(entries[i].0@),
        store_of(entries)[entries[i].0@] == entries[i].1@,
    decreases entries.len(),
{
    if i < entries.len() - 1 {
        assert(entries.drop_last()[i] == entries[i]);
        lemma_store_entry(entries.drop_last(), i);
        assert(entries[i].0@ != entries.last().0@);
    }
}

/// A name no binding carries is not in the map.
proof fn lemma_store_absent(entries: Seq<(String, Expression)>, x: Seq<char>)
    requires
        forall|i: int| 0 <= i < entries.len() ==> (#[trigger] entries[i]).0@ != x,
    ensures
        !store_of(entries).dom().contains(x),
    decreases entries.len(),
{
    if entries.len() > 0 {
        assert forall|i: int|
            0 <= i < entries.drop_last().len() implies (#[trigger] entries.drop_last()[i]).0@
            != x by {
            assert(entries.drop_last()[i] == entries[i]);
        }
        lemma_store_absent(entries.drop_last(), x);
    }
}

/// Replacing the expression of binding `i` updates the map at its name.
proof fn lemma_store_update(entries: Seq<(String, Expression)>, i: int, pair: (String, Expression))
    requires
        keys_unique(entries),
        0 <= i < entries.len(),
        pair.0@ == entries[i].0@,
    ensures
        store_of(entries.update(i, pair)) =~= store_of(entries).insert(pair.0@, pair.1@),
        keys_unique(entries.update(i, pair)),
    decreases entries.len(),
{
    let upd = entries.update(i, pair);
    assert forall|a: int, b: int| 0 <= a < b < upd.len() implies (#[trigger] upd[a]).0@
        != (#[trigger] upd[b]).0@ by {
        assert(entries[a].0@ != entries[b].0@);
    }
    if i == entries.len() - 1 {
        assert(upd.drop_last() =~= entries.drop_last());
        assert(upd.last() == pair);
        assert(store_of(upd) =~= store_of(entries).insert(pair.0@, pair.1@));
    } else {
        assert(upd.drop_last() =~= entries.drop_last().update(i, pair));
        assert(entries.drop_last()[i] == entries[i]);
        lemma_store_update(entries.drop_last(), i, pair);
        assert(upd.last() == entries.last());
        assert(entries.last().0@ != pair.0@);
        assert(store_of(upd) =~= store_of(entries).insert(pair.0@, pair.1@));
    }
}


/// Carries a legality answer for the child of a unary node up to the
/// node itself: the walk treats them alike.
proof fn lemma_legal_unary_transfer(
    m: Map<Seq<char>, ExprModel>,
    name: Seq<char>,
    e: ExprModel,
    x: ExprModel,
    res: Result<bool, String>,
)
    requires
        e == ExprModel::UnaryPlus(Box::new(x)) || e == ExprModel::UnaryMinus(Box::new(x)) || e
            == ExprModel::ParenthesisExpression(Box::new(x)),
        res matches Ok(b) ==> exists|f: nat|
            legal_spec(m, name, x, f) == Some(Ok::<bool, Seq<char>>(b)),
        res matches Err(msg) ==> exists|f: nat, w: Seq<char>|
            legal_spec(m, name, x, f) == Some(Err::<bool, Seq<char>>(w)) && msg@ == err_msg(
                EvalErr::NotFound(w),
            ),
    ensures
        res matches Ok(b) ==> exists|f: nat|
            legal_spec(m, name, e, f) == Some(Ok::<bool, Seq<char>>(b)),
        res matches Err(msg) ==> exists|f: nat, w: Seq<char>|
            legal_spec(m, name, e, f) == Some(Err::<bool, Seq<char>>(w)) && msg@ == err_msg(
                EvalErr::NotFound(w),
            ),
{
    match &res {
        Ok(b) => {
            let f0 = choose|f: nat| legal_spec(m, name, x, f) == Some(Ok::<bool, Seq<char>>(*b));
            assert(legal_spec(m, name, e, f0) == Some(Ok::<bool, Seq<char>>(*b)));
        },
        Err(msg) => {
            let (f0, w) = choose|f: nat, w: Seq<char>|
                legal_spec(m, name, x, f) == Some(Err::<bool, Seq<char>>(w)) && msg@ == err_msg(
                    EvalErr::NotFound(w),
                );
            assert(legal_spec(m, name, e, f0) == Some(Err::<bool, Seq<char>>(w)));
        },
    }
}

// ---------------------------------------------------------------------
// The interpreter
// ---------------------------------------------------------------------
/// The interpreter: the variable store, holding each name's most
/// recently assigned (unevaluated) expression, and a ghost ranking of
/// names that witnesses the store's freedom from reference cycles.
pub struct Interpreter {
    pub mem: Vec<(String, Expression)>,
    pub ranks: Ghost<Map<Seq<char>, nat>>,
}

impl Interpreter {
    /// The store as a map from names to stored expressions.
    pub open spec fn store(&self) -> Map<Seq<char>, ExprModel> {
        store_of(self.mem@)
    }

    /// Well-formedness: names are unique and the ghost ranking
    /// witnesses that no stored expression reaches its own name.
    pub open spec fn wf(&self) -> bool {
        &&& keys_unique(self.mem@)
        &&& store_inv(self.store(), self.ranks@)
    }

    /// A fresh interpreter: the store is empty.
    pub fn new() -> (it: Interpreter)
        ensures
            it.wf(),
            it.store() == Map::<Seq<char>, ExprModel>::empty(),
    {
        Interpreter { mem: Vec::new(), ranks: Ghost(Map::new(|u: Seq<char>| true, |u: Seq<char>| 0nat)) }
    }

    /// The expression stored under `name`, cloned out of the store.
    fn lookup(&self, name: &String) -> (r: Option<Expression>)
        requires
            keys_unique(self.mem@),
        ensures
            match r {
                Some(e) => self.store().dom().contains(name@) && e@ == self.store()[name@],
                None => !self.store().dom().contains(name@),
            },
    {
        let mut k: usize = 0;
        while k < self.mem.len()
            invariant
                keys_unique(self.mem@),
                k <= self.mem@.len(),
                forall|k2: int| 0 <= k2 < k ==> (#[trigger] self.mem@[k2]).0@ != name@,
            decreases self.mem@.len() - k,
        {
            if self.mem[k].0 == *name {
                let e = self.mem[k].1.clone();
                proof {
                    lemma_store_entry(self.mem@, k as int);
                }
                return Some(e);
            }
            k = k + 1;
        }
        proof {
            lemma_store_absent(self.mem@, name@);
        }
        None
    }

    /// The position of `name`'s binding, if it has one.
    fn find_index(&self, name: &String) -> (r: Option<usize>)
        ensures
            match r {
                Some(i) => i < self.mem@.len() && self.mem@[i as int].0@ == name@,
                None => forall|k2: int|
                    0 <= k2 < self.mem@.len() ==> (#[trigger] self.mem@[k2]).0@ != name@,
            },
    {
        let mut k: usize = 0;
        while k < self.mem.len()
            invariant
                k <= self.mem@.len(),
                forall|k2: int| 0 <= k2 < k ==> (#[trigger] self.mem@[k2]).0@ != name@,
            decreases self.mem@.len() - k,
        {
            if self.mem[k].0 == *name {
                return Some(k);
            }
            k = k + 1;
        }
        None
    }

    /// Binds `name` to `value`, overwriting any previous binding.
    fn store_set(&mut self, name: &String, value: Expression)
        requires
            keys_unique(old(self).mem@),
        ensures
            keys_unique(final(self).mem@),
            final(self).store() == old(self).store().insert(name@, value@),
            final(self).ranks == old(self).ranks,
    {
        match self.find_index(name) {
            Some(k) => {
                let pair = (name.clone(), value);
                proof {
                    lemma_store_update(self.mem@, k as int, pair);
                }
                self.mem[k] = pair;
                return ;
            },
            None => {},
        }
        proof {
            lemma_store_absent(self.mem@, name@);
        }
        self.mem.push((name.clone(), value));
        proof {
            assert(self.mem@.drop_last() =~= old(self).mem@);
            assert forall|a: int, b: int| 0 <= a < b < self.mem@.len() implies (#[trigger] self
                .mem@[a]).0@ != (#[trigger] self.mem@[b]).0@ by {
                if b < self.mem@.len() - 1 {
                    assert(old(self).mem@[a] == self.mem@[a]);
                    assert(old(self).mem@[b] == self.mem@[b]);
                }
            }
        }
    }

    /// The legality check an assignment runs before it commits: walks
    /// the right-hand side and every stored expression it reads, and
    /// answers whether binding `name` would let it read `name` back.
    /// Fails when a read variable has no binding, instead of assuming
    /// one (a parse error can declare a name without ever storing it).
    fn is_assignation_legal(&self, name: &String, expression: &Expression) -> (r: Result<
        bool,
        String,
    >)
        requires
            self.wf(),
            assign_free(expression@),
        ensures
            r matches Ok(b) ==> exists|f: nat|
                legal_spec(self.store(), name@, expression@, f) == Some(
                    Ok::<bool, Seq<char>>(b),
                ),
            r matches Err(msg) ==> exists|f: nat, w: Seq<char>|
                legal_spec(self.store(), name@, expression@, f) == Some(
                    Err::<bool, Seq<char>>(w),
                ) && msg@ == err_msg(EvalErr::NotFound(w)),
        decreases erank(self.ranks@, expression@), expression,
    {
        let ghost m = self.store();
        match expression {
            Expression::Assignment(_, _) => {
                proof {
                    assert(legal_spec(m, name@, expression@, 0) == Some(
                        Ok::<bool, Seq<char>>(true),
                    ));
                }
                Ok(true)
            },
            Expression::Literal(_) => {
                proof {
                    assert(legal_spec(m, name@, expression@, 0) == Some(
                        Ok::<bool, Seq<char>>(true),
                    ));
                }
                Ok(true)
            },
            Expression::Eof => {
                proof {
                    assert(legal_spec(m, name@, expression@, 0) == Some(
                        Ok::<bool, Seq<char>>(true),
                    ));
                }
                Ok(true)
            },
            Expression::Variable(var_name) => {
                if *var_name == *name {
                    proof {
                        assert(legal_spec(m, name@, expression@, 0) == Some(
                            Ok::<bool, Seq<char>>(false),
                        ));
                    }
                    Ok(false)
                } else {
                    match self.lookup(var_name) {
                        Some(stored) => {
                            proof {
                                assert(m.dom().contains(var_name@));
                                assert(erank(self.ranks@, stored@) < self.ranks@[var_name@]);
                                assert(assign_free(stored@));
                            }
                            let res = self.is_assignation_legal(name, &stored);
                            proof {
                                match &res {
                                    Ok(b) => {
                                        let f0 = choose|f: nat|
                                            legal_spec(m, name@, stored@, f) == Some(
                                                Ok::<bool, Seq<char>>(*b),
                                            );
                                        assert(legal_spec(m, name@, expression@, f0 + 1) == Some(
                                            Ok::<bool, Seq<char>>(*b),
                                        ));
                                    },
                                    Err(msg) => {
                                        let (f0, w) = choose|f: nat, w: Seq<char>|
                                            legal_spec(m, name@, stored@, f) == Some(
                                                Err::<bool, Seq<char>>(w),
                                            ) && msg@ == err_msg(EvalErr::NotFound(w));
                                        assert(legal_spec(m, name@, expression@, f0 + 1) == Some(
                                            Err::<bool, Seq<char>>(w),
                                        ));
                                    },
                                }
                            }
                            res
                        },
                        None => {
                            let msg = String::from_str("Variable ").concat(
                                var_name.as_str(),
                            ).concat(" not found");
                            proof {
                                assert(msg@ == err_msg(EvalErr::NotFound(var_name@)));
                                assert(legal_spec(m, name@, expression@, 0) == Some(
                                    Err::<bool, Seq<char>>(var_name@),
                                ));
                            }
                            Err(msg)
                        },
                    }
                }
            },
            Expression::Addition(l, r) => {
                match self.is_assignation_legal(name, &**l) {
                    Ok(true) => {
                        let res = self.is_assignation_legal(name, &**r);
                        proof {
                            let fl = choose|f: nat|
                                legal_spec(m, name@, (**l)@, f) == Some(
                                    Ok::<bool, Seq<char>>(true),
                                );
                            match &res {
                                Ok(b) => {
                                    let fr = choose|f: nat|
                                        legal_spec(m, name@, (**r)@, f) == Some(
                                            Ok::<bool, Seq<char>>(*b),
                                        );
                                    let fm = if fl >= fr { fl } else { fr };
                                    lemma_legal_mono(m, name@, (**l)@, fl, fm);
                                    lemma_legal_mono(m, name@, (**r)@, fr, fm);
                                    assert(legal_spec(m, name@, expression@, fm) == Some(
                                        Ok::<bool, Seq<char>>(*b),
                                    ));
                                },
                                Err(msg) => {
                                    let (fr, w) = choose|f: nat, w: Seq<char>|
                                        legal_spec(m, name@, (**r)@, f) == Some(
                                            Err::<bool, Seq<char>>(w),
                                        ) && msg@ == err_msg(EvalErr::NotFound(w));
                                    let fm = if fl >= fr { fl } else { fr };
                                    lemma_legal_mono(m, name@, (**l)@, fl, fm);
                                    lemma_legal_mono(m, name@, (**r)@, fr, fm);
                                    assert(legal_spec(m, name@, expression@, fm) == Some(
                                        Err::<bool, Seq<char>>(w),
                                    ));
                                },
                            }
                        }
                        res
                    },
                    Ok(false) => {
                        proof {
                            let fl = choose|f: nat|
                                legal_spec(m, name@, (**l)@, f) == Some(
                                    Ok::<bool, Seq<char>>(false),
                                );
                            assert(legal_spec(m, name@, expression@, fl) == Some(
                                Ok::<bool, Seq<char>>(false),
                            ));
                        }
                        Ok(false)
                    },
                    Err(msg) => {
                        proof {
                            let (fl, w) = choose|f: nat, w: Seq<char>|
                                legal_spec(m, name@, (**l)@, f) == Some(
                                    Err::<bool, Seq<char>>(w),
                                ) && msg@ == err_msg(EvalErr::NotFound(w));
                            assert(legal_spec(m, name@, expression@, fl) == Some(
                                Err::<bool, Seq<char>>(w),
                            ));
                        }
                        Err(msg)
                    },
                }
            },
            Expression::Subtraction(l, r) => {
                match self.is_assignation_legal(name, &**l) {
                    Ok(true) => {
                        let res = self.is_assignation_legal(name, &**r);
                        proof {
                            let fl = choose|f: nat|
                                legal_spec(m, name@, (**l)@, f) == Some(
                                    Ok::<bool, Seq<char>>(true),
                                );
                            match &res {
                                Ok(b) => {
                                    let fr = choose|f: nat|
                                        legal_spec(m, name@, (**r)@, f) == Some(
                                            Ok::<bool, Seq<char>>(*b),
                                        );
                                    let fm = if fl >= fr { fl } else { fr };
                                    lemma_legal_mono(m, name@, (**l)@, fl, fm);
                                    lemma_legal_mono(m, name@, (**r)@, fr, fm);
                                    assert(legal_spec(m, name@, expression@, fm) == Some(
                                        Ok::<bool, Seq<char>>(*b),
                                    ));
                                },
                                Err(msg) => {
                                    let (fr, w) = choose|f: nat, w: Seq<char>|
                                        legal_spec(m, name@, (**r)@, f) == Some(
                                            Err::<bool, Seq<char>>(w),
                                        ) && msg@ == err_msg(EvalErr::NotFound(w));
                                    let fm = if fl >= fr { fl } else { fr };
                                    lemma_legal_mono(m, name@, (**l)@, fl, fm);
                                    lemma_legal_mono(m, name@, (**r)@, fr, fm);
                                    assert(legal_spec(m, name@, expression@, fm) == Some(
                                        Err::<bool, Seq<char>>(w),
                                    ));
                                },
                            }
                        }
                        res
                    },
                    Ok(false) => {
                        proof {
                            let fl = choose|f: nat|
                                legal_spec(m, name@, (**l)@, f) == Some(
                                    Ok::<bool, Seq<char>>(false),
                                );
                            assert(legal_spec(m, name@, expression@, fl) == Some(
                                Ok::<bool, Seq<char>>(false),
                            ));
                        }
                        Ok(false)
                    },
                    Err(msg) => {
                        proof {
                            let (fl, w) = choose|f: nat, w: Seq<char>|
                                legal_spec(m, name@, (**l)@, f) == Some(
                                    Err::<bool, Seq<char>>(w),
                                ) && msg@ == err_msg(EvalErr::NotFound(w));
                            assert(legal_spec(m, name@, expression@, fl) == Some(
                                Err::<bool, Seq<char>>(w),
                            ));
                        }
                        Err(msg)
                    },
                }
            },
            Expression::Multiplication(l, r) => {
                match self.is_assignation_legal(name, &**l) {
                    Ok(true) => {
                        let res = self.is_assignation_legal(name, &**r);
                        proof {
                            let fl = choose|f: nat|
                                legal_spec(m, name@, (**l)@, f) == Some(
                                    Ok::<bool, Seq<char>>(true),
                                );
                            match &res {
                                Ok(b) => {
                                    let fr = choose|f: nat|
                                        legal_spec(m, name@, (**r)@, f) == Some(
                                            Ok::<bool, Seq<char>>(*b),
                                        );
                                    let fm = if fl >= fr { fl } else { fr };
                                    lemma_legal_mono(m, name@, (**l)@, fl, fm);
                                    lemma_legal_mono(m, name@, (**r)@, fr, fm);
                                    assert(legal_spec(m, name@, expression@, fm) == Some(
                                        Ok::<bool, Seq<char>>(*b),
                                    ));
                                },
                                Err(msg) => {
                                    let (fr, w) = choose|f: nat, w: Seq<char>|
                                        legal_spec(m, name@, (**r)@, f) == Some(
                                            Err::<bool, Seq<char>>(w),
                                        ) && msg@ == err_msg(EvalErr::NotFound(w));
                                    let fm = if fl >= fr { fl } else { fr };
                                    lemma_legal_mono(m, name@, (**l)@, fl, fm);
                                    lemma_legal_mono(m, name@, (**r)@, fr, fm);
                                    assert(legal_spec(m, name@, expression@, fm) == Some(
                                        Err::<bool, Seq<char>>(w),
                                    ));
                                },
                            }
                        }
                        res
                    },
                    Ok(false) => {
                        proof {
                            let fl = choose|f: nat|
                                legal_spec(m, name@, (**l)@, f) == Some(
                                    Ok::<bool, Seq<char>>(false),
                                );
                            assert(legal_spec(m, name@, expression@, fl) == Some(
                                Ok::<bool, Seq<char>>(false),
                            ));
                        }
                        Ok(false)
                    },
                    Err(msg) => {
                        proof {
                            let (fl, w) = choose|f: nat, w: Seq<char>|
                                legal_spec(m, name@, (**l)@, f) == Some(
                                    Err::<bool, Seq<char>>(w),
                                ) && msg@ == err_msg(EvalErr::NotFound(w));
                            assert(legal_spec(m, name@, expression@, fl) == Some(
                                Err::<bool, Seq<char>>(w),
                            ));
                        }
                        Err(msg)
                    },
                }
            },
            Expression::Division(l, r) => {
                match self.is_assignation_legal(name, &**l) {
                    Ok(true) => {
                        let res = self.is_assignation_legal(name, &**r);
                        proof {
                            let fl = choose|f: nat|
                                legal_spec(m, name@, (**l)@, f) == Some(
                                    Ok::<bool, Seq<char>>(true),
                                );
                            match &res {
                                Ok(b) => {
                                    let fr = choose|f: nat|
                                        legal_spec(m, name@, (**r)@, f) == Some(
                                            Ok::<bool, Seq<char>>(*b),
                                        );
                                    let fm = if fl >= fr { fl } else { fr };
                                    lemma_legal_mono(m, name@, (**l)@, fl, fm);
                                    lemma_legal_mono(m, name@, (**r)@, fr, fm);
                                    assert(legal_spec(m, name@, expression@, fm) == Some(
                                        Ok::<bool, Seq<char>>(*b),
                                    ));
                                },
                                Err(msg) => {
                                    let (fr, w) = choose|f: nat, w: Seq<char>|
                                        legal_spec(m, name@, (**r)@, f) == Some(
                                            Err::<bool, Seq<char>>(w),
                                        ) && msg@ == err_msg(EvalErr::NotFound(w));
                                    let fm = if fl >= fr { fl } else { fr };
                                    lemma_legal_mono(m, name@, (**l)@, fl, fm);
                                    lemma_legal_mono(m, name@, (**r)@, fr, fm);
                                    assert(legal_spec(m, name@, expression@, fm) == Some(
                                        Err::<bool, Seq<char>>(w),
                                    ));
                                },
                            }
                        }
                        res
                    },
                    Ok(false) => {
                        proof {
                            let fl = choose|f: nat|
                                legal_spec(m, name@, (**l)@, f) == Some(
                                    Ok::<bool, Seq<char>>(false),
                                );
                            assert(legal_spec(m, name@, expression@, fl) == Some(
                                Ok::<bool, Seq<char>>(false),
                            ));
                        }
                        Ok(false)
                    },
                    Err(msg) => {
                        proof {
                            let (fl, w) = choose|f: nat, w: Seq<char>|
                                legal_spec(m, name@, (**l)@, f) == Some(
                                    Err::<bool, Seq<char>>(w),
                                ) && msg@ == err_msg(EvalErr::NotFound(w));
                            assert(legal_spec(m, name@, expression@, fl) == Some(
                                Err::<bool, Seq<char>>(w),
                            ));
                        }
                        Err(msg)
                    },
                }
            },
            Expression::UnaryPlus(x) => {
                let res = self.is_assignation_legal(name, &**x);
                proof {
                    lemma_legal_unary_transfer(m, name@, expression@, (**x)@, res);
                }
                res
            },
            Expression::UnaryMinus(x) => {
                let res = self.is_assignation_legal(name, &**x);
                proof {
                    lemma_legal_unary_transfer(m, name@, expression@, (**x)@, res);
                }
                res
            },
            Expression::ParenthesisExpression(x) => {
                let res = self.is_assignation_legal(name, &**x);
                proof {
                    lemma_legal_unary_transfer(m, name@, expression@, (**x)@, res);
                }
                res
            },
        }
    }

    /// Evaluates one expression tree, or fails; the one visible side
    /// effect is on the interpreter's own variable store, and only an
    /// assignment at the root of the tree has it. The result is exactly
    /// what the fuel-bounded semantics [`eval_spec`] yields at every
    /// sufficient fuel, message for message.
    pub fn interpret(&mut self, ast: Expression) -> (r: Result<u64, String>)
        requires
            old(self).wf(),
            line_shaped(ast@),
        ensures
            final(self).wf(),
            assign_free(ast@) ==> *final(self) == *old(self),
            r matches Ok(b) ==> exists|f: nat|
                eval_spec(old(self).store(), ast@, f) == Some(
                    (final(self).store(), Ok::<u64, EvalErr>(b)),
                ),
            r matches Err(msg) ==> exists|f: nat, k: EvalErr|
                eval_spec(old(self).store(), ast@, f) == Some(
                    (final(self).store(), Err::<u64, EvalErr>(k)),
                ) && msg@ == err_msg(k),
        decreases erank(old(self).ranks@, ast@), ast,
    {
        let ghost m0 = old(self).store();
        match ast {
            Expression::Assignment(identifier, expr) => {
                proof {
                    assert(assign_free((*expr)@));
                }
                match self.is_assignation_legal(&identifier, &*expr) {
                    Ok(true) => {
                        let ghost f0 = choose|f: nat|
                            legal_spec(m0, identifier@, (*expr)@, f) == Some(
                                Ok::<bool, Seq<char>>(true),
                            );
                        proof {
                            let rk2 = lemma_rank_update(
                                m0,
                                self.ranks@,
                                identifier@,
                                (*expr)@,
                                f0,
                            );
                            self.ranks@ = rk2;
                        }
                        let value = (*expr).clone();
                        self.store_set(&identifier, value);
                        proof {
                            assert(self.store() == m0.insert(identifier@, (*expr)@));
                            assert(self.wf());
                        }
                        let res = self.interpret(*expr);
                        proof {
                            let m1 = m0.insert(identifier@, (*expr)@);
                            match &res {
                                Ok(b) => {
                                    let f2 = choose|f: nat|
                                        eval_spec(m1, (*expr)@, f) == Some(
                                            (self.store(), Ok::<u64, EvalErr>(*b)),
                                        );
                                    let fm = if f0 >= f2 { f0 } else { f2 };
                                    lemma_legal_mono(m0, identifier@, (*expr)@, f0, fm);
                                    lemma_eval_mono(m1, (*expr)@, f2, fm);
                                    assert(eval_spec(m0, ast@, fm) == Some(
                                        (self.store(), Ok::<u64, EvalErr>(*b)),
                                    ));
                                },
                                Err(msg) => {
                                    let (f2, k2) = choose|f: nat, k: EvalErr|
                                        eval_spec(m1, (*expr)@, f) == Some(
                                            (self.store(), Err::<u64, EvalErr>(k)),
                                        ) && msg@ == err_msg(k);
                                    let fm = if f0 >= f2 { f0 } else { f2 };
                                    lemma_legal_mono(m0, identifier@, (*expr)@, f0, fm);
                                    lemma_eval_mono(m1, (*expr)@, f2, fm);
                                    assert(eval_spec(m0, ast@, fm) == Some(
                                        (self.store(), Err::<u64, EvalErr>(k2)),
                                    ));
                                },
                            }
                        }
                        res
                    },
                    Ok(false) => {
                        let msg = String::from_str("Illegal assignation");
                        proof {
                            let f0 = choose|f: nat|
                                legal_spec(m0, identifier@, (*expr)@, f) == Some(
                                    Ok::<bool, Seq<char>>(false),
                                );
                            assert(eval_spec(m0, ast@, f0) == Some(
                                (m0, Err::<u64, EvalErr>(EvalErr::Illegal)),
                            ));
                            assert(msg@ == err_msg(EvalErr::Illegal));
                        }
                        Err(msg)
                    },
                    Err(msg) => {
                        proof {
                            let (f0, w) = choose|f: nat, w: Seq<char>|
                                legal_spec(m0, identifier@, (*expr)@, f) == Some(
                                    Err::<bool, Seq<char>>(w),
                                ) && msg@ == err_msg(EvalErr::NotFound(w));
                            assert(eval_spec(m0, ast@, f0) == Some(
                                (m0, Err::<u64, EvalErr>(EvalErr::NotFound(w))),
                            ));
                        }
                        Err(msg)
                    },
                }
            },
            Expression::Addition(l, r) => {
                proof {
                    assert(assign_free((*l)@) && assign_free((*r)@));
                }
                let a = match self.interpret(*l) {
                    Ok(v) => v,
                    Err(msg) => {
                        proof {
                            let (f1, k1) = choose|f: nat, k: EvalErr|
                                eval_spec(m0, (*l)@, f) == Some(
                                    (self.store(), Err::<u64, EvalErr>(k)),
                                ) && msg@ == err_msg(k);
                            assert(eval_spec(m0, ast@, f1) == Some(
                                (self.store(), Err::<u64, EvalErr>(k1)),
                            ));
                        }
                        return Err(msg);
                    },
                };
                let ghost f1 = choose|f: nat|
                    eval_spec(m0, (*l)@, f) == Some((m0, Ok::<u64, EvalErr>(a)));
                let b = match self.interpret(*r) {
                    Ok(v) => v,
                    Err(msg) => {
                        proof {
                            let (f2, k2) = choose|f: nat, k: EvalErr|
                                eval_spec(m0, (*r)@, f) == Some(
                                    (self.store(), Err::<u64, EvalErr>(k)),
                                ) && msg@ == err_msg(k);
                            let fm = if f1 >= f2 { f1 } else { f2 };
                            lemma_eval_mono(m0, (*l)@, f1, fm);
                            lemma_eval_mono(m0, (*r)@, f2, fm);
                            assert(eval_spec(m0, ast@, fm) == Some(
                                (self.store(), Err::<u64, EvalErr>(k2)),
                            ));
                        }
                        return Err(msg);
                    },
                };
                let c = crate::num::add_bits(a, b);
                proof {
                    let f2 = choose|f: nat|
                        eval_spec(m0, (*r)@, f) == Some((m0, Ok::<u64, EvalErr>(b)));
                    let fm = if f1 >= f2 { f1 } else { f2 };
                    lemma_eval_mono(m0, (*l)@, f1, fm);
                    lemma_eval_mono(m0, (*r)@, f2, fm);
                    assert(eval_spec(m0, ast@, fm) == Some((m0, Ok::<u64, EvalErr>(c))));
                }
                Ok(c)
            },
            Expression::Subtraction(l, r) => {
                proof {
                    assert(assign_free((*l)@) && assign_free((*r)@));
                }
                let a = match self.interpret(*l) {
                    Ok(v) => v,
                    Err(msg) => {
                        proof {
                            let (f1, k1) = choose|f: nat, k: EvalErr|
                                eval_spec(m0, (*l)@, f) == Some(
                                    (self.store(), Err::<u64, EvalErr>(k)),
                                ) && msg@ == err_msg(k);
                            assert(eval_spec(m0, ast@, f1) == Some(
                                (self.store(), Err::<u64, EvalErr>(k1)),
                            ));
                        }
                        return Err(msg);
                    },
                };
                let ghost f1 = choose|f: nat|
                    eval_spec(m0, (*l)@, f) == Some((m0, Ok::<u64, EvalErr>(a)));
                let b = match self.interpret(*r) {
                    Ok(v) => v,
                    Err(msg) => {
                        proof {
                            let (f2, k2) = choose|f: nat, k: EvalErr|
                                eval_spec(m0, (*r)@, f) == Some(
                                    (self.store(), Err::<u64, EvalErr>(k)),
                                ) && msg@ == err_msg(k);
                            let fm = if f1 >= f2 { f1 } else { f2 };
                            lemma_eval_mono(m0, (*l)@, f1, fm);
                            lemma_eval_mono(m0, (*r)@, f2, fm);
                            assert(eval_spec(m0, ast@, fm) == Some(
                                (self.store(), Err::<u64, EvalErr>(k2)),
                            ));
                        }
                        return Err(msg);
                    },
                };
                let c = crate::num::sub_bits(a, b);
                proof {
                    let f2 = choose|f: nat|
                        eval_spec(m0, (*r)@, f) == Some((m0, Ok::<u64, EvalErr>(b)));
                    let fm = if f1 >= f2 { f1 } else { f2 };
                    lemma_eval_mono(m0, (*l)@, f1, fm);
                    lemma_eval_mono(m0, (*r)@, f2, fm);
                    assert(eval_spec(m0, ast@, fm) == Some((m0, Ok::<u64, EvalErr>(c))));
                }
                Ok(c)
            },
            Expression::Multiplication(l, r) => {
                proof {
                    assert(assign_free((*l)@) && assign_free((*r)@));
                }
                let a = match self.interpret(*l) {
                    Ok(v) => v,
                    Err(msg) => {
                        proof {
                            let (f1, k1) = choose|f: nat, k: EvalErr|
                                eval_spec(m0, (*l)@, f) == Some(
                                    (self.store(), Err::<u64, EvalErr>(k)),
                                ) && msg@ == err_msg(k);
                            assert(eval_spec(m0, ast@, f1) == Some(
                                (self.store(), Err::<u64, EvalErr>(k1)),
                            ));
                        }
                        return Err(msg);
                    },
                };
                let ghost f1 = choose|f: nat|
                    eval_spec(m0, (*l)@, f) == Some((m0, Ok::<u64, EvalErr>(a)));
                let b = match self.interpret(*r) {
                    Ok(v) => v,
                    Err(msg) => {
                        proof {
                            let (f2, k2) = choose|f: nat, k: EvalErr|
                                eval_spec(m0, (*r)@, f) == Some(
                                    (self.store(), Err::<u64, EvalErr>(k)),
                                ) && msg@ == err_msg(k);
                            let fm = if f1 >= f2 { f1 } else { f2 };
                            lemma_eval_mono(m0, (*l)@, f1, fm);
                            lemma_eval_mono(m0, (*r)@, f2, fm);
                            assert(eval_spec(m0, ast@, fm) == Some(
                                (self.store(), Err::<u64, EvalErr>(k2)),
                            ));
                        }
                        return Err(msg);
                    },
                };
                let c = crate::num::mul_bits(a, b);
                proof {
                    let f2 = choose|f: nat|
                        eval_spec(m0, (*r)@, f) == Some((m0, Ok::<u64, EvalErr>(b)));
                    let fm = if f1 >= f2 { f1 } else { f2 };
                    lemma_eval_mono(m0, (*l)@, f1, fm);
                    lemma_eval_mono(m0, (*r)@, f2, fm);
                    assert(eval_spec(m0, ast@, fm) == Some((m0, Ok::<u64, EvalErr>(c))));
                }
                Ok(c)
            },
            Expression::Division(l, r) => {
                proof {
                    assert(assign_free((*l)@) && assign_free((*r)@));
                }
                let b = match self.interpret(*r) {
                    Ok(v) => v,
                    Err(msg) => {
                        proof {
                            let (f1, k1) = choose|f: nat, k: EvalErr|
                                eval_spec(m0, (*r)@, f) == Some(
                                    (self.store(), Err::<u64, EvalErr>(k)),
                                ) && msg@ == err_msg(k);
                            assert(eval_spec(m0, ast@, f1) == Some(
                                (self.store(), Err::<u64, EvalErr>(k1)),
                            ));
                        }
                        return Err(msg);
                    },
                };
                let ghost f1 = choose|f: nat|
                    eval_spec(m0, (*r)@, f) == Some((m0, Ok::<u64, EvalErr>(b)));
                if crate::num::is_zero_bits(b) {
                    let msg = String::from_str("Cannot divide by 0.");
                    proof {
                        assert(eval_spec(m0, ast@, f1) == Some(
                            (m0, Err::<u64, EvalErr>(EvalErr::DivZero)),
                        ));
                        assert(msg@ == err_msg(EvalErr::DivZero));
                    }
                    Err(msg)
                } else {
                    let a = match self.interpret(*l) {
                        Ok(v) => v,
                        Err(msg) => {
                            proof {
                                let (f2, k2) = choose|f: nat, k: EvalErr|
                                    eval_spec(m0, (*l)@, f) == Some(
                                        (self.store(), Err::<u64, EvalErr>(k)),
                                    ) && msg@ == err_msg(k);
                                let fm = if f1 >= f2 { f1 } else { f2 };
                                lemma_eval_mono(m0, (*r)@, f1, fm);
                                lemma_eval_mono(m0, (*l)@, f2, fm);
                                assert(eval_spec(m0, ast@, fm) == Some(
                                    (self.store(), Err::<u64, EvalErr>(k2)),
                                ));
                            }
                            return Err(msg);
                        },
                    };
                    let c = crate::num::div_bits(a, b);
                    proof {
                        let f2 = choose|f: nat|
                            eval_spec(m0, (*l)@, f) == Some((m0, Ok::<u64, EvalErr>(a)));
                        let fm = if f1 >= f2 { f1 } else { f2 };
                        lemma_eval_mono(m0, (*r)@, f1, fm);
                        lemma_eval_mono(m0, (*l)@, f2, fm);
                        assert(eval_spec(m0, ast@, fm) == Some((m0, Ok::<u64, EvalErr>(c))));
                    }
                    Ok(c)
                }
            },
            Expression::UnaryPlus(x) => {
                proof {
                    assert(assign_free((*x)@));
                }
                match self.interpret(*x) {
                    Ok(v) => {
                        let c = crate::num::add_bits(crate::num::ZERO_BITS, v);
                        proof {
                            let f1 = choose|f: nat|
                                eval_spec(m0, (*x)@, f) == Some((m0, Ok::<u64, EvalErr>(v)));
                            assert(eval_spec(m0, ast@, f1) == Some(
                                (m0, Ok::<u64, EvalErr>(c)),
                            ));
                        }
                        Ok(c)
                    },
                    Err(msg) => {
                        proof {
                            let (f1, k1) = choose|f: nat, k: EvalErr|
                                eval_spec(m0, (*x)@, f) == Some(
                                    (self.store(), Err::<u64, EvalErr>(k)),
                                ) && msg@ == err_msg(k);
                            assert(eval_spec(m0, ast@, f1) == Some(
                                (self.store(), Err::<u64, EvalErr>(k1)),
                            ));
                        }
                        Err(msg)
                    },
                }
            },
            Expression::UnaryMinus(x) => {
                proof {
                    assert(assign_free((*x)@));
                }
                match self.interpret(*x) {
                    Ok(v) => {
                        let c = crate::num::sub_bits(crate::num::ZERO_BITS, v);
                        proof {
                            let f1 = choose|f: nat|
                                eval_spec(m0, (*x)@, f) == Some((m0, Ok::<u64, EvalErr>(v)));
                            assert(eval_spec(m0, ast@, f1) == Some(
                                (m0, Ok::<u64, EvalErr>(c)),
                            ));
                        }
                        Ok(c)
                    },
                    Err(msg) => {
                        proof {
                            let (f1, k1) = choose|f: nat, k: EvalErr|
                                eval_spec(m0, (*x)@, f) == Some(
                                    (self.store(), Err::<u64, EvalErr>(k)),
                                ) && msg@ == err_msg(k);
                            assert(eval_spec(m0, ast@, f1) == Some(
                                (self.store(), Err::<u64, EvalErr>(k1)),
                            ));
                        }
                        Err(msg)
                    },
                }
            },
            Expression::ParenthesisExpression(x) => {
                proof {
                    assert(assign_free((*x)@));
                }
                let res = self.interpret(*x);
                proof {
                    match &res {
                        Ok(b) => {
                            let f1 = choose|f: nat|
                                eval_spec(m0, (*x)@, f) == Some(
                                    (self.store(), Ok::<u64, EvalErr>(*b)),
                                );
                            assert(eval_spec(m0, ast@, f1) == Some(
                                (self.store(), Ok::<u64, EvalErr>(*b)),
                            ));
                        },
                        Err(msg) => {
                            let (f1, k1) = choose|f: nat, k: EvalErr|
                                eval_spec(m0, (*x)@, f) == Some(
                                    (self.store(), Err::<u64, EvalErr>(k)),
                                ) && msg@ == err_msg(k);
                            assert(eval_spec(m0, ast@, f1) == Some(
                                (self.store(), Err::<u64, EvalErr>(k1)),
                            ));
                        },
                    }
                }
                res
            },
            Expression::Literal(bits) => {
                proof {
                    assert(eval_spec(m0, ast@, 0) == Some((m0, Ok::<u64, EvalErr>(bits))));
                }
                Ok(bits)
            },
            Expression::Variable(identifier) => {
                match self.lookup(&identifier) {
                    Some(stored) => {
                        proof {
                            assert(m0.dom().contains(identifier@));
                            assert(assign_free(stored@));
                            assert(erank(self.ranks@, stored@) < self.ranks@[identifier@]);
                        }
                        let res = self.interpret(stored);
                        proof {
                            match &res {
                                Ok(b) => {
                                    let f2 = choose|f: nat|
                                        eval_spec(m0, m0[identifier@], f) == Some(
                                            (self.store(), Ok::<u64, EvalErr>(*b)),
                                        );
                                    assert(eval_spec(m0, ast@, f2 + 1) == Some(
                                        (self.store(), Ok::<u64, EvalErr>(*b)),
                                    ));
                                },
                                Err(msg) => {
                                    let (f2, k2) = choose|f: nat, k: EvalErr|
                                        eval_spec(m0, m0[identifier@], f) == Some(
                                            (self.store(), Err::<u64, EvalErr>(k)),
                                        ) && msg@ == err_msg(k);
                                    assert(eval_spec(m0, ast@, f2 + 1) == Some(
                                        (self.store(), Err::<u64, EvalErr>(k2)),
                                    ));
                                },
                            }
                        }
                        res
                    },
                    None => {
                        let msg = String::from_str("Variable ").concat(
                            identifier.as_str(),
                        ).concat(" not found");
                        proof {
                            assert(msg@ == err_msg(EvalErr::NotFound(identifier@)));
                            assert(eval_spec(m0, ast@, 0) == Some(
                                (m0, Err::<u64, EvalErr>(EvalErr::NotFound(identifier@))),
                            ));
                        }
                        Err(msg)
                    },
                }
            },
            Expression::Eof => {
                let msg = String::from_str("EOF");
                proof {
                    assert(msg@ == err_msg(EvalErr::EofValue));
                    assert(eval_spec(m0, ast@, 0) == Some(
                        (m0, Err::<u64, EvalErr>(EvalErr::EofValue)),
                    ));
                }
                Err(msg)
            },
        }
    }
}

// ---------------------------------------------------------------------
// Laws of evaluation
// ---------------------------------------------------------------------
/// A store in which every binding is assignment-free; every store the
/// interpreter builds is one, since assignments store their own
/// right-hand sides.
pub open spec fn store_assign_free(m: Map<Seq<char>, ExprModel>) -> bool {
    forall|v: Seq<char>| #[trigger] m.dom().contains(v) ==> assign_free(m[v])
}

/// Every store a well-formed interpreter holds is assignment-free, so
/// the laws below apply to it.
pub proof fn lemma_wf_store_assign_free(it: Interpreter)
    requires
        it.wf(),
    ensures
        store_assign_free(it.store()),
{
}

/// Evaluating an assignment-free expression over an assignment-free
/// store leaves the store untouched and never reports an illegal
/// assignment, whatever the outcome.
pub proof fn lemma_eval_pure(m: Map<Seq<char>, ExprModel>, e: ExprModel, f: nat)
    requires
        assign_free(e),
        store_assign_free(m),
    ensures
        eval_spec(m, e, f) matches Some((m1, res)) ==> m1 == m && res != Err::<u64, EvalErr>(
            EvalErr::Illegal,
        ),
    decreases f, e,
{
    match e {
        ExprModel::Addition(l, r) => {
            lemma_eval_pure(m, *l, f);
            lemma_eval_pure(m, *r, f);
        },
        ExprModel::Subtraction(l, r) => {
            lemma_eval_pure(m, *l, f);
            lemma_eval_pure(m, *r, f);
        },
        ExprModel::Multiplication(l, r) => {
            lemma_eval_pure(m, *l, f);
            lemma_eval_pure(m, *r, f);
        },
        ExprModel::Division(l, r) => {
            lemma_eval_pure(m, *l, f);
            lemma_eval_pure(m, *r, f);
        },
        ExprModel::UnaryPlus(x) => {
            lemma_eval_pure(m, *x, f);
        },
        ExprModel::UnaryMinus(x) => {
            lemma_eval_pure(m, *x, f);
        },
        ExprModel::ParenthesisExpression(x) => {
            lemma_eval_pure(m, *x, f);
        },
        ExprModel::Variable(w) => {
            if m.dom().contains(w) && f > 0 {
                lemma_eval_pure(m, m[w], (f - 1) as nat);
            }
        },
        _ => {},
    }
}

/// A division whose evaluated right-hand side is one of the two zero
/// bit patterns always fails, whatever its left operand holds.
pub proof fn lemma_division_by_zero_fails(
    m: Map<Seq<char>, ExprModel>,
    l: ExprModel,
    r: ExprModel,
    f: nat,
    m1: Map<Seq<char>, ExprModel>,
    z: u64,
)
    requires
        eval_spec(m, r, f) == Some((m1, Ok::<u64, EvalErr>(z))),
        is_zero_bits_spec(z),
    ensures
        eval_spec(m, ExprModel::Division(Box::new(l), Box::new(r)), f) == Some(
            (m1, Err::<u64, EvalErr>(EvalErr::DivZero)),
        ),
{
}

/// Reading a variable re-evaluates the expression stored under it, in
/// the store as it stands at read time — the store holds expressions,
/// not value snapshots, so later changes to the variables that
/// expression mentions show on the next read.
pub proof fn lemma_read_reevaluates_stored_expression(
    m: Map<Seq<char>, ExprModel>,
    name: Seq<char>,
    f: nat,
)
    requires
        m.dom().contains(name),
    ensures
        eval_spec(m, ExprModel::Variable(name), f + 1) == eval_spec(m, m[name], f),
{
}

/// A successful assignment stores its right-hand side, unevaluated: the
/// store afterwards is the old store with exactly that binding added or
/// overwritten.
pub proof fn lemma_assignment_stores_expression(
    m: Map<Seq<char>, ExprModel>,
    name: Seq<char>,
    e: ExprModel,
    f: nat,
    m2: Map<Seq<char>, ExprModel>,
    v: u64,
)
    requires
        assign_free(e),
        store_assign_free(m),
        eval_spec(m, ExprModel::Assignment(name, Box::new(e)), f) == Some(
            (m2, Ok::<u64, EvalErr>(v)),
        ),
    ensures
        m2 == m.insert(name, e),
        m2[name] == e,
        store_assign_free(m2),
        eval_spec(m.insert(name, e), e, f) == Some((m2, Ok::<u64, EvalErr>(v))),
{
    assert(store_assign_free(m.insert(name, e)));
    lemma_eval_pure(m.insert(name, e), e, f);
}

/// A later assignment to a different name leaves a binding as it was.
pub proof fn lemma_other_assignment_keeps_binding(
    m: Map<Seq<char>, ExprModel>,
    other: Seq<char>,
    e2: ExprModel,
    f: nat,
    m2: Map<Seq<char>, ExprModel>,
    v: u64,
    name: Seq<char>,
)
    requires
        assign_free(e2),
        store_assign_free(m),
        name != other,
        m.dom().contains(name),
        eval_spec(m, ExprModel::Assignment(other, Box::new(e2)), f) == Some(
            (m2, Ok::<u64, EvalErr>(v)),
        ),
    ensures
        m2.dom().contains(name),
        m2[name] == m[name],
{
    lemma_assignment_stores_expression(m, other, e2, f, m2, v);
}

/// An assignment whose right-hand side reads the assigned name back —
/// directly or through chains of stored expressions — is rejected, and
/// the store is not touched.
pub proof fn lemma_cyclic_assignment_rejected(
    m: Map<Seq<char>, ExprModel>,
    name: Seq<char>,
    e: ExprModel,
    f: nat,
)
    requires
        cyclic(m, e, name),
    ensures
        eval_spec(m, ExprModel::Assignment(name, Box::new(e)), f) matches Some((m2, res)) ==> m2
            == m && res is Err,
{
    if legal_spec(m, name, e, f) == Some(Ok::<bool, Seq<char>>(true)) {
        let k = choose|k: nat| reaches(m, e, name, k);
        lemma_legal_true_no_reach(m, name, e, f, k);
    }
}

/// The converse: the interpreter calls an assignment illegal only when
/// its right-hand side really reads the assigned name back.
pub proof fn lemma_rejection_means_cycle(
    m: Map<Seq<char>, ExprModel>,
    name: Seq<char>,
    e: ExprModel,
    f: nat,
    m2: Map<Seq<char>, ExprModel>,
)
    requires
        assign_free(e),
        store_assign_free(m),
        eval_spec(m, ExprModel::Assignment(name, Box::new(e)), f) == Some(
            (m2, Err::<u64, EvalErr>(EvalErr::Illegal)),
        ),
    ensures
        cyclic(m, e, name),
{
    match legal_spec(m, name, e, f) {
        Some(Ok(true)) => {
            assert(store_assign_free(m.insert(name, e)));
            lemma_eval_pure(m.insert(name, e), e, f);
        },
        Some(Ok(false)) => {
            lemma_legal_false_is_cyclic(m, name, e, f);
        },
        _ => {},
    }
}

/// The positive side: an assignment whose right-hand side does not
/// reach the assigned name is never rejected as illegal — a non-cyclic
/// chain of bindings goes through (though its evaluation may still fail
/// for another reason, such as a division by zero).
pub proof fn lemma_acyclic_assignment_not_rejected(
    m: Map<Seq<char>, ExprModel>,
    name: Seq<char>,
    e: ExprModel,
    f: nat,
    m2: Map<Seq<char>, ExprModel>,
    res: Result<u64, EvalErr>,
)
    requires
        assign_free(e),
        store_assign_free(m),
        !cyclic(m, e, name),
        eval_spec(m, ExprModel::Assignment(name, Box::new(e)), f) == Some((m2, res)),
    ensures
        res != Err::<u64, EvalErr>(EvalErr::Illegal),
{
    if res == Err::<u64, EvalErr>(EvalErr::Illegal) {
        lemma_rejection_means_cycle(m, name, e, f, m2);
    }
}

/// A legality walk answers `false` only on expressions that reach the
/// assigned name.
proof fn lemma_legal_false_is_cyclic(
    m: Map<Seq<char>, ExprModel>,
    name: Seq<char>,
    e: ExprModel,
    f: nat,
)
    requires
        legal_spec(m, name, e, f) == Some(Ok::<bool, Seq<char>>(false)),
    ensures
        cyclic(m, e, name),
    decreases f, e,
{
    match e {
        ExprModel::Variable(w) => {
            if w == name {
                assert(reaches(m, e, name, 0));
            } else {
                lemma_legal_false_is_cyclic(m, name, m[w], (f - 1) as nat);
                let k = choose|k: nat| reaches(m, m[w], name, k);
                assert(reaches(m, e, name, k + 1));
            }
        },
        ExprModel::Addition(l, r) => {
            lemma_legal_false_lift(m, name, *l, *r, e, f);
        },
        ExprModel::Subtraction(l, r) => {
            lemma_legal_false_lift(m, name, *l, *r, e, f);
        },
        ExprModel::Multiplication(l, r) => {
            lemma_legal_false_lift(m, name, *l, *r, e, f);
        },
        ExprModel::Division(l, r) => {
            lemma_legal_false_lift(m, name, *l, *r, e, f);
        },
        ExprModel::UnaryPlus(x) => {
            lemma_legal_false_is_cyclic(m, name, *x, f);
            let k = choose|k: nat| reaches(m, *x, name, k);
            assert(reaches(m, e, name, k));
        },
        ExprModel::UnaryMinus(x) => {
            lemma_legal_false_is_cyclic(m, name, *x, f);
            let k = choose|k: nat| reaches(m, *x, name, k);
            assert(reaches(m, e, name, k));
        },
        ExprModel::ParenthesisExpression(x) => {
            lemma_legal_false_is_cyclic(m, name, *x, f);
            let k = choose|k: nat| reaches(m, *x, name, k);
            assert(reaches(m, e, name, k));
        },
        _ => {},
    }
}

/// Helper for the binary cases of [`lemma_legal_false_is_cyclic`]: a
/// `false` from either side lifts to the node.
proof fn lemma_legal_false_lift(
    m: Map<Seq<char>, ExprModel>,
    name: Seq<char>,
    l: ExprModel,
    r: ExprModel,
    e: ExprModel,
    f: nat,
)
    requires
        e == ExprModel::Addition(Box::new(l), Box::new(r)) || e == ExprModel::Subtraction(
            Box::new(l),
            Box::new(r),
        ) || e == ExprModel::Multiplication(Box::new(l), Box::new(r)) || e
            == ExprModel::Division(Box::new(l), Box::new(r)),
        legal_spec(m, name, e, f) == Some(Ok::<bool, Seq<char>>(false)),
    ensures
        cyclic(m, e, name),
    decreases f, e, 0nat,
{
    if legal_spec(m, name, l, f) == Some(Ok::<bool, Seq<char>>(false)) {
        lemma_legal_false_is_cyclic(m, name, l, f);
        let k = choose|k: nat| reaches(m, l, name, k);
        assert(reaches(m, e, name, k));
    } else {
        lemma_legal_false_is_cyclic(m, name, r, f);
        let k = choose|k: nat| reaches(m, r, name, k);
        assert(reaches(m, e, name, k));
    }
}

/// The end-of-line sentinel parses from an empty line but has no value:
/// evaluating it is an error, whatever the store holds.
pub proof fn lemma_eof_has_no_value(m: Map<Seq<char>, ExprModel>, f: nat)
    ensures
        eval_spec(m, ExprModel::Eof, f) == Some((m, Err::<u64, EvalErr>(EvalErr::EofValue))),
{
}

} // verus!
