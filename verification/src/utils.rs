use vstd::prelude::*;

verus! {

/// A ternary selection helper: `cond.q(a, b)` is `a` when the condition
/// holds and `b` otherwise.
pub trait TernaryOperator<V> {
    spec fn q_spec(&self, if_true: V, if_false: V) -> V;

    fn q(&self, if_true: V, if_false: V) -> (r: V)
        ensures
            r == self.q_spec(if_true, if_false),
    ;
}

impl<V> TernaryOperator<V> for bool {
    open spec fn q_spec(&self, if_true: V, if_false: V) -> V {
        if *self {
            if_true
        } else {
            if_false
        }
    }

    fn q(&self, if_true: V, if_false: V) -> (r: V) {
        if *self {
            if_true
        } else {
            if_false
        }
    }
}

} // verus!
