use vstd::prelude::*;

verus! {

/// Number of positions below `n` where the predicted and the true class
/// agree.
pub open spec fn agreements(pred: Seq<bool>, truth: Seq<bool>, n: int) -> nat
    decreases n,
{
    if n <= 0 {
        0
    } else {
        agreements(pred, truth, n - 1) + if pred[n - 1] == truth[n - 1] { 1nat } else { 0nat }
    }
}

/// How many predictions fall on the same side of the threshold as their
/// targets: `pred[i]` and `truth[i]` say whether each value lies above it.
pub fn count_agreements(pred: &Vec<bool>, truth: &Vec<bool>) -> (r: usize)
    requires
        pred@.len() == truth@.len(),
    ensures
        r == agreements(pred@, truth@, pred@.len() as int),
        r <= pred@.len(),
{
    let mut c: usize = 0;
    let mut i: usize = 0;
    while i < pred.len()
        invariant
            i <= pred@.len(),
            pred@.len() == truth@.len(),
            c == agreements(pred@, truth@, i as int),
            c <= i,
        decreases pred@.len() - i,
    {
        if pred[i] == truth[i] {
            c = c + 1;
        }
        i = i + 1;
    }
    c
}

} // verus!
