//! The four boolean node functions, applied to whole columns.

use vstd::prelude::*;

verus! {

/// Elementwise AND.
pub fn and(con1: &Vec<bool>, con2: &Vec<bool>) -> (r: Vec<bool>)
    requires
        con1@.len() == con2@.len(),
    ensures
        r@.len() == con1@.len(),
        forall|i: int| 0 <= i < r@.len() ==> r@[i] == (con1@[i] && con2@[i]),
{
    let mut r: Vec<bool> = Vec::with_capacity(con1.len());
    let mut i: usize = 0;
    while i < con1.len()
        invariant
            con1@.len() == con2@.len(),
            i <= con1@.len(),
            r@.len() == i,
            forall|k: int| 0 <= k < i ==> r@[k] == (con1@[k] && con2@[k]),
        decreases con1@.len() - i,
    {
        r.push(con1[i] && con2[i]);
        i += 1;
    }
    r
}

/// Elementwise OR.
pub fn or(con1: &Vec<bool>, con2: &Vec<bool>) -> (r: Vec<bool>)
    requires
        con1@.len() == con2@.len(),
    ensures
        r@.len() == con1@.len(),
        forall|i: int| 0 <= i < r@.len() ==> r@[i] == (con1@[i] || con2@[i]),
{
    let mut r: Vec<bool> = Vec::with_capacity(con1.len());
    let mut i: usize = 0;
    while i < con1.len()
        invariant
            con1@.len() == con2@.len(),
            i <= con1@.len(),
            r@.len() == i,
            forall|k: int| 0 <= k < i ==> r@[k] == (con1@[k] || con2@[k]),
        decreases con1@.len() - i,
    {
        r.push(con1[i] || con2[i]);
        i += 1;
    }
    r
}

/// Elementwise negation.
fn not(con: Vec<bool>) -> (r: Vec<bool>)
    ensures
        r@.len() == con@.len(),
        forall|i: int| 0 <= i < r@.len() ==> r@[i] == !con@[i],
{
    let mut r = con;
    let mut i: usize = 0;
    while i < r.len()
        invariant
            r@.len() == con@.len(),
            i <= r@.len(),
            forall|k: int| 0 <= k < i ==> r@[k] == !con@[k],
            forall|k: int| i <= k < r@.len() ==> r@[k] == con@[k],
        decreases r@.len() - i,
    {
        let negated = !r[i];
        r[i] = negated;
        i += 1;
    }
    r
}

/// Elementwise NAND.
pub fn nand(con1: &Vec<bool>, con2: &Vec<bool>) -> (r: Vec<bool>)
    requires
        con1@.len() == con2@.len(),
    ensures
        r@.len() == con1@.len(),
        forall|i: int| 0 <= i < r@.len() ==> r@[i] == !(con1@[i] && con2@[i]),
{
    not(and(con1, con2))
}

/// Elementwise NOR.
pub fn nor(con1: &Vec<bool>, con2: &Vec<bool>) -> (r: Vec<bool>)
    requires
        con1@.len() == con2@.len(),
    ensures
        r@.len() == con1@.len(),
        forall|i: int| 0 <= i < r@.len() ==> r@[i] == !(con1@[i] || con2@[i]),
{
    not(or(con1, con2))
}

} // verus!
