//! Sum of absolute differences over bytes: with one side all zero it sums
//! the other, which counts the lanes of a 0/1 mask.

use vstd::prelude::*;

verus! {

/// `sum_i |a[i] - b[i]|`.
pub open spec fn abs_diff_sum(a: Seq<u8>, b: Seq<u8>) -> nat
    decreases a.len(),
{
    if a.len() == 0 || b.len() == 0 {
        0
    } else {
        abs_diff_sum(a.drop_last(), b.drop_last()) + if a.last() >= b.last() {
            (a.last() - b.last()) as nat
        } else {
            (b.last() - a.last()) as nat
        }
    }
}

/// The byte-wise sum of absolute differences.
pub struct Sad;

impl Sad {
    /// Sums `|a[i] - b[i]|` over two byte vectors of equal length.
    pub fn sad(a: &Vec<u8>, b: &Vec<u8>) -> (r: u64)
        requires
            a@.len() == b@.len(),
            a@.len() <= 0xff_ffff_ffff_ffff,
        ensures
            r as nat == abs_diff_sum(a@, b@),
    {
        let n = a.len();
        let mut total: u64 = 0;
        let mut i: usize = 0;
        while i < n
            invariant
                i <= n,
                n == a@.len(),
                n == b@.len(),
                n <= 0xff_ffff_ffff_ffff,
                total as nat == abs_diff_sum(a@.take(i as int), b@.take(i as int)),
                total <= 255 * i,
            decreases n - i,
        {
            let x = a[i];
            let y = b[i];
            let d = if x >= y {
                x - y
            } else {
                y - x
            };
            proof {
                assert(a@.take(i + 1).drop_last() =~= a@.take(i as int));
                assert(b@.take(i + 1).drop_last() =~= b@.take(i as int));
            }
            total = total + d as u64;
            i = i + 1;
        }
        proof {
            assert(a@.take(n as int) =~= a@);
            assert(b@.take(n as int) =~= b@);
        }
        total
    }
}

} // verus!
