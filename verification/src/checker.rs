//! The trailing-zero-nibble condition on a digest.
//!
//! A digest satisfies the condition for a count `k` when the run of zero
//! nibbles ending at its least significant nibble has length exactly `k`:
//! a run of `k + 1` zero nibbles does not satisfy the condition for `k`.

use vstd::prelude::*;

verus! {

/// The length of the run of zero nibbles ending at the least significant
/// nibble of `s`, where the byte sequence is read as little-nibble-last:
/// a fully zero final byte contributes two nibbles and the run continues;
/// a final byte whose low nibble alone is zero contributes one and ends the
/// run; any other final byte ends the run at length zero.
pub open spec fn trailing_zero_nibbles(s: Seq<u8>) -> nat
    decreases s.len(),
{
    if s.len() == 0 {
        0
    } else {
        let last = s[s.len() - 1];
        if last == 0 {
            (2 + trailing_zero_nibbles(s.take(s.len() - 1))) as nat
        } else if last % 16 == 0 {
            1
        } else {
            0
        }
    }
}

/// Decides whether the run of trailing zero nibbles of `data` has length
/// exactly `zero_count`. Pure and total: no input is rejected.
pub fn has_trailing_zeros(data: &[u8], zero_count: usize) -> (r: bool)
    ensures
        r == (trailing_zero_nibbles(data@) == zero_count),
{
    let len = data.len();
    let mut i: usize = len;
    proof {
        assert(data@.take(len as int) =~= data@);
    }
    while i > 0 && data[i - 1] == 0
        invariant
            i <= len,
            len == data@.len(),
            trailing_zero_nibbles(data@) == 2 * (len - i) + trailing_zero_nibbles(
                data@.take(i as int),
            ),
        decreases i,
    {
        proof {
            let t = data@.take(i as int);
            assert(t[t.len() - 1] == data@[i - 1]);
            assert(t.take(t.len() - 1) =~= data@.take(i - 1));
        }
        i = i - 1;
    }
    let zero_bytes = len - i;
    let partial: u128 = if i > 0 && data[i - 1] % 16 == 0 {
        proof {
            let t = data@.take(i as int);
            assert(t[t.len() - 1] == data@[i - 1]);
        }
        1
    } else {
        proof {
            if i > 0 {
                let t = data@.take(i as int);
                assert(t[t.len() - 1] == data@[i - 1]);
            } else {
                assert(data@.take(0) =~= Seq::<u8>::empty());
            }
        }
        0
    };
    2 * (zero_bytes as u128) + partial == (zero_count as u128)
}

} // verus!
