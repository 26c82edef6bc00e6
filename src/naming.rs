//! Random names for the files that rendered charts are written to.

use vstd::prelude::*;
use rand::Rng;

verus! {

/// The characters that a generated name is made of.
pub const CHARSET: &'static str = "ABCDEFGHIJKLMNOPQRSTUVWXYZabcdefghijklmnopqrstuvwxyz0123456789";

/// Relies on rand's `thread_rng().gen_range(0..n)`: an index drawn from
/// `0..n`; the range must not be empty.
#[verifier::external_body]
fn random_below(n: usize) -> (r: usize)
    requires
        n > 0,
    ensures
        r < n,
{
    rand::thread_rng().gen_range(0..n)
}

/// The name whose `k`-th character is the `idx[k]`-th character of
/// `CHARSET`.
pub fn filename_from_indices(idx: &Vec<usize>) -> (r: String)
    requires
        forall|k: int| 0 <= k < idx@.len() ==> #[trigger] idx@[k] < 62,
    ensures
        r@.len() == idx@.len(),
        forall|k: int| 0 <= k < idx@.len() ==> #[trigger] r@[k] == CHARSET@[idx@[k] as int],
{
    proof {
        reveal_strlit("ABCDEFGHIJKLMNOPQRSTUVWXYZabcdefghijklmnopqrstuvwxyz0123456789");
    }
    let charset = CHARSET;
    let len = idx.len();
    let mut out = String::new();
    let mut i: usize = 0;
    while i < len
        invariant
            i <= len,
            len == idx@.len(),
            CHARSET@.len() == 62,
            charset@ == CHARSET@,
            forall|k: int| 0 <= k < idx@.len() ==> #[trigger] idx@[k] < 62,
            out@.len() == i,
            forall|k: int| 0 <= k < i ==> #[trigger] out@[k] == CHARSET@[idx@[k] as int],
        decreases len - i,
    {
        let j = idx[i];
        let c = charset.substring_char(j, j + 1);
        let ghost o = out@;
        out.append(c);
        proof {
            assert(out@ == o + CHARSET@.subrange(j as int, j + 1));
            assert forall|k: int| 0 <= k < i + 1 implies #[trigger] out@[k] == CHARSET@[idx@[k] as int] by {
                if k < i {
                    assert(out@[k] == o[k]);
                }
            }
        }
        i = i + 1;
    }
    out
}

/// A name of `len` characters, each drawn at random from `CHARSET`.
pub fn generate_random_filename(len: usize) -> (r: String)
    ensures
        r@.len() == len,
        forall|i: int| 0 <= i < len ==> CHARSET@.contains(#[trigger] r@[i]),
{
    proof {
        reveal_strlit("ABCDEFGHIJKLMNOPQRSTUVWXYZabcdefghijklmnopqrstuvwxyz0123456789");
    }
    let mut idx: Vec<usize> = Vec::new();
    let mut i: usize = 0;
    while i < len
        invariant
            i <= len,
            idx@.len() == i,
            forall|k: int| 0 <= k < i ==> #[trigger] idx@[k] < 62,
        decreases len - i,
    {
        idx.push(random_below(62));
        i = i + 1;
    }
    let r = filename_from_indices(&idx);
    assert forall|k: int| 0 <= k < len implies CHARSET@.contains(#[trigger] r@[k]) by {
        assert(r@[k] == CHARSET@[idx@[k] as int]);
    }
    r
}

} // verus!
