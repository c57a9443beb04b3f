//! The key by which names are ordered naturally: runs of digits count as
//! numbers, so that `file9` comes before `file10`.

use crate::order::{ints, wide_ints};
use vstd::prelude::*;

verus! {

/// Whether a byte is an ASCII digit.
pub open spec fn is_digit(c: int) -> bool {
    48 <= c <= 57
}

/// The length of the run of digits that `s` starts with.
pub open spec fn digit_run(s: Seq<int>) -> nat
    decreases s.len(),
{
    if s.len() > 0 && is_digit(s[0]) {
        1 + digit_run(s.skip(1))
    } else {
        0
    }
}

/// `s` without the zeros that it starts with.
pub open spec fn strip_zeros(s: Seq<int>) -> Seq<int>
    decreases s.len(),
{
    if s.len() > 0 && s[0] == 48 {
        strip_zeros(s.skip(1))
    } else {
        s
    }
}

/// The natural key of a byte string. A byte that is no digit stands for
/// itself. A run of digits stands for 256 plus the number of its digits
/// after the leading zeros, followed by those digits: a longer number is a
/// larger one, and numbers of one length are ordered digit by digit.
pub open spec fn natural_key(s: Seq<int>) -> Seq<int>
    decreases s.len(),
{
    if s.len() == 0 {
        Seq::empty()
    } else if is_digit(s[0]) {
        let n = digit_run(s);
        let digits = strip_zeros(s.take(n as int));
        proof {
            lemma_digit_run_bound(s);
        }
        seq![256 + digits.len() as int] + digits + natural_key(s.skip(n as int))
    } else {
        seq![s[0]] + natural_key(s.skip(1))
    }
}

/// A run of digits is no longer than the string it starts.
pub proof fn lemma_digit_run_bound(s: Seq<int>)
    ensures
        digit_run(s) <= s.len(),
        s.len() > 0 && is_digit(s[0]) ==> digit_run(s) >= 1,
    decreases s.len(),
{
    if s.len() > 0 && is_digit(s[0]) {
        lemma_digit_run_bound(s.skip(1));
    }
}

/// The run of digits ends at the first byte that is no digit.
pub proof fn lemma_digit_run_is(s: Seq<int>, m: int)
    requires
        0 <= m <= s.len(),
        forall|k: int| 0 <= k < m ==> is_digit(#[trigger] s[k]),
        m == s.len() || !is_digit(s[m]),
    ensures
        digit_run(s) == m,
    decreases m,
{
    if m > 0 {
        let rest = s.skip(1);
        assert forall|k: int| 0 <= k < m - 1 implies is_digit(#[trigger] rest[k]) by {
            assert(rest[k] == s[k + 1]);
        }
        lemma_digit_run_is(rest, m - 1);
    }
}

/// Stripping zeros removes the bytes before the first that is no zero.
pub proof fn lemma_strip_zeros_is(s: Seq<int>, z: int)
    requires
        0 <= z <= s.len(),
        forall|k: int| 0 <= k < z ==> #[trigger] s[k] == 48,
        z == s.len() || s[z] != 48,
    ensures
        strip_zeros(s) == s.skip(z),
    decreases z,
{
    if z > 0 {
        let rest = s.skip(1);
        assert forall|k: int| 0 <= k < z - 1 implies #[trigger] rest[k] == 48 by {
            assert(rest[k] == s[k + 1]);
        }
        lemma_strip_zeros_is(rest, z - 1);
        assert(rest.skip(z - 1) =~= s.skip(z));
    } else {
        assert(s.skip(0) =~= s);
    }
}

/// Computes the natural key of a byte string.
pub fn natural_key_of(bytes: &[u8]) -> (key: Vec<u128>)
    ensures
        wide_ints(key@) == natural_key(ints(bytes@)),
{
    let ghost all = ints(bytes@);
    let mut key: Vec<u128> = Vec::new();
    let mut i: usize = 0;
    proof {
        assert(all.skip(0) =~= all);
        assert(wide_ints(key@) + natural_key(all.skip(0)) =~= natural_key(all));
    }
    while i < bytes.len()
        invariant
            i <= bytes.len(),
            all == ints(bytes@),
            natural_key(all) == wide_ints(key@) + natural_key(all.skip(i as int)),
        decreases bytes.len() - i,
    {
        let c = bytes[i];
        let ghost rest = all.skip(i as int);
        let ghost before = wide_ints(key@);
        assert(rest[0] == c as int);
        if c >= 48 && c <= 57 {
            let mut j: usize = i + 1;
            while j < bytes.len() && bytes[j] >= 48 && bytes[j] <= 57
                invariant
                    i < j <= bytes.len(),
                    all == ints(bytes@),
                    forall|k: int| i <= k < j ==> is_digit(#[trigger] all[k]),
                decreases bytes.len() - j,
            {
                j += 1;
            }
            let mut z: usize = i;
            while z < j && bytes[z] == 48
                invariant
                    i <= z <= j,
                    j <= bytes.len(),
                    all == ints(bytes@),
                    forall|k: int| i <= k < z ==> #[trigger] all[k] == 48,
                decreases j - z,
            {
                z += 1;
            }
            let ghost run = rest.take(j - i);
            let ghost digits = all.subrange(z as int, j as int);
            proof {
                assert forall|k: int| 0 <= k < j - i implies is_digit(#[trigger] rest[k]) by {
                    assert(rest[k] == all[i + k]);
                }
                lemma_digit_run_is(rest, j - i);
                assert forall|k: int| 0 <= k < z - i implies #[trigger] run[k] == 48 by {
                    assert(run[k] == all[i + k]);
                }
                lemma_strip_zeros_is(run, z - i);
                assert(run.skip(z - i) =~= digits);
                assert(rest.skip(j - i) =~= all.skip(j as int));
                assert(natural_key(rest) == seq![256 + digits.len() as int] + digits + natural_key(
                    all.skip(j as int),
                ));
            }
            key.push(256 + (j - z) as u128);
            let mut t: usize = z;
            while t < j
                invariant
                    z <= t <= j,
                    j <= bytes.len(),
                    all == ints(bytes@),
                    wide_ints(key@) == before + seq![256 + (j - z) as int] + all.subrange(
                        z as int,
                        t as int,
                    ),
                decreases j - t,
            {
                let ghost sofar = wide_ints(key@);
                key.push(bytes[t] as u128);
                proof {
                    assert(all[t as int] == bytes[t as int] as int);
                    assert(wide_ints(key@) =~= sofar.push(all[t as int]));
                    assert(wide_ints(key@) =~= before + seq![256 + (j - z) as int] + all.subrange(
                        z as int,
                        t + 1,
                    ));
                }
                t += 1;
            }
            proof {
                assert(wide_ints(key@) + natural_key(all.skip(j as int)) =~= before + natural_key(
                    rest,
                ));
            }
            i = j;
        } else {
            key.push(c as u128);
            proof {
                assert(rest.skip(1) =~= all.skip(i + 1));
                assert(natural_key(rest) == seq![rest[0]] + natural_key(rest.skip(1)));
                assert(wide_ints(key@) =~= before + seq![rest[0]]);
                assert(wide_ints(key@) + natural_key(all.skip(i + 1)) =~= before + natural_key(
                    rest,
                ));
            }
            i += 1;
        }
    }
    proof {
        assert(natural_key(all.skip(i as int)) =~= Seq::empty());
        assert(wide_ints(key@) + Seq::<int>::empty() =~= wide_ints(key@));
    }
    key
}

} // verus!
