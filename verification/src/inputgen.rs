//! The pseudorandom input source: one test input per call. The strategy is
//! deliberately simple — a single random value on its own line — and is the
//! swappable part of the engine; everything downstream treats the input as
//! an opaque string.

use vstd::prelude::*;
use vstd::string::StringExecFns;
use crate::rng::gen_index;

verus! {

/// Largest value `generate_input` puts in a test input.
pub const INPUT_VALUE_MAX: usize = 50000;

/// The decimal digit character for `d` in `0..=9`.
pub open spec fn spec_dec_digit(d: int) -> char {
    ((48 + d) as u8) as char
}

/// The decimal numeral of `n`, most significant digit first, no sign and no
/// leading zero (a single `'0'` for zero).
pub open spec fn spec_dec(n: nat) -> Seq<char>
    decreases n,
{
    if n < 10 {
        seq![spec_dec_digit(n as int)]
    } else {
        spec_dec(n / 10) + seq![spec_dec_digit((n % 10) as int)]
    }
}

/// Formats `n` as its decimal numeral.
pub fn usize_to_string(n: usize) -> (s: String)
    ensures
        s@ == spec_dec(n as nat),
{
    if n == 0 {
        let mut zero: Vec<char> = Vec::new();
        zero.push('0');
        proof {
            assert(spec_dec_digit(0) == '0');
            assert(zero@ =~= spec_dec(0nat));
        }
        return crate::stringproc::chars_to_string(&zero);
    }
    let mut digits: Vec<char> = Vec::new();
    let mut m: usize = n;
    proof {
        assert(digits@.reverse() =~= Seq::<char>::empty());
        assert(spec_dec(n as nat) + Seq::<char>::empty() =~= spec_dec(n as nat));
    }
    loop
        invariant
            m > 0 ==> spec_dec(n as nat) == spec_dec(m as nat) + digits@.reverse(),
            m == 0 ==> spec_dec(n as nat) == digits@.reverse(),
        ensures
            spec_dec(n as nat) == digits@.reverse(),
        decreases m,
    {
        if m == 0 {
            break;
        }
        let ghost m0 = m as nat;
        let ghost ds = digits@;
        let d = m % 10;
        let c = (48 + (d as u8)) as char;
        digits.push(c);
        m = m / 10;
        proof {
            assert(c == spec_dec_digit(d as int));
            assert(digits@.reverse() =~= seq![c] + ds.reverse());
            if m0 < 10 {
                assert(spec_dec(m0) == seq![spec_dec_digit(m0 as int)]);
                assert(m == 0);
                assert(spec_dec(n as nat) =~= digits@.reverse());
            } else {
                assert(spec_dec(m0) == spec_dec(m0 / 10) + seq![spec_dec_digit(
                    (m0 % 10) as int,
                )]);
                assert(spec_dec(m0) + ds.reverse()
                    =~= spec_dec(m as nat) + digits@.reverse());
            }
        }
    }
    let mut out: Vec<char> = Vec::new();
    let len = digits.len();
    let mut i: usize = len;
    while i > 0
        invariant
            i <= len,
            len == digits@.len(),
            out@.len() == len - i,
            forall|k: int| 0 <= k < len - i ==> out@[k] == digits@[len - 1 - k],
        decreases i,
    {
        i = i - 1;
        let c = digits[i];
        out.push(c);
    }
    proof {
        assert(out@ =~= digits@.reverse());
    }
    crate::stringproc::chars_to_string(&out)
}

/// Generates one pseudorandom test input: a value between 1 and
/// `INPUT_VALUE_MAX`, in decimal, on a line of its own.
pub fn generate_input(rng: &mut rand::rngs::ThreadRng) -> (s: String)
    ensures
        exists|v: int|
            1 <= v <= INPUT_VALUE_MAX && s@ == #[trigger] spec_dec(v as nat).push('\n'),
{
    let v = gen_index(rng, 1, INPUT_VALUE_MAX + 1);
    let mut s = usize_to_string(v);
    s.append("\n");
    proof {
        reveal_strlit("\n");
        let vi: int = v as int;
        assert(s@ =~= spec_dec(vi as nat).push('\n'));
        assert(1 <= vi <= INPUT_VALUE_MAX && s@ == spec_dec(vi as nat).push('\n'));
    }
    s
}

} // verus!
