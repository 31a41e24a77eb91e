//! Validation of command-line argument values.

use vstd::prelude::*;

verus! {

/// The largest connection count a run may use: one port must stay free for
/// the server when client and server share the loopback interface, and a
/// margin of ten is kept below the 65536 ports available.
pub const MAX_CONNECTIONS: u16 = 65526;

/// True when `c` is an ASCII decimal digit.
pub open spec fn spec_is_digit(c: char) -> bool {
    48 <= c as u32 <= 57
}

/// True when every character of `s` is an ASCII decimal digit.
pub open spec fn all_digits(s: Seq<char>) -> bool {
    forall|i: int| 0 <= i < s.len() ==> spec_is_digit(#[trigger] s[i])
}

/// The number the digit string `s` denotes in base ten.
pub open spec fn digits_value(s: Seq<char>) -> int
    decreases s.len(),
{
    if s.len() == 0 {
        0
    } else {
        digits_value(s.drop_last()) * 10 + (s.last() as u32 - 48)
    }
}

/// `s` without one optional leading plus sign.
pub open spec fn digits_of(s: Seq<char>) -> Seq<char> {
    if s.len() > 0 && s[0] == '+' {
        s.subrange(1, s.len() as int)
    } else {
        s
    }
}

/// True when `s` is a decimal numeral a 16-bit unsigned parse accepts: an
/// optional leading plus sign, then one or more digits, denoting at most
/// 65535.
pub open spec fn parses_as_u16(s: Seq<char>) -> bool {
    let d = digits_of(s);
    d.len() > 0 && all_digits(d) && digits_value(d) <= 65535
}

/// The value of a digit string never shrinks when more digits follow, and
/// is never negative.
proof fn lemma_digits_value_extend(d: Seq<char>, j: int)
    requires
        all_digits(d),
        0 <= j <= d.len(),
    ensures
        digits_value(d) >= digits_value(d.subrange(0, j)) >= 0,
    decreases d.len() - j,
{
    if j == 0 {
        assert(d.subrange(0, 0) =~= Seq::<char>::empty());
        lemma_digits_value_nonneg(d);
    } else if j == d.len() {
        assert(d.subrange(0, j) =~= d);
        lemma_digits_value_nonneg(d);
    } else {
        lemma_digits_value_extend(d, j + 1);
        let p = d.subrange(0, j + 1);
        assert(p.drop_last() =~= d.subrange(0, j));
        lemma_digits_value_nonneg(d.subrange(0, j));
    }
}

/// The value of a digit string is never negative.
proof fn lemma_digits_value_nonneg(d: Seq<char>)
    requires
        all_digits(d),
    ensures
        digits_value(d) >= 0,
    decreases d.len(),
{
    if d.len() > 0 {
        assert(all_digits(d.drop_last())) by {
            assert(forall|i: int|
                0 <= i < d.len() - 1 ==> #[trigger] d.drop_last()[i] == d[i]);
        }
        lemma_digits_value_nonneg(d.drop_last());
    }
}

/// Accepts a connection count given as a decimal string when it lies
/// between one and [`MAX_CONNECTIONS`]; anything else, a number out of that
/// range as much as text that is no number, is rejected.
pub fn connection_in_range(s: &str) -> (r: Result<u16, String>)
    ensures
        r is Ok <==> parses_as_u16(s@) && 1 <= digits_value(digits_of(s@)) <= MAX_CONNECTIONS,
        r is Ok ==> r->Ok_0 == digits_value(digits_of(s@)),
{
    let n = s.unicode_len();
    let ghost d = digits_of(s@);
    let mut i: usize = 0;
    if n > 0 && s.get_char(0) == '+' {
        i = 1;
    }
    let start: usize = i;
    if i >= n {
        return Err(out_of_range_message());
    }
    let mut value: u32 = 0;
    while i < n
        invariant
            s@.len() == n,
            d == digits_of(s@),
            start <= 1,
            start == 1 ==> n > 0 && s@[0] == '+',
            start == 0 ==> !(n > 0 && s@[0] == '+'),
            d.len() == n - start,
            forall|j: int| 0 <= j < d.len() ==> d[j] == s@[start + j],
            start <= i <= n,
            forall|j: int| 0 <= j < i - start ==> spec_is_digit(#[trigger] d[j]),
            value == digits_value(d.subrange(0, i - start)),
            value <= 65535,
        decreases n - i,
    {
        let c = s.get_char(i);
        let cu = c as u32;
        if cu < 48 || cu > 57 {
            proof {
                assert(d[i - start] == s@[i as int]);
                assert(!spec_is_digit(d[i - start]));
            }
            return Err(out_of_range_message());
        }
        proof {
            let p = d.subrange(0, i - start + 1);
            assert(p.drop_last() =~= d.subrange(0, i - start));
            assert(p.last() == d[i - start]);
        }
        value = value * 10 + (cu - 48);
        i = i + 1;
        if value > 65535 {
            proof {
                assert(d.subrange(0, i - start) =~= d.subrange(0, (i - 1) - start).push(
                    d[(i - 1) - start],
                ));
                if all_digits(d) {
                    lemma_digits_value_extend(d, i - start);
                }
            }
            return Err(out_of_range_message());
        }
    }
    proof {
        assert(d.subrange(0, n - start) =~= d);
    }
    if value < 1 || value > MAX_CONNECTIONS as u32 {
        return Err(out_of_range_message());
    }
    Ok(value as u16)
}

/// The rejection message for a connection count outside the accepted
/// range.
fn out_of_range_message() -> String {
    "Number of connection not in range 1-65526".to_owned()
}

} // verus!
