//! Encoded numeric literals.
//!
//! Constant-bearing leaves carry their value in the label itself, as an
//! optionally signed decimal numeral. [`parse_literal`] is the meaning of
//! such a label; [`decode_literal`] and [`encode_literal`] are the executable
//! codec, proved against it.

use vstd::prelude::*;
use vstd::string::StrSliceExecFns;
use vstd::string::StringExecFns;
use vstd::arithmetic::div_mod::lemma_fundamental_div_mod;

verus! {

/// Numeric value of a decimal digit character, `-1` for any other character.
pub open spec fn char_digit(c: char) -> int {
    if c == '0' {
        0
    } else if c == '1' {
        1
    } else if c == '2' {
        2
    } else if c == '3' {
        3
    } else if c == '4' {
        4
    } else if c == '5' {
        5
    } else if c == '6' {
        6
    } else if c == '7' {
        7
    } else if c == '8' {
        8
    } else if c == '9' {
        9
    } else {
        -1
    }
}

/// Value of a non-empty, all-digit character sequence, most significant
/// digit first; `None` if the sequence is empty or holds a non-digit.
pub open spec fn digits_val(s: Seq<char>) -> Option<int>
    decreases s.len(),
{
    if s.len() == 0 {
        None
    } else if s.len() == 1 {
        if char_digit(s[0]) >= 0 {
            Some(char_digit(s[0]))
        } else {
            None
        }
    } else {
        match digits_val(s.drop_last()) {
            Some(v) => if char_digit(s.last()) >= 0 {
                Some(v * 10 + char_digit(s.last()))
            } else {
                None
            },
            None => None,
        }
    }
}

/// The value an integer-literal label denotes: an optional leading minus
/// sign followed by digits, within the range of `i64`. Any other label, and
/// any value outside that range, is `None`.
pub open spec fn parse_literal(s: Seq<char>) -> Option<int> {
    if s.len() >= 1 && s[0] == '-' {
        match digits_val(s.subrange(1, s.len() as int)) {
            Some(v) => if -v >= i64::MIN as int {
                Some(-v)
            } else {
                None
            },
            None => None,
        }
    } else {
        match digits_val(s) {
            Some(v) => if v <= i64::MAX as int {
                Some(v)
            } else {
                None
            },
            None => None,
        }
    }
}

/// A digit string's value is never negative.
pub proof fn lemma_digits_nonneg(s: Seq<char>)
    requires
        digits_val(s) is Some,
    ensures
        digits_val(s)->0 >= 0,
    decreases s.len(),
{
    if s.len() > 1 {
        lemma_digits_nonneg(s.drop_last());
    }
}

/// A sequence holding a non-digit has no digit-string value.
proof fn lemma_digits_bad(s: Seq<char>, j: int)
    requires
        0 <= j < s.len(),
        char_digit(s[j]) < 0,
    ensures
        digits_val(s) is None,
    decreases s.len(),
{
    if s.len() > 1 && j < s.len() - 1 {
        lemma_digits_bad(s.drop_last(), j);
    }
}

/// A digit string is worth at least any of its non-empty prefixes.
proof fn lemma_digits_prefix(s: Seq<char>, k: int)
    requires
        digits_val(s) is Some,
        1 <= k <= s.len(),
    ensures
        digits_val(s.subrange(0, k)) is Some,
        digits_val(s.subrange(0, k))->0 <= digits_val(s)->0,
    decreases s.len() - k,
{
    if k == s.len() {
        assert(s.subrange(0, k) =~= s);
    } else {
        assert(s.drop_last() =~= s.subrange(0, s.len() - 1));
        assert(digits_val(s.drop_last()) is Some);
        lemma_digits_nonneg(s.drop_last());
        assert(s.subrange(0, s.len() - 1).subrange(0, k) =~= s.subrange(0, k));
        lemma_digits_prefix(s.subrange(0, s.len() - 1), k);
    }
}

/// The value of one digit character, if it is one.
fn digit_of(c: char) -> (r: Option<u8>)
    ensures
        match r {
            Some(d) => char_digit(c) == d as int && d < 10,
            None => char_digit(c) < 0,
        },
{
    match c {
        '0' => Some(0),
        '1' => Some(1),
        '2' => Some(2),
        '3' => Some(3),
        '4' => Some(4),
        '5' => Some(5),
        '6' => Some(6),
        '7' => Some(7),
        '8' => Some(8),
        '9' => Some(9),
        _ => None,
    }
}

/// The one-character string for a digit.
fn digit_str(d: u64) -> (r: &'static str)
    requires
        d < 10,
    ensures
        r@.len() == 1,
        char_digit(r@[0]) == d as int,
{
    if d == 0 {
        proof {
            reveal_strlit("0");
        }
        "0"
    } else if d == 1 {
        proof {
            reveal_strlit("1");
        }
        "1"
    } else if d == 2 {
        proof {
            reveal_strlit("2");
        }
        "2"
    } else if d == 3 {
        proof {
            reveal_strlit("3");
        }
        "3"
    } else if d == 4 {
        proof {
            reveal_strlit("4");
        }
        "4"
    } else if d == 5 {
        proof {
            reveal_strlit("5");
        }
        "5"
    } else if d == 6 {
        proof {
            reveal_strlit("6");
        }
        "6"
    } else if d == 7 {
        proof {
            reveal_strlit("7");
        }
        "7"
    } else if d == 8 {
        proof {
            reveal_strlit("8");
        }
        "8"
    } else {
        proof {
            reveal_strlit("9");
        }
        "9"
    }
}

/// The decimal numeral of a magnitude, most significant digit first.
fn encode_mag(m: u64) -> (r: String)
    ensures
        digits_val(r@) == Some(m as int),
        r@.len() >= 1,
        char_digit(r@[0]) >= 0,
    decreases m,
{
    if m < 10 {
        let s = String::from_str(digit_str(m));
        s
    } else {
        assert(m / 10 < m && m / 10 >= 1) by (nonlinear_arith)
            requires
                m >= 10,
        ;
        let mut s = encode_mag(m / 10);
        let ghost prefix = s@;
        let d = m % 10;
        s.append(digit_str(d));
        proof {
            assert(s@.drop_last() =~= prefix);
            assert(s@.last() == s@[s@.len() - 1]);
            assert(char_digit(s@.last()) == d as int);
            assert(digits_val(s@) == Some((m / 10) as int * 10 + (m % 10) as int));
            lemma_fundamental_div_mod(m as int, 10);
        }
        s
    }
}

/// Writes a value as an integer-literal label; the label decodes back to
/// exactly that value.
pub fn encode_literal(v: i64) -> (r: String)
    ensures
        parse_literal(r@) == Some(v as int),
{
    if v >= 0 {
        let s = encode_mag(v as u64);
        proof {
            assert(s@[0] != '-');
        }
        s
    } else {
        let mag: u64 = (-(v as i128)) as u64;
        let mut s = String::from_str("-");
        let tail = encode_mag(mag);
        s.append(tail.as_str());
        proof {
            reveal_strlit("-");
            assert(s@[0] == '-');
            assert(s@.subrange(1, s@.len() as int) =~= tail@);
            assert(-(mag as int) == v as int);
        }
        s
    }
}

/// Reads an integer-literal label back; succeeds on exactly the labels that
/// denote a value.
pub fn decode_literal(s: &String) -> (r: Option<i64>)
    ensures
        match r {
            Some(v) => parse_literal(s@) == Some(v as int),
            None => parse_literal(s@) is None,
        },
{
    let st = s.as_str();
    let n = st.unicode_len();
    if n == 0 {
        return None;
    }
    let neg = st.get_char(0) == '-';
    let start: usize = if neg {
        1
    } else {
        0
    };
    if n == start {
        return None;
    }
    let ghost seg = if neg {
        s@.subrange(1, s@.len() as int)
    } else {
        s@
    };
    let mut i: usize = start;
    let mut acc: u128 = 0;
    while i < n
        invariant
            n == s@.len(),
            st@ == s@,
            start <= i <= n,
            start < n,
            start == if neg {
                1int
            } else {
                0int
            },
            neg ==> s@[0] == '-',
            !neg ==> (s@.len() == 0 || s@[0] != '-'),
            seg == (if neg {
                s@.subrange(1, s@.len() as int)
            } else {
                s@
            }),
            i > start ==> digits_val(seg.subrange(0, i - start)) == Some(acc as int),
            i == start ==> acc == 0,
            acc <= 0x8000_0000_0000_0000u128,
        decreases n - i,
    {
        let c = st.get_char(i);
        proof {
            assert(seg[i - start] == s@[i as int]);
        }
        let d = match digit_of(c) {
            Some(d) => d,
            None => {
                proof {
                    lemma_digits_bad(seg, i - start);
                }
                return None;
            },
        };
        let ghost prev = seg.subrange(0, i - start);
        if i == start {
            acc = d as u128;
            proof {
                assert(seg.subrange(0, 1)[0] == seg[0]);
            }
        } else {
            acc = acc * 10 + (d as u128);
            proof {
                let cur = seg.subrange(0, i + 1 - start);
                assert(cur.drop_last() =~= prev);
                assert(cur.last() == seg[i - start]);
                assert(digits_val(cur) == Some(digits_val(prev)->0 * 10 + char_digit(
                    seg[i - start],
                )));
            }
        }
        i = i + 1;
        if acc > 0x8000_0000_0000_0000u128 {
            proof {
                if digits_val(seg) is Some {
                    lemma_digits_prefix(seg, i - start);
                    lemma_digits_nonneg(seg);
                    assert(digits_val(seg)->0 >= acc as int);
                }
            }
            return None;
        }
    }
    proof {
        assert(seg.subrange(0, n - start) =~= seg);
        assert(digits_val(seg) == Some(acc as int));
    }
    if neg {
        if acc == 0x8000_0000_0000_0000u128 {
            Some(i64::MIN)
        } else {
            Some(-(acc as i64))
        }
    } else {
        if acc > i64::MAX as u128 {
            None
        } else {
            Some(acc as i64)
        }
    }
}

} // verus!
