//! Unsigned numbers in text: parsing in base 10 or 16 as `usize::from_str_radix`
//! does it, and rendering in base 10.
use vstd::prelude::*;

verus! {

/// The value of `c` as a digit in base `radix` (at most 36), as `char::to_digit` gives it.
pub open spec fn digit_value(c: char, radix: nat) -> Option<nat> {
    let u = c as u32;
    let v: int = if 48 <= u <= 57 {
        u - 48
    } else if 97 <= u <= 122 {
        u - 97 + 10
    } else if 65 <= u <= 90 {
        u - 65 + 10
    } else {
        radix as int
    };
    if v < radix {
        Some(v as nat)
    } else {
        None
    }
}

/// The value of the digit string `s` in base `radix`; `None` when some character is no digit.
pub open spec fn digits_value(s: Seq<char>, radix: nat) -> Option<nat>
    decreases s.len(),
{
    if s.len() == 0 {
        Some(0)
    } else {
        match (digits_value(s.drop_last(), radix), digit_value(s.last(), radix)) {
            (Some(a), Some(d)) => Some(a * radix + d),
            _ => None,
        }
    }
}

/// What `usize::from_str_radix(s, radix)` returns, `Ok` as `Some`: an optional `+`,
/// then at least one digit, and a value that fits in `usize`.
pub open spec fn parse_unsigned(s: Seq<char>, radix: nat) -> Option<nat> {
    let body = if s.len() > 0 && s[0] == '+' {
        s.drop_first()
    } else {
        s
    };
    if body.len() == 0 {
        None
    } else {
        match digits_value(body, radix) {
            Some(v) => if v <= usize::MAX {
                Some(v)
            } else {
                None
            },
            None => None,
        }
    }
}

proof fn lemma_digits_prefix(s: Seq<char>, k: int, radix: nat)
    requires
        0 <= k <= s.len(),
        radix >= 1,
        digits_value(s, radix) is Some,
    ensures
        digits_value(s.take(k), radix) is Some,
        digits_value(s.take(k), radix)->0 <= digits_value(s, radix)->0,
    decreases s.len(),
{
    if k == s.len() {
        assert(s.take(k) =~= s);
    } else {
        let a = digits_value(s.drop_last(), radix)->0;
        let d = digit_value(s.last(), radix)->0;
        assert(a * radix >= a) by (nonlinear_arith)
            requires
                radix >= 1,
        ;
        lemma_digits_prefix(s.drop_last(), k, radix);
        assert(s.drop_last().take(k) =~= s.take(k));
    }
}

fn digit_of(c: char, radix: u32) -> (r: Option<usize>)
    requires
        radix <= 36,
    ensures
        r is Some == digit_value(c, radix as nat) is Some,
        r matches Some(v) ==> v == digit_value(c, radix as nat)->0,
{
    let u = c as u32;
    let v: u32 = if 48 <= u && u <= 57 {
        u - 48
    } else if 97 <= u && u <= 122 {
        u - 97 + 10
    } else if 65 <= u && u <= 90 {
        u - 65 + 10
    } else {
        radix
    };
    if v < radix {
        Some(v as usize)
    } else {
        None
    }
}

/// `usize::from_str_radix` on the characters `cs[lo..hi]`, `Ok` as `Some`.
pub fn parse_unsigned_in(cs: &[char], lo: usize, hi: usize, radix: u32) -> (r: Option<usize>)
    requires
        lo <= hi <= cs@.len(),
        2 <= radix <= 36,
    ensures
        r matches Some(v) ==> parse_unsigned(cs@.subrange(lo as int, hi as int), radix as nat)
            == Some(v as nat),
        r is None ==> parse_unsigned(cs@.subrange(lo as int, hi as int), radix as nat) is None,
{
    let ghost s = cs@.subrange(lo as int, hi as int);
    let mut start = lo;
    if lo < hi && cs[lo] == '+' {
        start = lo + 1;
    }
    let ghost body = cs@.subrange(start as int, hi as int);
    assert(body == (if s.len() > 0 && s[0] == '+' {
        s.drop_first()
    } else {
        s
    }));
    if start == hi {
        return None;
    }
    let mut acc: usize = 0;
    let mut i: usize = start;
    assert(body.take(0) =~= Seq::<char>::empty());
    while i < hi
        invariant
            start <= i <= hi <= cs@.len(),
            2 <= radix <= 36,
            body == cs@.subrange(start as int, hi as int),
            s == cs@.subrange(lo as int, hi as int),
            body == (if s.len() > 0 && s[0] == '+' {
                s.drop_first()
            } else {
                s
            }),
            body.len() > 0,
            digits_value(body.take(i - start), radix as nat) == Some(acc as nat),
        decreases hi - i,
    {
        let ghost prev = body.take(i - start);
        let ghost next = body.take(i - start + 1);
        assert(next.drop_last() =~= prev);
        assert(next.last() == cs@[i as int]);
        let d = match digit_of(cs[i], radix) {
            Some(d) => d,
            None => {
                proof {
                    if digits_value(body, radix as nat) is Some {
                        lemma_digits_prefix(body, i - start + 1, radix as nat);
                    }
                }
                return None;
            },
        };
        assert(digits_value(next, radix as nat) == Some(acc as nat * radix as nat + d as nat));
        let m = match acc.checked_mul(radix as usize) {
            Some(m) => m,
            None => {
                proof {
                    assert(acc * radix + d >= acc * radix);
                    if digits_value(body, radix as nat) is Some {
                        lemma_digits_prefix(body, i - start + 1, radix as nat);
                        assert(digits_value(body, radix as nat)->0 > usize::MAX);
                    }
                }
                return None;
            },
        };
        acc = match m.checked_add(d) {
            Some(v) => v,
            None => {
                proof {
                    if digits_value(body, radix as nat) is Some {
                        lemma_digits_prefix(body, i - start + 1, radix as nat);
                        assert(digits_value(body, radix as nat)->0 > usize::MAX);
                    }
                }
                return None;
            },
        };
        i = i + 1;
    }
    assert(body.take(hi - start) =~= body);
    Some(acc)
}

/// The decimal digit for `d < 10`.
pub open spec fn digit_char(d: nat) -> char {
    seq!['0', '1', '2', '3', '4', '5', '6', '7', '8', '9'][d as int]
}

/// `n` written in base 10 without leading zeros, as `format!("{}", n)` writes it.
pub open spec fn decimal_text(n: nat) -> Seq<char>
    decreases n,
{
    if n < 10 {
        seq![digit_char(n)]
    } else {
        decimal_text(n / 10) + seq![digit_char(n % 10)]
    }
}

fn push_digit(out: &mut String, d: u64)
    requires
        d < 10,
    ensures
        final(out)@ == old(out)@ + seq![digit_char(d as nat)],
{
    match d {
        0 => {
            proof {
                reveal_strlit("0");
            }
            out.append("0");
        },
        1 => {
            proof {
                reveal_strlit("1");
            }
            out.append("1");
        },
        2 => {
            proof {
                reveal_strlit("2");
            }
            out.append("2");
        },
        3 => {
            proof {
                reveal_strlit("3");
            }
            out.append("3");
        },
        4 => {
            proof {
                reveal_strlit("4");
            }
            out.append("4");
        },
        5 => {
            proof {
                reveal_strlit("5");
            }
            out.append("5");
        },
        6 => {
            proof {
                reveal_strlit("6");
            }
            out.append("6");
        },
        7 => {
            proof {
                reveal_strlit("7");
            }
            out.append("7");
        },
        8 => {
            proof {
                reveal_strlit("8");
            }
            out.append("8");
        },
        _ => {
            proof {
                reveal_strlit("9");
            }
            out.append("9");
        },
    }
}

/// Appends `n` in base 10 to `out`.
pub fn push_decimal(out: &mut String, n: u64)
    ensures
        final(out)@ == old(out)@ + decimal_text(n as nat),
    decreases n,
{
    if n >= 10 {
        push_decimal(out, n / 10);
    }
    push_digit(out, n % 10);
}

/// `n` in base 10.
pub fn decimal(n: u64) -> (r: String)
    ensures
        r@ == decimal_text(n as nat),
{
    let mut r = String::new();
    push_decimal(&mut r, n);
    r
}

proof fn lemma_digit_char(d: nat)
    requires
        d < 10,
    ensures
        digit_value(digit_char(d), 10) == Some(d),
        digit_char(d) != '+',
{
    let t = seq!['0', '1', '2', '3', '4', '5', '6', '7', '8', '9'];
    assert(t[0] == '0' && t[1] == '1' && t[2] == '2' && t[3] == '3' && t[4] == '4');
    assert(t[5] == '5' && t[6] == '6' && t[7] == '7' && t[8] == '8' && t[9] == '9');
}

proof fn lemma_decimal_digits(n: nat)
    ensures
        decimal_text(n).len() >= 1,
        decimal_text(n)[0] != '+',
        digits_value(decimal_text(n), 10) == Some(n),
    decreases n,
{
    if n < 10 {
        let s = decimal_text(n);
        lemma_digit_char(n);
        assert(s.drop_last() =~= Seq::<char>::empty());
        assert(s.last() == digit_char(n));
        assert(digits_value(s.drop_last(), 10) == Some(0nat));
        assert(digits_value(s, 10) == Some(0nat * 10 + n));
    } else {
        lemma_digit_char(n % 10);
        assert((n / 10) * 10 + n % 10 == n) by (nonlinear_arith);
        lemma_decimal_digits(n / 10);
        let s = decimal_text(n);
        assert(s.drop_last() =~= decimal_text(n / 10));
        assert(s[0] == decimal_text(n / 10)[0]);
        assert(s.last() == digit_char(n % 10));
        assert(digits_value(s, 10) == Some((n / 10) * 10 + n % 10));
    }
}

/// Every character of a decimal rendering is a digit `0`..`9`.
pub proof fn decimal_chars(n: nat)
    ensures
        forall|i: int|
            0 <= i < decimal_text(n).len() ==> 48 <= (#[trigger] decimal_text(n)[i]) as u32 <= 57,
    decreases n,
{
    let t = seq!['0', '1', '2', '3', '4', '5', '6', '7', '8', '9'];
    assert(t[0] == '0' && t[1] == '1' && t[2] == '2' && t[3] == '3' && t[4] == '4');
    assert(t[5] == '5' && t[6] == '6' && t[7] == '7' && t[8] == '8' && t[9] == '9');
    if n >= 10 {
        decimal_chars(n / 10);
        let s = decimal_text(n);
        assert forall|i: int| 0 <= i < s.len() implies 48 <= (#[trigger] s[i]) as u32 <= 57 by {
            if i < s.len() - 1 {
                assert(s[i] == decimal_text(n / 10)[i]);
            }
        }
    }
}

/// Reading back what `decimal` writes: base-10 parsing of the rendering of `n` gives `n`.
pub proof fn decimal_round_trip(n: nat)
    requires
        n <= usize::MAX,
    ensures
        parse_unsigned(decimal_text(n), 10) == Some(n),
{
    lemma_decimal_digits(n);
}

/// The lower-case hexadecimal digit for `d < 16`.
pub open spec fn hex_digit(d: nat) -> char {
    seq!['0', '1', '2', '3', '4', '5', '6', '7', '8', '9', 'a', 'b', 'c', 'd', 'e', 'f'][d as int]
}

/// `n` written in base 16 (lower case) without leading zeros, as `format!("{:x}", n)` writes it.
pub open spec fn hex_text(n: nat) -> Seq<char>
    decreases n,
{
    if n < 16 {
        seq![hex_digit(n)]
    } else {
        hex_text(n / 16) + seq![hex_digit(n % 16)]
    }
}

/// Whether `c` is a lower-case hexadecimal digit.
pub open spec fn is_hex_char(c: char) -> bool {
    48 <= c as u32 <= 57 || 97 <= c as u32 <= 102
}

proof fn lemma_hex_digit(d: nat)
    requires
        d < 16,
    ensures
        digit_value(hex_digit(d), 16) == Some(d),
        is_hex_char(hex_digit(d)),
{
    let t = seq!['0', '1', '2', '3', '4', '5', '6', '7', '8', '9', 'a', 'b', 'c', 'd', 'e', 'f'];
    assert(t[0] == '0' && t[1] == '1' && t[2] == '2' && t[3] == '3' && t[4] == '4');
    assert(t[5] == '5' && t[6] == '6' && t[7] == '7' && t[8] == '8' && t[9] == '9');
    assert(t[10] == 'a' && t[11] == 'b' && t[12] == 'c' && t[13] == 'd' && t[14] == 'e');
    assert(t[15] == 'f');
}

proof fn lemma_hex_digits(n: nat)
    ensures
        hex_text(n).len() >= 1,
        digits_value(hex_text(n), 16) == Some(n),
        forall|i: int| 0 <= i < hex_text(n).len() ==> is_hex_char(#[trigger] hex_text(n)[i]),
    decreases n,
{
    let s = hex_text(n);
    if n < 16 {
        lemma_hex_digit(n);
        assert(s.drop_last() =~= Seq::<char>::empty());
        assert(s.last() == hex_digit(n));
        assert(digits_value(s.drop_last(), 16) == Some(0nat));
        assert(digits_value(s, 16) == Some(0nat * 16 + n));
    } else {
        lemma_hex_digit(n % 16);
        assert((n / 16) * 16 + n % 16 == n) by (nonlinear_arith);
        lemma_hex_digits(n / 16);
        assert(s.drop_last() =~= hex_text(n / 16));
        assert(s.last() == hex_digit(n % 16));
        assert(digits_value(s, 16) == Some((n / 16) * 16 + n % 16));
        assert forall|i: int| 0 <= i < s.len() implies is_hex_char(#[trigger] s[i]) by {
            if i < s.len() - 1 {
                assert(s[i] == hex_text(n / 16)[i]);
            }
        }
    }
}

/// Reading back a base-16 rendering: base-16 parsing of `hex_text(n)` gives `n`,
/// and every character of it is a lower-case hexadecimal digit.
pub proof fn hex_round_trip(n: nat)
    requires
        n <= usize::MAX,
    ensures
        parse_unsigned(hex_text(n), 16) == Some(n),
        hex_text(n).len() >= 1,
        forall|i: int| 0 <= i < hex_text(n).len() ==> is_hex_char(#[trigger] hex_text(n)[i]),
{
    lemma_hex_digits(n);
    assert(hex_text(n)[0] != '+') by {
        assert(is_hex_char(hex_text(n)[0]));
    }
}

} // verus!
