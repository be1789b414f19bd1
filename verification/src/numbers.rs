use vstd::prelude::*;

use vstd::arithmetic::div_mod::lemma_fundamental_div_mod;

verus! {

/// Powers of ten.
pub open spec fn pow10(k: nat) -> nat
    decreases k,
{
    if k == 0 {
        1
    } else {
        10 * pow10((k - 1) as nat)
    }
}

/// Whether a character is a decimal digit.
pub open spec fn is_digit(c: char) -> bool {
    '0' <= c && c <= '9'
}

/// The digit character for a value below ten.
pub open spec fn digit_char(d: nat) -> char {
    (48 + d) as char
}

/// The value of a digit character.
pub open spec fn digit_val(c: char) -> nat {
    (c as int - 48) as nat
}

/// Whether every character of the sequence is a decimal digit.
pub open spec fn all_digits(s: Seq<char>) -> bool {
    forall|i: int| 0 <= i < s.len() ==> is_digit(#[trigger] s[i])
}

/// The numeric value of a digit string, most significant digit first.
pub open spec fn dec_val(s: Seq<char>) -> nat
    decreases s.len(),
{
    if s.len() == 0 {
        0
    } else {
        dec_val(s.drop_last()) * 10 + digit_val(s.last())
    }
}

/// The canonical decimal spelling of a natural number: no sign, no leading
/// zero except for zero itself.
pub open spec fn dec_of(n: nat) -> Seq<char>
    decreases n,
{
    if n < 10 {
        seq![digit_char(n)]
    } else {
        dec_of(n / 10).push(digit_char(n % 10))
    }
}

/// The canonical decimal spelling of an integer: a minus sign before the
/// spelling of the magnitude when the number is negative.
pub open spec fn dec_of_int(n: int) -> Seq<char> {
    if n < 0 {
        seq!['-'] + dec_of((-n) as nat)
    } else {
        dec_of(n as nat)
    }
}

/// The canonical spelling consists of digits, is never empty, never starts
/// with a zero unless it is exactly "0", and reads back to the number it
/// spells.
pub proof fn lemma_dec_of_props(n: nat)
    ensures
        all_digits(dec_of(n)),
        dec_of(n).len() >= 1,
        dec_of(n).len() > 1 ==> dec_of(n)[0] != '0',
        n >= 1 ==> dec_of(n)[0] != '0',
        dec_val(dec_of(n)) == n,
    decreases n,
{
    if n < 10 {
        assert(dec_of(n) =~= seq![digit_char(n)]);
        assert(dec_of(n).drop_last() =~= Seq::<char>::empty());
        assert(dec_of(n).last() == digit_char(n));
        assert(dec_val(Seq::<char>::empty()) == 0);
        assert(dec_val(dec_of(n)) == 0 * 10 + digit_val(digit_char(n)));
        assert(digit_val(digit_char(n)) == n);
    } else {
        lemma_dec_of_props(n / 10);
        let s = dec_of(n);
        let h = dec_of(n / 10);
        assert(s == h.push(digit_char(n % 10)));
        assert(s.drop_last() =~= h);
        assert(s.last() == digit_char(n % 10));
        assert(digit_val(digit_char(n % 10)) == n % 10);
        lemma_fundamental_div_mod(n as int, 10);
        assert(all_digits(s)) by {
            assert forall|i: int| 0 <= i < s.len() implies is_digit(#[trigger] s[i]) by {
                if i < h.len() {
                    assert(s[i] == h[i]);
                }
            }
        }
        assert(s[0] == h[0]);
        assert(n / 10 >= 1);
    }
}

/// A string of digits spells zero only if it is all zeros.
proof fn lemma_dec_val_zero(s: Seq<char>)
    requires
        all_digits(s),
        dec_val(s) == 0,
    ensures
        forall|i: int| 0 <= i < s.len() ==> s[i] == '0',
    decreases s.len(),
{
    if s.len() > 0 {
        assert(dec_val(s.drop_last()) == 0);
        assert(all_digits(s.drop_last())) by {
            assert forall|i: int| 0 <= i < s.drop_last().len() implies is_digit(
                #[trigger] s.drop_last()[i],
            ) by {
                assert(s.drop_last()[i] == s[i]);
            }
        }
        lemma_dec_val_zero(s.drop_last());
        assert(digit_val(s.last()) == 0);
        assert(s.last() == '0');
        assert forall|i: int| 0 <= i < s.len() implies s[i] == '0' by {
            if i < s.len() - 1 {
                assert(s.drop_last()[i] == s[i]);
            }
        }
    }
}

/// A canonical digit string is the spelling of its own value.
pub proof fn lemma_canonical_roundtrip(s: Seq<char>)
    requires
        all_digits(s),
        s.len() >= 1,
        s.len() > 1 ==> s[0] != '0',
    ensures
        dec_of(dec_val(s)) == s,
    decreases s.len(),
{
    if s.len() == 1 {
        assert(dec_val(s.drop_last()) == 0);
        assert(dec_val(s) == digit_val(s[0]));
        assert(digit_char(digit_val(s[0])) == s[0]);
        assert(dec_of(dec_val(s)) =~= s);
    } else {
        let h = s.drop_last();
        assert(all_digits(h)) by {
            assert forall|i: int| 0 <= i < h.len() implies is_digit(#[trigger] h[i]) by {
                assert(h[i] == s[i]);
            }
        }
        assert(h[0] == s[0]);
        lemma_canonical_roundtrip(h);
        let v = dec_val(s);
        let hv = dec_val(h);
        assert(hv >= 1) by {
            if hv == 0 {
                lemma_dec_val_zero(h);
                assert(h[0] == '0');
            }
        }
        assert(v == hv * 10 + digit_val(s.last()));
        assert(v >= 10) by {
            assert(hv * 10 >= 10) by (nonlinear_arith)
                requires
                    hv >= 1,
            ;
        }
        assert(v / 10 == hv && v % 10 == digit_val(s.last())) by {
            lemma_fundamental_div_mod(v as int, 10);
            assert((hv * 10 + digit_val(s.last())) / 10 == hv) by (nonlinear_arith)
                requires
                    digit_val(s.last()) < 10,
            ;
            assert((hv * 10 + digit_val(s.last())) % 10 == digit_val(s.last())) by (
            nonlinear_arith)
                requires
                    digit_val(s.last()) < 10,
            ;
        }
        assert(digit_char(digit_val(s.last())) == s.last());
        assert(dec_of(v) == dec_of(hv).push(s.last()));
        assert(dec_of(v) =~= s);
    }
}

/// The spelling of a number below ten to the `k` is at most `k` characters
/// long.
pub proof fn lemma_dec_of_len(n: nat, k: nat)
    requires
        k >= 1,
        n < pow10(k),
    ensures
        dec_of(n).len() <= k,
    decreases n,
{
    if n >= 10 {
        assert(k >= 2) by {
            if k == 1 {
                assert(pow10(0nat) == 1);
                assert(pow10(1nat) == 10);
            }
        }
        assert(pow10((k - 1) as nat) >= 1) by {
            lemma_pow10_pos((k - 1) as nat);
        }
        assert(n / 10 < pow10((k - 1) as nat)) by {
            assert(pow10(k) == 10 * pow10((k - 1) as nat));
            assert(n / 10 < pow10((k - 1) as nat)) by (nonlinear_arith)
                requires
                    n < 10 * pow10((k - 1) as nat),
                    pow10((k - 1) as nat) >= 1,
            ;
        }
        lemma_dec_of_len(n / 10, (k - 1) as nat);
    }
}

/// Powers of ten are positive.
pub proof fn lemma_pow10_pos(k: nat)
    ensures
        pow10(k) >= 1,
    decreases k,
{
    if k > 0 {
        lemma_pow10_pos((k - 1) as nat);
    }
}

/// Powers of ten grow with the exponent.
proof fn lemma_pow10_mono(a: nat, b: nat)
    requires
        a <= b,
    ensures
        pow10(a) <= pow10(b),
    decreases b,
{
    if a < b {
        lemma_pow10_mono(a, (b - 1) as nat);
        lemma_pow10_pos((b - 1) as nat);
    }
}

use crate::text::push_char;

/// Spell a number in canonical decimal.
pub fn u64_to_dec(n: u64) -> (r: String)
    ensures
        r@ == dec_of(n as nat),
    decreases n,
{
    if n < 10 {
        let c = (48u8 + (n as u8)) as char;
        proof {
            assert(c == digit_char(n as nat));
        }
        let mut s = String::new();
        push_char(&mut s, c);
        proof {
            assert(s@ =~= seq![digit_char(n as nat)]);
        }
        s
    } else {
        let mut s = u64_to_dec(n / 10);
        let c = (48u8 + ((n % 10) as u8)) as char;
        proof {
            assert(c == digit_char((n % 10) as nat));
            assert(n as nat / 10 == (n / 10) as nat);
            assert(n as nat % 10 == (n % 10) as nat);
        }
        push_char(&mut s, c);
        s
    }
}

/// Parse a string as the canonical decimal spelling of a `u64`: anything
/// else, a sign, a leading zero or a value out of range included, is
/// rejected.
pub fn parse_u64_dec(s: &str) -> (r: Option<u64>)
    ensures
        match r {
            Some(v) => s@ == dec_of(v as nat),
            None => forall|v: u64| s@ != dec_of(v as nat),
        },
{
    let n = s.unicode_len();
    if n == 0 {
        proof {
            assert forall|v: u64| s@ != dec_of(v as nat) by {
                lemma_dec_of_props(v as nat);
            }
        }
        return None;
    }
    if n > 20 {
        proof {
            assert forall|v: u64| s@ != dec_of(v as nat) by {
                reveal_with_fuel(pow10, 22);
                assert((u64::MAX as nat) < pow10(20));
                lemma_dec_of_len(v as nat, 20);
            }
        }
        return None;
    }
    if n > 1 {
        let c0 = s.get_char(0);
        if c0 == '0' {
            proof {
                assert forall|v: u64| s@ != dec_of(v as nat) by {
                    lemma_dec_of_props(v as nat);
                }
            }
            return None;
        }
    }
    let mut val: u128 = 0;
    let mut i: usize = 0;
    proof {
        assert(s@.take(0) =~= Seq::<char>::empty());
    }
    while i < n
        invariant
            n == s@.len(),
            1 <= n <= 20,
            i <= n,
            all_digits(s@.take(i as int)),
            val == dec_val(s@.take(i as int)),
            val < pow10(i as nat),
        decreases n - i,
    {
        let c = s.get_char(i);
        if c < '0' || c > '9' {
            proof {
                assert(!is_digit(s@[i as int]));
                assert forall|v: u64| s@ != dec_of(v as nat) by {
                    lemma_dec_of_props(v as nat);
                }
            }
            return None;
        }
        proof {
            lemma_pow10_mono(i as nat, 19);
            reveal_with_fuel(pow10, 22);
            assert(val * 10 + 9 < pow10((i + 1) as nat)) by (nonlinear_arith)
                requires
                    val < pow10(i as nat),
                    pow10((i + 1) as nat) == 10 * pow10(i as nat),
            ;
            lemma_pow10_mono((i + 1) as nat, 20);
        }
        let d = (c as u32) - 48;
        val = val * 10 + (d as u128);
        proof {
            assert(s@.take(i as int + 1).drop_last() =~= s@.take(i as int));
            assert(s@.take(i as int + 1).last() == s@[i as int]);
            assert(d as nat == digit_val(s@[i as int]));
            assert(all_digits(s@.take(i as int + 1))) by {
                assert forall|j: int| 0 <= j < i + 1 implies is_digit(
                    #[trigger] s@.take(i as int + 1)[j],
                ) by {
                    if j < i {
                        assert(s@.take(i as int + 1)[j] == s@.take(i as int)[j]);
                    }
                }
            }
        }
        i = i + 1;
    }
    proof {
        assert(s@.take(n as int) =~= s@);
    }
    if val > (u64::MAX as u128) {
        proof {
            assert forall|v: u64| s@ != dec_of(v as nat) by {
                lemma_dec_of_props(v as nat);
            }
        }
        return None;
    }
    proof {
        lemma_canonical_roundtrip(s@);
    }
    Some(val as u64)
}

/// Spell a signed number in canonical decimal.
pub fn i64_to_dec(n: i64) -> (r: String)
    ensures
        r@ == dec_of_int(n as int),
{
    if n >= 0 {
        u64_to_dec(n as u64)
    } else {
        let mag = (-(n as i128)) as u64;
        proof {
            assert(mag as nat == (-(n as int)) as nat);
        }
        let mut s = String::new();
        push_char(&mut s, '-');
        let tail = u64_to_dec(mag);
        s.append(tail.as_str());
        proof {
            assert(s@ =~= seq!['-'] + dec_of(mag as nat));
        }
        s
    }
}

/// Parse a string as the canonical decimal spelling of an `i64`: a minus
/// sign followed by the magnitude for negative numbers, plain digits
/// otherwise.
pub fn parse_i64_dec(s: &str) -> (r: Option<i64>)
    ensures
        match r {
            Some(v) => s@ == dec_of_int(v as int),
            None => forall|v: i64| s@ != dec_of_int(v as int),
        },
{
    let n = s.unicode_len();
    if n >= 1 && s.get_char(0) == '-' {
        let rest = s.substring_char(1, n);
        proof {
            assert(rest@ == s@.subrange(1, n as int));
            assert(seq!['-'] + rest@ =~= s@);
        }
        match parse_u64_dec(rest) {
            Some(m) => {
                if m == 0 {
                    proof {
                        assert forall|v: i64| s@ != dec_of_int(v as int) by {
                            lemma_dec_of_props(0nat);
                            if v >= 0 {
                                lemma_dec_of_props(v as nat);
                                assert(dec_of_int(v as int)[0] != '-');
                            } else {
                                if s@ == dec_of_int(v as int) {
                                    assert(rest@ =~= dec_of((-(v as int)) as nat));
                                    lemma_dec_of_props((-(v as int)) as nat);
                                }
                            }
                        }
                    }
                    None
                } else if m <= 0x8000_0000_0000_0000u64 {
                    let v = (-(m as i128)) as i64;
                    proof {
                        assert(v as int == -(m as int));
                        assert(dec_of_int(v as int) =~= s@);
                    }
                    Some(v)
                } else {
                    proof {
                        assert forall|v: i64| s@ != dec_of_int(v as int) by {
                            if v >= 0 {
                                lemma_dec_of_props(v as nat);
                                assert(dec_of_int(v as int)[0] != '-');
                            } else {
                                if s@ == dec_of_int(v as int) {
                                    assert(rest@ =~= dec_of((-(v as int)) as nat));
                                    lemma_dec_of_props((-(v as int)) as nat);
                                    lemma_dec_of_props(m as nat);
                                    assert((-(v as int)) as nat == m as nat);
                                }
                            }
                        }
                    }
                    None
                }
            },
            None => {
                proof {
                    assert forall|v: i64| s@ != dec_of_int(v as int) by {
                        if v >= 0 {
                            lemma_dec_of_props(v as nat);
                            assert(dec_of_int(v as int)[0] != '-');
                        } else {
                            if s@ == dec_of_int(v as int) {
                                assert(rest@ =~= dec_of((-(v as int)) as nat));
                            }
                        }
                    }
                }
                None
            },
        }
    } else {
        match parse_u64_dec(s) {
            Some(m) => {
                if m <= (i64::MAX as u64) {
                    proof {
                        assert(dec_of_int((m as i64) as int) == dec_of(m as nat));
                    }
                    Some(m as i64)
                } else {
                    proof {
                        assert forall|v: i64| s@ != dec_of_int(v as int) by {
                            if v >= 0 {
                                lemma_dec_of_props(v as nat);
                                lemma_dec_of_props(m as nat);
                            } else {
                                lemma_dec_of_props(m as nat);
                                if s@ == dec_of_int(v as int) {
                                    assert(s@[0] == '-');
                                    assert(is_digit(dec_of(m as nat)[0]));
                                }
                            }
                        }
                    }
                    None
                }
            },
            None => {
                proof {
                    assert forall|v: i64| s@ != dec_of_int(v as int) by {
                        if v >= 0 {
                        } else {
                            if s@ == dec_of_int(v as int) {
                                assert(s@[0] == '-');
                                lemma_dec_of_props((-(v as int)) as nat);
                                assert(s@.len() >= 1);
                            }
                        }
                    }
                }
                None
            },
        }
    }
}

} // verus!
