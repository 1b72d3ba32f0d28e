use vstd::prelude::*;
use vstd::string::{StrSliceExecFns, StringExecFns};

verus! {

pub open spec fn digit_char(d: int) -> char {
    if d == 0 {
        '0'
    } else if d == 1 {
        '1'
    } else if d == 2 {
        '2'
    } else if d == 3 {
        '3'
    } else if d == 4 {
        '4'
    } else if d == 5 {
        '5'
    } else if d == 6 {
        '6'
    } else if d == 7 {
        '7'
    } else if d == 8 {
        '8'
    } else {
        '9'
    }
}

/// The canonical decimal numeral of a natural number.
pub open spec fn dec_seq(n: nat) -> Seq<char>
    decreases n,
{
    if n < 10 {
        seq![digit_char(n as int)]
    } else {
        dec_seq(n / 10).push(digit_char((n % 10) as int))
    }
}

pub open spec fn pow10(k: nat) -> nat
    decreases k,
{
    if k == 0 {
        1
    } else {
        10 * pow10((k - 1) as nat)
    }
}

/// Basic facts about decimal numerals: never empty, no leading zero except
/// for zero itself, digits only, and bounded length for bounded numbers.
pub proof fn lemma_dec_props(n: nat)
    ensures
        dec_seq(n).len() >= 1,
        n > 0 ==> dec_seq(n)[0] != '0',
        forall|k: int| 0 <= k < dec_seq(n).len() ==> 48 <= (#[trigger] dec_seq(n)[k] as int) <= 57,
        forall|k: nat| n < pow10(k) && k >= 1 ==> dec_seq(n).len() <= k,
    decreases n,
{
    if n < 10 {
        assert forall|k: nat| n < pow10(k) && k >= 1 implies dec_seq(n).len() <= k by {
            assert(pow10(1) == 10) by {
                reveal_with_fuel(pow10, 2);
            }
            lemma_pow10_le(1, k);
        }
    } else {
        lemma_dec_props(n / 10);
        assert(dec_seq(n)[0] == dec_seq(n / 10)[0]);
        assert(n / 10 > 0);
        assert forall|k: int| 0 <= k < dec_seq(n).len() implies 48 <= (#[trigger] dec_seq(n)[k]
            as int) <= 57 by {
            if k < dec_seq(n).len() - 1 {
                assert(dec_seq(n)[k] == dec_seq(n / 10)[k]);
            } else {
                assert(dec_seq(n)[k] == digit_char((n % 10) as int));
            }
        }
        assert forall|k: nat| n < pow10(k) && k >= 1 implies dec_seq(n).len() <= k by {
            assert(k >= 2) by {
                if k == 1 {
                    assert(pow10(1) == 10) by {
                        reveal_with_fuel(pow10, 2);
                    }
                }
            }
            assert(pow10(k) == 10 * pow10((k - 1) as nat));
            assert(n / 10 < pow10((k - 1) as nat)) by {
                let p = pow10((k - 1) as nat);
                assert(n < 10 * p);
                assert(n / 10 < p) by (nonlinear_arith)
                    requires
                        n < 10 * p,
                        p >= 1,
                ;
            }
            assert(dec_seq(n / 10).len() <= k - 1);
        }
    }
}

/// Decimal numerals are unambiguous.
pub proof fn lemma_dec_inj(a: nat, b: nat)
    requires
        dec_seq(a) == dec_seq(b),
    ensures
        a == b,
    decreases a,
{
    lemma_dec_props(a);
    lemma_dec_props(b);
    if a < 10 && b < 10 {
        assert(dec_seq(a)[0] == digit_char(a as int));
        assert(dec_seq(b)[0] == digit_char(b as int));
    } else if a < 10 {
        assert(dec_seq(b).len() == dec_seq(b / 10).len() + 1);
        assert(dec_seq(b / 10).len() >= 1);
    } else if b < 10 {
        assert(dec_seq(a).len() == dec_seq(a / 10).len() + 1);
        assert(dec_seq(a / 10).len() >= 1);
    } else {
        let sa = dec_seq(a / 10);
        let sb = dec_seq(b / 10);
        assert(sa.push(digit_char((a % 10) as int)) == sb.push(digit_char((b % 10) as int)));
        assert(sa.len() == sb.len());
        assert(sa =~= sb) by {
            assert forall|k: int| 0 <= k < sa.len() implies sa[k] == sb[k] by {
                assert(sa.push(digit_char((a % 10) as int))[k] == sa[k]);
                assert(sb.push(digit_char((b % 10) as int))[k] == sb[k]);
            }
        }
        lemma_dec_inj(a / 10, b / 10);
        assert(digit_char((a % 10) as int) == digit_char((b % 10) as int)) by {
            let la = sa.push(digit_char((a % 10) as int));
            assert(la[la.len() - 1] == digit_char((a % 10) as int));
        }
        assert(a % 10 == b % 10);
        assert(a == 10 * (a / 10) + a % 10);
        assert(b == 10 * (b / 10) + b % 10);
    }
}

fn digit_str(d: usize) -> (r: &'static str)
    requires
        d < 10,
    ensures
        r@ =~= seq![digit_char(d as int)],
{
    proof {
        reveal_strlit("0");
        reveal_strlit("1");
        reveal_strlit("2");
        reveal_strlit("3");
        reveal_strlit("4");
        reveal_strlit("5");
        reveal_strlit("6");
        reveal_strlit("7");
        reveal_strlit("8");
        reveal_strlit("9");
    }
    match d {
        0 => "0",
        1 => "1",
        2 => "2",
        3 => "3",
        4 => "4",
        5 => "5",
        6 => "6",
        7 => "7",
        8 => "8",
        _ => "9",
    }
}

/// Renders a number as its decimal numeral.
pub fn dec_string(n: usize) -> (r: String)
    ensures
        r@ == dec_seq(n as nat),
    decreases n,
{
    if n < 10 {
        String::from_str(digit_str(n))
    } else {
        proof {
            assert(n / 10 < n) by (nonlinear_arith)
                requires
                    n >= 10,
            ;
        }
        let mut s = dec_string(n / 10);
        s.append(digit_str(n % 10));
        proof {
            assert(s@ =~= dec_seq((n / 10) as nat).push(digit_char((n % 10) as int)));
        }
        s
    }
}

/// Reads a decimal numeral back. Returns the number exactly when the text is
/// the canonical numeral of a number that fits in usize; anything else
/// (empty, stray characters, a leading zero, too large) gives nothing.
pub fn parse_dec(s: &str) -> (r: Option<usize>)
    ensures
        r matches Some(n) ==> s@ == dec_seq(n as nat),
        r is None ==> forall|n: nat| n <= usize::MAX ==> s@ != dec_seq(n),
{
    let len = s.unicode_len();
    if len == 0 {
        proof {
            assert forall|n: nat| n <= usize::MAX implies s@ != dec_seq(n) by {
                lemma_dec_props(n);
            }
        }
        return None;
    }
    if len > 20 {
        proof {
            assert forall|n: nat| n <= usize::MAX implies s@ != dec_seq(n) by {
                lemma_dec_props(n);
                assert(usize::MAX < pow10(20)) by {
                    reveal_with_fuel(pow10, 21);
                }
                assert(n < pow10(20));
                assert(dec_seq(n).len() <= 20);
            }
        }
        return None;
    }
    let c0 = s.get_char(0);
    if (c0 as u32) == 48 {
        if len == 1 {
            proof {
                assert(s@ =~= dec_seq(0));
            }
            return Some(0);
        }
        proof {
            assert forall|n: nat| n <= usize::MAX implies s@ != dec_seq(n) by {
                lemma_dec_props(n);
                if n > 0 {
                    assert(dec_seq(n)[0] != '0');
                    assert(('0' as int) == 48);
                } else {
                    assert(dec_seq(0).len() == 1);
                }
            }
        }
        return None;
    }
    let mut i: usize = 0;
    let mut v: u128 = 0;
    while i < len
        invariant
            1 <= len <= 20,
            i <= len,
            len == s@.len(),
            i >= 1 ==> s@.take(i as int) == dec_seq(v as nat) && v >= 1,
            i == 0 ==> v == 0,
            i >= 1 ==> v < pow10(i as nat),
            (s@[0] as int) != 48,
        decreases len - i,
    {
        let c = s.get_char(i);
        let cu = c as u32;
        if cu < 48 || cu > 57 {
            proof {
                assert forall|n: nat| n <= usize::MAX implies s@ != dec_seq(n) by {
                    lemma_dec_props(n);
                    if s@ == dec_seq(n) {
                        assert(48 <= (dec_seq(n)[i as int] as int) <= 57);
                    }
                }
            }
            return None;
        }
        let d = (cu - 48) as u128;
        proof {
            assert(pow10(i as nat) <= pow10(20)) by {
                lemma_pow10_le(i as nat, 20);
            }
            assert(pow10(20) < 0x1_0000_0000_0000_0000_0000_0000) by {
                reveal_with_fuel(pow10, 21);
            }
            assert(10 * (v as nat) + (d as nat) < pow10((i + 1) as nat)) by {
                assert(pow10((i + 1) as nat) == 10 * pow10(i as nat));
                if i >= 1 {
                    assert(v < pow10(i as nat));
                    assert(10 * (v as nat) + (d as nat) < 10 * pow10(i as nat)) by (nonlinear_arith)
                        requires
                            (v as nat) < pow10(i as nat),
                            (d as nat) < 10,
                    ;
                } else {
                    assert(pow10(1nat) == 10) by {
                        reveal_with_fuel(pow10, 2);
                    }
                }
            }
            assert(pow10((i + 1) as nat) <= pow10(20)) by {
                lemma_pow10_le((i + 1) as nat, 20);
            }
        }
        let v2: u128 = v * 10 + d;
        proof {
            assert(c == digit_char(d as int));
            if i == 0 {
                assert(d >= 1);
                assert(dec_seq(v2 as nat) =~= seq![digit_char(d as int)]);
                assert(s@.take(1) =~= seq![s@[0]]);
            } else {
                assert(v2 as nat == 10 * (v as nat) + (d as nat));
                assert((v2 as nat) / 10 == v as nat && (v2 as nat) % 10 == d as nat) by (
                nonlinear_arith)
                    requires
                        v2 as nat == 10 * (v as nat) + (d as nat),
                        (d as nat) < 10,
                ;
                assert(v2 >= 10);
                assert(dec_seq(v2 as nat) == dec_seq(v as nat).push(digit_char(d as int)));
                assert(s@.take(i + 1) =~= s@.take(i as int).push(s@[i as int]));
            }
        }
        v = v2;
        i = i + 1;
    }
    proof {
        assert(s@.take(len as int) =~= s@);
    }
    if v <= (usize::MAX as u128) {
        Some(v as usize)
    } else {
        proof {
            assert forall|n: nat| n <= usize::MAX implies s@ != dec_seq(n) by {
                if s@ == dec_seq(n) {
                    lemma_dec_inj(n, v as nat);
                }
            }
        }
        None
    }
}

pub proof fn lemma_pow10_le(a: nat, b: nat)
    requires
        a <= b,
    ensures
        pow10(a) <= pow10(b),
    decreases b,
{
    if a < b {
        lemma_pow10_le(a, (b - 1) as nat);
        assert(pow10(b) == 10 * pow10((b - 1) as nat));
    }
}

} // verus!
