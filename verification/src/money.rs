//! Monetary amounts as a whole number of cents: decimal rendering for storage
//! and display, and parsing of signed decimal strings.

use crate::text::{digit_char, digit_str, digit_val, digit_val_exec, is_digit, is_digit_exec};
use crate::dates::pad2;
use vstd::prelude::*;
use vstd::string::{StrSliceExecFns, StringExecFns};

verus! {

/// The largest magnitude, in cents, that the storage format accepts:
/// amounts stay under ten quadrillion currency units.
pub const AMOUNT_MAX: i64 = 999_999_999_999_999_999;

/// The largest whole-unit part of an accepted amount.
pub const UNITS_MAX: i64 = 9_999_999_999_999_999;

pub open spec fn pow10(n: int) -> int
    decreases n,
{
    if n <= 0 {
        1
    } else {
        10 * pow10(n - 1)
    }
}

proof fn lemma_pow10_pos(n: int)
    ensures
        pow10(n) >= 1,
    decreases n,
{
    if n > 0 {
        lemma_pow10_pos(n - 1);
    }
}

proof fn lemma_pow10_mono(a: int, b: int)
    requires
        0 <= a <= b,
    ensures
        pow10(a) <= pow10(b),
    decreases b - a,
{
    if a < b {
        lemma_pow10_mono(a, b - 1);
        lemma_pow10_pos(b - 1);
        assert(pow10(b) == 10 * pow10(b - 1));
    }
}

/// The decimal digits of a nonnegative number, most significant first.
pub open spec fn dec_digits(n: int) -> Seq<char>
    decreases n,
{
    if n < 10 {
        seq![digit_char(n)]
    } else {
        dec_digits(n / 10).push(digit_char(n % 10))
    }
}

pub open spec fn all_digits(s: Seq<char>) -> bool {
    forall|i: int| 0 <= i < s.len() ==> is_digit(s[i])
}

/// The number a string of decimal digits denotes.
pub open spec fn digits_val(s: Seq<char>) -> int
    decreases s.len(),
{
    if s.len() == 0 {
        0
    } else {
        digits_val(s.drop_last()) * 10 + digit_val(s.last())
    }
}

proof fn lemma_dec_digits(n: int)
    requires
        n >= 0,
    ensures
        all_digits(dec_digits(n)),
        dec_digits(n).len() >= 1,
        digits_val(dec_digits(n)) == n,
    decreases n,
{
    if n < 10 {
        let s = dec_digits(n);
        assert(s =~= seq![digit_char(n)]);
        assert(is_digit(digit_char(n)) && digit_val(digit_char(n)) == n);
        assert(s.drop_last() =~= Seq::<char>::empty());
        assert(digits_val(Seq::<char>::empty()) == 0);
        assert(s.last() == digit_char(n));
        assert(digits_val(s) == 0 * 10 + n);
        assert(forall|i: int| 0 <= i < s.len() ==> is_digit(#[trigger] s[i]));
    } else {
        lemma_dec_digits(n / 10);
        let t = dec_digits(n / 10);
        let s = dec_digits(n);
        assert(s =~= t.push(digit_char(n % 10)));
        assert(s.drop_last() =~= t);
        assert(is_digit(digit_char(n % 10)) && digit_val(digit_char(n % 10)) == n % 10);
        assert(digits_val(s) == n / 10 * 10 + n % 10);
        assert(forall|i: int| 0 <= i < s.len() ==> is_digit(#[trigger] s[i])) by {
            assert(forall|i: int| 0 <= i < t.len() ==> #[trigger] s[i] == t[i]);
            assert(s[s.len() - 1] == digit_char(n % 10));
        }
    }
}

proof fn lemma_digits_val_bound(s: Seq<char>)
    requires
        all_digits(s),
    ensures
        0 <= digits_val(s) < pow10(s.len() as int),
    decreases s.len(),
{
    if s.len() > 0 {
        lemma_digits_val_bound(s.drop_last());
        assert(is_digit(s.last()) && 0 <= digit_val(s.last()) <= 9);
    }
}

proof fn lemma_digits_val_min(s: Seq<char>)
    requires
        all_digits(s),
        s.len() >= 1,
        s[0] != '0',
    ensures
        digits_val(s) >= pow10(s.len() - 1),
    decreases s.len(),
{
    if s.len() == 1 {
        assert(is_digit(s[0]) && digit_val(s[0]) >= 1);
        assert(s.drop_last() =~= Seq::<char>::empty());
        assert(digits_val(Seq::<char>::empty()) == 0);
        assert(s.last() == s[0]);
        assert(digits_val(s) == 0 * 10 + digit_val(s[0]));
    } else {
        let t = s.drop_last();
        assert(all_digits(t)) by {
            assert(forall|i: int| 0 <= i < t.len() ==> #[trigger] t[i] == s[i]);
        }
        assert(t[0] == s[0]);
        lemma_digits_val_min(t);
        assert(is_digit(s.last()) && digit_val(s.last()) >= 0);
        lemma_pow10_pos(s.len() - 2);
        assert(pow10(s.len() - 1) == 10 * pow10(s.len() - 2));
    }
}

proof fn lemma_digits_val_strip_zero(s: Seq<char>)
    requires
        s.len() >= 1,
        s[0] == '0',
    ensures
        digits_val(s) == digits_val(s.drop_first()),
    decreases s.len(),
{
    if s.len() == 1 {
        assert(s.drop_last() =~= Seq::<char>::empty());
        assert(s.drop_first() =~= Seq::<char>::empty());
        assert(digit_val('0') == 0);
    } else {
        lemma_digits_val_strip_zero(s.drop_last());
        assert(s.drop_last().drop_first() =~= s.drop_first().drop_last());
        assert(s.drop_first().last() == s.last());
    }
}

proof fn lemma_digits_val_skip_zeros(s: Seq<char>, z: int)
    requires
        0 <= z <= s.len(),
        forall|j: int| 0 <= j < z ==> s[j] == '0',
    ensures
        digits_val(s) == digits_val(s.subrange(z, s.len() as int)),
    decreases z,
{
    if z == 0 {
        assert(s.subrange(0, s.len() as int) =~= s);
    } else {
        lemma_digits_val_strip_zero(s);
        lemma_digits_val_skip_zeros(s.drop_first(), z - 1);
        assert(s.drop_first() =~= s.subrange(1, s.len() as int));
        assert(s.drop_first().subrange(z - 1, s.drop_first().len() as int) =~= s.subrange(
            z,
            s.len() as int,
        ));
    }
}

/// Appends the decimal digits of `n`.
fn push_decimal(out: &mut String, n: u128)
    ensures
        final(out)@ == old(out)@ + dec_digits(n as int),
    decreases n,
{
    if n < 10 {
        out.append(digit_str(n as u32));
        proof {
            assert(old(out)@ + seq![digit_char(n as int)] =~= old(out)@ + dec_digits(n as int));
        }
    } else {
        push_decimal(out, n / 10);
        out.append(digit_str((n % 10) as u32));
        proof {
            assert(old(out)@ + dec_digits(n as int / 10) + seq![digit_char(n as int % 10)] =~= old(
                out,
            )@ + dec_digits(n as int));
        }
    }
}

/// A number of cents in display form: a sign for negative values, the whole
/// units, and always exactly two decimal places.
pub open spec fn spec_money2(c: int) -> Seq<char> {
    let u = if c < 0 {
        -c
    } else {
        c
    };
    let sign: Seq<char> = if c < 0 {
        seq!['-']
    } else {
        Seq::empty()
    };
    sign + dec_digits(u / 100) + seq!['.'] + pad2(u % 100)
}

/// Appends a number of cents with exactly two decimal places.
pub fn push_money2(out: &mut String, c: i128)
    requires
        c > i128::MIN,
    ensures
        final(out)@ == old(out)@ + spec_money2(c as int),
{
    let u: u128 = if c < 0 {
        (-c) as u128
    } else {
        c as u128
    };
    if c < 0 {
        out.append("-");
        proof {
            reveal_strlit("-");
        }
    }
    push_decimal(out, u / 100);
    out.append(".");
    let f = (u % 100) as u32;
    out.append(digit_str(f / 10 % 10));
    out.append(digit_str(f % 10));
    proof {
        reveal_strlit(".");
        let sign: Seq<char> = if c < 0 {
            seq!['-']
        } else {
            Seq::empty()
        };
        assert(old(out)@ + sign + dec_digits(u as int / 100) + "."@ + seq![
            digit_char(u as int % 100 / 10 % 10),
        ] + seq![digit_char(u as int % 100 % 10)] =~= old(out)@ + spec_money2(c as int));
    }
}

/// A number of cents in storage form: a sign for negative values, the whole
/// units, and as many decimal places as are needed, none for a whole amount.
pub open spec fn spec_amount_token(c: int) -> Seq<char> {
    let u = if c < 0 {
        -c
    } else {
        c
    };
    let sign: Seq<char> = if c < 0 {
        seq!['-']
    } else {
        Seq::empty()
    };
    let frac: Seq<char> = if u % 100 == 0 {
        Seq::empty()
    } else if u % 10 == 0 {
        seq!['.', digit_char(u % 100 / 10)]
    } else {
        seq!['.', digit_char(u % 100 / 10), digit_char(u % 10)]
    };
    sign + dec_digits(u / 100) + frac
}

/// Appends a number of cents in storage form.
pub fn push_amount_token(out: &mut String, c: i64)
    requires
        -AMOUNT_MAX <= c <= AMOUNT_MAX,
    ensures
        final(out)@ == old(out)@ + spec_amount_token(c as int),
{
    let u: u64 = if c < 0 {
        (-c) as u64
    } else {
        c as u64
    };
    if c < 0 {
        out.append("-");
        proof {
            reveal_strlit("-");
        }
    }
    push_decimal(out, (u / 100) as u128);
    let f = (u % 100) as u32;
    if f != 0 {
        out.append(".");
        out.append(digit_str(f / 10 % 10));
        if f % 10 != 0 {
            out.append(digit_str(f % 10));
        }
        proof {
            reveal_strlit(".");
        }
    }
    proof {
        let sign: Seq<char> = if c < 0 {
            seq!['-']
        } else {
            Seq::empty()
        };
        let u_i = u as int;
        let frac: Seq<char> = if u_i % 100 == 0 {
            Seq::empty()
        } else if u_i % 10 == 0 {
            seq!['.', digit_char(u_i % 100 / 10)]
        } else {
            seq!['.', digit_char(u_i % 100 / 10), digit_char(u_i % 10)]
        };
        assert(u_i % 100 / 10 == u_i % 100 / 10 % 10);
        assert(u_i % 10 == u_i % 100 % 10);
        assert(final(out)@ =~= old(out)@ + sign + dec_digits(u_i / 100) + frac);
        assert(old(out)@ + sign + dec_digits(u_i / 100) + frac =~= old(out)@ + spec_amount_token(
            c as int,
        ));
    }
}

/// The position of the first `.` in a string, `-1` when there is none.
pub open spec fn dot_pos(s: Seq<char>) -> int
    decreases s.len(),
{
    if s.len() == 0 {
        -1
    } else if s[0] == '.' {
        0
    } else {
        let r = dot_pos(s.drop_first());
        if r == -1 {
            -1
        } else {
            r + 1
        }
    }
}

proof fn lemma_dot_pos_at(s: Seq<char>, i: int)
    requires
        0 <= i <= s.len(),
        forall|j: int| 0 <= j < i ==> s[j] != '.',
        i == s.len() || s[i] == '.',
    ensures
        dot_pos(s) == if i == s.len() {
            -1int
        } else {
            i
        },
    decreases s.len(),
{
    if s.len() > 0 && i > 0 {
        assert(s.drop_first() =~= s.subrange(1, s.len() as int));
        lemma_dot_pos_at(s.drop_first(), i - 1);
    }
}

/// The cents a signed decimal string denotes: an optional sign, at least one
/// whole-unit digit, and at most two decimal places, within `AMOUNT_MAX`.
pub open spec fn spec_parse_amount(s: Seq<char>) -> Option<i64> {
    if s.len() == 0 {
        None
    } else {
        let neg = s[0] == '-';
        let body = if s[0] == '-' || s[0] == '+' {
            s.drop_first()
        } else {
            s
        };
        let p = dot_pos(body);
        let ip = if p == -1 {
            body
        } else {
            body.subrange(0, p)
        };
        let fp = if p == -1 {
            Seq::<char>::empty()
        } else {
            body.subrange(p + 1, body.len() as int)
        };
        if ip.len() >= 1 && all_digits(ip) && all_digits(fp) && (p == -1 || 1 <= fp.len() <= 2)
            && digits_val(ip) <= UNITS_MAX {
            let frac = if fp.len() == 0 {
                0
            } else if fp.len() == 1 {
                digit_val(fp[0]) * 10
            } else {
                digit_val(fp[0]) * 10 + digit_val(fp[1])
            };
            let mag = digits_val(ip) * 100 + frac;
            Some(
                (if neg {
                    -mag
                } else {
                    mag
                }) as i64,
            )
        } else {
            None
        }
    }
}

/// Reads a signed decimal amount, in cents.
#[verifier::loop_isolation(false)]
#[verifier::rlimit(100)]
pub fn parse_amount(s: &str) -> (r: Option<i64>)
    ensures
        r == spec_parse_amount(s@),
{
    let n: usize = s.unicode_len();
    if n == 0 {
        return None;
    }
    let first = s.get_char(0);
    let neg = first == '-';
    let start: usize = if first == '-' || first == '+' {
        1
    } else {
        0
    };
    let ghost body = s@.subrange(start as int, n as int);
    proof {
        if first == '-' || first == '+' {
            assert(body =~= s@.drop_first());
        } else {
            assert(body =~= s@);
        }
    }
    // Find the first dot, if any.
    let mut i: usize = start;
    let mut dot: usize = 0;
    let mut found = false;
    while i < n
        invariant
            start <= i <= n,
            !found ==> forall|j: int| start <= j < i ==> s@[j] != '.',
            found ==> start <= dot < i && s@[dot as int] == '.' && forall|j: int|
                start <= j < dot ==> s@[j] != '.',
        decreases n - i,
    {
        if !found && s.get_char(i) == '.' {
            dot = i;
            found = true;
        }
        i = i + 1;
    }
    proof {
        if found {
            lemma_dot_pos_at(body, dot - start);
        } else {
            lemma_dot_pos_at(body, body.len() as int);
        }
    }
    let ip_end: usize = if found {
        dot
    } else {
        n
    };
    let ghost ip = s@.subrange(start as int, ip_end as int);
    proof {
        if found {
            assert(ip =~= body.subrange(0, dot_pos(body)));
        } else {
            assert(ip =~= body);
        }
    }
    if ip_end == start {
        return None;
    }
    // Every whole-unit character must be a digit.
    let mut i: usize = start;
    while i < ip_end
        invariant
            start <= i <= ip_end,
            forall|j: int| start <= j < i ==> is_digit(s@[j]),
        decreases ip_end - i,
    {
        if !is_digit_exec(s.get_char(i)) {
            proof {
                assert(ip[i - start] == s@[i as int]);
            }
            return None;
        }
        i = i + 1;
    }
    assert(all_digits(ip)) by {
        assert(forall|j: int| 0 <= j < ip.len() ==> #[trigger] ip[j] == s@[start + j]);
    }
    // The decimal places, when present, must be one or two digits.
    let ghost fp = if found {
        body.subrange(dot_pos(body) + 1, body.len() as int)
    } else {
        Seq::<char>::empty()
    };
    proof {
        if found {
            assert(fp =~= s@.subrange(dot + 1, n as int));
        }
    }
    if found {
        let fl = n - dot - 1;
        if fl < 1 || fl > 2 {
            return None;
        }
        let mut i: usize = dot + 1;
        while i < n
            invariant
                dot + 1 <= i <= n,
                forall|j: int| dot + 1 <= j < i ==> is_digit(s@[j]),
            decreases n - i,
        {
            if !is_digit_exec(s.get_char(i)) {
                proof {
                    assert(fp[i - dot - 1] == s@[i as int]);
                }
                return None;
            }
            i = i + 1;
        }
        assert(all_digits(fp)) by {
            assert(forall|j: int| 0 <= j < fp.len() ==> #[trigger] fp[j] == s@[dot + 1 + j]);
        }
    }
    // Skip leading zeros, then refuse numbers too large for the model.
    let mut z: usize = start;
    while z < ip_end && s.get_char(z) == '0'
        invariant
            start <= z <= ip_end,
            forall|j: int| start <= j < z ==> s@[j] == '0',
        decreases ip_end - z,
    {
        z = z + 1;
    }
    proof {
        lemma_digits_val_skip_zeros(ip, z - start);
        assert(ip.subrange(z - start, ip.len() as int) =~= s@.subrange(z as int, ip_end as int));
        reveal_with_fuel(pow10, 17);
        assert(pow10(16) == 10_000_000_000_000_000);
    }
    let ghost sig = s@.subrange(z as int, ip_end as int);
    if ip_end - z > 16 {
        proof {
            assert(all_digits(sig)) by {
                assert(forall|j: int| 0 <= j < sig.len() ==> #[trigger] sig[j] == ip[z - start + j]);
            }
            assert(sig[0] != '0');
            lemma_digits_val_min(sig);
            lemma_pow10_mono(16, sig.len() - 1);
        }
        return None;
    }
    // Accumulate the whole units.
    let mut acc: u64 = 0;
    let mut i: usize = z;
    proof {
        assert(s@.subrange(z as int, z as int) =~= Seq::<char>::empty());
    }
    while i < ip_end
        invariant
            z <= i <= ip_end,
            acc == digits_val(s@.subrange(z as int, i as int)),
            acc < pow10(i - z),
            pow10(i - z) <= pow10(16),
        decreases ip_end - i,
    {
        let d = digit_val_exec(s.get_char(i));
        proof {
            let prev = s@.subrange(z as int, i as int);
            let next = s@.subrange(z as int, i + 1);
            assert(next.drop_last() =~= prev);
            assert(next.last() == s@[i as int]);
            lemma_pow10_mono(i + 1 - z, 16);
        }
        acc = acc * 10 + (d as u64);
        i = i + 1;
    }
    proof {
        assert(s@.subrange(z as int, ip_end as int) =~= sig);
        assert(digits_val(ip) == acc);
        assert(acc <= UNITS_MAX);
    }
    // The decimal places.
    let frac: u64 = if !found {
        0
    } else if n - dot - 1 == 1 {
        (digit_val_exec(s.get_char(dot + 1)) as u64) * 10
    } else {
        (digit_val_exec(s.get_char(dot + 1)) as u64) * 10 + (digit_val_exec(
            s.get_char(dot + 2),
        ) as u64)
    };
    proof {
        if found {
            assert(fp[0] == s@[dot + 1]);
            if fp.len() == 2 {
                assert(fp[1] == s@[dot + 2]);
            }
        }
    }
    let mag: u64 = acc * 100 + frac;
    if neg {
        Some(-(mag as i64))
    } else {
        Some(mag as i64)
    }
}

/// A storage token for an amount is made of sign, digits and a point alone,
/// starts with a sign or digit, and is never empty.
pub proof fn lemma_amount_token_chars(c: int)
    requires
        -AMOUNT_MAX <= c <= AMOUNT_MAX,
    ensures
        spec_amount_token(c).len() >= 1,
        spec_amount_token(c)[0] == '-' || is_digit(spec_amount_token(c)[0]),
        forall|j: int|
            0 <= j < spec_amount_token(c).len() ==> (#[trigger] spec_amount_token(c)[j]) == '-'
                || spec_amount_token(c)[j] == '.' || is_digit(spec_amount_token(c)[j]),
{
    let u = if c < 0 {
        -c
    } else {
        c
    };
    let sign: Seq<char> = if c < 0 {
        seq!['-']
    } else {
        Seq::empty()
    };
    let frac: Seq<char> = if u % 100 == 0 {
        Seq::empty()
    } else if u % 10 == 0 {
        seq!['.', digit_char(u % 100 / 10)]
    } else {
        seq!['.', digit_char(u % 100 / 10), digit_char(u % 10)]
    };
    let d = dec_digits(u / 100);
    lemma_dec_digits(u / 100);
    let t = spec_amount_token(c);
    assert(t =~= sign + d + frac);
    assert(is_digit(digit_char(u % 100 / 10)));
    assert(is_digit(digit_char(u % 10)));
    assert forall|j: int| 0 <= j < t.len() implies (#[trigger] t[j]) == '-' || t[j] == '.'
        || is_digit(t[j]) by {
        if j < sign.len() {
            assert(t[j] == '-');
        } else if j < sign.len() + d.len() {
            assert(t[j] == d[j - sign.len()]);
        } else {
            assert(t[j] == frac[j - sign.len() - d.len()]);
        }
    }
    if c < 0 {
        assert(t[0] == '-');
    } else {
        assert(t[0] == d[0]);
    }
}

/// Whatever parses, parses into the storage bound.
pub proof fn lemma_parse_amount_bounds(s: Seq<char>)
    ensures
        spec_parse_amount(s) matches Some(c) ==> -AMOUNT_MAX <= c <= AMOUNT_MAX,
{
    if s.len() > 0 {
        let body = if s[0] == '-' || s[0] == '+' {
            s.drop_first()
        } else {
            s
        };
        let p = dot_pos(body);
        let ip = if p == -1 {
            body
        } else {
            body.subrange(0, p)
        };
        let fp = if p == -1 {
            Seq::<char>::empty()
        } else {
            body.subrange(p + 1, body.len() as int)
        };
        if ip.len() >= 1 && all_digits(ip) && all_digits(fp) && (p == -1 || 1 <= fp.len() <= 2)
            && digits_val(ip) <= UNITS_MAX {
            lemma_digits_val_bound(ip);
            if fp.len() >= 1 {
                assert(is_digit(fp[0]));
            }
            if fp.len() == 2 {
                assert(is_digit(fp[1]));
            }
        }
    }
}

/// Reading back the storage form of an amount yields the same amount.
#[verifier::rlimit(50)]
pub proof fn lemma_amount_round_trip(c: i64)
    requires
        -AMOUNT_MAX <= c <= AMOUNT_MAX,
    ensures
        spec_parse_amount(spec_amount_token(c as int)) == Some(c),
{
    let u = if c < 0 {
        -(c as int)
    } else {
        c as int
    };
    let sign: Seq<char> = if c < 0 {
        seq!['-']
    } else {
        Seq::empty()
    };
    let frac: Seq<char> = if u % 100 == 0 {
        Seq::empty()
    } else if u % 10 == 0 {
        seq!['.', digit_char(u % 100 / 10)]
    } else {
        seq!['.', digit_char(u % 100 / 10), digit_char(u % 10)]
    };
    let s = spec_amount_token(c as int);
    let d = dec_digits(u / 100);
    lemma_dec_digits(u / 100);
    assert(s =~= sign + d + frac);
    let body = if s[0] == '-' || s[0] == '+' {
        s.drop_first()
    } else {
        s
    };
    assert(body =~= d + frac);
    assert(forall|j: int| 0 <= j < d.len() ==> is_digit(#[trigger] body[j]) && body[j] != '.') by {
        assert(forall|j: int| 0 <= j < d.len() ==> body[j] == d[j] && is_digit(d[j]));
    }
    if u % 100 == 0 {
        lemma_dot_pos_at(body, body.len() as int);
        assert(dot_pos(body) == -1);
        assert(digits_val(d) == u / 100 <= UNITS_MAX);
        assert(u / 100 * 100 + 0 == u);
        assert(spec_parse_amount(s) == Some(c));
    } else {
        assert(body[d.len() as int] == '.');
        lemma_dot_pos_at(body, d.len() as int);
        assert(dot_pos(body) == d.len() as int);
        let ip = body.subrange(0, d.len() as int);
        assert(ip =~= d);
        let fp = body.subrange(d.len() as int + 1, body.len() as int);
        assert(fp =~= frac.drop_first());
        assert(digits_val(ip) == u / 100 <= UNITS_MAX);
        if u % 10 == 0 {
            assert(fp =~= seq![digit_char(u % 100 / 10)]);
            assert(digit_val(fp[0]) == u % 100 / 10);
            assert(u % 100 / 10 * 10 == u % 100) by {
                assert(u % 100 % 10 == u % 10);
            }
        } else {
            assert(fp =~= seq![digit_char(u % 100 / 10), digit_char(u % 10)]);
            assert(digit_val(fp[0]) == u % 100 / 10 && digit_val(fp[1]) == u % 10);
            assert(u % 100 / 10 * 10 + u % 10 == u % 100) by {
                assert(u % 100 % 10 == u % 10);
            }
        }
        assert(u / 100 * 100 + u % 100 == u);
        assert(spec_parse_amount(s) == Some(c));
    }
}

} // verus!
