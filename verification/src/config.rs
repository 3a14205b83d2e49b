use vstd::prelude::*;

verus! {

use vstd::string::StrSliceExecFns;
use vstd::string::StringExecFns;

/// A decimal digit.
pub open spec fn is_digit(c: char) -> bool {
    48 <= c as int && c as int <= 57
}

/// The value of one decimal digit.
pub open spec fn digit_val(c: char) -> int {
    c as int - 48
}

/// Every character is a decimal digit.
pub open spec fn all_digits(s: Seq<char>) -> bool {
    forall|i: int| 0 <= i < s.len() ==> is_digit(#[trigger] s[i])
}

/// The number a digit sequence denotes in base ten.
pub open spec fn digits_val(s: Seq<char>) -> int
    decreases s.len(),
{
    if s.len() == 0 {
        0
    } else {
        digits_val(s.drop_last()) * 10 + digit_val(s.last())
    }
}

/// The `u16` a string denotes under Rust's standard decimal parsing: an
/// optional leading `+`, then at least one digit and nothing else, with a
/// value of at most `u16::MAX`; anything else denotes no value.
pub open spec fn spec_parse_u16(s: Seq<char>) -> Option<u16> {
    let digits = if s.len() > 0 && s[0] == '+' {
        s.drop_first()
    } else {
        s
    };
    if digits.len() == 0 || !all_digits(digits) || digits_val(digits) > u16::MAX {
        None
    } else {
        Some(digits_val(digits) as u16)
    }
}

/// A digit sequence denotes a non-negative number.
proof fn lemma_digits_val_nonneg(s: Seq<char>)
    requires
        all_digits(s),
    ensures
        digits_val(s) >= 0,
    decreases s.len(),
{
    if s.len() > 0 {
        assert forall|i: int| 0 <= i < s.drop_last().len() implies is_digit(
            #[trigger] s.drop_last()[i],
        ) by {
            assert(s.drop_last()[i] == s[i]);
        }
        lemma_digits_val_nonneg(s.drop_last());
    }
}

/// Extending a digit sequence never shrinks its value.
proof fn lemma_digits_val_mono(s: Seq<char>, k: int)
    requires
        all_digits(s),
        0 <= k <= s.len(),
    ensures
        digits_val(s.take(k)) <= digits_val(s),
    decreases s.len() - k,
{
    if k == s.len() {
        assert(s.take(k) =~= s);
    } else {
        lemma_digits_val_mono(s, k + 1);
        assert forall|i: int| 0 <= i < s.take(k).len() implies is_digit(
            #[trigger] s.take(k)[i],
        ) by {
            assert(s.take(k)[i] == s[i]);
        }
        lemma_digits_val_nonneg(s.take(k));
        assert(s.take(k + 1).drop_last() =~= s.take(k));
        assert(s.take(k + 1).last() == s[k]);
    }
}

/// Parses a decimal `u16` the way Rust's standard parsing does: an optional
/// leading `+`, then one or more digits and nothing else, rejecting values
/// over `u16::MAX`.
pub fn parse_u16(s: &str) -> (r: Option<u16>)
    ensures
        r == spec_parse_u16(s@),
{
    let n = s.unicode_len();
    let has_plus = n > 0 && s.get_char(0) == '+';
    let start: usize = if has_plus {
        1
    } else {
        0
    };
    let ghost digits = if has_plus {
        s@.drop_first()
    } else {
        s@
    };
    proof {
        assert(digits.len() == n - start);
        assert forall|k: int| 0 <= k < digits.len() implies digits[k] == s@[k + start] by {}
    }
    if n == start {
        return None;
    }
    let mut acc: u32 = 0;
    let mut i: usize = start;
    while i < n
        invariant
            start <= i <= n,
            n == s@.len(),
            start <= 1,
            digits == (if s@.len() > 0 && s@[0] == '+' {
                s@.drop_first()
            } else {
                s@
            }),
            start == (if s@.len() > 0 && s@[0] == '+' {
                1int
            } else {
                0int
            }),
            digits.len() == n - start,
            forall|k: int| 0 <= k < digits.len() ==> digits[k] == s@[k + start],
            all_digits(digits.take(i - start)),
            acc as int == digits_val(digits.take(i - start)),
            acc <= 0xFFFF,
        decreases n - i,
    {
        let c = s.get_char(i);
        let u = c as u32;
        proof {
            assert(digits.take(i + 1 - start).drop_last() =~= digits.take(i - start));
            assert(digits.take(i + 1 - start).last() == s@[i as int]);
        }
        if u < 48 || u > 57 {
            proof {
                assert(c == s@[i as int]);
                assert(digits[i - start] == c);
                assert(!is_digit(digits[i - start]));
                assert(!all_digits(digits));
            }
            return None;
        }
        let next = acc * 10 + (u - 48);
        proof {
            assert forall|k: int| 0 <= k < i + 1 - start implies is_digit(
                #[trigger] digits.take(i + 1 - start)[k],
            ) by {
                assert(digits.take(i + 1 - start)[k] == digits[k]);
                if k < i - start {
                    assert(digits.take(i - start)[k] == digits[k]);
                }
            }
        }
        if next > 0xFFFF {
            proof {
                if all_digits(digits) {
                    lemma_digits_val_mono(digits, i + 1 - start);
                }
            }
            return None;
        }
        acc = next;
        i += 1;
    }
    proof {
        assert(digits.take(n - start) =~= digits);
    }
    Some(acc as u16)
}

/// Server connection configuration: the address to bind and the port to
/// listen on.
pub struct RheiConfig {
    pub ip: String,
    pub port: u16,
}

impl Default for RheiConfig {
    /// The default configuration: every interface, port 3000.
    fn default() -> (c: Self)
        ensures
            c.ip@ == "0.0.0.0"@,
            c.port == 3000,
    {
        RheiConfig { ip: String::from_str("0.0.0.0"), port: 3000 }
    }
}

/// Builds the configuration from the optionally present environment texts:
/// a missing address falls back to the default address, and a missing or
/// malformed port falls back to the default port.
pub fn config_from_env(ip: Option<String>, port: Option<String>) -> (c: RheiConfig)
    ensures
        c.ip@ == (match ip {
            Some(s) => s@,
            None => "0.0.0.0"@,
        }),
        c.port == (match port {
            Some(p) => match spec_parse_u16(p@) {
                Some(v) => v,
                None => 3000u16,
            },
            None => 3000u16,
        }),
{
    let mut config = RheiConfig::default();
    match ip {
        Some(s) => {
            config.ip = s;
        },
        None => {},
    }
    match port {
        Some(p) => {
            match parse_u16(p.as_str()) {
                Some(v) => {
                    config.port = v;
                },
                None => {},
            }
        },
        None => {},
    }
    config
}

} // verus!
