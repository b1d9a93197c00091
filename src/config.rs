//! Service settings, built from raw environment values with defaults.
use vstd::prelude::*;
use vstd::utf8::is_ascii_chars;

verus! {

/// Settings of the surrounding service.
pub struct Config {
    pub port: String,
    pub jwt_secret: String,
    pub jwt_refresh_secret_key: String,
    pub jwt_algorithm: String,
    pub jwt_expire_minutes: u32,
    pub jwt_refresh_expire_days: u32,
}

/// All characters of `s` are decimal digits.
pub open spec fn all_digits(s: Seq<char>) -> bool {
    forall|i: int| 0 <= i < s.len() ==> '0' <= #[trigger] s[i] <= '9'
}

/// The number that the decimal digits `s` write.
pub open spec fn digits_value(s: Seq<char>) -> int
    decreases s.len(),
{
    if s.len() == 0 {
        0
    } else {
        digits_value(s.drop_last()) * 10 + (s.last() as int - '0' as int)
    }
}

/// The `u32` that `s` writes in decimal, with an optional leading `+`, or
/// `None` when `s` is no such number or the number exceeds `u32::MAX`.
pub open spec fn decimal_u32(s: Seq<char>) -> Option<u32> {
    let d = if s.len() > 0 && s[0] == '+' {
        s.drop_first()
    } else {
        s
    };
    if d.len() > 0 && all_digits(d) && digits_value(d) <= u32::MAX {
        Some(digits_value(d) as u32)
    } else {
        None
    }
}

proof fn lemma_digits_nonneg(d: Seq<char>)
    requires
        all_digits(d),
    ensures
        digits_value(d) >= 0,
    decreases d.len(),
{
    if d.len() > 0 {
        lemma_digits_nonneg(d.drop_last());
    }
}

/// Reading fewer digits never gives a larger number.
proof fn lemma_digits_prefix(d: Seq<char>, k: int)
    requires
        all_digits(d),
        0 <= k <= d.len(),
    ensures
        digits_value(d.take(k)) <= digits_value(d),
    decreases d.len(),
{
    if k < d.len() {
        let p = d.drop_last();
        lemma_digits_nonneg(p);
        lemma_digits_prefix(p, k);
        assert(p.take(k) =~= d.take(k));
    } else {
        assert(d.take(k) =~= d);
    }
}

/// Reads `s` as a decimal `u32`: an optional `+`, then decimal digits only,
/// with a value that fits.
fn parse_u32(s: &str) -> (r: Option<u32>)
    ensures
        r == decimal_u32(s@),
{
    let ghost t = s@;
    if !s.is_ascii() {
        proof {
            let w = choose|w: int| 0 <= w < t.len() && !('\0' <= #[trigger] t[w] <= '\u{7f}');
            if t.len() > 0 && t[0] == '+' {
                assert(t.drop_first()[w - 1] == t[w]);
            }
        }
        return None;
    }
    let b = s.as_bytes();
    proof {
        vstd::string::is_ascii_spec_bytes(s);
    }
    assert(b@ =~= Seq::new(t.len(), |w: int| t[w] as u8));
    let n = b.len();
    let start: usize = if n > 0 && b[0] == 43 {
        1
    } else {
        0
    };
    let ghost d = if t.len() > 0 && t[0] == '+' {
        t.drop_first()
    } else {
        t
    };
    assert(d.len() == n - start);
    assert(forall|w: int| 0 <= w < d.len() ==> #[trigger] d[w] == t[w + start]);
    if start == n {
        return None;
    }
    let mut v: u64 = 0;
    let mut i: usize = start;
    assert(d.take(0) =~= Seq::<char>::empty());
    while i < n
        invariant
            start <= i <= n,
            n == b@.len(),
            b@ == Seq::new(t.len(), |w: int| t[w] as u8),
            is_ascii_chars(t),
            t == s@,
            d == (if t.len() > 0 && t[0] == '+' {
                t.drop_first()
            } else {
                t
            }),
            d.len() == n - start,
            forall|w: int| 0 <= w < d.len() ==> #[trigger] d[w] == t[w + start],
            all_digits(d.take(i - start)),
            v as int == digits_value(d.take(i - start)),
            v <= u32::MAX,
        decreases n - i,
    {
        let c = b[i];
        let ghost j = i - start;
        assert(d[j] == t[i as int]);
        if c < 48 || c > 57 {
            assert(!all_digits(d)) by {
                assert(!('0' <= d[j] <= '9'));
            }
            return None;
        }
        assert('0' <= d[j] <= '9');
        assert(d.take(j + 1).drop_last() =~= d.take(j));
        assert(d.take(j + 1).last() == d[j]);
        v = v * 10 + (c - 48) as u64;
        assert(all_digits(d.take(j + 1))) by {
            assert forall|w: int| 0 <= w < j + 1 implies '0' <= #[trigger] d.take(j + 1)[w] <= '9' by {
                if w < j {
                    assert(d.take(j + 1)[w] == d.take(j)[w]);
                }
            }
        }
        if v > 0xffff_ffff {
            proof {
                if all_digits(d) {
                    lemma_digits_prefix(d, j + 1);
                }
            }
            return None;
        }
        i += 1;
    }
    assert(d.take(n - start) =~= d);
    Some(v as u32)
}

/// The text value of a setting: the given one, or `default`.
pub open spec fn text_or(v: Option<String>, default: Seq<char>) -> Seq<char> {
    match v {
        Some(s) => s@,
        None => default,
    }
}

/// The number value of a setting: the given text read as a `u32`, or
/// `default` when it is missing or is no such number.
pub open spec fn number_or(v: Option<String>, default: u32) -> u32 {
    match v {
        Some(s) => match decimal_u32(s@) {
            Some(n) => n,
            None => default,
        },
        None => default,
    }
}

fn text_setting(v: Option<String>, default: &str) -> (r: String)
    ensures
        r@ == text_or(v, default@),
{
    match v {
        Some(s) => s,
        None => default.to_owned(),
    }
}

fn number_setting(v: Option<String>, default: u32) -> (r: u32)
    ensures
        r == number_or(v, default),
{
    match v {
        Some(s) => match parse_u32(s.as_str()) {
            Some(n) => n,
            None => default,
        },
        None => default,
    }
}

/// Builds the settings from the raw values of `ROOMS_SCHEDULER_PORT`,
/// `JWT_SECRET`, `JWT_REFRESH_SECRET_KEY`, `JWT_ALGORITHM`,
/// `JWT_EXPIRE_MINUTES` and `JWT_REFRESH_EXPIRE_DAYS` (`None` where unset).
/// Missing texts default to "3000", "default_secret", "default_refresh_secret"
/// and "HS256"; missing or unreadable numbers to 60 minutes and 7 days.
pub fn config_from_values(
    port: Option<String>,
    jwt_secret: Option<String>,
    jwt_refresh_secret_key: Option<String>,
    jwt_algorithm: Option<String>,
    jwt_expire_minutes: Option<String>,
    jwt_refresh_expire_days: Option<String>,
) -> (c: Config)
    ensures
        c.port@ == text_or(port, "3000"@),
        c.jwt_secret@ == text_or(jwt_secret, "default_secret"@),
        c.jwt_refresh_secret_key@ == text_or(jwt_refresh_secret_key, "default_refresh_secret"@),
        c.jwt_algorithm@ == text_or(jwt_algorithm, "HS256"@),
        c.jwt_expire_minutes == number_or(jwt_expire_minutes, 60),
        c.jwt_refresh_expire_days == number_or(jwt_refresh_expire_days, 7),
{
    Config {
        port: text_setting(port, "3000"),
        jwt_secret: text_setting(jwt_secret, "default_secret"),
        jwt_refresh_secret_key: text_setting(jwt_refresh_secret_key, "default_refresh_secret"),
        jwt_algorithm: text_setting(jwt_algorithm, "HS256"),
        jwt_expire_minutes: number_setting(jwt_expire_minutes, 60),
        jwt_refresh_expire_days: number_setting(jwt_refresh_expire_days, 7),
    }
}

} // verus!
