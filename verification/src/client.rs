//! Parsing of the port arguments that the command-line client takes.

use crate::protocol::ExposedPort;
use vstd::prelude::*;

verus! {

/// Whether `c` is an ASCII decimal digit.
pub open spec fn is_digit(c: char) -> bool {
    '0' <= c && c <= '9'
}

/// Whether every element of `s` is a decimal digit.
pub open spec fn all_digits(s: Seq<char>) -> bool {
    forall|i: int| 0 <= i < s.len() ==> is_digit(#[trigger] s[i])
}

/// The number that the decimal digits `s` spell.
pub open spec fn decimal_value(s: Seq<char>) -> nat
    decreases s.len(),
{
    if s.len() == 0 {
        0
    } else {
        decimal_value(s.drop_last()) * 10 + ((s.last() as int) - ('0' as int)) as nat
    }
}

/// What `str::parse::<u16>` makes of `s`: an optional `+` sign, then at
/// least one decimal digit, spelling a number no larger than `u16::MAX`.
pub open spec fn parse_u16_spec(s: Seq<char>) -> Option<u16> {
    let digits = unsigned_digits(s);
    if digits.len() > 0 && all_digits(digits) && decimal_value(digits) <= u16::MAX {
        Some(decimal_value(digits) as u16)
    } else {
        None
    }
}

/// `s` without the `+` sign that it may start with.
pub open spec fn unsigned_digits(s: Seq<char>) -> Seq<char> {
    if s.len() > 0 && s[0] == '+' {
        s.drop_first()
    } else {
        s
    }
}

/// The position of the first `:` in `s`, if any.
pub open spec fn first_colon(s: Seq<char>) -> Option<int>
    decreases s.len(),
{
    if s.len() == 0 {
        None
    } else {
        match first_colon(s.drop_last()) {
            Some(i) => Some(i),
            None => if s.last() == ':' { Some(s.len() - 1) } else { None },
        }
    }
}

/// What `parse_exposed_port` makes of `s`: `remote:local`, split at the
/// first `:`, or a single port used for both sides.
pub open spec fn exposed_port_spec(s: Seq<char>) -> Result<(u16, u16), Seq<char>> {
    match first_colon(s) {
        Some(i) => match parse_u16_spec(s.take(i)) {
            None => Err("invalid remote port"@),
            Some(remote) => match parse_u16_spec(s.skip(i + 1)) {
                None => Err("invalid local port"@),
                Some(local) => Ok((remote, local)),
            },
        },
        None => match parse_u16_spec(s) {
            None => Err("invalid port"@),
            Some(port) => Ok((port, port)),
        },
    }
}

/// The decimal digit character for `d` (below ten).
pub open spec fn digit_char(d: nat) -> char {
    if d == 0 { '0' }
    else if d == 1 { '1' }
    else if d == 2 { '2' }
    else if d == 3 { '3' }
    else if d == 4 { '4' }
    else if d == 5 { '5' }
    else if d == 6 { '6' }
    else if d == 7 { '7' }
    else if d == 8 { '8' }
    else { '9' }
}

/// The decimal text of `n` as Rust displays an unsigned integer: its
/// digits, most significant first, with no sign and no leading zeros.
pub open spec fn decimal_text(n: nat) -> Seq<char>
    decreases n,
{
    if n < 10 {
        seq![digit_char(n)]
    } else {
        decimal_text(n / 10).push(digit_char(n % 10))
    }
}

/// The digit character for `d` is a digit worth `d`.
proof fn lemma_digit_char(d: nat)
    requires
        d < 10,
    ensures
        is_digit(digit_char(d)),
        (digit_char(d) as int) - ('0' as int) == d,
{
}

/// The decimal text of `n` is a non-empty run of digits that spells `n`.
proof fn lemma_decimal_text(n: nat)
    ensures
        decimal_text(n).len() > 0,
        all_digits(decimal_text(n)),
        decimal_value(decimal_text(n)) == n,
    decreases n,
{
    if n < 10 {
        let t = decimal_text(n);
        lemma_digit_char(n);
        assert(t.drop_last() =~= Seq::<char>::empty());
        assert(decimal_value(t) == decimal_value(t.drop_last()) * 10 + ((t.last() as int) - ('0' as int)) as nat);
    } else {
        lemma_decimal_text(n / 10);
        lemma_digit_char(n % 10);
        let t = decimal_text(n);
        assert(t.drop_last() =~= decimal_text(n / 10));
        assert(t.last() == digit_char(n % 10));
        assert(decimal_value(t) == decimal_value(t.drop_last()) * 10 + ((t.last() as int) - ('0' as int)) as nat);
        assert forall|i: int| 0 <= i < t.len() implies is_digit(#[trigger] t[i]) by {
            if i < t.len() - 1 {
                assert(t[i] == decimal_text(n / 10)[i]);
            }
        }
        assert(n == (n / 10) * 10 + n % 10);
    }
}

/// The decimal text of a `u16` reads back as that `u16`, and holds no `:`.
proof fn lemma_port_text(p: u16)
    ensures
        parse_u16_spec(decimal_text(p as nat)) == Some(p),
        first_colon(decimal_text(p as nat)) is None,
        forall|i: int| 0 <= i < decimal_text(p as nat).len() ==> #[trigger] decimal_text(p as nat)[i] != ':',
{
    let t = decimal_text(p as nat);
    lemma_decimal_text(p as nat);
    assert(is_digit(t[0]));
    assert(unsigned_digits(t) == t);
    assert forall|i: int| 0 <= i < t.len() implies #[trigger] t[i] != ':' by {
        assert(is_digit(t[i]));
    }
    lemma_first_colon_facts(t);
}

/// Round trip: the text `remote:local` of two ports, each written as Rust
/// displays a `u16`, parses back to those two ports, and one port written
/// alone parses to that port on both sides.
pub proof fn law_port_text_round_trip(remote: u16, local: u16)
    ensures
        exposed_port_spec(decimal_text(remote as nat).push(':') + decimal_text(local as nat))
            == Ok::<(u16, u16), Seq<char>>((remote, local)),
        exposed_port_spec(decimal_text(remote as nat)) == Ok::<(u16, u16), Seq<char>>((remote, remote)),
{
    let r = decimal_text(remote as nat);
    let l = decimal_text(local as nat);
    lemma_port_text(remote);
    lemma_port_text(local);
    let s = r.push(':') + l;
    let k = r.len() as int;
    assert(s[k] == ':');
    lemma_first_colon_facts(s);
    match first_colon(s) {
        Some(i) => {
            if i < k {
                assert(s[i] == r[i]);
            } else if i > k {
                assert(s[k] != ':');
            }
        },
        None => {
            assert(s[k] != ':');
        },
    }
    assert(s.take(k) =~= r);
    assert(s.skip(k + 1) =~= l);
}

/// A longer run of digits spells at least as much.
proof fn lemma_decimal_prefix(s: Seq<char>, k: int)
    requires
        0 <= k <= s.len(),
        all_digits(s),
    ensures
        decimal_value(s.take(k)) <= decimal_value(s),
    decreases s.len() - k,
{
    if k < s.len() {
        lemma_decimal_prefix(s, k + 1);
        let t = s.take(k + 1);
        assert(t.drop_last() =~= s.take(k));
        assert(t.last() == s[k]);
        assert(is_digit(s[k]));
        assert(decimal_value(t) == decimal_value(s.take(k)) * 10 + ((s[k] as int) - ('0' as int)) as nat);
    } else {
        assert(s.take(k) =~= s);
    }
}

/// The first `:` of `s.take(k + 1)`, from that of `s.take(k)`.
proof fn lemma_first_colon_step(s: Seq<char>, k: int)
    requires
        0 <= k < s.len(),
    ensures
        first_colon(s.take(k + 1)) == match first_colon(s.take(k)) {
            Some(i) => Some(i),
            None => if s[k] == ':' { Some(k) } else { None },
        },
{
    assert(s.take(k + 1).drop_last() =~= s.take(k));
}

/// Where the first `:` of a prefix is, so it is of the whole.
proof fn lemma_first_colon_prefix(s: Seq<char>, k: int)
    requires
        0 <= k <= s.len(),
        first_colon(s.take(k)) is Some,
    ensures
        first_colon(s) == first_colon(s.take(k)),
    decreases s.len() - k,
{
    if k < s.len() {
        lemma_first_colon_step(s, k);
        lemma_first_colon_prefix(s, k + 1);
    } else {
        assert(s.take(k) =~= s);
    }
}

/// The first `:` sits at position `i`.
proof fn lemma_first_colon_facts(s: Seq<char>)
    ensures
        match first_colon(s) {
            Some(i) => 0 <= i < s.len() && s[i] == ':' && forall|j: int| 0 <= j < i ==> s[j] != ':',
            None => forall|j: int| 0 <= j < s.len() ==> s[j] != ':',
        },
    decreases s.len(),
{
    if s.len() > 0 {
        let init = s.drop_last();
        lemma_first_colon_facts(init);
        match first_colon(init) {
            Some(i) => {
                assert(s[i] == init[i]);
                assert forall|j: int| 0 <= j < i implies s[j] != ':' by {
                    assert(s[j] == init[j]);
                }
            },
            None => {
                assert forall|j: int| 0 <= j < s.len() - 1 implies s[j] != ':' by {
                    assert(s[j] == init[j]);
                }
            },
        }
    }
}

/// `s[from..to]` read as a `u16` the way `str::parse` reads it.
fn parse_port(s: &str, from: usize, to: usize) -> (r: Option<u16>)
    requires
        from <= to <= s@.len(),
    ensures
        r == parse_u16_spec(s@.subrange(from as int, to as int)),
{
    let ghost text = s@.subrange(from as int, to as int);
    let mut start = from;
    if from < to && s.get_char(from) == '+' {
        start = from + 1;
    }
    let ghost digits = s@.subrange(start as int, to as int);
    proof {
        if from < to && s@[from as int] == '+' {
            assert(digits =~= text.drop_first());
        } else {
            assert(digits =~= text);
        }
    }
    if start == to {
        return None;
    }
    let mut value: u32 = 0;
    let mut i = start;
    while i < to
        invariant
            start <= i <= to <= s@.len(),
            digits == s@.subrange(start as int, to as int),
            digits == unsigned_digits(text),
            text == s@.subrange(from as int, to as int),
            all_digits(digits.take(i - start)),
            value as nat == decimal_value(digits.take(i - start)),
            value <= u16::MAX,
        decreases to - i,
    {
        let c = s.get_char(i);
        proof {
            assert(digits.take(i - start + 1).drop_last() =~= digits.take(i - start));
            assert(digits[i - start] == c);
        }
        if !('0' <= c && c <= '9') {
            proof {
                assert(!all_digits(digits));
            }
            return None;
        }
        let d = (c as u32) - ('0' as u32);
        value = value * 10 + d;
        proof {
            assert(all_digits(digits.take(i - start + 1)));
        }
        if value > 0xffff {
            proof {
                assert(digits.take(i - start + 1) =~= digits.take(i + 1 - start));
                if all_digits(digits) {
                    lemma_decimal_prefix(digits, i + 1 - start);
                }
            }
            return None;
        }
        i = i + 1;
    }
    proof {
        assert(digits.take(to - start) =~= digits);
    }
    Some(value as u16)
}

/// Parse a port argument: `remote:local`, or a single port used for both.
pub fn parse_exposed_port(s: &str) -> (r: Result<ExposedPort, String>)
    ensures
        match r {
            Ok(p) => exposed_port_spec(s@) == Ok::<(u16, u16), Seq<char>>((p.remote, p.local)),
            Err(e) => exposed_port_spec(s@) == Err::<(u16, u16), Seq<char>>(e@),
        },
{
    let n = s.unicode_len();
    let mut i: usize = 0;
    while i < n
        invariant
            n == s@.len(),
            i <= n,
            first_colon(s@.take(i as int)) is None,
        decreases n - i,
    {
        proof {
            lemma_first_colon_step(s@, i as int);
        }
        if s.get_char(i) == ':' {
            proof {
                lemma_first_colon_prefix(s@, i + 1);
                assert(s@.take(i as int) =~= s@.subrange(0, i as int));
                assert(s@.skip(i + 1) =~= s@.subrange(i + 1, n as int));
            }
            let remote = match parse_port(s, 0, i) {
                Some(p) => p,
                None => {
                    return Err(String::from_str("invalid remote port"));
                },
            };
            let local = match parse_port(s, i + 1, n) {
                Some(p) => p,
                None => {
                    return Err(String::from_str("invalid local port"));
                },
            };
            return Ok(ExposedPort { remote, local });
        }
        i = i + 1;
    }
    proof {
        assert(s@.take(n as int) =~= s@);
        assert(s@.subrange(0, n as int) =~= s@);
    }
    match parse_port(s, 0, n) {
        Some(port) => Ok(ExposedPort { remote: port, local: port }),
        None => Err(String::from_str("invalid port")),
    }
}

} // verus!
