//! Strings: what the standard library's growing operations do, stated where
//! vstd does not state it, and numbers written out in decimal.
use vstd::prelude::*;
use vstd::std_specs::iter::IteratorSpec;

verus! {

/// `String::push` appends one character to the end of the string; the
/// standard library documents exactly that.
pub assume_specification[ std::string::String::push ](s: &mut std::string::String, ch: char)
    ensures
        final(s)@ == old(s)@.push(ch),
;

/// `String::push_str` appends the given string slice to the end of the
/// string; the standard library documents exactly that.
pub assume_specification[ std::string::String::push_str ](s: &mut std::string::String, string: &str)
    ensures
        final(s)@ == old(s)@ + string@,
;

/// The decimal digit for `d`.
pub open spec fn digit_char(d: int) -> char {
    if d == 0 {
        '0'
    } else if d == 1 {
        '1'
    } else if d == 2 {
        '2'
    } else if d == 3 {
        '3'
    } else if d == 4 {
        '4'
    } else if d == 5 {
        '5'
    } else if d == 6 {
        '6'
    } else if d == 7 {
        '7'
    } else if d == 8 {
        '8'
    } else {
        '9'
    }
}

/// The digits of a natural number, most significant first, with no leading
/// zeros.
pub open spec fn digits(m: nat) -> Seq<char>
    decreases m,
{
    if m < 10 {
        seq![digit_char(m as int)]
    } else {
        digits(m / 10).push(digit_char((m % 10) as int))
    }
}

/// An integer as Rust's `Display` writes it: a minus sign when negative,
/// then its digits.
pub open spec fn decimal_text(n: int) -> Seq<char> {
    if n < 0 {
        seq!['-'] + digits((-n) as nat)
    } else {
        digits(n as nat)
    }
}

fn digit_of(d: i64) -> (c: char)
    requires
        0 <= d < 10,
    ensures
        c == digit_char(d as int),
{
    if d == 0 {
        '0'
    } else if d == 1 {
        '1'
    } else if d == 2 {
        '2'
    } else if d == 3 {
        '3'
    } else if d == 4 {
        '4'
    } else if d == 5 {
        '5'
    } else if d == 6 {
        '6'
    } else if d == 7 {
        '7'
    } else if d == 8 {
        '8'
    } else {
        '9'
    }
}

/// `n` written in decimal.
pub fn decimal(n: i64) -> (r: String)
    requires
        n > i64::MIN,
    ensures
        r@ == decimal_text(n as int),
{
    let mut out = String::new();
    let mut m: i64 = if n < 0 {
        out.push('-');
        -n
    } else {
        n
    };
    let ghost lead = out@;
    let ghost orig = m as nat;
    // The low digits, least significant first.
    let mut low: Vec<char> = Vec::new();
    let ghost mut acc: Seq<char> = Seq::empty();
    while m >= 10
        invariant
            m >= 0,
            digits(orig) == digits(m as nat) + acc,
            low@ == acc.reverse(),
        decreases m,
    {
        let d = m % 10;
        let c = digit_of(d);
        low.push(c);
        proof {
            assert(digits(m as nat) == digits((m / 10) as nat).push(c));
            assert(digits((m / 10) as nat) + (seq![c] + acc) =~= digits((m / 10) as nat).push(c)
                + acc);
            acc = seq![c] + acc;
            assert(low@ =~= acc.reverse());
        }
        m = m / 10;
    }
    out.push(digit_of(m));
    let mut i = low.len();
    while i > 0
        invariant
            i <= low@.len(),
            low@ == acc.reverse(),
            out@ == lead + seq![digit_char(m as int)] + acc.subrange(0, acc.len() - i),
        decreases i,
    {
        i = i - 1;
        out.push(low[i]);
        proof {
            assert(acc.subrange(0, acc.len() - i) =~= acc.subrange(0, acc.len() - i - 1).push(
                low@[i as int],
            ));
        }
    }
    proof {
        assert(acc.subrange(0, acc.len() as int) =~= acc);
        assert(digits(m as nat) =~= seq![digit_char(m as int)]);
        if n < 0 {
            assert(lead =~= seq!['-']);
        } else {
            assert(lead =~= Seq::<char>::empty());
        }
        assert(out@ =~= decimal_text(n as int));
    }
    out
}


/// How `{:?}` writes a string: quoted, with quotes, backslashes and
/// non-printing characters escaped.
pub uninterp spec fn debug_quoted(s: Seq<char>) -> Seq<char>;

/// Writes `s` the way `{:?}` does. Rust's `Debug` for `str` depends only on
/// the string, so the result is a function of it; its rules of escaping are
/// not restated here.
#[verifier::external_body]
pub(crate) fn debug_str(s: &str) -> (r: String)
    ensures
        r@ == debug_quoted(s@),
{
    format!("{:?}", s)
}

/// The first character of `s` and everything after it.
pub fn split_first_char(s: &str) -> (r: Option<(char, String)>)
    ensures
        s@.len() == 0 ==> r is None,
        s@.len() > 0 ==> (r matches Some((c, rest)) && c == s@[0] && rest@ == s@.skip(1)),
{
    broadcast use vstd::string::group_string_axioms;

    let mut it = s.chars();
    let first = match it.next() {
        Some(c) => c,
        None => {
            return None;
        },
    };
    let ghost all = s@;
    assert(all.skip(1) =~= all.drop_first());
    let mut rest = String::new();
    let ghost mut n: int = 1;
    loop
        invariant
            all == s@,
            1 <= n <= all.len(),
            it.remaining() == all.skip(n),
            rest@ == all.subrange(1, n),
        ensures
            rest@ == all.skip(1),
        decreases all.len() - n,
    {
        match it.next() {
            Some(c) => {
                assert(all.skip(n)[0] == all[n]);
                assert(all.skip(n).drop_first() =~= all.skip(n + 1));
                rest.push(c);
                proof {
                    assert(rest@ =~= all.subrange(1, n + 1));
                    n = n + 1;
                }
            },
            None => {
                assert(all.skip(n).len() == 0);
                assert(rest@ =~= all.skip(1));
                break;
            },
        }
    }
    Some((first, rest))
}


/// Whether two strings hold the same characters.
pub fn same_text(a: &str, b: &str) -> (r: bool)
    ensures
        r == (a@ == b@),
{
    broadcast use vstd::string::group_string_axioms;

    let ghost sa = a@;
    let ghost sb = b@;
    let mut ia = a.chars();
    let mut ib = b.chars();
    let ghost mut n: int = 0;
    loop
        invariant
            sa == a@,
            sb == b@,
            0 <= n <= sa.len(),
            n <= sb.len(),
            ia.remaining() == sa.skip(n),
            ib.remaining() == sb.skip(n),
            sa.take(n) == sb.take(n),
        decreases sa.len() - n,
    {
        let x = ia.next();
        let y = ib.next();
        match (x, y) {
            (Some(c), Some(d)) => {
                assert(sa.skip(n)[0] == sa[n]);
                assert(sb.skip(n)[0] == sb[n]);
                if c != d {
                    assert(sa[n] != sb[n]);
                    return false;
                }
                proof {
                    assert(sa.skip(n).drop_first() =~= sa.skip(n + 1));
                    assert(sb.skip(n).drop_first() =~= sb.skip(n + 1));
                    assert(sa.take(n + 1) =~= sa.take(n).push(sa[n]));
                    assert(sb.take(n + 1) =~= sb.take(n).push(sb[n]));
                    n = n + 1;
                }
            },
            (None, None) => {
                assert(sa.take(n) =~= sa);
                assert(sb.take(n) =~= sb);
                return true;
            },
            _ => {
                assert(sa.len() != sb.len());
                return false;
            },
        }
    }
}

} // verus!
