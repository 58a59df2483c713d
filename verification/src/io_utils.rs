//! Utilities to read whitespace-separated numbers out of a line of text.

use vstd::prelude::*;

verus! {

/// The decimal digits of `n`, least significant first.
pub open spec fn dec_digits(n: nat) -> Seq<u8>
    decreases n,
{
    if n < 10 {
        seq![(48 + n) as u8]
    } else {
        seq![(48 + n % 10) as u8] + dec_digits(n / 10)
    }
}

/// The decimal notation of `n`: its digits, most significant first.
pub open spec fn dec_rep(n: nat) -> Seq<u8> {
    dec_digits(n).reverse()
}

/// Appends the decimal notation of `n` to `out`.
pub(crate) fn push_u64_decimal(out: &mut Vec<u8>, n: u64)
    ensures
        final(out)@ == old(out)@ + dec_rep(n as nat),
{
    let mut digits: Vec<u8> = Vec::new();
    digits.push((n % 10) as u8 + 48);
    let mut m: u64 = n / 10;
    proof {
        if n >= 10 {
            assert(dec_digits(n as nat) == seq![(48 + n as nat % 10) as u8] + dec_digits(
                n as nat / 10,
            ));
            assert(digits@ =~= seq![(48 + n as nat % 10) as u8]);
        } else {
            assert(digits@ =~= dec_digits(n as nat));
        }
    }
    while m > 0
        invariant
            m > 0 ==> dec_digits(n as nat) == digits@ + dec_digits(m as nat),
            m == 0 ==> dec_digits(n as nat) == digits@,
        decreases m,
    {
        let ghost digits_old = digits@;
        digits.push((m % 10) as u8 + 48);
        proof {
            if m >= 10 {
                assert(dec_digits(m as nat) == seq![(48 + m as nat % 10) as u8] + dec_digits(
                    m as nat / 10,
                ));
                assert(digits@ + dec_digits(m as nat / 10) =~= digits_old + dec_digits(m as nat));
            } else {
                assert(dec_digits(m as nat) =~= seq![(48 + m as nat % 10) as u8]);
                assert(digits@ =~= digits_old + dec_digits(m as nat));
            }
        }
        m = m / 10;
    }
    let k = digits.len();
    let ghost out_old = out@;
    let mut t: usize = 0;
    while t < k
        invariant
            k == digits@.len(),
            dec_digits(n as nat) == digits@,
            t <= k,
            out@ == out_old + dec_rep(n as nat).subrange(0, t as int),
        decreases k - t,
    {
        let ghost prefix = out@;
        out.push(digits[k - 1 - t]);
        proof {
            assert(dec_rep(n as nat)[t as int] == digits@[k - 1 - t]);
            assert(out@ =~= out_old + dec_rep(n as nat).subrange(0, t + 1));
        }
        t = t + 1;
    }
    proof {
        assert(dec_rep(n as nat).subrange(0, k as int) =~= dec_rep(n as nat));
        assert(final(out)@ =~= old(out)@ + dec_rep(n as nat));
    }
}

/// Why a value could not be read.
#[derive(Debug, Clone, Copy, PartialEq, Eq, Structural)]
pub enum ParseError {
    /// Not enough values found when reading a line.
    MissingValue,
    /// The token holds something other than a decimal digit.
    InvalidDigit,
    /// The value does not fit the value type.
    Overflow,
}

/// Whether `b` is an ASCII whitespace byte: space, tab, line feed or
/// carriage return.
pub open spec fn is_ws(b: u8) -> bool {
    b == 32 || b == 9 || b == 10 || b == 13
}

/// Whether `b` is an ASCII decimal digit.
pub open spec fn is_digit(b: u8) -> bool {
    48 <= b <= 57
}

/// The first position at or after `i` that does not hold whitespace; the
/// length when only whitespace is left.
pub open spec fn skip_ws(s: Seq<u8>, i: int) -> int
    decreases s.len() - i,
{
    if i < 0 || i >= s.len() {
        s.len() as int
    } else if is_ws(s[i]) {
        skip_ws(s, i + 1)
    } else {
        i
    }
}

/// The first position at or after `i` that holds whitespace; the length
/// when none is left.
pub open spec fn token_end(s: Seq<u8>, i: int) -> int
    decreases s.len() - i,
{
    if i < 0 || i >= s.len() {
        s.len() as int
    } else if is_ws(s[i]) {
        i
    } else {
        token_end(s, i + 1)
    }
}

/// Reads the token `t` from position `i` on, with the value read so far in
/// `acc`: the value of the whole token, or the first fault met going left
/// to right, as a decimal reader reports it.
pub open spec fn parse_from(t: Seq<u8>, i: int, acc: nat) -> Result<u64, ParseError>
    decreases t.len() - i,
{
    if i < 0 || i >= t.len() {
        Ok(acc as u64)
    } else if !is_digit(t[i]) {
        Err(ParseError::InvalidDigit)
    } else if acc * 10 + (t[i] - 48) > u64::MAX {
        Err(ParseError::Overflow)
    } else {
        parse_from(t, i + 1, acc * 10 + (t[i] - 48) as nat)
    }
}

/// The end of a token comes at or after its start, and within the text.
proof fn lemma_token_end_bounds(s: Seq<u8>, i: int)
    requires
        0 <= i <= s.len(),
    ensures
        i <= token_end(s, i) <= s.len(),
    decreases s.len() - i,
{
    if i < s.len() && !is_ws(s[i]) {
        lemma_token_end_bounds(s, i + 1);
    }
}

/// The reading of the whole token `t`.
pub open spec fn parse_token(t: Seq<u8>) -> Result<u64, ParseError> {
    parse_from(t, 0, 0)
}

/// Tries to read the next whitespace-separated decimal value of `s`,
/// starting at `pos`. On success, returns the value and the position right
/// after the token.
#[verifier::loop_isolation(false)]
pub fn parse_next(s: &Vec<u8>, pos: usize) -> (r: Result<(u64, usize), ParseError>)
    requires
        pos <= s@.len(),
    ensures
        ({
            let a = skip_ws(s@, pos as int);
            let b = token_end(s@, a);
            if a == s@.len() {
                r == Result::<(u64, usize), ParseError>::Err(ParseError::MissingValue)
            } else {
                match parse_token(s@.subrange(a, b)) {
                    Ok(v) => r == Result::<(u64, usize), ParseError>::Ok((v, b as usize)),
                    Err(e) => r == Result::<(u64, usize), ParseError>::Err(e),
                }
            }
        }),
{
    let n = s.len();
    let mut a: usize = pos;
    while a < n && (s[a] == 32 || s[a] == 9 || s[a] == 10 || s[a] == 13)
        invariant
            pos <= a <= n,
            skip_ws(s@, pos as int) == skip_ws(s@, a as int),
        decreases n - a,
    {
        a = a + 1;
    }
    if a == n {
        return Err(ParseError::MissingValue);
    }
    let ghost tok_start = a as int;
    let ghost tok_last = token_end(s@, tok_start);
    proof {
        lemma_token_end_bounds(s@, tok_start);
    }
    let mut b: usize = a;
    let mut acc: u64 = 0;
    let mut fault: Option<ParseError> = None;
    while b < n && !(s[b] == 32 || s[b] == 9 || s[b] == 10 || s[b] == 13)
        invariant
            tok_start <= b <= n,
            tok_last == token_end(s@, b as int),
            tok_last == token_end(s@, tok_start),
            tok_start <= tok_last <= n,
            ({
                let t = s@.subrange(tok_start, tok_last);
                match fault {
                    None => parse_from(t, 0, 0) == parse_from(t, b - tok_start, acc as nat),
                    Some(e) => parse_from(t, 0, 0) == Result::<u64, ParseError>::Err(e),
                }
            }),
        decreases n - b,
    {
        let ghost t = s@.subrange(tok_start, tok_last);
        proof {
            lemma_token_end_bounds(s@, b as int);
            assert(b < tok_last) by {
                lemma_token_end_bounds(s@, b + 1);
            }
            assert(t[b - tok_start] == s@[b as int]);
        }
        let c = s[b];
        if fault.is_none() {
            if !(48 <= c && c <= 57) {
                fault = Some(ParseError::InvalidDigit);
            } else {
                let d = c - 48;
                if acc > u64::MAX / 10 || (acc == u64::MAX / 10 && d as u64 > u64::MAX % 10) {
                    proof {
                        assert(u64::MAX as nat == 10 * (u64::MAX as nat / 10) + u64::MAX as nat
                            % 10);
                        assert(acc as nat * 10 + (t[b - tok_start] - 48) > u64::MAX);
                    }
                    fault = Some(ParseError::Overflow);
                } else {
                    proof {
                        assert(u64::MAX as nat == 10 * (u64::MAX as nat / 10) + u64::MAX as nat
                            % 10);
                        assert(acc as nat * 10 + d as nat <= u64::MAX);
                    }
                    acc = acc * 10 + d as u64;
                }
            }
        }
        b = b + 1;
    }
    proof {
        assert(b == tok_last);
    }
    match fault {
        Some(e) => Err(e),
        None => Ok((acc, b)),
    }
}

/// Skipping whitespace stays within the text and stops on the first byte
/// that is not whitespace.
proof fn lemma_skip_ws_props(s: Seq<u8>, i: int)
    requires
        0 <= i <= s.len(),
    ensures
        i <= skip_ws(s, i) <= s.len(),
        skip_ws(s, i) == s.len() || !is_ws(s[skip_ws(s, i)]),
    decreases s.len() - i,
{
    if i < s.len() && is_ws(s[i]) {
        lemma_skip_ws_props(s, i + 1);
    }
}

/// Reading a token reports a missing digit or an overflow, never a missing
/// value.
proof fn lemma_parse_from_no_missing(t: Seq<u8>, i: int, acc: nat)
    ensures
        parse_from(t, i, acc) != Result::<u64, ParseError>::Err(ParseError::MissingValue),
    decreases t.len() - i,
{
    if 0 <= i < t.len() && is_digit(t[i]) && acc * 10 + (t[i] - 48) <= u64::MAX {
        lemma_parse_from_no_missing(t, i + 1, (acc * 10 + (t[i] - 48)) as nat);
    }
}

/// All the whitespace-separated decimal values of `s` from `pos` on, or the
/// first fault met reading them left to right.
pub open spec fn read_values(s: Seq<u8>, pos: int) -> Result<Seq<u64>, ParseError>
    decreases s.len() - pos
        when 0 <= pos <= s.len()
        via read_values_decreases
{
    let a = skip_ws(s, pos);
    if a >= s.len() {
        Ok(Seq::empty())
    } else {
        let b = token_end(s, a);
        match parse_token(s.subrange(a, b)) {
            Err(e) => Err(e),
            Ok(v) => match read_values(s, b) {
                Err(e) => Err(e),
                Ok(rest) => Ok(seq![v] + rest),
            },
        }
    }
}

#[via_fn]
proof fn read_values_decreases(s: Seq<u8>, pos: int) {
    lemma_skip_ws_props(s, pos);
    let a = skip_ws(s, pos);
    if a < s.len() {
        lemma_token_end_bounds(s, a + 1);
    }
}

/// Reads all the whitespace-separated decimal values of `s`.
#[verifier::rlimit(60)]
#[verifier::spinoff_prover]
pub fn read_u64_values(s: &Vec<u8>) -> (r: Result<Vec<u64>, ParseError>)
    ensures
        match read_values(s@, 0) {
            Ok(vals) => r is Ok && r.unwrap()@ == vals,
            Err(e) => r == Result::<Vec<u64>, ParseError>::Err(e),
        },
{
    let n = s.len();
    let mut pos: usize = 0;
    let mut values: Vec<u64> = Vec::new();
    loop
        invariant_except_break
            pos <= n,
            n == s@.len(),
            ({
                match read_values(s@, pos as int) {
                    Ok(rest) => read_values(s@, 0) == Result::<Seq<u64>, ParseError>::Ok(
                        values@ + rest,
                    ),
                    Err(e) => read_values(s@, 0) == Result::<Seq<u64>, ParseError>::Err(e),
                }
            }),
        ensures
            read_values(s@, 0) == Result::<Seq<u64>, ParseError>::Ok(values@),
        decreases n - pos,
    {
        let ghost a = skip_ws(s@, pos as int);
        let ghost b = token_end(s@, a);
        proof {
            lemma_skip_ws_props(s@, pos as int);
            if a < s@.len() {
                lemma_token_end_bounds(s@, a + 1);
            }
        }
        match parse_next(s, pos) {
            Err(ParseError::MissingValue) => {
                proof {
                    lemma_parse_from_no_missing(s@.subrange(a, b), 0, 0);
                    assert(a == s@.len());
                    assert(read_values(s@, pos as int) == Result::<Seq<u64>, ParseError>::Ok(
                        Seq::empty(),
                    ));
                    assert(values@ + Seq::<u64>::empty() =~= values@);
                }
                break ;
            },
            Err(e) => {
                return Err(e);
            },
            Ok((v, next_pos)) => {
                let ghost values_old = values@;
                values.push(v);
                proof {
                    match read_values(s@, b) {
                        Ok(rest2) => {
                            assert(read_values(s@, pos as int) == Result::<
                                Seq<u64>,
                                ParseError,
                            >::Ok(seq![v] + rest2));
                            assert(values_old + (seq![v] + rest2) =~= values@ + rest2);
                        },
                        Err(e2) => {
                            assert(read_values(s@, pos as int) == Result::<
                                Seq<u64>,
                                ParseError,
                            >::Err(e2));
                        },
                    }
                }
                pos = next_pos;
            },
        }
    }
    Ok(values)
}

} // verus!
