//! The JSON wire encoding of state values: a verified serializer and parser
//! for the payload strings that travel inside update envelopes.

use vstd::prelude::*;

use crate::model::{InternalModel, InternalState, Kind, StateValue, ValModel};
use crate::model::{in_i64_range, kind_of, storable};
use vstd::string::StrSliceExecFns;

verus! {

/// A decimal digit.
pub open spec fn is_digit(c: char) -> bool {
    0x30 <= c as u32 && c as u32 <= 0x39
}

/// The numeric value of a decimal digit.
pub open spec fn digit_val(c: char) -> nat {
    (c as u32 - 0x30) as nat
}

/// The digit character for a value below ten.
pub open spec fn digit_char(n: nat) -> char {
    if n == 0 { '0' }
    else if n == 1 { '1' }
    else if n == 2 { '2' }
    else if n == 3 { '3' }
    else if n == 4 { '4' }
    else if n == 5 { '5' }
    else if n == 6 { '6' }
    else if n == 7 { '7' }
    else if n == 8 { '8' }
    else { '9' }
}

/// Decimal rendering of a natural number, most significant digit first.
pub open spec fn dec_digits(n: nat) -> Seq<char>
    decreases n,
{
    if n < 10 {
        seq![digit_char(n)]
    } else {
        dec_digits(n / 10) + seq![digit_char(n % 10)]
    }
}

/// The value of a digit string, most significant digit first.
pub open spec fn dec_val(s: Seq<char>) -> nat
    decreases s.len(),
{
    if s.len() == 0 {
        0
    } else {
        dec_val(s.drop_last()) * 10 + digit_val(s.last())
    }
}

/// Ten to the power `n`.
pub open spec fn pow10(n: nat) -> nat
    decreases n,
{
    if n == 0 {
        1
    } else {
        10 * pow10((n - 1) as nat)
    }
}

/// The wire rendering of an integer: an optional minus sign and decimal
/// digits with no leading zero.
pub open spec fn spec_int_str(i: int) -> Seq<char> {
    if i < 0 {
        seq!['-'] + dec_digits((-i) as nat)
    } else {
        dec_digits(i as nat)
    }
}

/// Every character is a decimal digit.
pub open spec fn all_digits(s: Seq<char>) -> bool {
    forall|k: int| 0 <= k < s.len() ==> is_digit(#[trigger] s[k])
}

/// A digit string the integer parser accepts: nonempty, digits only, and no
/// leading zero unless the string is exactly "0".
pub open spec fn valid_dec(s: Seq<char>) -> bool {
    s.len() > 0 && all_digits(s) && (s[0] != '0' || s.len() == 1)
}

/// What parsing a payload as an integer gives: the signed decimal value if
/// the whole string is a well-formed decimal that fits an `i64`, nothing
/// otherwise ("-0" is not accepted; the encoder never produces it).
pub open spec fn spec_parse_int(s: Seq<char>) -> Option<i64> {
    if s.len() > 0 && s[0] == '-' {
        let t = s.drop_first();
        if valid_dec(t) && 1 <= dec_val(t) && dec_val(t) <= 0x8000_0000_0000_0000 {
            Some((0 - dec_val(t) as int) as i64)
        } else {
            None
        }
    } else {
        if valid_dec(s) && dec_val(s) <= i64::MAX {
            Some(dec_val(s) as i64)
        } else {
            None
        }
    }
}

proof fn lemma_dec_digits_props(n: nat)
    ensures
        dec_digits(n).len() >= 1,
        all_digits(dec_digits(n)),
        dec_digits(n)[0] == '0' ==> n == 0,
        (n < 10) == (dec_digits(n).len() == 1),
    decreases n,
{
    if n < 10 {
        assert(dec_digits(n) == seq![digit_char(n)]);
    } else {
        lemma_dec_digits_props(n / 10);
        let a = dec_digits(n / 10);
        let s = a + seq![digit_char((n % 10) as nat)];
        assert(s[0] == a[0]);
        assert forall|k: int| 0 <= k < s.len() implies is_digit(#[trigger] s[k]) by {
            if k < a.len() {
                assert(s[k] == a[k]);
            } else {
                assert(s[k] == digit_char((n % 10) as nat));
            }
        }
    }
}

proof fn lemma_dec_val_of_dec_digits(n: nat)
    ensures
        dec_val(dec_digits(n)) == n,
    decreases n,
{
    if n < 10 {
        let s = seq![digit_char(n)];
        reveal_with_fuel(dec_val, 2);
        assert(s.drop_last() =~= Seq::<char>::empty());
        assert(s.last() == digit_char(n));
        assert(dec_val(s) == digit_val(digit_char(n)));
    } else {
        lemma_dec_val_of_dec_digits(n / 10);
        let a = dec_digits(n / 10);
        let s = a + seq![digit_char((n % 10) as nat)];
        assert(s.drop_last() =~= a);
        assert(s.last() == digit_char((n % 10) as nat));
        assert(digit_val(digit_char((n % 10) as nat)) == n % 10);
        assert(dec_val(s) == (n / 10) * 10 + n % 10);
    }
}

proof fn lemma_dec_val_upper(s: Seq<char>)
    requires
        all_digits(s),
    ensures
        dec_val(s) < pow10(s.len()),
    decreases s.len(),
{
    if s.len() == 0 {
    } else {
        let a = s.drop_last();
        assert(all_digits(a)) by {
            assert forall|k: int| 0 <= k < a.len() implies is_digit(#[trigger] a[k]) by {
                assert(a[k] == s[k]);
            }
        }
        lemma_dec_val_upper(a);
        assert(is_digit(s.last()));
        assert(digit_val(s.last()) <= 9);
        assert(pow10(s.len()) == 10 * pow10((s.len() - 1) as nat));
    }
}

proof fn lemma_nonzero_digit(c: char)
    requires
        is_digit(c),
        c != '0',
    ensures
        digit_val(c) >= 1,
{
    assert('0' as u32 == 0x30);
}

proof fn lemma_dec_val_lower(s: Seq<char>)
    requires
        all_digits(s),
        s.len() > 0,
        s[0] != '0',
    ensures
        dec_val(s) >= pow10((s.len() - 1) as nat),
    decreases s.len(),
{
    if s.len() == 1 {
        assert(s.last() == s[0]);
        assert(is_digit(s[0]));
        lemma_nonzero_digit(s[0]);
        reveal_with_fuel(dec_val, 2);
    } else {
        let a = s.drop_last();
        assert(all_digits(a)) by {
            assert forall|k: int| 0 <= k < a.len() implies is_digit(#[trigger] a[k]) by {
                assert(a[k] == s[k]);
            }
        }
        assert(a[0] == s[0]);
        lemma_dec_val_lower(a);
        assert(pow10((s.len() - 1) as nat) == 10 * pow10((s.len() - 2) as nat));
    }
}

/// Parsing inverts encoding for every integer the store can hold: the
/// round-trip law for the integer wire format.
pub proof fn lemma_parse_int_round(i: i64)
    ensures
        spec_parse_int(spec_int_str(i as int)) == Some(i),
{
    if i >= 0 {
        let s = dec_digits(i as nat);
        lemma_dec_digits_props(i as nat);
        lemma_dec_val_of_dec_digits(i as nat);
        assert(is_digit(s[0]));
        assert(s[0] != '-');
        assert(valid_dec(s));
    } else {
        let m = (-(i as int)) as nat;
        let d = dec_digits(m);
        let s = seq!['-'] + d;
        lemma_dec_digits_props(m);
        lemma_dec_val_of_dec_digits(m);
        assert(s[0] == '-');
        assert(s.drop_first() =~= d);
        assert(m >= 1);
        assert(d[0] == '0' ==> m == 0);
        assert(valid_dec(d));
        assert(m <= 0x8000_0000_0000_0000);
        assert((0 - dec_val(d) as int) as i64 == i);
    }
}

/// The digit character for a small value.
fn digit_exec(n: u64) -> (c: char)
    requires
        n < 10,
    ensures
        c == digit_char(n as nat),
{
    if n == 0 { '0' }
    else if n == 1 { '1' }
    else if n == 2 { '2' }
    else if n == 3 { '3' }
    else if n == 4 { '4' }
    else if n == 5 { '5' }
    else if n == 6 { '6' }
    else if n == 7 { '7' }
    else if n == 8 { '8' }
    else { '9' }
}

/// Appends the decimal digits of `n`.
fn push_dec(n: u64, out: &mut Vec<char>)
    ensures
        final(out)@ == old(out)@ + dec_digits(n as nat),
    decreases n,
{
    if n < 10 {
        out.push(digit_exec(n));
        assert(out@ =~= old(out)@ + dec_digits(n as nat));
    } else {
        push_dec(n / 10, out);
        out.push(digit_exec(n % 10));
        assert(out@ =~= old(out)@ + dec_digits(n as nat));
    }
}

/// Appends the wire rendering of a signed integer.
fn push_int(i: i64, out: &mut Vec<char>)
    ensures
        final(out)@ == old(out)@ + spec_int_str(i as int),
{
    if i >= 0 {
        push_dec(i as u64, out);
    } else {
        out.push('-');
        let m: u64 = ((-(i + 1)) as u64) + 1;
        proof {
            assert(m as nat == (-(i as int)) as nat);
        }
        push_dec(m, out);
        assert(out@ =~= old(out)@ + spec_int_str(i as int));
    }
}

proof fn lemma_pow10_concrete()
    ensures
        pow10(18nat) == 1_000_000_000_000_000_000,
        pow10(19nat) == 10_000_000_000_000_000_000,
{
    reveal_with_fuel(pow10, 20);
}

/// Parses a whole character sequence as a signed decimal integer.
#[verifier::rlimit(50)]
fn parse_int_chars(v: &Vec<char>) -> (r: Option<i64>)
    ensures
        r == spec_parse_int(v@),
{
    let n = v.len();
    if n == 0 {
        return None;
    }
    let neg = v[0] == '-';
    let start: usize = if neg { 1 } else { 0 };
    if start >= n {
        return None;
    }
    let ghost t: Seq<char> = if neg { v@.drop_first() } else { v@ };
    proof {
        assert(t =~= v@.subrange(start as int, n as int));
    }
    if v[start] == '0' && n - start > 1 {
        return None;
    }
    let mut acc: u64 = 0;
    let mut j = start;
    proof {
        assert(v@.subrange(start as int, start as int) =~= Seq::<char>::empty());
    }
    while j < n
        invariant
            start <= j <= n,
            n == v@.len(),
            start < n,
            neg == (v@[0] == '-'),
            start == if neg { 1int } else { 0int },
            v@[start as int] != '0' || n - start == 1,
            t == v@.subrange(start as int, n as int),
            all_digits(v@.subrange(start as int, j as int)),
            acc == dec_val(v@.subrange(start as int, j as int)),
            acc < pow10((j - start) as nat),
            j - start <= 19,
        decreases n - j,
    {
        let c = v[j];
        let d = c as u32;
        if d < 0x30 || d > 0x39 {
            proof {
                assert(t[j - start] == v@[j as int]);
                assert(!is_digit(t[j - start]));
                assert(!all_digits(t));
                assert(!valid_dec(t));
            }
            return None;
        }
        if j - start == 19 {
            // At least twenty digits: the value cannot fit, whatever follows.
            proof {
                let p = v@.subrange(start as int, (j + 1) as int);
                assert(p.drop_last() =~= v@.subrange(start as int, j as int));
                assert(p.last() == v@[j as int]);
                assert(is_digit(v@[j as int]));
                assert forall|k: int| 0 <= k < p.len() implies is_digit(#[trigger] p[k]) by {
                    if k < p.len() - 1 {
                        assert(p[k] == v@.subrange(start as int, j as int)[k]);
                    }
                }
                assert(t[0] == v@[start as int]);
                assert(t.subrange(0, (j + 1 - start) as int) =~= p);
                assert(t.len() == n - start >= 20);
                lemma_reject_long_digits(t, (j + 1 - start) as nat);
                if neg {
                    assert(t =~= v@.drop_first());
                } else {
                    assert(t =~= v@);
                }
            }
            return None;
        }
        proof {
            let p = v@.subrange(start as int, (j + 1) as int);
            assert(p.drop_last() =~= v@.subrange(start as int, j as int));
            assert(p.last() == v@[j as int]);
            assert(digit_val(v@[j as int]) == (d - 0x30) as nat);
            assert forall|k: int| 0 <= k < p.len() implies is_digit(#[trigger] p[k]) by {
                if k < p.len() - 1 {
                    assert(p[k] == v@.subrange(start as int, j as int)[k]);
                }
            }
            lemma_pow10_concrete();
            lemma_pow10_mono((j - start) as nat, 18nat);
            assert(pow10(((j + 1) - start) as nat) == 10 * pow10((j - start) as nat));
        }
        acc = acc * 10 + (d - 0x30) as u64;
        j = j + 1;
    }
    proof {
        assert(v@.subrange(start as int, j as int) =~= t);
        assert(t.len() > 0);
        assert(t[0] == v@[start as int]);
        assert(valid_dec(t));
        lemma_pow10_mono((n - start) as nat, 19nat);
        lemma_pow10_concrete();
        if neg {
            assert(t =~= v@.drop_first());
        }
    }
    if neg {
        if acc == 0 {
            return None;
        }
        if acc > 0x8000_0000_0000_0000 {
            return None;
        }
        if acc == 0x8000_0000_0000_0000 {
            return Some(i64::MIN);
        }
        return Some(-(acc as i64));
    } else {
        if acc > 0x7FFF_FFFF_FFFF_FFFF {
            return None;
        }
        return Some(acc as i64);
    }
}

proof fn lemma_pow10_mono(a: nat, b: nat)
    requires
        a <= b,
    ensures
        pow10(a) <= pow10(b),
    decreases b,
{
    if a < b {
        lemma_pow10_mono(a, (b - 1) as nat);
        assert(pow10(b) == 10 * pow10((b - 1) as nat));
    }
}

/// A digit string of twenty or more characters parses to nothing: its value,
/// if it is well formed at all, is too large for the store.
proof fn lemma_reject_long_digits(t: Seq<char>, seen: nat)
    requires
        seen >= 20,
        t.len() >= seen,
        all_digits(t.subrange(0, seen as int)),
        t[0] != '0' || t.len() == 1,
    ensures
        valid_dec(t) ==> dec_val(t) > 0x8000_0000_0000_0000,
{
    if valid_dec(t) {
        lemma_dec_val_lower(t);
        lemma_pow10_mono(19nat, (t.len() - 1) as nat);
        lemma_pow10_concrete();
    }
}

/// A hexadecimal digit.
pub open spec fn is_hex(c: char) -> bool {
    (0x30 <= c as u32 && c as u32 <= 0x39) || (0x61 <= c as u32 && c as u32 <= 0x66) || (0x41
        <= c as u32 && c as u32 <= 0x46)
}

/// The numeric value of a hexadecimal digit.
pub open spec fn hex_val(c: char) -> nat {
    if 0x30 <= c as u32 && c as u32 <= 0x39 {
        (c as u32 - 0x30) as nat
    } else if 0x61 <= c as u32 && c as u32 <= 0x66 {
        (c as u32 - 0x61 + 10) as nat
    } else {
        (c as u32 - 0x41 + 10) as nat
    }
}

/// The lower-case hex digit character for a value below sixteen.
pub open spec fn hex_char(n: nat) -> char {
    if n < 10 {
        digit_char(n)
    } else if n == 10 {
        'a'
    } else if n == 11 {
        'b'
    } else if n == 12 {
        'c'
    } else if n == 13 {
        'd'
    } else if n == 14 {
        'e'
    } else {
        'f'
    }
}

/// The wire form of one character inside a quoted string: quotes and
/// backslashes get a two-character escape, control characters a `\u00XX`
/// escape, and every other character stands as itself.
pub open spec fn escape_char(c: char) -> Seq<char> {
    if c == '"' {
        seq!['\\', '"']
    } else if c == '\\' {
        seq!['\\', '\\']
    } else if (c as u32) < 0x20 {
        seq!['\\', 'u', '0', '0', hex_char((c as u32 / 16) as nat), hex_char((c as u32 % 16) as nat)]
    } else {
        seq![c]
    }
}

/// The wire form of a string's characters, escaped, without the quotes.
pub open spec fn escape_str(s: Seq<char>) -> Seq<char>
    decreases s.len(),
{
    if s.len() == 0 {
        Seq::empty()
    } else {
        escape_str(s.drop_last()) + escape_char(s.last())
    }
}

/// The character a short escape stands for, if the character after the
/// backslash is one of the eight short escapes.
pub open spec fn short_escape(e: char) -> Option<char> {
    if e == '"' {
        Some('"')
    } else if e == '\\' {
        Some('\\')
    } else if e == '/' {
        Some('/')
    } else if e == 'n' {
        Some('\n')
    } else if e == 'r' {
        Some('\r')
    } else if e == 't' {
        Some('\t')
    } else if e == 'b' {
        Some('\u{0008}')
    } else if e == 'f' {
        Some('\u{000C}')
    } else {
        None
    }
}

/// Prepends one decoded character to a string-body parse result.
pub open spec fn cons_body(c: char, r: Option<(Seq<char>, Seq<char>)>) -> Option<
    (Seq<char>, Seq<char>),
> {
    match r {
        Some(p) => Some((seq![c] + p.0, p.1)),
        None => None,
    }
}

/// Reads a quoted string's body from the front of `s`, the opening quote
/// already consumed: the decoded content, and what follows the closing
/// quote. Nothing on a missing closing quote, an unknown escape, or a raw
/// control character.
pub open spec fn take_string_body(s: Seq<char>) -> Option<(Seq<char>, Seq<char>)>
    decreases s.len(),
{
    if s.len() == 0 {
        None
    } else if s[0] == '"' {
        Some((Seq::empty(), s.drop_first()))
    } else if s[0] == '\\' {
        if s.len() < 2 {
            None
        } else {
            match short_escape(s[1]) {
                Some(c) => cons_body(c, take_string_body(s.skip(2))),
                None => {
                    if s[1] == 'u' && s.len() >= 6 && s[2] == '0' && s[3] == '0' && is_hex(s[4])
                        && is_hex(s[5]) {
                        cons_body(
                            ((16 * hex_val(s[4]) + hex_val(s[5])) as u8) as char,
                            take_string_body(s.skip(6)),
                        )
                    } else {
                        None
                    }
                },
            }
        }
    } else if (s[0] as u32) < 0x20 {
        None
    } else {
        cons_body(s[0], take_string_body(s.drop_first()))
    }
}

proof fn lemma_low_char_round(c: char)
    requires
        (c as u32) < 0x20,
    ensures
        (((c as u32) as u8) as char) == c,
{
}

proof fn lemma_hex_char_val(k: nat)
    requires
        k < 16,
    ensures
        is_hex(hex_char(k)),
        hex_val(hex_char(k)) == k,
{
}

proof fn lemma_escape_str_first(s: Seq<char>)
    requires
        s.len() > 0,
    ensures
        escape_str(s) == escape_char(s[0]) + escape_str(s.drop_first()),
    decreases s.len(),
{
    if s.len() == 1 {
        reveal_with_fuel(escape_str, 2);
        assert(s.drop_last() =~= Seq::<char>::empty());
        assert(s.drop_first() =~= Seq::<char>::empty());
        assert(s.last() == s[0]);
        assert(escape_char(s[0]) + escape_str(s.drop_first()) =~= escape_char(s[0]));
    } else {
        let a = s.drop_last();
        lemma_escape_str_first(a);
        assert(a[0] == s[0]);
        assert(s.drop_first().drop_last() =~= a.drop_first());
        assert(s.drop_first().last() == s.last());
        assert(escape_str(s.drop_first()) == escape_str(a.drop_first()) + escape_char(s.last()));
        assert(escape_str(s) == (escape_char(s[0]) + escape_str(a.drop_first())) + escape_char(
            s.last(),
        ));
        assert((escape_char(s[0]) + escape_str(a.drop_first())) + escape_char(s.last())
            =~= escape_char(s[0]) + (escape_str(a.drop_first()) + escape_char(s.last())));
    }
}

/// Reading a string body inverts escaping: after the escaped characters, a
/// closing quote and any tail, the parse gives back the original characters
/// and the tail.
pub proof fn lemma_take_escaped(x: Seq<char>, tail: Seq<char>)
    ensures
        take_string_body(escape_str(x) + seq!['"'] + tail) == Some((x, tail)),
    decreases x.len(),
{
    let s = escape_str(x) + seq!['"'] + tail;
    if x.len() == 0 {
        assert(s =~= seq!['"'] + tail);
        assert(s[0] == '"');
        assert(s.drop_first() =~= tail);
    } else {
        lemma_escape_str_first(x);
        let c = x[0];
        let e0 = escape_char(c);
        let s2 = escape_str(x.drop_first()) + seq!['"'] + tail;
        lemma_take_escaped(x.drop_first(), tail);
        assert(s =~= e0 + s2);
        assert(seq![c] + x.drop_first() =~= x);
        if c == '"' {
            assert(s[0] == '\\' && s[1] == '"');
            assert(s.len() >= 2);
            assert(s.skip(2) =~= s2);
            assert(take_string_body(s) == cons_body('"', take_string_body(s2)));
        } else if c == '\\' {
            assert(s[0] == '\\' && s[1] == '\\');
            assert(s.skip(2) =~= s2);
            assert(take_string_body(s) == cons_body('\\', take_string_body(s2)));
        } else if (c as u32) < 0x20 {
            let u = c as u32;
            lemma_hex_char_val((u / 16) as nat);
            lemma_hex_char_val((u % 16) as nat);
            assert(s[0] == '\\' && s[1] == 'u' && s[2] == '0' && s[3] == '0');
            assert(s[4] == hex_char((u / 16) as nat) && s[5] == hex_char((u % 16) as nat));
            assert(s.len() >= 6);
            assert(short_escape('u') is None);
            assert(16 * hex_val(s[4]) + hex_val(s[5]) == u);
            lemma_low_char_round(c);
            assert(((u as u8) as char) == c);
            assert(s.skip(6) =~= s2);
            assert(take_string_body(s) == cons_body(c, take_string_body(s2)));
        } else {
            assert(s[0] == c);
            assert(s.drop_first() =~= s2);
            assert(take_string_body(s) == cons_body(c, take_string_body(s2)));
        }
    }
}

/// The wire form of a boolean.
pub open spec fn spec_flag_str(b: bool) -> Seq<char> {
    if b {
        seq!['t', 'r', 'u', 'e']
    } else {
        seq!['f', 'a', 'l', 's', 'e']
    }
}

/// What parsing a payload as a boolean gives.
pub open spec fn spec_parse_flag(s: Seq<char>) -> Option<bool> {
    if s == spec_flag_str(true) {
        Some(true)
    } else if s == spec_flag_str(false) {
        Some(false)
    } else {
        None
    }
}

/// The wire form of a string value: quoted and escaped.
pub open spec fn spec_text_str(x: Seq<char>) -> Seq<char> {
    seq!['"'] + escape_str(x) + seq!['"']
}

/// What parsing a payload as a string value gives: the decoded body of one
/// quoted string covering the whole payload.
pub open spec fn spec_parse_text(s: Seq<char>) -> Option<Seq<char>> {
    if s.len() >= 1 && s[0] == '"' {
        match take_string_body(s.drop_first()) {
            Some(p) => if p.1.len() == 0 {
                Some(p.0)
            } else {
                None
            },
            None => None,
        }
    } else {
        None
    }
}

/// The object opening and key that precede the authenticated field.
pub open spec fn auth_prefix() -> Seq<char> {
    seq!['{', '"', 'a', 'u', 't', 'h', 'e', 'n', 't', 'i', 'c', 'a', 't', 'e', 'd', '"', ':']
}

/// The separator and key that precede the name field.
pub open spec fn name_prefix() -> Seq<char> {
    seq![',', '"', 'n', 'a', 'm', 'e', '"', ':']
}

/// The wire form of the application state object: both fields in
/// declaration order, no interior whitespace.
pub open spec fn spec_internal_str(m: InternalModel) -> Seq<char> {
    auth_prefix() + spec_flag_str(m.authenticated) + name_prefix() + spec_text_str(m.name)
        + seq!['}']
}

/// Reads a boolean from the front of `s`: the value and the rest.
pub open spec fn take_flag(s: Seq<char>) -> Option<(bool, Seq<char>)> {
    if s.len() >= 4 && s.take(4) == spec_flag_str(true) {
        Some((true, s.skip(4)))
    } else if s.len() >= 5 && s.take(5) == spec_flag_str(false) {
        Some((false, s.skip(5)))
    } else {
        None
    }
}

/// What parsing a payload as the application state object gives.
pub open spec fn spec_parse_internal(s: Seq<char>) -> Option<InternalModel> {
    if s.len() >= 17 && s.take(17) == auth_prefix() {
        match take_flag(s.skip(17)) {
            Some(p) => {
                let r = p.1;
                if r.len() >= 9 && r.take(8) == name_prefix() && r[8] == '"' {
                    match take_string_body(r.skip(9)) {
                        Some(q) => if q.1 == seq!['}'] {
                            Some(InternalModel { authenticated: p.0, name: q.0 })
                        } else {
                            None
                        },
                        None => None,
                    }
                } else {
                    None
                }
            },
            None => None,
        }
    } else {
        None
    }
}

/// The wire encoding of a state value.
pub open spec fn spec_encode(m: ValModel) -> Seq<char> {
    match m {
        ValModel::Int(i) => spec_int_str(i),
        ValModel::Text(x) => spec_text_str(x),
        ValModel::Flag(b) => spec_flag_str(b),
        ValModel::Internal(im) => spec_internal_str(im),
    }
}

/// What parsing a payload at a given kind gives.
pub open spec fn spec_parse(k: Kind, s: Seq<char>) -> Option<ValModel> {
    match k {
        Kind::Int => match spec_parse_int(s) {
            Some(i) => Some(ValModel::Int(i as int)),
            None => None,
        },
        Kind::Text => match spec_parse_text(s) {
            Some(x) => Some(ValModel::Text(x)),
            None => None,
        },
        Kind::Flag => match spec_parse_flag(s) {
            Some(b) => Some(ValModel::Flag(b)),
            None => None,
        },
        Kind::Internal => match spec_parse_internal(s) {
            Some(im) => Some(ValModel::Internal(im)),
            None => None,
        },
    }
}

/// A successful parse yields a value of the requested kind, with an integer
/// in storable range.
pub proof fn lemma_parse_well_kinded(k: Kind, s: Seq<char>)
    ensures
        match spec_parse(k, s) {
            Some(m) => kind_of(m) == k && (m matches ValModel::Int(i) ==> in_i64_range(i)),
            None => true,
        },
{
}

/// Parsing inverts encoding: feeding a value's wire encoding back through
/// the parser at the value's own kind reproduces the value. This is the
/// serialization round-trip law of the synchronization channel.
pub proof fn lemma_parse_encode_round(m: ValModel)
    requires
        storable(m),
    ensures
        spec_parse(kind_of(m), spec_encode(m)) == Some(m),
{
    match m {
        ValModel::Int(i) => {
            lemma_parse_int_round(i as i64);
        },
        ValModel::Text(x) => {
            let s = spec_text_str(x);
            lemma_take_escaped(x, Seq::<char>::empty());
            assert(s[0] == '"');
            assert(s.drop_first() =~= escape_str(x) + seq!['"'] + Seq::<char>::empty());
        },
        ValModel::Flag(b) => {
            if !b {
                assert(spec_flag_str(false) != spec_flag_str(true));
            }
        },
        ValModel::Internal(im) => {
            let f = spec_flag_str(im.authenticated);
            let t = spec_text_str(im.name);
            let s = spec_internal_str(im);
            assert(s.take(17) =~= auth_prefix());
            let r0 = s.skip(17);
            assert(r0 =~= f + name_prefix() + t + seq!['}']);
            let r = f + name_prefix() + t + seq!['}'];
            if im.authenticated {
                assert(r.take(4) =~= spec_flag_str(true));
                assert(take_flag(r) == Some((true, r.skip(4))));
            } else {
                assert(r.take(4)[0] == 'f');
                assert(spec_flag_str(true)[0] == 't');
                assert(r.take(4) != spec_flag_str(true));
                assert(r.take(5) =~= spec_flag_str(false));
                assert(take_flag(r) == Some((false, r.skip(5))));
            }
            let r1 = if im.authenticated { r.skip(4) } else { r.skip(5) };
            assert(r1 =~= name_prefix() + t + seq!['}']);
            let r2 = name_prefix() + t + seq!['}'];
            assert(r2.take(8) =~= name_prefix());
            assert(r2[8] == t[0]);
            assert(t[0] == '"');
            assert(r2.skip(9) =~= escape_str(im.name) + seq!['"'] + seq!['}']);
            lemma_take_escaped(im.name, seq!['}']);
            assert(take_string_body(r2.skip(9)) == Some((im.name, seq!['}'])));
            assert(spec_parse_internal(s) == Some(im));
        },
    }
}

/// Relies on String's FromIterator<char> impl: collecting characters yields
/// the string of exactly those characters in order.
#[verifier::external_body]
fn chars_to_string(v: &Vec<char>) -> (r: String)
    ensures
        r@ == v@,
{
    v.iter().collect()
}

/// The characters of a string slice, in order.
fn string_to_chars(s: &str) -> (r: Vec<char>)
    ensures
        r@ == s@,
{
    let n = s.unicode_len();
    let mut r: Vec<char> = Vec::new();
    let mut i: usize = 0;
    while i < n
        invariant
            i <= n,
            n == s@.len(),
            r@ == s@.take(i as int),
        decreases n - i,
    {
        r.push(s.get_char(i));
        proof {
            assert(s@.take((i + 1) as int) =~= s@.take(i as int).push(s@[i as int]));
        }
        i = i + 1;
    }
    proof {
        assert(s@.take(n as int) =~= s@);
    }
    r
}

/// The lower-case hex digit character for a small value.
fn hex_exec(n: u32) -> (c: char)
    requires
        n < 16,
    ensures
        c == hex_char(n as nat),
{
    if n == 0 { '0' }
    else if n == 1 { '1' }
    else if n == 2 { '2' }
    else if n == 3 { '3' }
    else if n == 4 { '4' }
    else if n == 5 { '5' }
    else if n == 6 { '6' }
    else if n == 7 { '7' }
    else if n == 8 { '8' }
    else if n == 9 { '9' }
    else if n == 10 { 'a' }
    else if n == 11 { 'b' }
    else if n == 12 { 'c' }
    else if n == 13 { 'd' }
    else if n == 14 { 'e' }
    else { 'f' }
}

/// Appends the escaped wire form of the characters of `x`.
fn push_escaped(x: &Vec<char>, out: &mut Vec<char>)
    ensures
        final(out)@ == old(out)@ + escape_str(x@),
{
    let n = x.len();
    let mut i: usize = 0;
    proof {
        assert(x@.take(0) =~= Seq::<char>::empty());
    }
    while i < n
        invariant
            i <= n,
            n == x@.len(),
            out@ == old(out)@ + escape_str(x@.take(i as int)),
        decreases n - i,
    {
        let c = x[i];
        proof {
            let p = x@.take((i + 1) as int);
            assert(p.drop_last() =~= x@.take(i as int));
            assert(p.last() == x@[i as int]);
        }
        if c == '"' {
            out.push('\\');
            out.push('"');
        } else if c == '\\' {
            out.push('\\');
            out.push('\\');
        } else {
            let u = c as u32;
            if u < 0x20 {
                out.push('\\');
                out.push('u');
                out.push('0');
                out.push('0');
                out.push(hex_exec(u / 16));
                out.push(hex_exec(u % 16));
            } else {
                out.push(c);
            }
        }
        proof {
            assert(out@ =~= old(out)@ + escape_str(x@.take((i + 1) as int)));
        }
        i = i + 1;
    }
    proof {
        assert(x@.take(n as int) =~= x@);
    }
}

/// Appends the quoted, escaped wire form of a string value.
fn push_text(x: &Vec<char>, out: &mut Vec<char>)
    ensures
        final(out)@ == old(out)@ + spec_text_str(x@),
{
    out.push('"');
    push_escaped(x, out);
    out.push('"');
    assert(out@ =~= old(out)@ + spec_text_str(x@));
}

/// Appends the wire form of a boolean.
fn push_flag(b: bool, out: &mut Vec<char>)
    ensures
        final(out)@ == old(out)@ + spec_flag_str(b),
{
    if b {
        out.push('t');
        out.push('r');
        out.push('u');
        out.push('e');
    } else {
        out.push('f');
        out.push('a');
        out.push('l');
        out.push('s');
        out.push('e');
    }
    assert(out@ =~= old(out)@ + spec_flag_str(b));
}

/// Appends the object opening and the authenticated key.
fn push_auth_prefix(out: &mut Vec<char>)
    ensures
        final(out)@ == old(out)@ + auth_prefix(),
{
    out.push('{');
    out.push('"');
    out.push('a');
    out.push('u');
    out.push('t');
    out.push('h');
    out.push('e');
    out.push('n');
    out.push('t');
    out.push('i');
    out.push('c');
    out.push('a');
    out.push('t');
    out.push('e');
    out.push('d');
    out.push('"');
    out.push(':');
    assert(out@ =~= old(out)@ + auth_prefix());
}

/// Appends the separator and the name key.
fn push_name_prefix(out: &mut Vec<char>)
    ensures
        final(out)@ == old(out)@ + name_prefix(),
{
    out.push(',');
    out.push('"');
    out.push('n');
    out.push('a');
    out.push('m');
    out.push('e');
    out.push('"');
    out.push(':');
    assert(out@ =~= old(out)@ + name_prefix());
}

/// The wire encoding of a state value, as a payload string.
pub fn encode_value(v: &StateValue) -> (r: String)
    ensures
        r@ == spec_encode(v@),
{
    let mut out: Vec<char> = Vec::new();
    match v {
        StateValue::Int(i) => {
            push_int(*i, &mut out);
        },
        StateValue::Text(x) => {
            let cs = string_to_chars(x.as_str());
            push_text(&cs, &mut out);
        },
        StateValue::Flag(b) => {
            push_flag(*b, &mut out);
        },
        StateValue::Internal(st) => {
            push_auth_prefix(&mut out);
            push_flag(st.authenticated, &mut out);
            push_name_prefix(&mut out);
            let cs = string_to_chars(st.name.as_str());
            push_text(&cs, &mut out);
            out.push('}');
            assert(out@ =~= spec_internal_str(st@));
        },
    }
    chars_to_string(&out)
}

/// The character a short escape stands for.
fn short_escape_exec(e: char) -> (r: Option<char>)
    ensures
        r == short_escape(e),
{
    if e == '"' { Some('"') }
    else if e == '\\' { Some('\\') }
    else if e == '/' { Some('/') }
    else if e == 'n' { Some('\n') }
    else if e == 'r' { Some('\r') }
    else if e == 't' { Some('\t') }
    else if e == 'b' { Some('\u{0008}') }
    else if e == 'f' { Some('\u{000C}') }
    else { None }
}

/// Reads a quoted string's body starting at `i`, the opening quote already
/// consumed: the decoded content and the index just past the closing quote.
fn take_body_exec(v: &Vec<char>, i: usize) -> (r: Option<(Vec<char>, usize)>)
    requires
        i <= v@.len(),
    ensures
        match r {
            Some(p) => p.1 <= v@.len() && take_string_body(v@.skip(i as int)) == Some(
                (p.0@, v@.skip(p.1 as int)),
            ),
            None => take_string_body(v@.skip(i as int)) is None,
        },
    decreases v@.len() - i,
{
    let ghost s = v@.skip(i as int);
    if i == v.len() {
        return None;
    }
    let c = v[i];
    proof {
        assert(s[0] == v@[i as int]);
    }
    if c == '"' {
        proof {
            assert(s.drop_first() =~= v@.skip((i + 1) as int));
        }
        return Some((Vec::new(), i + 1));
    }
    if c == '\\' {
        if i + 1 == v.len() {
            assert(s.len() < 2);
            return None;
        }
        let e = v[i + 1];
        proof {
            assert(s[1] == v@[(i + 1) as int]);
        }
        match short_escape_exec(e) {
            Some(d) => {
                proof {
                    assert(s.skip(2) =~= v@.skip((i + 2) as int));
                }
                match take_body_exec(v, i + 2) {
                    Some((rest, end)) => {
                        let mut content = rest;
                        let ghost before = content@;
                        content.insert(0, d);
                        proof {
                            assert(content@ =~= seq![d] + before);
                        }
                        return Some((content, end));
                    },
                    None => {
                        return None;
                    },
                }
            },
            None => {
                if e == 'u' {
                    if v.len() - i < 6 {
                        return None;
                    }
                    proof {
                        assert(s[2] == v@[(i + 2) as int]);
                        assert(s[3] == v@[(i + 3) as int]);
                        assert(s[4] == v@[(i + 4) as int]);
                        assert(s[5] == v@[(i + 5) as int]);
                    }
                    if v[i + 2] != '0' || v[i + 3] != '0' {
                        return None;
                    }
                    let h1 = v[i + 4] as u32;
                    let h2 = v[i + 5] as u32;
                    let hex1 = (0x30 <= h1 && h1 <= 0x39) || (0x61 <= h1 && h1 <= 0x66) || (0x41
                        <= h1 && h1 <= 0x46);
                    let hex2 = (0x30 <= h2 && h2 <= 0x39) || (0x61 <= h2 && h2 <= 0x66) || (0x41
                        <= h2 && h2 <= 0x46);
                    if !hex1 || !hex2 {
                        return None;
                    }
                    let n1: u32 = if h1 <= 0x39 { h1 - 0x30 } else if h1 >= 0x61 { h1 - 0x61 + 10 } else { h1 - 0x41 + 10 };
                    let n2: u32 = if h2 <= 0x39 { h2 - 0x30 } else if h2 >= 0x61 { h2 - 0x61 + 10 } else { h2 - 0x41 + 10 };
                    let d = ((16 * n1 + n2) as u8) as char;
                    proof {
                        assert(n1 == hex_val(v@[(i + 4) as int]));
                        assert(n2 == hex_val(v@[(i + 5) as int]));
                        assert(s.skip(6) =~= v@.skip((i + 6) as int));
                    }
                    match take_body_exec(v, i + 6) {
                        Some((rest, end)) => {
                            let mut content = rest;
                            let ghost before = content@;
                            content.insert(0, d);
                            proof {
                                assert(content@ =~= seq![d] + before);
                            }
                            return Some((content, end));
                        },
                        None => {
                            return None;
                        },
                    }
                } else {
                    return None;
                }
            },
        }
    }
    let u = c as u32;
    if u < 0x20 {
        return None;
    }
    proof {
        assert(s.drop_first() =~= v@.skip((i + 1) as int));
    }
    match take_body_exec(v, i + 1) {
        Some((rest, end)) => {
            let mut content = rest;
            let ghost before = content@;
            content.insert(0, c);
            proof {
                assert(content@ =~= seq![c] + before);
            }
            Some((content, end))
        },
        None => None,
    }
}

/// Parses a whole character sequence as a quoted string value.
fn parse_text_chars(v: &Vec<char>) -> (r: Option<Vec<char>>)
    ensures
        match r {
            Some(x) => spec_parse_text(v@) == Some(x@),
            None => spec_parse_text(v@) is None,
        },
{
    if v.len() == 0 {
        return None;
    }
    if v[0] != '"' {
        return None;
    }
    proof {
        assert(v@.skip(1) =~= v@.drop_first());
    }
    match take_body_exec(v, 1) {
        Some((content, end)) => {
            if end == v.len() {
                proof {
                    assert(v@.skip(end as int).len() == 0);
                }
                Some(content)
            } else {
                proof {
                    assert(v@.skip(end as int).len() > 0);
                }
                None
            }
        },
        None => None,
    }
}

/// Parses a whole character sequence as a boolean.
fn parse_flag_chars(v: &Vec<char>) -> (r: Option<bool>)
    ensures
        r == spec_parse_flag(v@),
{
    if v.len() == 4 && v[0] == 't' && v[1] == 'r' && v[2] == 'u' && v[3] == 'e' {
        proof {
            assert(v@ =~= spec_flag_str(true));
        }
        return Some(true);
    }
    if v.len() == 5 && v[0] == 'f' && v[1] == 'a' && v[2] == 'l' && v[3] == 's' && v[4] == 'e' {
        proof {
            assert(v@ =~= spec_flag_str(false));
        }
        return Some(false);
    }
    proof {
        if v@ == spec_flag_str(true) {
            assert(v@.len() == 4 && v@[0] == 't' && v@[1] == 'r' && v@[2] == 'u' && v@[3] == 'e');
        }
        if v@ == spec_flag_str(false) {
            assert(v@.len() == 5 && v@[0] == 'f' && v@[1] == 'a' && v@[2] == 'l' && v@[3] == 's'
                && v@[4] == 'e');
        }
    }
    None
}

/// Parses a whole character sequence as the application state object.
fn parse_internal_chars(v: &Vec<char>) -> (r: Option<InternalState>)
    ensures
        match r {
            Some(st) => spec_parse_internal(v@) == Some(st@),
            None => spec_parse_internal(v@) is None,
        },
{
    let n = v.len();
    if n < 17 {
        return None;
    }
    proof {
        assert(forall|k: int| 0 <= k < 17 ==> v@.take(17)[k] == v@[k]);
    }
    if !(v[0] == '{' && v[1] == '"' && v[2] == 'a' && v[3] == 'u' && v[4] == 't' && v[5] == 'h'
        && v[6] == 'e' && v[7] == 'n' && v[8] == 't' && v[9] == 'i' && v[10] == 'c' && v[11] == 'a'
        && v[12] == 't' && v[13] == 'e' && v[14] == 'd' && v[15] == '"' && v[16] == ':') {
        proof {
            if v@.take(17) == auth_prefix() {
                assert(v@[0] == '{' && v@[1] == '"' && v@[2] == 'a' && v@[3] == 'u' && v@[4] == 't'
                    && v@[5] == 'h' && v@[6] == 'e' && v@[7] == 'n' && v@[8] == 't' && v@[9] == 'i'
                    && v@[10] == 'c' && v@[11] == 'a' && v@[12] == 't' && v@[13] == 'e' && v@[14]
                    == 'd' && v@[15] == '"' && v@[16] == ':');
            }
        }
        return None;
    }
    proof {
        assert(v@.take(17) =~= auth_prefix());
    }
    let ghost r0 = v@.skip(17);
    let authenticated: bool;
    let pos: usize;
    if n >= 21 && v[17] == 't' && v[18] == 'r' && v[19] == 'u' && v[20] == 'e' {
        authenticated = true;
        pos = 21;
        proof {
            assert(r0.take(4) =~= spec_flag_str(true));
            assert(r0.skip(4) =~= v@.skip(21));
        }
    } else if n >= 22 && v[17] == 'f' && v[18] == 'a' && v[19] == 'l' && v[20] == 's' && v[21]
        == 'e' {
        authenticated = false;
        pos = 22;
        proof {
            assert(forall|k: int| 0 <= k < 5 ==> r0.take(5)[k] == v@[17 + k]);
            assert(r0.take(5) =~= spec_flag_str(false));
            if r0.len() >= 4 && r0.take(4) == spec_flag_str(true) {
                assert(r0.take(4)[0] == v@[17]);
            }
            assert(r0.skip(5) =~= v@.skip(22));
        }
    } else {
        proof {
            if r0.len() >= 4 && r0.take(4) == spec_flag_str(true) {
                assert(v@[17] == r0.take(4)[0] && v@[18] == r0.take(4)[1] && v@[19] == r0.take(
                    4,
                )[2] && v@[20] == r0.take(4)[3]);
            }
            if r0.len() >= 5 && r0.take(5) == spec_flag_str(false) {
                assert(v@[17] == r0.take(5)[0] && v@[18] == r0.take(5)[1] && v@[19] == r0.take(
                    5,
                )[2] && v@[20] == r0.take(5)[3] && v@[21] == r0.take(5)[4]);
            }
        }
        return None;
    }
    let ghost r1 = v@.skip(pos as int);
    proof {
        assert(take_flag(r0) == Some((authenticated, r1)));
    }
    if n - pos < 9 {
        return None;
    }
    proof {
        assert(forall|k: int| 0 <= k < 8 ==> r1.take(8)[k] == v@[pos + k]);
        assert(r1[8] == v@[pos + 8]);
    }
    if !(v[pos] == ',' && v[pos + 1] == '"' && v[pos + 2] == 'n' && v[pos + 3] == 'a' && v[pos + 4]
        == 'm' && v[pos + 5] == 'e' && v[pos + 6] == '"' && v[pos + 7] == ':' && v[pos + 8] == '"') {
        proof {
            if r1.take(8) == name_prefix() {
                assert(v@[pos as int] == ',' && v@[pos + 1] == '"' && v@[pos + 2] == 'n' && v@[pos
                    + 3] == 'a' && v@[pos + 4] == 'm' && v@[pos + 5] == 'e' && v@[pos + 6] == '"'
                    && v@[pos + 7] == ':');
            }
        }
        return None;
    }
    proof {
        assert(r1.take(8) =~= name_prefix());
        assert(r1.skip(9) =~= v@.skip((pos + 9) as int));
    }
    match take_body_exec(v, pos + 9) {
        Some((content, end)) => {
            if end == n - 1 && v[end] == '}' {
                proof {
                    assert(v@.skip(end as int) =~= seq!['}']);
                }
                let name = chars_to_string(&content);
                Some(InternalState { authenticated, name })
            } else {
                proof {
                    if v@.skip(end as int) == seq!['}'] {
                        assert(v@.skip(end as int).len() == 1);
                        assert(v@.skip(end as int)[0] == v@[end as int]);
                    }
                }
                None
            }
        },
        None => None,
    }
}

/// Parses a payload string at the given kind. The result is exactly what the
/// wire grammar of that kind gives for the payload: a value of that kind, or
/// nothing when the payload is malformed.
pub fn parse_value(k: Kind, s: &str) -> (r: Option<StateValue>)
    ensures
        r is Some <==> spec_parse(k, s@) is Some,
        r matches Some(v) ==> spec_parse(k, s@) == Some(v@),
{
    let cs = string_to_chars(s);
    match k {
        Kind::Int => match parse_int_chars(&cs) {
            Some(i) => Some(StateValue::Int(i)),
            None => None,
        },
        Kind::Text => match parse_text_chars(&cs) {
            Some(x) => Some(StateValue::Text(chars_to_string(&x))),
            None => None,
        },
        Kind::Flag => match parse_flag_chars(&cs) {
            Some(b) => Some(StateValue::Flag(b)),
            None => None,
        },
        Kind::Internal => match parse_internal_chars(&cs) {
            Some(st) => Some(StateValue::Internal(st)),
            None => None,
        },
    }
}

} // verus!
