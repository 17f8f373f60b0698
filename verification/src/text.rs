//! Text helpers shared by the day solvers: substring search, separator
//! splitting, and decimal parsing / rendering, each pinned to a spec-level
//! definition over character sequences.

use vstd::prelude::*;
use vstd::string::*;

verus! {

/// The separator `sep` occurs in `s` at position `i`.
pub open spec fn match_at(s: Seq<char>, sep: Seq<char>, i: int) -> bool {
    0 <= i && i + sep.len() <= s.len() && s.subrange(i, i + sep.len()) == sep
}

/// The first position at or after `from` where `sep` occurs in `s`, if any.
pub open spec fn find_from(s: Seq<char>, sep: Seq<char>, from: int) -> Option<int>
    decreases s.len() - from,
{
    if from < 0 || sep.len() == 0 || from + sep.len() > s.len() {
        None
    } else if match_at(s, sep, from) {
        Some(from)
    } else {
        find_from(s, sep, from + 1)
    }
}

pub proof fn lemma_find_from_some(s: Seq<char>, sep: Seq<char>, from: int, i: int)
    requires
        find_from(s, sep, from) == Some(i),
    ensures
        from <= i,
        match_at(s, sep, i),
    decreases s.len() - from,
{
    if from < 0 || sep.len() == 0 || from + sep.len() > s.len() {
    } else if match_at(s, sep, from) {
    } else {
        lemma_find_from_some(s, sep, from + 1, i);
    }
}

/// Compares `sep` against `s` at position `i`.
pub fn is_match_at(s: &str, sep: &str, i: usize) -> (r: bool)
    requires
        i + sep@.len() <= s@.len() <= usize::MAX,
    ensures
        r == match_at(s@, sep@, i as int),
{
    let n = sep.unicode_len();
    let mut j: usize = 0;
    while j < n
        invariant
            0 <= j <= n,
            n == sep@.len(),
            i + n <= s@.len() <= usize::MAX,
            forall|k: int| 0 <= k < j ==> s@[i + k] == sep@[k],
        decreases n - j,
    {
        if s.get_char(i + j) != sep.get_char(j) {
            assert(s@.subrange(i as int, i + sep@.len())[j as int] != sep@[j as int]);
            return false;
        }
        j += 1;
    }
    assert(s@.subrange(i as int, i + sep@.len()) =~= sep@);
    true
}

/// Finds the first occurrence of `sep` in `s` at or after `from`.
pub fn find_sub(s: &str, sep: &str, from: usize) -> (r: Option<usize>)
    ensures
        match r {
            Some(i) => find_from(s@, sep@, from as int) == Some(i as int),
            None => find_from(s@, sep@, from as int) is None,
        },
{
    let n = sep.unicode_len();
    let len = s.unicode_len();
    if n == 0 || from > len || n > len - from {
        return None;
    }
    let mut i: usize = from;
    while i <= len - n
        invariant
            from <= i <= len - n + 1,
            0 < n <= len,
            n == sep@.len(),
            len == s@.len(),
            find_from(s@, sep@, from as int) == find_from(s@, sep@, i as int),
        decreases len - i,
    {
        if is_match_at(s, sep, i) {
            return Some(i);
        }
        i += 1;
    }
    None
}

/// The pieces of `s` between consecutive occurrences of the (nonempty)
/// separator `sep`, in order; a string without the separator is one piece.
pub open spec fn split_spec(s: Seq<char>, sep: Seq<char>) -> Seq<Seq<char>>
    decreases s.len(),
{
    if sep.len() == 0 {
        Seq::empty()
    } else {
        match find_from(s, sep, 0) {
            Some(i) => {
                if 0 <= i && i + sep.len() <= s.len() {
                    seq![s.subrange(0, i)] + split_spec(
                        s.subrange(i + sep.len(), s.len() as int),
                        sep,
                    )
                } else {
                    seq![s]
                }
            },
            None => seq![s],
        }
    }
}

/// Splits `s` on every occurrence of `sep`.
pub fn split_str(s: &str, sep: &str) -> (r: Vec<String>)
    requires
        sep@.len() > 0,
    ensures
        r.deep_view() == split_spec(s@, sep@),
        r.len() > 0,
{
    let mut r: Vec<String> = Vec::new();
    let mut start: usize = 0;
    let len = s.unicode_len();
    let n = sep.unicode_len();
    assert(s@.subrange(0, len as int) =~= s@);
    assert(r.deep_view() + split_spec(s@, sep@) =~= split_spec(s@, sep@));
    loop
        invariant
            n == sep@.len(),
            n > 0,
            len == s@.len(),
            start <= len,
            split_spec(s@, sep@) =~= r.deep_view() + split_spec(
                s@.subrange(start as int, len as int),
                sep@,
            ),
        decreases len - start + 1,
    {
        let ghost rest = s@.subrange(start as int, len as int);
        match find_sub_in_range(s, sep, start) {
            Some(i) => {
                proof {
                    lemma_find_from_some(rest, sep@, 0, i - start);
                    assert(rest.subrange(0, i - start) =~= s@.subrange(start as int, i as int));
                    assert(rest.subrange(i - start + sep@.len(), rest.len() as int) =~= s@
                        .subrange(i + n, len as int));
                }
                let piece = s.substring_char(start, i).to_owned();
                assert(piece@ =~= rest.subrange(0, i - start));
                let ghost prev = r.deep_view();
                r.push(piece);
                assert(r.deep_view() =~= prev.push(rest.subrange(0, i - start)));
                start = i + n;
                assert(split_spec(s@, sep@) =~= r.deep_view() + split_spec(
                    s@.subrange(start as int, len as int),
                    sep@,
                ));
            },
            None => {
                let piece = s.substring_char(start, len).to_owned();
                let ghost prev = r.deep_view();
                r.push(piece);
                assert(r.deep_view() =~= prev.push(rest));
                assert(split_spec(s@, sep@) =~= r.deep_view());
                return r;
            },
        }
    }
}

/// Finds the first occurrence of `sep` in `s` at or after `start`, stated
/// relative to the tail of `s` that begins at `start`.
fn find_sub_in_range(s: &str, sep: &str, start: usize) -> (r: Option<usize>)
    requires
        start <= s@.len(),
    ensures
        match r {
            Some(i) => start <= i && find_from(
                s@.subrange(start as int, s@.len() as int),
                sep@,
                0,
            ) == Some(i - start),
            None => find_from(s@.subrange(start as int, s@.len() as int), sep@, 0) is None,
        },
{
    let r = find_sub(s, sep, start);
    proof {
        lemma_find_shift(s@, sep@, start as int, 0);
    }
    match r {
        Some(i) => {
            proof {
                lemma_find_from_some(s@, sep@, start as int, i as int);
            }
            Some(i)
        },
        None => None,
    }
}

/// `c` is a decimal digit.
pub open spec fn is_digit(c: char) -> bool {
    '0' <= c && c <= '9'
}

/// The numeric value of a decimal digit.
pub open spec fn digit_val(c: char) -> nat {
    ((c as u32) - 48) as nat
}

/// Every character of `s` is a decimal digit.
pub open spec fn all_digits(s: Seq<char>) -> bool {
    forall|i: int| 0 <= i < s.len() ==> is_digit(#[trigger] s[i])
}

/// The number that the digit string `s` denotes, most significant digit first.
pub open spec fn dec_val(s: Seq<char>) -> nat
    decreases s.len(),
{
    if s.len() == 0 {
        0
    } else {
        dec_val(s.drop_last()) * 10 + digit_val(s.last())
    }
}

/// Dropping trailing digits never increases the denoted number.
proof fn lemma_dec_val_take_le(s: Seq<char>, j: int)
    requires
        0 <= j <= s.len(),
    ensures
        dec_val(s.take(j)) <= dec_val(s),
    decreases s.len() - j,
{
    if j == s.len() {
        assert(s.take(j) =~= s);
    } else {
        assert(s.take(j + 1).drop_last() =~= s.take(j));
        assert(dec_val(s.take(j)) * 10 >= dec_val(s.take(j)) * 1) by (nonlinear_arith);
        lemma_dec_val_take_le(s, j + 1);
    }
}

/// Reads `s` as an unsigned decimal number. Fails exactly when `s` is empty,
/// holds a non-digit, or denotes a number above `u64::MAX`.
pub fn parse_u64(s: &str) -> (r: Option<u64>)
    ensures
        match r {
            Some(v) => s@.len() > 0 && all_digits(s@) && v as nat == dec_val(s@),
            None => s@.len() == 0 || !all_digits(s@) || dec_val(s@) > u64::MAX,
        },
{
    let len = s.unicode_len();
    if len == 0 {
        return None;
    }
    let mut v: u64 = 0;
    let mut i: usize = 0;
    while i < len
        invariant
            0 <= i <= len,
            len == s@.len(),
            all_digits(s@.take(i as int)),
            v as nat == dec_val(s@.take(i as int)),
        decreases len - i,
    {
        let c = s.get_char(i);
        proof {
            assert(s@.take(i + 1).drop_last() =~= s@.take(i as int));
            assert(s@.take(i + 1).last() == s@[i as int]);
        }
        if c < '0' || c > '9' {
            assert(!is_digit(s@[i as int]));
            return None;
        }
        let d: u64 = (c as u32 - 48) as u64;
        let v10 = match v.checked_mul(10) {
            Some(x) => x,
            None => {
                proof {
                    assert(dec_val(s@.take(i + 1)) > u64::MAX);
                    lemma_dec_val_take_le(s@, i + 1);
                }
                return None;
            },
        };
        let v2 = match v10.checked_add(d) {
            Some(x) => x,
            None => {
                proof {
                    assert(dec_val(s@.take(i + 1)) > u64::MAX);
                    lemma_dec_val_take_le(s@, i + 1);
                }
                return None;
            },
        };
        v = v2;
        i += 1;
    }
    assert(s@.take(len as int) =~= s@);
    Some(v)
}

/// The bytes of `bs`, each read as one character.
pub open spec fn chars_of(bs: Seq<u8>) -> Seq<char> {
    bs.map(|_i: int, b: u8| b as char)
}

/// The decimal digit string of `n`, most significant digit first.
pub open spec fn dec_chars(n: nat) -> Seq<char>
    decreases n,
{
    if n < 10 {
        seq![((48 + n) as u8) as char]
    } else {
        dec_chars(n / 10).push(((48 + n % 10) as u8) as char)
    }
}

/// Relies on `String::from_utf8`: bytes that are valid UTF-8 (here: ASCII,
/// one character per byte) come back as the string they encode.
#[verifier::external_body]
fn string_from_ascii(bytes: Vec<u8>) -> (r: String)
    requires
        forall|i: int| 0 <= i < bytes@.len() ==> bytes@[i] < 128,
    ensures
        r@ == chars_of(bytes@),
{
    match String::from_utf8(bytes) {
        Ok(s) => s,
        Err(_) => String::new(),
    }
}

/// Renders `n` in decimal.
pub fn u64_to_string(n: u64) -> (r: String)
    ensures
        r@ == dec_chars(n as nat),
{
    let mut digits: Vec<u8> = Vec::new();
    let mut m: u64 = n;
    while m >= 10
        invariant
            forall|k: int| 0 <= k < digits@.len() ==> 48 <= #[trigger] digits@[k] < 58,
            dec_chars(n as nat) =~= dec_chars(m as nat) + chars_of(digits@).reverse(),
        decreases m,
    {
        let d: u8 = (m % 10) as u8;
        let ghost prev = digits@;
        digits.push(48 + d);
        m = m / 10;
        proof {
            assert(chars_of(digits@).reverse() =~= seq![((48 + d) as char)] + chars_of(
                prev,
            ).reverse());
            assert(dec_chars(n as nat) =~= dec_chars(m as nat) + chars_of(digits@).reverse());
        }
    }
    let ghost prev = digits@;
    digits.push(48 + m as u8);
    proof {
        assert(chars_of(digits@).reverse() =~= seq![((48 + m) as u8 as char)] + chars_of(
            prev,
        ).reverse());
        assert(dec_chars(n as nat) =~= chars_of(digits@).reverse());
    }
    let mut out: Vec<u8> = Vec::new();
    let mut j: usize = digits.len();
    while j > 0
        invariant
            0 <= j <= digits@.len(),
            forall|k: int| 0 <= k < digits@.len() ==> 48 <= #[trigger] digits@[k] < 58,
            out@ =~= digits@.subrange(j as int, digits@.len() as int).reverse(),
        decreases j,
    {
        j -= 1;
        out.push(digits[j]);
        assert(out@ =~= digits@.subrange(j as int, digits@.len() as int).reverse());
    }
    assert(digits@.subrange(0, digits@.len() as int) =~= digits@);
    let r = string_from_ascii(out);
    assert(r@ =~= dec_chars(n as nat));
    r
}

/// The decimal rendering of a signed number: a minus sign for a negative
/// value, then the digits of its magnitude.
pub open spec fn int_chars(n: int) -> Seq<char> {
    if n < 0 {
        seq!['-'] + dec_chars((-n) as nat)
    } else {
        dec_chars(n as nat)
    }
}

/// Renders `n` in decimal, with a minus sign when negative.
pub fn i64_to_string(n: i64) -> (r: String)
    ensures
        r@ == int_chars(n as int),
{
    let mag: u64 = if n < 0 {
        ((-(n + 1)) as u64) + 1
    } else {
        n as u64
    };
    let mut digits: Vec<u8> = Vec::new();
    let mut m: u64 = mag;
    while m >= 10
        invariant
            forall|k: int| 0 <= k < digits@.len() ==> 48 <= #[trigger] digits@[k] < 58,
            dec_chars(mag as nat) =~= dec_chars(m as nat) + chars_of(digits@).reverse(),
        decreases m,
    {
        let d: u8 = (m % 10) as u8;
        let ghost prev = digits@;
        digits.push(48 + d);
        m = m / 10;
        proof {
            assert(chars_of(digits@).reverse() =~= seq![((48 + d) as char)] + chars_of(
                prev,
            ).reverse());
            assert(dec_chars(mag as nat) =~= dec_chars(m as nat) + chars_of(digits@).reverse());
        }
    }
    let ghost prev = digits@;
    digits.push(48 + m as u8);
    proof {
        assert(chars_of(digits@).reverse() =~= seq![((48 + m) as u8 as char)] + chars_of(
            prev,
        ).reverse());
        assert(dec_chars(mag as nat) =~= chars_of(digits@).reverse());
    }
    let mut out: Vec<u8> = Vec::new();
    if n < 0 {
        out.push(45);
    }
    let ghost sign = out@;
    let mut j: usize = digits.len();
    while j > 0
        invariant
            0 <= j <= digits@.len(),
            forall|k: int| 0 <= k < digits@.len() ==> 48 <= #[trigger] digits@[k] < 58,
            n < 0 ==> sign =~= seq![45u8],
            n >= 0 ==> sign =~= Seq::<u8>::empty(),
            forall|k: int| 0 <= k < out@.len() ==> #[trigger] out@[k] < 128,
            out@ =~= sign + digits@.subrange(j as int, digits@.len() as int).reverse(),
        decreases j,
    {
        j -= 1;
        out.push(digits[j]);
        assert(out@ =~= sign + digits@.subrange(j as int, digits@.len() as int).reverse());
    }
    assert(digits@.subrange(0, digits@.len() as int) =~= digits@);
    let r = string_from_ascii(out);
    proof {
        if n < 0 {
            assert(chars_of(seq![45u8] + digits@.reverse()) =~= seq!['-'] + chars_of(
                digits@,
            ).reverse());
            assert(r@ =~= int_chars(n as int));
        } else {
            assert(chars_of(Seq::<u8>::empty() + digits@.reverse()) =~= chars_of(
                digits@,
            ).reverse());
            assert(r@ =~= int_chars(n as int));
        }
    }
    r
}

/// Searching the whole string from `start + from` and searching the tail that
/// begins at `start` from `from` agree.
proof fn lemma_find_shift(s: Seq<char>, sep: Seq<char>, start: int, from: int)
    requires
        0 <= start <= s.len(),
        0 <= from,
    ensures
        match find_from(s, sep, start + from) {
            Some(i) => find_from(s.subrange(start, s.len() as int), sep, from) == Some(i - start),
            None => find_from(s.subrange(start, s.len() as int), sep, from) is None,
        },
    decreases s.len() - start - from,
{
    let tail = s.subrange(start, s.len() as int);
    if sep.len() == 0 || start + from + sep.len() > s.len() {
    } else {
        assert(match_at(s, sep, start + from) == match_at(tail, sep, from)) by {
            assert(s.subrange(start + from, start + from + sep.len()) =~= tail.subrange(
                from,
                from + sep.len(),
            ));
        }
        if !match_at(s, sep, start + from) {
            lemma_find_shift(s, sep, start, from + 1);
        }
    }
}

} // verus!
