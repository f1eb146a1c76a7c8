//! Text primitives: equality and ordering of strings, decimal rendering of
//! integers, and the integer and boolean parsers that attribute values go through.
use vstd::prelude::*;

verus! {

// ---------------------------------------------------------------------------
// Ordering of strings
// ---------------------------------------------------------------------------

/// `i` is a position at which `a` and `b` first part: everything before `i`
/// agrees, and either `a` ends there while `b` goes on, or `a` has the smaller
/// character there.
pub open spec fn lex_lt_at(a: Seq<char>, b: Seq<char>, i: int) -> bool {
    &&& 0 <= i <= a.len()
    &&& i <= b.len()
    &&& a.take(i) == b.take(i)
    &&& ((i == a.len() && i < b.len()) || (i < a.len() && i < b.len() && a[i] < b[i]))
}

/// Lexicographic order by code point, which is the order of `String`'s `Ord`
/// (UTF-8 preserves code point order byte by byte).
pub open spec fn lex_lt(a: Seq<char>, b: Seq<char>) -> bool {
    exists|i: int| lex_lt_at(a, b, i)
}

pub proof fn lemma_lex_irreflexive(a: Seq<char>)
    ensures
        !lex_lt(a, a),
{
}

pub proof fn lemma_lex_asymmetric(a: Seq<char>, b: Seq<char>)
    requires
        lex_lt(a, b),
    ensures
        !lex_lt(b, a),
        a != b,
{
    let i = choose|i: int| lex_lt_at(a, b, i);
    if lex_lt(b, a) {
        let j = choose|j: int| lex_lt_at(b, a, j);
        if i < j {
            assert(a.take(j)[i] == b.take(j)[i]);
        } else if j < i {
            assert(a.take(i)[j] == b.take(i)[j]);
        }
    }
}

pub proof fn lemma_lex_transitive(a: Seq<char>, b: Seq<char>, c: Seq<char>)
    requires
        lex_lt(a, b),
        lex_lt(b, c),
    ensures
        lex_lt(a, c),
{
    let i = choose|i: int| lex_lt_at(a, b, i);
    let j = choose|j: int| lex_lt_at(b, c, j);
    let k = if i < j { i } else { j };
    assert forall|m: int| 0 <= m < k implies #[trigger] a.take(k)[m] == c.take(k)[m] by {
        assert(a.take(i)[m] == b.take(i)[m]);
        assert(b.take(j)[m] == c.take(j)[m]);
    }
    assert(a.take(k) =~= c.take(k));
    if i < j {
        assert(b.take(j)[i] == c.take(j)[i]);
    } else if j < i {
        assert(a.take(i)[j] == b.take(i)[j]);
    }
    assert(lex_lt_at(a, c, k));
}

pub proof fn lemma_lex_total(a: Seq<char>, b: Seq<char>)
    ensures
        lex_lt(a, b) || lex_lt(b, a) || a == b,
    decreases a.len(),
{
    assert(a.take(0) =~= b.take(0));
    if a.len() == 0 {
        if b.len() > 0 {
            assert(lex_lt_at(a, b, 0));
        } else {
            assert(a =~= b);
        }
    } else if b.len() == 0 {
        assert(lex_lt_at(b, a, 0));
    } else if a[0] != b[0] {
        assert(a.take(0) =~= b.take(0));
        if a[0] < b[0] {
            assert(lex_lt_at(a, b, 0));
        } else {
            assert(lex_lt_at(b, a, 0));
        }
    } else {
        let a1 = a.skip(1);
        let b1 = b.skip(1);
        lemma_lex_total(a1, b1);
        if a1 == b1 {
            assert(a =~= seq![a[0]] + a1);
            assert(b =~= seq![b[0]] + b1);
        } else if lex_lt(a1, b1) {
            let i = choose|i: int| lex_lt_at(a1, b1, i);
            assert forall|m: int| 0 <= m < i + 1 implies #[trigger] a.take(i + 1)[m] == b.take(i + 1)[m] by {
                if m > 0 {
                    assert(a1.take(i)[m - 1] == b1.take(i)[m - 1]);
                }
            }
            assert(a.take(i + 1) =~= b.take(i + 1));
            assert(lex_lt_at(a, b, i + 1));
        } else {
            let i = choose|i: int| lex_lt_at(b1, a1, i);
            assert forall|m: int| 0 <= m < i + 1 implies #[trigger] b.take(i + 1)[m] == a.take(i + 1)[m] by {
                if m > 0 {
                    assert(b1.take(i)[m - 1] == a1.take(i)[m - 1]);
                }
            }
            assert(b.take(i + 1) =~= a.take(i + 1));
            assert(lex_lt_at(b, a, i + 1));
        }
    }
}

/// Three-way comparison of two strings in the order of `lex_lt`:
/// a negative result, zero or a positive result.
pub fn compare_text(a: &str, b: &str) -> (r: i8)
    ensures
        r < 0 <==> lex_lt(a@, b@),
        r == 0 <==> a@ == b@,
        r > 0 <==> lex_lt(b@, a@),
{
    let la = a.unicode_len();
    let lb = b.unicode_len();
    let mut i: usize = 0;
    while i < la && i < lb
        invariant
            la == a@.len(),
            lb == b@.len(),
            i <= la,
            i <= lb,
            a@.take(i as int) == b@.take(i as int),
        decreases la - i,
    {
        let ca = a.get_char(i);
        let cb = b.get_char(i);
        if ca != cb {
            proof {
                lemma_lex_total(a@, b@);
            }
            if ca < cb {
                assert(lex_lt_at(a@, b@, i as int));
                proof { lemma_lex_asymmetric(a@, b@); }
                return -1;
            } else {
                assert(lex_lt_at(b@, a@, i as int));
                proof { lemma_lex_asymmetric(b@, a@); }
                return 1;
            }
        }
        assert(a@.take(i + 1) =~= a@.take(i as int).push(ca));
        assert(b@.take(i + 1) =~= b@.take(i as int).push(cb));
        i = i + 1;
    }
    if la < lb {
        assert(lex_lt_at(a@, b@, i as int));
        proof { lemma_lex_asymmetric(a@, b@); }
        -1
    } else if lb < la {
        assert(lex_lt_at(b@, a@, i as int));
        proof { lemma_lex_asymmetric(b@, a@); }
        1
    } else {
        assert(a@ =~= a@.take(i as int));
        assert(b@ =~= b@.take(i as int));
        proof { lemma_lex_irreflexive(a@); }
        0
    }
}

/// Equality of two strings by their characters.
pub fn text_eq(a: &str, b: &str) -> (r: bool)
    ensures
        r == (a@ == b@),
{
    compare_text(a, b) == 0
}

// ---------------------------------------------------------------------------
// Decimal rendering
// ---------------------------------------------------------------------------

pub open spec fn digit_char(d: nat) -> char {
    if d == 0 { '0' }
    else if d == 1 { '1' }
    else if d == 2 { '2' }
    else if d == 3 { '3' }
    else if d == 4 { '4' }
    else if d == 5 { '5' }
    else if d == 6 { '6' }
    else if d == 7 { '7' }
    else if d == 8 { '8' }
    else { '9' }
}

/// The decimal digits of `n`, most significant first, without leading zeros.
pub open spec fn decimal_digits(n: nat) -> Seq<char>
    decreases n,
{
    if n < 10 {
        seq![digit_char(n)]
    } else {
        decimal_digits(n / 10).push(digit_char(n % 10))
    }
}

/// How `Display` renders an integer: an optional minus sign and the digits.
pub open spec fn decimal(n: int) -> Seq<char> {
    if n < 0 {
        seq!['-'] + decimal_digits((-n) as nat)
    } else {
        decimal_digits(n as nat)
    }
}

fn digit_str(d: u64) -> (r: &'static str)
    requires
        d < 10,
    ensures
        r@ == seq![digit_char(d as nat)],
{
    proof {
        reveal_strlit("0");
        reveal_strlit("1");
        reveal_strlit("2");
        reveal_strlit("3");
        reveal_strlit("4");
        reveal_strlit("5");
        reveal_strlit("6");
        reveal_strlit("7");
        reveal_strlit("8");
        reveal_strlit("9");
    }
    if d == 0 {
        "0"
    } else if d == 1 {
        "1"
    } else if d == 2 {
        "2"
    } else if d == 3 {
        "3"
    } else if d == 4 {
        "4"
    } else if d == 5 {
        "5"
    } else if d == 6 {
        "6"
    } else if d == 7 {
        "7"
    } else if d == 8 {
        "8"
    } else {
        "9"
    }
}

fn push_digits(out: &mut String, n: u64)
    ensures
        final(out)@ == old(out)@ + decimal_digits(n as nat),
    decreases n,
{
    if n >= 10 {
        push_digits(out, n / 10);
    }
    let d = digit_str(n % 10);
    out.append(d);
}

/// The decimal text of an unsigned integer.
pub fn u64_to_decimal(n: u64) -> (r: String)
    ensures
        r@ == decimal(n as int),
{
    let mut out = String::new();
    push_digits(&mut out, n);
    assert(out@ =~= decimal_digits(n as nat));
    out
}

/// The decimal text of a signed integer, as `i64`'s `Display` writes it.
pub fn i64_to_decimal(n: i64) -> (r: String)
    ensures
        r@ == decimal(n as int),
{
    let mut out = String::new();
    if n < 0 {
        proof { reveal_strlit("-"); }
        out.append("-");
        let magnitude: u64 = if n == i64::MIN {
            9223372036854775808u64
        } else {
            (-n) as u64
        };
        push_digits(&mut out, magnitude);
        assert(out@ =~= seq!['-'] + decimal_digits((-n) as nat));
    } else {
        push_digits(&mut out, n as u64);
        assert(out@ =~= decimal_digits(n as nat));
    }
    out
}

// ---------------------------------------------------------------------------
// Parsing
// ---------------------------------------------------------------------------

pub open spec fn is_digit(c: char) -> bool {
    '0' <= c && c <= '9'
}

pub open spec fn digit_value(c: char) -> nat {
    ((c as u32) - ('0' as u32)) as nat
}

/// The value of a string of decimal digits, read most significant first.
pub open spec fn digits_value(ds: Seq<char>) -> nat
    decreases ds.len(),
{
    if ds.len() == 0 {
        0
    } else {
        digits_value(ds.drop_last()) * 10 + digit_value(ds.last())
    }
}

/// The length of a leading `+` or `-` sign: 1 if there is one, else 0.
pub open spec fn sign_len(s: Seq<char>) -> int {
    if s.len() > 0 && (s[0] == '+' || s[0] == '-') { 1 } else { 0 }
}

pub open spec fn all_digits(ds: Seq<char>) -> bool {
    forall|i: int| 0 <= i < ds.len() ==> is_digit(#[trigger] ds[i])
}

/// What `str::parse::<i64>` accepts: an optional `+` or `-`, then one or more
/// ASCII digits, with a value that fits in `i64`.
pub open spec fn spec_parse_i64(s: Seq<char>) -> Option<i64> {
    let ds = s.skip(sign_len(s));
    if s.len() == 0 || ds.len() == 0 || !all_digits(ds) {
        None
    } else {
        let v: int = if s[0] == '-' { -(digits_value(ds) as int) } else { digits_value(ds) as int };
        if i64::MIN <= v <= i64::MAX {
            Some(v as i64)
        } else {
            None
        }
    }
}

proof fn lemma_digits_value_prefix(ds: Seq<char>, i: int)
    requires
        0 <= i <= ds.len(),
    ensures
        digits_value(ds.take(i)) <= digits_value(ds),
    decreases ds.len(),
{
    if i < ds.len() {
        lemma_digits_value_prefix(ds.drop_last(), i);
        assert(ds.drop_last().take(i) =~= ds.take(i));
        assert(digits_value(ds.drop_last()) <= digits_value(ds.drop_last()) * 10) by (nonlinear_arith);
    } else {
        assert(ds.take(i) =~= ds);
    }
}

proof fn lemma_parse_large(s: Seq<char>, k: int)
    requires
        s.len() > 0,
        0 <= k <= s.skip(sign_len(s)).len(),
        digits_value(s.skip(sign_len(s)).take(k)) > 9223372036854775808,
    ensures
        spec_parse_i64(s).is_none(),
{
    lemma_digits_value_prefix(s.skip(sign_len(s)), k);
}

/// Parses a decimal integer as `str::parse::<i64>` does; `None` where it errs.
pub fn parse_i64(s: &str) -> (r: Option<i64>)
    ensures
        r == spec_parse_i64(s@),
{
    let len = s.unicode_len();
    if len == 0 {
        return None;
    }
    let first = s.get_char(0);
    let negative = first == '-';
    let start: usize = if first == '+' || first == '-' { 1 } else { 0 };
    let ghost ds = s@.skip(sign_len(s@));
    assert(start == sign_len(s@));
    if start == len {
        return None;
    }
    let mut value: i128 = 0;
    let mut i: usize = start;
    while i < len
        invariant
            len == s@.len(),
            s@.len() > 0,
            start == sign_len(s@),
            start <= i <= len,
            ds == s@.skip(start as int),
            negative == (s@[0] == '-'),
            forall|k: int| 0 <= k < i - start ==> is_digit(#[trigger] ds[k]),
            value == digits_value(ds.take(i - start)),
            value <= 9223372036854775808,
        decreases len - i,
    {
        let c = s.get_char(i);
        if !('0' <= c && c <= '9') {
            assert(ds[i - start] == c);
            assert(!is_digit(ds[i - start]));
            assert(!all_digits(ds));
            return None;
        }
        let d = (c as u32 - '0' as u32) as i128;
        assert(ds.take(i - start + 1).drop_last() =~= ds.take(i - start));
        assert(ds.take(i - start + 1).last() == c);
        value = value * 10 + d;
        if value > 9223372036854775808 {
            proof {
                lemma_parse_large(s@, i - start + 1);
            }
            return None;
        }
        i = i + 1;
    }
    assert(ds.take(i - start) =~= ds);
    assert(all_digits(ds));
    if negative {
        Some((-value) as i64)
    } else if value <= 9223372036854775807 {
        Some(value as i64)
    } else {
        None
    }
}

/// What `str::parse::<bool>` accepts: exactly `true` or `false`.
pub open spec fn spec_parse_bool(s: Seq<char>) -> Option<bool> {
    if s == seq!['t', 'r', 'u', 'e'] {
        Some(true)
    } else if s == seq!['f', 'a', 'l', 's', 'e'] {
        Some(false)
    } else {
        None
    }
}

/// Parses `true` or `false` as `str::parse::<bool>` does; `None` otherwise.
pub fn parse_bool(s: &str) -> (r: Option<bool>)
    ensures
        r == spec_parse_bool(s@),
{
    proof {
        reveal_strlit("true");
        reveal_strlit("false");
    }
    if text_eq(s, "true") {
        assert("true"@ =~= seq!['t', 'r', 'u', 'e']);
        Some(true)
    } else if text_eq(s, "false") {
        assert("false"@ =~= seq!['f', 'a', 'l', 's', 'e']);
        Some(false)
    } else {
        assert("true"@ =~= seq!['t', 'r', 'u', 'e']);
        assert("false"@ =~= seq!['f', 'a', 'l', 's', 'e']);
        None
    }
}

} // verus!
