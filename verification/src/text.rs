//! Text: decimal and hexadecimal rendering, integer parsing, splitting,
//! searching, ordering and path joining, all stated over sequences of
//! characters.
use vstd::prelude::*;

verus! {

/// `String::push` puts the character behind the text.
pub assume_specification[ String::push ](s: &mut String, ch: char)
    ensures
        final(s)@ == old(s)@.push(ch),
;

// ---------------------------------------------------------------------------
// Characters
// ---------------------------------------------------------------------------

/// The texts of a list of strings.
pub open spec fn views(v: Seq<String>) -> Seq<Seq<char>> {
    Seq::new(v.len(), |i: int| v[i]@)
}

/// The characters of `s`, in order.
pub fn to_chars(s: &str) -> (v: Vec<char>)
    ensures
        v@ == s@,
{
    let mut v: Vec<char> = Vec::new();
    for c in it: s.chars()
        invariant
            v@ == it.history(),
            it.seq() == s@,
    {
        v.push(c);
    }
    v
}

/// The text made of `chars[from..to]`.
pub fn slice_text(chars: &[char], from: usize, to: usize) -> (s: String)
    requires
        from <= to <= chars.len(),
    ensures
        s@ == chars@.subrange(from as int, to as int),
{
    let mut s = String::new();
    let mut i: usize = from;
    while i < to
        invariant
            from <= i <= to <= chars.len(),
            s@ == chars@.subrange(from as int, i as int),
        decreases to - i,
    {
        s.push(chars[i]);
        i = i + 1;
        assert(chars@.subrange(from as int, i as int) =~= chars@.subrange(
            from as int,
            i - 1,
        ).push(chars@[i - 1]));
    }
    s
}

/// Whether two texts hold the same characters.
pub fn same(a: &str, b: &str) -> (r: bool)
    ensures
        r == (a@ == b@),
{
    a.to_owned() == b.to_owned()
}

/// A copy of a list of strings.
pub fn copy_strings(v: &Vec<String>) -> (r: Vec<String>)
    ensures
        views(r@) == views(v@),
{
    let mut r: Vec<String> = Vec::new();
    let mut i: usize = 0;
    while i < v.len()
        invariant
            i <= v.len(),
            r@.len() == i,
            forall|k: int| 0 <= k < i ==> r@[k]@ == v@[k]@,
        decreases v.len() - i,
    {
        r.push(v[i].clone());
        i = i + 1;
    }
    assert(views(r@) =~= views(v@));
    r
}

// ---------------------------------------------------------------------------
// Decimal and hexadecimal digits
// ---------------------------------------------------------------------------

/// The decimal digit for `d` (`0..=9`).
pub open spec fn digit(d: int) -> char {
    (48 + d) as u8 as char
}

/// The lowercase hexadecimal digit for `d` (`0..=15`).
pub open spec fn hex_digit(d: int) -> char {
    if d < 10 {
        (48 + d) as u8 as char
    } else {
        (87 + d) as u8 as char
    }
}

/// `n` in decimal, without leading zeros.
pub open spec fn dec(n: nat) -> Seq<char>
    decreases n,
{
    if n < 10 {
        seq![digit(n as int)]
    } else {
        dec(n / 10).push(digit((n % 10) as int))
    }
}

/// `i` in decimal, with a leading `-` when negative.
pub open spec fn dec_int(i: int) -> Seq<char> {
    if i < 0 {
        seq!['-'] + dec((-i) as nat)
    } else {
        dec(i as nat)
    }
}

/// `s` with zeros in front up to `width` characters.
pub open spec fn zero_padded(s: Seq<char>, width: nat) -> Seq<char> {
    if s.len() < width {
        Seq::new((width - s.len()) as nat, |i: int| '0') + s
    } else {
        s
    }
}

/// `i` in decimal, filled with zeros (behind the sign) up to `width`.
pub open spec fn padded_int(i: int, width: nat) -> Seq<char>
    recommends
        width > 0,
{
    if i < 0 {
        seq!['-'] + zero_padded(dec((-i) as nat), (width - 1) as nat)
    } else {
        zero_padded(dec(i as nat), width)
    }
}

/// The lowest `width` hexadecimal digits of `n`.
pub open spec fn hex(n: nat, width: nat) -> Seq<char>
    decreases width,
{
    if width == 0 {
        Seq::empty()
    } else {
        hex(n / 16, (width - 1) as nat).push(hex_digit((n % 16) as int))
    }
}

/// Appends `n` in decimal.
pub fn push_dec(out: &mut String, n: u64)
    ensures
        final(out)@ == old(out)@ + dec(n as nat),
    decreases n,
{
    if n >= 10 {
        push_dec(out, n / 10);
    }
    out.push((48u8 + (n % 10) as u8) as char);
    assert(out@ =~= old(out)@ + dec(n as nat));
}

/// Appends `n` in decimal.
pub fn push_dec_wide(out: &mut String, n: u128)
    ensures
        final(out)@ == old(out)@ + dec(n as nat),
    decreases n,
{
    if n >= 10 {
        push_dec_wide(out, n / 10);
    }
    out.push((48u8 + (n % 10) as u8) as char);
    assert(out@ =~= old(out)@ + dec(n as nat));
}

/// The magnitude of `i` as an unsigned number.
fn magnitude(i: i64) -> (m: u64)
    ensures
        m == if i < 0 {
            -i as int
        } else {
            i as int
        },
{
    if i >= 0 {
        i as u64
    } else {
        ((-(i + 1)) as u64) + 1
    }
}

/// Appends `i` in decimal, with its sign when negative.
pub fn push_dec_int(out: &mut String, i: i64)
    ensures
        final(out)@ == old(out)@ + dec_int(i as int),
{
    if i < 0 {
        out.push('-');
    }
    push_dec(out, magnitude(i));
    assert(out@ =~= old(out)@ + dec_int(i as int));
}

/// Appends the text `s`.
pub fn push_text(out: &mut String, s: &str)
    ensures
        final(out)@ == old(out)@ + s@,
{
    out.append(s);
}

/// `n` in decimal.
pub fn dec_string(n: u64) -> (s: String)
    ensures
        s@ == dec(n as nat),
{
    let mut s = String::new();
    push_dec(&mut s, n);
    assert(s@ =~= dec(n as nat));
    s
}

/// Number of decimal digits of `n`.
fn dec_len(n: u64) -> (k: usize)
    ensures
        k == dec(n as nat).len(),
        1 <= k <= 20,
{
    proof {
        lemma_dec_len(n as nat);
    }
    let mut k: usize = 1;
    let mut m: u64 = n;
    while m >= 10
        invariant
            k + dec(m as nat).len() == dec(n as nat).len() + 1,
            1 <= k,
            dec(n as nat).len() <= 20,
            dec(m as nat).len() >= 1,
        ensures
            m < 10,
        decreases m,
    {
        m = m / 10;
        k = k + 1;
        proof {
            lemma_dec_nonempty(m as nat);
        }
    }
    k
}

proof fn lemma_dec_nonempty(n: nat)
    ensures
        dec(n).len() >= 1,
{
}

/// A number of at most `k + 1` digits has at most `k + 1` decimal digits.
proof fn lemma_dec_len_bound(n: nat, k: nat)
    requires
        n < pow10(k + 1),
    ensures
        1 <= dec(n).len() <= k + 1,
    decreases k,
{
    if n >= 10 {
        if k == 0 {
            assert(pow10(1) == 10 * pow10(0));
        } else {
            assert(pow10(k + 1) == 10 * pow10(k));
            lemma_dec_len_bound(n / 10, (k - 1) as nat);
        }
    }
}

/// Ten to the power `k`.
pub open spec fn pow10(k: nat) -> nat
    decreases k,
{
    if k == 0 {
        1
    } else {
        10 * pow10((k - 1) as nat)
    }
}

proof fn lemma_dec_len(n: nat)
    requires
        n <= u64::MAX,
    ensures
        1 <= dec(n).len() <= 20,
{
    assert(pow10(20) == 100_000_000_000_000_000_000) by {
        reveal_with_fuel(pow10, 21);
    }
    lemma_dec_len_bound(n, 19);
}

/// Appends `n` in decimal, filled with zeros up to `width`.
pub fn push_padded(out: &mut String, n: u64, width: usize)
    ensures
        final(out)@ == old(out)@ + zero_padded(dec(n as nat), width as nat),
{
    let len: usize = dec_len(n);
    let ghost start = out@;
    let mut i: usize = len;
    while i < width
        invariant
            len <= i,
            i <= width || i == len,
            out@ == start + Seq::new((i - len) as nat, |j: int| '0'),
        decreases width - i,
    {
        out.push('0');
        i = i + 1;
        assert(out@ =~= start + Seq::new((i - len) as nat, |j: int| '0'));
    }
    push_dec(out, n);
    assert(out@ =~= start + zero_padded(dec(n as nat), width as nat));
}

/// Appends `i` in decimal, filled with zeros behind the sign up to `width`.
pub fn push_padded_int(out: &mut String, i: i64, width: usize)
    requires
        width > 0,
    ensures
        final(out)@ == old(out)@ + padded_int(i as int, width as nat),
{
    if i < 0 {
        out.push('-');
        push_padded(out, magnitude(i), width - 1);
    } else {
        push_padded(out, i as u64, width);
    }
    assert(out@ =~= old(out)@ + padded_int(i as int, width as nat));
}

/// Appends the lowest `width` hexadecimal digits of `n`.
pub fn push_hex(out: &mut String, n: u64, width: usize)
    ensures
        final(out)@ == old(out)@ + hex(n as nat, width as nat),
    decreases width,
{
    if width > 0 {
        push_hex(out, n / 16, width - 1);
        let d: u8 = (n % 16) as u8;
        if d < 10 {
            out.push((48u8 + d) as char);
        } else {
            out.push((87u8 + d) as char);
        }
    }
    assert(out@ =~= old(out)@ + hex(n as nat, width as nat));
}

/// The sixteen hexadecimal digits of `n`.
pub fn hex16(n: u64) -> (s: String)
    ensures
        s@ == hex(n as nat, 16),
{
    let mut s = String::new();
    push_hex(&mut s, n, 16);
    assert(s@ =~= hex(n as nat, 16));
    s
}

/// The eight hexadecimal digits of `n`.
pub fn hex8(n: u32) -> (s: String)
    ensures
        s@ == hex(n as nat, 8),
{
    let mut s = String::new();
    push_hex(&mut s, n as u64, 8);
    assert(s@ =~= hex(n as nat, 8));
    s
}

// ---------------------------------------------------------------------------
// Parsing integers
// ---------------------------------------------------------------------------

/// Whether `c` is an ASCII decimal digit.
pub open spec fn is_digit(c: char) -> bool {
    '0' <= c <= '9'
}

/// Whether every character of `s` is an ASCII decimal digit.
pub open spec fn all_digits(s: Seq<char>) -> bool {
    forall|i: int| 0 <= i < s.len() ==> is_digit(#[trigger] s[i])
}

/// The number that the decimal digits `s` denote.
pub open spec fn dec_value(s: Seq<char>) -> nat
    decreases s.len(),
{
    if s.len() == 0 {
        0
    } else {
        (10 * dec_value(s.drop_last()) + (s.last() as int - 48)) as nat
    }
}

/// What `s` denotes as an unsigned decimal number of at most `hi`: digits,
/// with an optional `+` in front.
pub open spec fn parse_nat(s: Seq<char>, hi: int) -> Option<nat> {
    let body = if s.len() > 0 && s[0] == '+' {
        s.skip(1)
    } else {
        s
    };
    if body.len() > 0 && all_digits(body) && dec_value(body) <= hi {
        Some(dec_value(body))
    } else {
        None
    }
}

/// What `s` denotes as a signed decimal number within `lo..=hi`: digits, with
/// an optional `+` or `-` in front.
pub open spec fn parse_int(s: Seq<char>, lo: int, hi: int) -> Option<int> {
    let negative = s.len() > 0 && s[0] == '-';
    let body = if s.len() > 0 && (s[0] == '+' || s[0] == '-') {
        s.skip(1)
    } else {
        s
    };
    let value = if negative {
        -(dec_value(body) as int)
    } else {
        dec_value(body) as int
    };
    if body.len() > 0 && all_digits(body) && lo <= value <= hi {
        Some(value)
    } else {
        None
    }
}

proof fn lemma_dec_value_monotone(s: Seq<char>, k: int)
    requires
        all_digits(s),
        0 <= k <= s.len(),
    ensures
        dec_value(s.take(k)) <= dec_value(s),
    decreases s.len(),
{
    if k < s.len() {
        assert(is_digit(s[s.len() - 1]));
        assert(all_digits(s.drop_last()));
        assert(s.drop_last().take(k) =~= s.take(k));
        lemma_dec_value_monotone(s.drop_last(), k);
    } else {
        assert(s.take(k) =~= s);
    }
}

/// The value of the digits `chars[from..]` when there is at least one, all
/// are digits and the value is at most `limit`.
fn parse_digits(chars: &Vec<char>, from: usize, limit: u64) -> (r: Option<u64>)
    requires
        from <= chars.len(),
    ensures
        ({
            let body = chars@.skip(from as int);
            match r {
                Some(v) => body.len() > 0 && all_digits(body) && v == dec_value(body)
                    && dec_value(body) <= limit,
                None => !(body.len() > 0 && all_digits(body) && dec_value(body) <= limit),
            }
        }),
{
    let ghost body = chars@.skip(from as int);
    if from == chars.len() {
        return None;
    }
    let mut acc: u64 = 0;
    let mut i: usize = from;
    while i < chars.len()
        invariant
            from <= i <= chars.len(),
            body == chars@.skip(from as int),
            all_digits(body.take(i - from)),
            acc == dec_value(body.take(i - from)),
            acc <= limit,
        decreases chars.len() - i,
    {
        let c: char = chars[i];
        let ghost k = i - from;
        assert(body[k] == c);
        if c < '0' || c > '9' {
            assert(!all_digits(body));
            return None;
        }
        let d: u64 = (c as u64) - 48;
        assert(body.take(k + 1).drop_last() =~= body.take(k));
        assert(body.take(k + 1).last() == c);
        assert(dec_value(body.take(k + 1)) == 10 * acc + d);
        if acc > limit / 10 || (acc == limit / 10 && d > limit % 10) {
            proof {
                assert(10 * acc + d > limit) by (nonlinear_arith)
                    requires
                        acc > limit / 10 || (acc == limit / 10 && d > limit % 10),
                        d >= 0,
                ;
                if all_digits(body) {
                    lemma_dec_value_monotone(body, k + 1);
                }
            }
            return None;
        }
        assert(10 * acc + d <= limit) by (nonlinear_arith)
            requires
                acc <= limit / 10,
                acc == limit / 10 ==> d <= limit % 10,
                0 <= d <= 9,
        ;
        acc = acc * 10 + d;
        i = i + 1;
        assert(all_digits(body.take(k + 1))) by {
            assert forall|j: int| 0 <= j < k + 1 implies is_digit(
                #[trigger] body.take(k + 1)[j],
            ) by {
                if j < k {
                    assert(body.take(k)[j] == body.take(k + 1)[j]);
                }
            }
        }
    }
    assert(body.take(body.len() as int) =~= body);
    Some(acc)
}

/// Parses an unsigned decimal number of at most `limit`.
pub fn parse_u64_max(s: &str, limit: u64) -> (r: Option<u64>)
    ensures
        match r {
            Some(v) => parse_nat(s@, limit as int) == Some(v as nat),
            None => parse_nat(s@, limit as int) is None,
        },
{
    let chars = to_chars(s);
    if chars.len() > 0 && chars[0] == '+' {
        parse_digits(&chars, 1, limit)
    } else {
        assert(chars@.skip(0) =~= chars@);
        parse_digits(&chars, 0, limit)
    }
}

/// Parses a `u64`.
pub fn parse_u64(s: &str) -> (r: Option<u64>)
    ensures
        match r {
            Some(v) => parse_nat(s@, u64::MAX as int) == Some(v as nat),
            None => parse_nat(s@, u64::MAX as int) is None,
        },
{
    parse_u64_max(s, u64::MAX)
}

/// Parses a `u32`.
pub fn parse_u32(s: &str) -> (r: Option<u32>)
    ensures
        match r {
            Some(v) => parse_nat(s@, u32::MAX as int) == Some(v as nat),
            None => parse_nat(s@, u32::MAX as int) is None,
        },
{
    match parse_u64_max(s, u32::MAX as u64) {
        Some(v) => Some(v as u32),
        None => None,
    }
}

/// Parses an `i64`.
pub fn parse_i64(s: &str) -> (r: Option<i64>)
    ensures
        match r {
            Some(v) => parse_int(s@, i64::MIN as int, i64::MAX as int) == Some(v as int),
            None => parse_int(s@, i64::MIN as int, i64::MAX as int) is None,
        },
{
    let chars = to_chars(s);
    if chars.len() > 0 && chars[0] == '-' {
        match parse_digits(&chars, 1, 9_223_372_036_854_775_808) {
            Some(v) => {
                if v == 9_223_372_036_854_775_808 {
                    Some(i64::MIN)
                } else {
                    Some(-(v as i64))
                }
            },
            None => None,
        }
    } else {
        let from: usize = if chars.len() > 0 && chars[0] == '+' {
            1
        } else {
            0
        };
        assert(chars@.skip(0) =~= chars@);
        match parse_digits(&chars, from, i64::MAX as u64) {
            Some(v) => Some(v as i64),
            None => None,
        }
    }
}

/// Rendering a number in decimal and reading it back gives the number.
pub proof fn law_dec_round_trip(n: nat)
    ensures
        all_digits(dec(n)),
        dec_value(dec(n)) == n,
        dec(n).len() > 0,
        parse_nat(dec(n), n as int) == Some(n),
    decreases n,
{
    if n < 10 {
        assert(dec(n).drop_last() =~= Seq::<char>::empty());
        assert(dec_value(dec(n).drop_last()) == 0);
    } else {
        law_dec_round_trip(n / 10);
        assert(dec(n).drop_last() =~= dec(n / 10));
        assert forall|i: int| 0 <= i < dec(n).len() implies is_digit(#[trigger] dec(n)[i]) by {
            if i < dec(n / 10).len() {
                assert(dec(n)[i] == dec(n / 10)[i]);
                assert(is_digit(dec(n / 10)[i]));
            }
        }
    }
    assert(is_digit(dec(n)[0]));
}

/// Rendering a signed number in decimal and reading it back gives the number.
pub proof fn law_dec_int_round_trip(i: int)
    ensures
        parse_int(dec_int(i), i, i) == Some(i),
{
    if i < 0 {
        law_dec_round_trip((-i) as nat);
        assert(dec_int(i).skip(1) =~= dec((-i) as nat));
    } else {
        law_dec_round_trip(i as nat);
        assert(is_digit(dec(i as nat)[0]));
    }
}

// ---------------------------------------------------------------------------
// Searching and splitting
// ---------------------------------------------------------------------------

/// Whether `s` begins with `prefix`.
pub open spec fn starts(s: Seq<char>, prefix: Seq<char>) -> bool {
    prefix.len() <= s.len() && s.take(prefix.len() as int) == prefix
}

/// Whether `s` ends with `suffix`.
pub open spec fn ends(s: Seq<char>, suffix: Seq<char>) -> bool {
    suffix.len() <= s.len() && s.skip(s.len() - suffix.len()) == suffix
}

/// Whether `part` occurs in `s` at position `i`.
pub open spec fn occurs_at(s: Seq<char>, part: Seq<char>, i: int) -> bool {
    0 <= i && i + part.len() <= s.len() && s.subrange(i, i + part.len()) == part
}

/// Whether `part` occurs somewhere in `s`.
pub open spec fn contains(s: Seq<char>, part: Seq<char>) -> bool {
    exists|i: int| occurs_at(s, part, i)
}

/// Whether `part` stands in `s` at position `at`.
fn matches_at(s: &Vec<char>, part: &Vec<char>, at: usize) -> (r: bool)
    requires
        at <= s.len(),
    ensures
        r == occurs_at(s@, part@, at as int),
{
    if part.len() > s.len() - at {
        return false;
    }
    let mut i: usize = 0;
    while i < part.len()
        invariant
            at <= s.len(),
            part.len() <= s.len() - at,
            i <= part.len(),
            forall|k: int| 0 <= k < i ==> s@[at + k] == part@[k],
        decreases part.len() - i,
    {
        if s[at + i] != part[i] {
            assert(s@.subrange(at as int, at + part@.len())[i as int] != part@[i as int]);
            return false;
        }
        i = i + 1;
    }
    assert(s@.subrange(at as int, at + part@.len()) =~= part@);
    true
}

/// Whether `s` begins with `prefix`.
pub fn starts_with(s: &str, prefix: &str) -> (r: bool)
    ensures
        r == starts(s@, prefix@),
{
    let a = to_chars(s);
    let b = to_chars(prefix);
    assert(b.len() <= a.len() ==> a@.subrange(0, b@.len() as int) =~= a@.take(b@.len() as int));
    matches_at(&a, &b, 0)
}

/// Whether `s` ends with `suffix`.
pub fn ends_with(s: &str, suffix: &str) -> (r: bool)
    ensures
        r == ends(s@, suffix@),
{
    let a = to_chars(s);
    let b = to_chars(suffix);
    if b.len() > a.len() {
        return false;
    }
    assert(a@.subrange(a@.len() - b@.len(), a@.len() as int) =~= a@.skip(a@.len() - b@.len()));
    let at: usize = a.len() - b.len();
    matches_at(&a, &b, at)
}

/// Whether `part` occurs in `s`.
pub fn contains_text(s: &str, part: &str) -> (r: bool)
    ensures
        r == contains(s@, part@),
{
    let a = to_chars(s);
    let b = to_chars(part);
    if b.len() > a.len() {
        return false;
    }
    let last: usize = a.len() - b.len();
    let mut i: usize = 0;
    while i <= last
        invariant
            last == a.len() - b.len(),
            i <= last + 1,
            a@ == s@,
            b@ == part@,
            forall|k: int| 0 <= k < i ==> !occurs_at(s@, part@, k),
        decreases last + 1 - i,
    {
        if matches_at(&a, &b, i) {
            return true;
        }
        if i == last {
            assert(forall|k: int| occurs_at(s@, part@, k) ==> k <= last);
            return false;
        }
        i = i + 1;
    }
    false
}

/// `s` without `prefix` in front, when it begins with it.
pub fn strip_prefix(s: &str, prefix: &str) -> (r: Option<String>)
    ensures
        match r {
            Some(t) => starts(s@, prefix@) && t@ == s@.skip(prefix@.len() as int),
            None => !starts(s@, prefix@),
        },
{
    if starts_with(s, prefix) {
        let a = to_chars(s);
        let b = to_chars(prefix);
        assert(a@.subrange(b@.len() as int, a@.len() as int) =~= a@.skip(b@.len() as int));
        Some(slice_text(a.as_slice(), b.len(), a.len()))
    } else {
        None
    }
}

/// The pieces of `s` between occurrences of `sep`; always at least one.
pub open spec fn split_on(s: Seq<char>, sep: char) -> Seq<Seq<char>>
    decreases s.len(),
{
    if s.len() == 0 {
        seq![Seq::empty()]
    } else {
        let before = split_on(s.drop_last(), sep);
        if s.last() == sep {
            before.push(Seq::empty())
        } else {
            before.drop_last().push(before.last().push(s.last()))
        }
    }
}

/// The pieces put together again, with `sep` between them.
pub open spec fn join_with(parts: Seq<Seq<char>>, sep: Seq<char>) -> Seq<char>
    decreases parts.len(),
{
    if parts.len() == 0 {
        Seq::empty()
    } else if parts.len() == 1 {
        parts[0]
    } else {
        join_with(parts.drop_last(), sep) + sep + parts.last()
    }
}

pub proof fn lemma_split_nonempty(s: Seq<char>, sep: char)
    ensures
        split_on(s, sep).len() >= 1,
    decreases s.len(),
{
    if s.len() > 0 {
        lemma_split_nonempty(s.drop_last(), sep);
    }
}

/// Joining the pieces of a text with the separator gives the text back.
pub proof fn law_split_join(s: Seq<char>, sep: char)
    ensures
        split_on(s, sep).len() >= 1,
        join_with(split_on(s, sep), seq![sep]) == s,
    decreases s.len(),
{
    if s.len() == 0 {
        assert(split_on(s, sep)[0] =~= s);
    } else {
        let head = s.drop_last();
        let before = split_on(head, sep);
        law_split_join(head, sep);
        assert(head.push(s.last()) =~= s);
        if s.last() == sep {
            assert(before.push(Seq::<char>::empty()).drop_last() =~= before);
            assert(join_with(before, seq![sep]) + seq![sep] + Seq::<char>::empty() =~= s);
        } else {
            let after = before.drop_last().push(before.last().push(s.last()));
            assert(after.drop_last() =~= before.drop_last());
            if before.len() == 1 {
                assert(after[0] =~= s);
            } else {
                assert(join_with(before.drop_last(), seq![sep]) + seq![sep] + before.last().push(
                    s.last(),
                ) =~= s);
            }
        }
    }
}

/// Zeros in front do not change the number that digits denote.
pub proof fn lemma_zeros_value(k: nat, s: Seq<char>)
    requires
        all_digits(s),
    ensures
        all_digits(Seq::new(k, |i: int| '0') + s),
        dec_value(Seq::new(k, |i: int| '0') + s) == dec_value(s),
    decreases s.len(), k,
{
    let z = Seq::new(k, |i: int| '0');
    if s.len() > 0 {
        assert(is_digit(s[s.len() - 1]));
        lemma_zeros_value(k, s.drop_last());
        assert((z + s).drop_last() =~= z + s.drop_last());
        assert forall|i: int| 0 <= i < (z + s).len() implies is_digit(#[trigger] (z + s)[i]) by {
            if i >= k {
                assert(is_digit(s[i - k]));
            }
        }
    } else if k > 0 {
        let z1 = Seq::new((k - 1) as nat, |i: int| '0');
        lemma_zeros_value((k - 1) as nat, s);
        assert((z + s).drop_last() =~= z1 + s);
    }
}

/// A padded number consists of digits that denote it.
pub proof fn lemma_padded_digits(n: nat, width: nat)
    ensures
        all_digits(zero_padded(dec(n), width)),
        dec_value(zero_padded(dec(n), width)) == n,
        zero_padded(dec(n), width).len() > 0,
        zero_padded(dec(n), width).len() >= width,
        n <= 99 ==> zero_padded(dec(n), 2).len() == 2,
        n <= 9_999 ==> zero_padded(dec(n), 4).len() == 4,
{
    reveal_with_fuel(dec, 5);
    law_dec_round_trip(n);
    if dec(n).len() < width {
        lemma_zeros_value((width - dec(n).len()) as nat, dec(n));
    }
}

/// The pieces of `s` between occurrences of `sep`.
pub fn split_text(s: &str, sep: char) -> (r: Vec<String>)
    ensures
        views(r@) == split_on(s@, sep),
        r@.len() >= 1,
{
    let chars = to_chars(s);
    let mut r: Vec<String> = Vec::new();
    let mut cur = String::new();
    let mut i: usize = 0;
    assert(views(r@).push(cur@) =~= split_on(s@.take(0), sep)) by {
        assert(s@.take(0).len() == 0);
    }
    while i < chars.len()
        invariant
            i <= chars.len(),
            chars@ == s@,
            views(r@).push(cur@) == split_on(s@.take(i as int), sep),
        decreases chars.len() - i,
    {
        let c: char = chars[i];
        let ghost before = views(r@).push(cur@);
        let ghost next = s@.take(i + 1);
        assert(next.drop_last() =~= s@.take(i as int));
        assert(next.last() == c);
        assert(before.drop_last() =~= views(r@));
        if c == sep {
            let ghost r0 = r@;
            let ghost cur0 = cur@;
            r.push(cur);
            cur = String::new();
            assert(views(r@) =~= views(r0).push(cur0));
        } else {
            cur.push(c);
        }
        assert(views(r@).push(cur@) =~= split_on(next, sep));
        i = i + 1;
    }
    assert(s@.take(s@.len() as int) =~= s@);
    let ghost r0 = r@;
    let ghost cur0 = cur@;
    r.push(cur);
    assert(views(r@) =~= views(r0).push(cur0));
    r
}

/// Appends the texts of `parts`, with `sep` between them.
pub fn join_texts(parts: &Vec<String>, sep: &str) -> (r: String)
    ensures
        r@ == join_with(views(parts@), sep@),
{
    let mut r = String::new();
    let mut i: usize = 0;
    assert(views(parts@).take(0).len() == 0);
    while i < parts.len()
        invariant
            i <= parts.len(),
            r@ == join_with(views(parts@).take(i as int), sep@),
        decreases parts.len() - i,
    {
        let ghost next = views(parts@).take(i + 1);
        assert(next.drop_last() =~= views(parts@).take(i as int));
        assert(next.last() == parts@[i as int]@);
        if i > 0 {
            push_text(&mut r, sep);
        }
        push_text(&mut r, parts[i].as_str());
        assert(r@ =~= join_with(next, sep@));
        i = i + 1;
    }
    assert(views(parts@).take(parts@.len() as int) =~= views(parts@));
    r
}

// ---------------------------------------------------------------------------
// Case, whitespace and lines
// ---------------------------------------------------------------------------

/// `c` in lower case, if it is an ASCII letter.
pub open spec fn ascii_lower(c: char) -> char {
    if 'A' <= c <= 'Z' {
        (c as u8 + 32) as u8 as char
    } else {
        c
    }
}

/// `s` with its ASCII letters in lower case.
pub open spec fn lowered(s: Seq<char>) -> Seq<char> {
    Seq::new(s.len(), |i: int| ascii_lower(s[i]))
}

/// `c` in lower case, if it is an ASCII letter.
pub fn lower_char(c: char) -> (r: char)
    ensures
        r == ascii_lower(c),
{
    if 'A' <= c && c <= 'Z' {
        (c as u8 + 32) as char
    } else {
        c
    }
}

/// `s` with its ASCII letters in lower case.
pub fn lower_text(s: &str) -> (r: String)
    ensures
        r@ == lowered(s@),
{
    let c = to_chars(s);
    let mut r = String::new();
    let mut i: usize = 0;
    while i < c.len()
        invariant
            i <= c@.len(),
            r@ =~= lowered(c@).take(i as int),
        decreases c@.len() - i,
    {
        r.push(lower_char(c[i]));
        i = i + 1;
    }
    assert(lowered(c@).take(i as int) =~= lowered(c@));
    r
}

/// The characters that Unicode counts as white space.
pub open spec fn is_white(c: char) -> bool {
    let n = c as u32;
    (9 <= n <= 13) || n == 0x20 || n == 0x85 || n == 0xA0 || n == 0x1680 || (0x2000 <= n <= 0x200A)
        || n == 0x2028 || n == 0x2029 || n == 0x202F || n == 0x205F || n == 0x3000
}

fn white(c: char) -> (r: bool)
    ensures
        r == is_white(c),
{
    let n: u32 = c as u32;
    (9 <= n && n <= 13) || n == 0x20 || n == 0x85 || n == 0xA0 || n == 0x1680 || (0x2000 <= n && n
        <= 0x200A) || n == 0x2028 || n == 0x2029 || n == 0x202F || n == 0x205F || n == 0x3000
}

/// `s` without white space at its end.
pub open spec fn trim_back(s: Seq<char>) -> Seq<char>
    decreases s.len(),
{
    if s.len() > 0 && is_white(s.last()) {
        trim_back(s.drop_last())
    } else {
        s
    }
}

/// `s` without white space in front.
pub open spec fn trim_front(s: Seq<char>) -> Seq<char>
    decreases s.len(),
{
    if s.len() > 0 && is_white(s[0]) {
        trim_front(s.skip(1))
    } else {
        s
    }
}

/// `s` without white space at either end.
pub open spec fn trimmed(s: Seq<char>) -> Seq<char> {
    trim_front(trim_back(s))
}

/// `s` without white space at either end.
pub fn trim_text(s: &str) -> (r: String)
    ensures
        r@ == trimmed(s@),
{
    let c = to_chars(s);
    let mut end: usize = c.len();
    assert(c@.take(end as int) =~= c@);
    while end > 0 && white(c[end - 1])
        invariant
            end <= c@.len(),
            trim_back(c@) == trim_back(c@.take(end as int)),
        ensures
            end <= c@.len(),
            trim_back(c@) == trim_back(c@.take(end as int)),
            end > 0 ==> !is_white(c@[end - 1]),
        decreases end,
    {
        assert(c@.take(end as int).drop_last() =~= c@.take(end - 1));
        end = end - 1;
    }
    let ghost body = c@.take(end as int);
    assert(trim_back(c@) == body);
    let mut from: usize = 0;
    assert(body.skip(0) =~= body);
    while from < end && white(c[from])
        invariant
            from <= end <= c@.len(),
            body == c@.take(end as int),
            trim_front(body) == trim_front(body.skip(from as int)),
        ensures
            from <= end,
            trim_front(body) == trim_front(body.skip(from as int)),
            from < end ==> !is_white(c@[from as int]),
        decreases end - from,
    {
        assert(body.skip(from as int).skip(1) =~= body.skip(from + 1));
        from = from + 1;
    }
    assert(c@.subrange(from as int, end as int) =~= body.skip(from as int));
    slice_text(c.as_slice(), from, end)
}

/// `s` without one carriage return at its end.
pub open spec fn without_return(s: Seq<char>) -> Seq<char> {
    if s.len() > 0 && s.last() == '\r' {
        s.drop_last()
    } else {
        s
    }
}

/// The lines of a text: its pieces between line feeds, where a line feed at
/// the end begins no further line, and a carriage return before a line feed
/// belongs to it.
pub open spec fn lines_of(s: Seq<char>) -> Seq<Seq<char>> {
    let p = split_on(s, '\n');
    let q = if p.last().len() == 0 {
        p.drop_last()
    } else {
        p
    };
    Seq::new(
        q.len(),
        |i: int|
            if i < p.len() - 1 {
                without_return(q[i])
            } else {
                q[i]
            },
    )
}

/// `s` without one carriage return at its end.
fn cut_return(s: &String) -> (r: String)
    ensures
        r@ == without_return(s@),
{
    let c = to_chars(s.as_str());
    let n: usize = c.len();
    if n > 0 && c[n - 1] == '\r' {
        assert(c@.subrange(0, n - 1) =~= s@.drop_last());
        slice_text(c.as_slice(), 0, n - 1)
    } else {
        s.clone()
    }
}

/// The lines of a text.
pub fn split_lines(s: &str) -> (r: Vec<String>)
    ensures
        views(r@) == lines_of(s@),
{
    let parts = split_text(s, '\n');
    let ghost p = split_on(s@, '\n');
    let total: usize = parts.len();
    assert(views(parts@).len() == total);
    let n: usize = if parts[total - 1].as_str().is_empty() {
        total - 1
    } else {
        total
    };
    assert(p[total - 1] == parts@[total - 1]@);
    let ghost want = lines_of(s@);
    let mut r: Vec<String> = Vec::new();
    let mut i: usize = 0;
    while i < n
        invariant
            i <= n <= total,
            total == parts@.len(),
            p == views(parts@),
            p.len() == total,
            want == lines_of(s@),
            p == split_on(s@, '\n'),
            n == want.len(),
            views(r@) == want.take(i as int),
        decreases n - i,
    {
        let ghost r0 = r@;
        assert(p[i as int] == parts@[i as int]@);
        let line = if i + 1 < total {
            cut_return(&parts[i])
        } else {
            parts[i].clone()
        };
        assert(line@ == want[i as int]);
        r.push(line);
        assert(views(r@) =~= views(r0).push(want[i as int]));
        assert(want.take(i + 1) =~= want.take(i as int).push(want[i as int]));
        i = i + 1;
    }
    assert(want.take(n as int) =~= want);
    r
}

// ---------------------------------------------------------------------------
// Order
// ---------------------------------------------------------------------------

/// Whether `a` comes strictly before `b` in character order.
pub open spec fn before(a: Seq<char>, b: Seq<char>) -> bool
    decreases a.len(),
{
    if b.len() == 0 {
        false
    } else if a.len() == 0 {
        true
    } else if a[0] != b[0] {
        a[0] < b[0]
    } else {
        before(a.skip(1), b.skip(1))
    }
}

/// A common beginning does not change the order.
pub proof fn lemma_before_prefix(p: Seq<char>, a: Seq<char>, b: Seq<char>)
    ensures
        before(p + a, p + b) == before(a, b),
    decreases p.len(),
{
    if p.len() == 0 {
        assert(p + a =~= a);
        assert(p + b =~= b);
    } else {
        lemma_before_prefix(p.skip(1), a, b);
        assert((p + a).skip(1) =~= p.skip(1) + a);
        assert((p + b).skip(1) =~= p.skip(1) + b);
    }
}

/// Digits of one length that denote the same number are the same.
pub proof fn lemma_digits_injective(s: Seq<char>, t: Seq<char>)
    requires
        s.len() == t.len(),
        all_digits(s),
        all_digits(t),
        dec_value(s) == dec_value(t),
    ensures
        s == t,
    decreases s.len(),
{
    if s.len() > 0 {
        lemma_drop_last_digits(s);
        lemma_drop_last_digits(t);
        lemma_digits_injective(s.drop_last(), t.drop_last());
        assert(s.last() as int == t.last() as int);
        assert(s =~= s.drop_last().push(s.last()));
        assert(t =~= t.drop_last().push(t.last()));
    } else {
        assert(s =~= t);
    }
}

proof fn lemma_drop_last_digits(s: Seq<char>)
    requires
        s.len() > 0,
        all_digits(s),
    ensures
        all_digits(s.drop_last()),
        is_digit(s.last()),
        0 <= s.last() as int - 48 <= 9,
        dec_value(s) == 10 * dec_value(s.drop_last()) + (s.last() as int - 48),
{
    assert(is_digit(s[s.len() - 1]));
    assert forall|i: int| 0 <= i < s.drop_last().len() implies is_digit(
        #[trigger] s.drop_last()[i],
    ) by {
        assert(is_digit(s[i]));
    }
}

/// Texts that begin with digits of one length stand in the order of the
/// numbers, where these differ.
pub proof fn lemma_digits_before(s: Seq<char>, t: Seq<char>, u: Seq<char>, w: Seq<char>)
    requires
        s.len() == t.len(),
        all_digits(s),
        all_digits(t),
        dec_value(s) < dec_value(t),
    ensures
        before(s + u, t + w),
    decreases s.len(),
{
    if s.len() > 0 {
        let (a, b) = (s.drop_last(), t.drop_last());
        lemma_drop_last_digits(s);
        lemma_drop_last_digits(t);
        let (x, y) = (seq![s.last()] + u, seq![t.last()] + w);
        assert(s + u =~= a + x);
        assert(t + w =~= b + y);
        if dec_value(a) < dec_value(b) {
            lemma_digits_before(a, b, x, y);
        } else {
            assert(dec_value(a) == dec_value(b));
            lemma_digits_injective(a, b);
            assert(s.last() < t.last());
            lemma_before_prefix(a, x, y);
        }
    }
}

pub proof fn lemma_before_total(a: Seq<char>, b: Seq<char>)
    ensures
        before(a, b) || before(b, a) || a == b,
        before(a, b) ==> !before(b, a) && a != b,
    decreases a.len(),
{
    if a.len() > 0 && b.len() > 0 {
        if a[0] == b[0] {
            lemma_before_total(a.skip(1), b.skip(1));
            if a.skip(1) == b.skip(1) {
                assert(a =~= seq![a[0]] + a.skip(1));
                assert(b =~= seq![b[0]] + b.skip(1));
            }
        }
    } else if a.len() == 0 && b.len() == 0 {
        assert(a =~= b);
    }
}

pub proof fn lemma_before_transitive(a: Seq<char>, b: Seq<char>, c: Seq<char>)
    requires
        before(a, b),
        before(b, c),
    ensures
        before(a, c),
    decreases a.len(),
{
    if a.len() > 0 && a[0] == b[0] && b[0] == c[0] {
        lemma_before_transitive(a.skip(1), b.skip(1), c.skip(1));
    }
}

/// Whether `a` comes strictly before `b` in character order.
pub fn text_before(a: &str, b: &str) -> (r: bool)
    ensures
        r == before(a@, b@),
{
    let x = to_chars(a);
    let y = to_chars(b);
    let mut i: usize = 0;
    assert(x@.skip(0) =~= x@ && y@.skip(0) =~= y@);
    while i < x.len() && i < y.len()
        invariant
            i <= x.len(),
            i <= y.len(),
            x@ == a@,
            y@ == b@,
            before(a@, b@) == before(x@.skip(i as int), y@.skip(i as int)),
        decreases x.len() - i,
    {
        if x[i] != y[i] {
            return x[i] < y[i];
        }
        assert(x@.skip(i as int).skip(1) =~= x@.skip(i + 1));
        assert(y@.skip(i as int).skip(1) =~= y@.skip(i + 1));
        i = i + 1;
    }
    x.len() < y.len()
}

// ---------------------------------------------------------------------------
// Paths
// ---------------------------------------------------------------------------

/// `base` extended by the component(s) `name`: an absolute `name` replaces
/// the base, and a separator is put between unless one is there.
pub open spec fn joined(base: Seq<char>, name: Seq<char>) -> Seq<char> {
    if name.len() > 0 && name[0] == '/' {
        name
    } else if base.len() == 0 || base.last() == '/' {
        base + name
    } else {
        base.push('/') + name
    }
}

/// `base` extended by `name`.
pub fn join_path(base: &str, name: &str) -> (r: String)
    ensures
        r@ == joined(base@, name@),
{
    let b = to_chars(base);
    let n = to_chars(name);
    if n.len() > 0 && n[0] == '/' {
        return name.to_owned();
    }
    let mut r = base.to_owned();
    if b.len() > 0 && b[b.len() - 1] != '/' {
        r.push('/');
    }
    push_text(&mut r, name);
    r
}

/// Digits are read by place: the front counts a power of ten for each digit
/// that follows, and a digit alone counts from nought to nine.
pub proof fn law_digits_by_place(a: Seq<char>, b: Seq<char>)
    requires
        all_digits(a),
        all_digits(b),
    ensures
        dec_value(a + b) == dec_value(a) * pow10(b.len()) + dec_value(b),
        a.len() == 1 ==> dec_value(a) == a[0] as int - '0' as int,
    decreases b.len(),
{
    if a.len() == 1 {
        assert(dec_value(a.drop_last()) == 0);
        assert(is_digit(a[0]));
    }
    if b.len() == 0 {
        assert(a + b =~= a);
        assert(dec_value(a) * 1 == dec_value(a)) by (nonlinear_arith);
    } else {
        let t = b.drop_last();
        assert(forall|i: int| 0 <= i < t.len() ==> t[i] == b[i]);
        law_digits_by_place(a, t);
        assert((a + b).drop_last() =~= a + t);
        let n = b.len() - 1;
        assert(is_digit(b[n]));
        let x = dec_value(a);
        let p = pow10(t.len());
        assert(10 * (x * p) == x * (10 * p)) by (nonlinear_arith);
    }
}

/// The parts of a split text hold no separator.
pub proof fn law_split_parts(s: Seq<char>, sep: char)
    ensures
        forall|i: int, k: int|
            0 <= i < split_on(s, sep).len() && 0 <= k < split_on(s, sep)[i].len()
                ==> #[trigger] split_on(s, sep)[i][k] != sep,
        split_on(s, sep).len() == s.filter(|c: char| c == sep).len() + 1,
    decreases s.len(),
{
    reveal(Seq::filter);
    if s.len() > 0 {
        let t = s.drop_last();
        law_split_parts(t, sep);
        lemma_split_nonempty(t, sep);
        let p = split_on(t, sep);
        let q = split_on(s, sep);
        assert forall|i: int, k: int|
            0 <= i < q.len() && 0 <= k < q[i].len() implies #[trigger] q[i][k] != sep by {
            if i < p.len() - 1 {
                assert(q[i] == p[i]);
                assert(p[i][k] != sep);
            } else if s.last() == sep {
                if i == p.len() - 1 {
                    assert(q[i] == p[i]);
                    assert(p[i][k] != sep);
                }
            } else if k < p[i].len() {
                assert(q[i][k] == p[i][k]);
                assert(p[i][k] != sep);
            }
        }
    }
}

/// A trimmed text is what stands between the white space at its two ends.
pub proof fn law_trimmed(a: Seq<char>, body: Seq<char>, b: Seq<char>)
    requires
        forall|i: int| 0 <= i < a.len() ==> is_white(#[trigger] a[i]),
        forall|i: int| 0 <= i < b.len() ==> is_white(#[trigger] b[i]),
        body.len() > 0 ==> !is_white(body[0]) && !is_white(body.last()),
    ensures
        trimmed(a + body + b) == body,
{
    lemma_trim_back(a + body, b);
    if body.len() == 0 {
        assert(a + body =~= a);
        lemma_trim_back(Seq::empty(), a);
        assert(Seq::<char>::empty() + a =~= a);
        assert(trim_back(a) =~= body);
    } else {
        assert((a + body).last() == body.last());
        assert(trim_back(a + body) == a + body);
        lemma_trim_front(a, body);
        assert(trim_front(body) == body);
    }
}

proof fn lemma_trim_back(s: Seq<char>, b: Seq<char>)
    requires
        forall|i: int| 0 <= i < b.len() ==> is_white(#[trigger] b[i]),
    ensures
        trim_back(s + b) == trim_back(s),
    decreases b.len(),
{
    if b.len() == 0 {
        assert(s + b =~= s);
    } else {
        let t = b.drop_last();
        assert(forall|i: int| 0 <= i < t.len() ==> t[i] == b[i]);
        lemma_trim_back(s, t);
        assert(is_white(b[b.len() - 1]));
        assert((s + b).drop_last() =~= s + t);
    }
}

proof fn lemma_trim_front(a: Seq<char>, s: Seq<char>)
    requires
        forall|i: int| 0 <= i < a.len() ==> is_white(#[trigger] a[i]),
    ensures
        trim_front(a + s) == trim_front(s),
    decreases a.len(),
{
    if a.len() == 0 {
        assert(a + s =~= s);
    } else {
        let t = a.skip(1);
        assert(forall|i: int| 0 <= i < t.len() ==> t[i] == a[i + 1]);
        lemma_trim_front(t, s);
        assert(is_white(a[0]));
        assert((a + s).skip(1) =~= t + s);
    }
}

/// Texts are ordered by their first difference, and a text comes before those
/// that it begins.
pub proof fn law_text_order(p: Seq<char>, x: char, a: Seq<char>, y: char, b: Seq<char>)
    ensures
        x < y ==> before(p.push(x) + a, p.push(y) + b) && !before(p.push(y) + b, p.push(x) + a),
        before(p, p.push(x) + a),
        !before(p.push(x) + a, p),
        !before(p, p),
{
    let s = seq![x] + a;
    let t = seq![y] + b;
    assert(p.push(x) + a =~= p + s);
    assert(p.push(y) + b =~= p + t);
    assert(p + Seq::<char>::empty() =~= p);
    lemma_before_prefix(p, s, t);
    lemma_before_prefix(p, t, s);
    lemma_before_prefix(p, Seq::empty(), s);
    lemma_before_prefix(p, s, Seq::empty());
    lemma_before_prefix(p, Seq::empty(), Seq::empty());
}

/// A name is put under a base with one separator, whether or not the base ends
/// in one; an absolute name stands for itself.
pub proof fn law_joined(base: Seq<char>, name: Seq<char>)
    ensures
        name.len() > 0 && name[0] == '/' ==> joined(base, name) == name,
        (name.len() == 0 || name[0] != '/') && base.len() > 0 && base.last() != '/' ==> joined(
            base,
            name,
        ) == base + seq!['/'] + name,
        (name.len() == 0 || name[0] != '/') && base.len() > 0 && base.last() == '/' ==> joined(
            base,
            name,
        ) == base + name,
        (name.len() == 0 || name[0] != '/') && base.len() == 0 ==> joined(base, name) == name,
{
    assert(base.len() == 0 ==> base + name =~= name);
    assert(base.push('/') + name =~= base + seq!['/'] + name);
}

/// Lowering turns the capitals of the alphabet and keeps every other
/// character.
pub proof fn law_lowered(s: Seq<char>, i: int)
    requires
        0 <= i < s.len(),
    ensures
        lowered(s).len() == s.len(),
        'A' <= s[i] <= 'Z' ==> lowered(s)[i] as int == s[i] as int + 32,
        !('A' <= s[i] <= 'Z') ==> lowered(s)[i] == s[i],
{
    if 'A' <= s[i] <= 'Z' {
        let c = s[i];
        assert(65 <= c as int <= 90);
    }
}

/// Padding puts zeros in front up to the width, and keeps a longer text.
pub proof fn law_zero_padded(s: Seq<char>, width: nat, i: int)
    ensures
        s.len() >= width ==> zero_padded(s, width) == s,
        s.len() <= width ==> zero_padded(s, width).len() == width,
        ends(zero_padded(s, width), s),
        0 <= i < zero_padded(s, width).len() - s.len() ==> zero_padded(s, width)[i] == '0',
{
    let z = zero_padded(s, width);
    assert(z.skip(z.len() - s.len()) =~= s);
}

/// A text ends its last line with or without a line feed; the feeds, and a
/// carriage return before one, are no part of a line.
pub proof fn law_lines(s: Seq<char>, i: int)
    ensures
        s.len() == 0 ==> lines_of(s).len() == 0,
        s.len() > 0 && s.last() == '\n' ==> lines_of(s).len() == s.filter(
            |c: char| c == '\n',
        ).len(),
        0 <= i < lines_of(s).len() - 1 ==> lines_of(s)[i] == without_return(split_on(s, '\n')[i]),
{
    law_split_parts(s, '\n');
    lemma_split_nonempty(s, '\n');
    let p = split_on(s, '\n');
    if s.len() > 0 && s.last() == '\n' {
        assert(p.last().len() == 0);
    }
}

/// A carriage return at the end is taken off, and nothing else.
pub proof fn law_without_return(s: Seq<char>)
    ensures
        without_return(s.push('\r')) == s,
        s.len() == 0 || s.last() != '\r' ==> without_return(s) == s,
{
    assert(s.push('\r').drop_last() =~= s);
}

/// A hexadecimal number has as many digits as asked, the last of them for its
/// rest by sixteen, in small letters.
pub proof fn law_hex(n: nat, width: nat)
    ensures
        hex(n, width).len() == width,
        width > 0 && n % 16 < 10 ==> hex(n, width).last() as int == '0' as int + n % 16,
        width > 0 && n % 16 >= 10 ==> hex(n, width).last() as int == 'a' as int + (n % 16 - 10),
        width > 0 ==> hex(n, width).drop_last() == hex(n / 16, (width - 1) as nat),
    decreases width,
{
    if width > 0 {
        law_hex(n / 16, (width - 1) as nat);
        assert(hex(n, width).drop_last() =~= hex(n / 16, (width - 1) as nat));
    }
}

} // verus!
