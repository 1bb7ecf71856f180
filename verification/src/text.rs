//! Text: the byte-wise order of strings, membership in string lists, UTF-8
//! decoding, the parsing and writing of integers, and splitting and joining.

use vstd::prelude::*;
use vstd::string::StringExecFns;
use vstd::utf8::*;

verus! {

broadcast use vstd::utf8::encode_utf8_decode_utf8;

/// Result of a three-way comparison.
#[derive(PartialEq, Eq, Structural, Debug, Clone, Copy)]
pub enum Cmp {
    Less,
    Equal,
    Greater,
}

/// Lexicographic order on byte sequences: the order of `[u8]` and of the
/// UTF-8 bytes of `str` in Rust.
pub open spec fn lex_lt(a: Seq<u8>, b: Seq<u8>) -> bool
    decreases a.len(),
{
    if a.len() == 0 {
        b.len() > 0
    } else if b.len() == 0 {
        false
    } else if a[0] != b[0] {
        a[0] < b[0]
    } else {
        lex_lt(a.drop_first(), b.drop_first())
    }
}

/// Order of strings as Rust orders `String`: by their UTF-8 bytes.
pub open spec fn str_lt(a: Seq<char>, b: Seq<char>) -> bool {
    lex_lt(encode_utf8(a), encode_utf8(b))
}

pub proof fn lemma_lex_irreflexive(a: Seq<u8>)
    ensures
        !lex_lt(a, a),
    decreases a.len(),
{
    if a.len() > 0 {
        lemma_lex_irreflexive(a.drop_first());
    }
}

pub proof fn lemma_lex_asymmetric(a: Seq<u8>, b: Seq<u8>)
    ensures
        !(lex_lt(a, b) && lex_lt(b, a)),
    decreases a.len(),
{
    if a.len() > 0 && b.len() > 0 && a[0] == b[0] {
        lemma_lex_asymmetric(a.drop_first(), b.drop_first());
    }
}

pub proof fn lemma_lex_transitive(a: Seq<u8>, b: Seq<u8>, c: Seq<u8>)
    requires
        lex_lt(a, b),
        lex_lt(b, c),
    ensures
        lex_lt(a, c),
    decreases a.len(),
{
    if a.len() > 0 && b.len() > 0 && c.len() > 0 && a[0] == b[0] && b[0] == c[0] {
        lemma_lex_transitive(a.drop_first(), b.drop_first(), c.drop_first());
    }
}

pub proof fn lemma_lex_total(a: Seq<u8>, b: Seq<u8>)
    ensures
        a == b || lex_lt(a, b) || lex_lt(b, a),
    decreases a.len(),
{
    if a.len() > 0 && b.len() > 0 && a[0] == b[0] {
        lemma_lex_total(a.drop_first(), b.drop_first());
        if a.drop_first() == b.drop_first() {
            assert(a =~= seq![a[0]] + a.drop_first());
            assert(b =~= seq![b[0]] + b.drop_first());
        }
    } else if a.len() == 0 && b.len() == 0 {
        assert(a =~= b);
    }
}

proof fn lemma_lex_skip(a: Seq<u8>, b: Seq<u8>, i: int)
    requires
        0 <= i <= a.len(),
        i <= b.len(),
        a.take(i) == b.take(i),
    ensures
        lex_lt(a, b) == lex_lt(a.skip(i), b.skip(i)),
    decreases i,
{
    if i > 0 {
        assert(a[0] == a.take(i)[0]);
        assert(b[0] == b.take(i)[0]);
        assert(a.drop_first().take(i - 1) =~= a.take(i).drop_first());
        assert(b.drop_first().take(i - 1) =~= b.take(i).drop_first());
        lemma_lex_skip(a.drop_first(), b.drop_first(), i - 1);
        assert(a.drop_first().skip(i - 1) =~= a.skip(i));
        assert(b.drop_first().skip(i - 1) =~= b.skip(i));
    } else {
        assert(a.skip(0) =~= a);
        assert(b.skip(0) =~= b);
    }
}

pub proof fn lemma_str_order(a: Seq<char>, b: Seq<char>, c: Seq<char>)
    ensures
        !str_lt(a, a),
        !(str_lt(a, b) && str_lt(b, a)),
        str_lt(a, b) && str_lt(b, c) ==> str_lt(a, c),
        a == b || str_lt(a, b) || str_lt(b, a),
{
    lemma_lex_irreflexive(encode_utf8(a));
    lemma_lex_asymmetric(encode_utf8(a), encode_utf8(b));
    if str_lt(a, b) && str_lt(b, c) {
        lemma_lex_transitive(encode_utf8(a), encode_utf8(b), encode_utf8(c));
    }
    lemma_lex_total(encode_utf8(a), encode_utf8(b));
    if encode_utf8(a) == encode_utf8(b) {
        assert(decode_utf8(encode_utf8(a)) == a);
        assert(decode_utf8(encode_utf8(b)) == b);
    }
}

/// Three-way comparison of byte slices in lexicographic order.
pub fn compare_bytes(a: &[u8], b: &[u8]) -> (c: Cmp)
    ensures
        (c == Cmp::Less) <==> lex_lt(a@, b@),
        (c == Cmp::Equal) <==> a@ == b@,
        (c == Cmp::Greater) <==> lex_lt(b@, a@),
{
    let mut i: usize = 0;
    while i < a.len() && i < b.len()
        invariant
            i <= a@.len(),
            i <= b@.len(),
            a@.take(i as int) == b@.take(i as int),
        decreases a@.len() - i,
    {
        if a[i] != b[i] {
            proof {
                lemma_lex_skip(a@, b@, i as int);
                lemma_lex_skip(b@, a@, i as int);
                assert(a@.skip(i as int)[0] == a@[i as int]);
                assert(b@.skip(i as int)[0] == b@[i as int]);
                assert(a@[i as int] == a@.skip(i as int)[0]);
            }
            if a[i] < b[i] {
                return Cmp::Less;
            } else {
                return Cmp::Greater;
            }
        }
        proof {
            assert(a@.take(i + 1) =~= a@.take(i as int).push(a@[i as int]));
            assert(b@.take(i + 1) =~= b@.take(i as int).push(b@[i as int]));
        }
        i = i + 1;
    }
    proof {
        lemma_lex_skip(a@, b@, i as int);
        lemma_lex_skip(b@, a@, i as int);
        if a@.len() == b@.len() {
            assert(a@ =~= a@.take(i as int));
            assert(b@ =~= b@.take(i as int));
        } else {
            assert(a@ != b@) by {
                if a@ == b@ {
                    assert(a@.len() == b@.len());
                }
            }
        }
    }
    if a.len() < b.len() {
        Cmp::Less
    } else if a.len() > b.len() {
        Cmp::Greater
    } else {
        Cmp::Equal
    }
}

/// Three-way comparison of strings in Rust's `str` order.
pub fn compare_str(a: &str, b: &str) -> (c: Cmp)
    ensures
        (c == Cmp::Less) <==> str_lt(a@, b@),
        (c == Cmp::Equal) <==> a@ == b@,
        (c == Cmp::Greater) <==> str_lt(b@, a@),
{
    let c = compare_bytes(a.as_bytes(), b.as_bytes());
    proof {
        lemma_str_order(a@, b@, b@);
        if encode_utf8(a@) == encode_utf8(b@) {
            assert(decode_utf8(encode_utf8(a@)) == a@);
            assert(decode_utf8(encode_utf8(b@)) == b@);
        }
    }
    c
}

/// The views of a list of strings.
pub open spec fn string_views(v: Seq<String>) -> Seq<Seq<char>> {
    v.map_values(|s: String| s@)
}

/// Whether `needle` occurs in `haystack`.
pub fn contains_string(haystack: &Vec<String>, needle: &str) -> (r: bool)
    ensures
        r == string_views(haystack@).contains(needle@),
{
    let mut i: usize = 0;
    while i < haystack.len()
        invariant
            i <= haystack@.len(),
            forall|j: int| 0 <= j < i ==> haystack@[j]@ != needle@,
        decreases haystack@.len() - i,
    {
        if compare_str(haystack[i].as_str(), needle) == Cmp::Equal {
            proof {
                assert(string_views(haystack@)[i as int] == needle@);
            }
            return true;
        }
        i = i + 1;
    }
    proof {
        if string_views(haystack@).contains(needle@) {
            let j = choose|j: int|
                0 <= j < string_views(haystack@).len() && string_views(haystack@)[j] == needle@;
            assert(haystack@[j]@ == needle@);
        }
    }
    false
}

/// Decodes `bytes` as UTF-8 into a `String`; on failure, the text of the
/// UTF-8 error.
///
/// Trusted: calls `std::string::String::from_utf8`, which returns `Err` exactly
/// when the bytes are not valid UTF-8 and otherwise the decoded string. What
/// the error's text says is not stated.
#[verifier::external_body]
pub fn utf8_to_string(bytes: &[u8]) -> (r: Result<String, String>)
    ensures
        r is Ok <==> valid_utf8(bytes@),
        r matches Ok(s) ==> s@ == decode_utf8(bytes@),
{
    String::from_utf8(bytes.to_vec()).map_err(|e| e.utf8_error().to_string())
}

/// The position of the first `c` in `s`.
pub open spec fn first_index_of(s: Seq<char>, c: char) -> Option<int> {
    if exists|i: int| 0 <= i < s.len() && s[i] == c {
        Some(choose|i: int| 0 <= i < s.len() && s[i] == c && forall|j: int| 0 <= j < i ==> s[j] != c)
    } else {
        None
    }
}

/// The text before and after the first `c` in `s`, if there is one.
pub open spec fn split_once_spec(s: Seq<char>, c: char) -> Option<(Seq<char>, Seq<char>)> {
    match first_index_of(s, c) {
        Some(i) => Some((s.take(i), s.skip(i + 1))),
        None => None,
    }
}

/// Splits `s` at its first `c`.
pub fn split_once(s: &str, c: char) -> (r: Option<(String, String)>)
    ensures
        match split_once_spec(s@, c) {
            Some((a, b)) => r matches Some(p) && p.0@ == a && p.1@ == b,
            None => r is None,
        },
{
    let n = s.unicode_len();
    let mut i: usize = 0;
    while i < n
        invariant
            i <= n,
            n == s@.len(),
            forall|j: int| 0 <= j < i ==> s@[j] != c,
        decreases n - i,
    {
        if s.get_char(i) == c {
            proof {
                let k = choose|k: int| 0 <= k < s@.len() && s@[k] == c && forall|j: int| 0 <= j < k ==> s@[j] != c;
                if k < i {
                } else if k > i {
                    assert(s@[i as int] == c);
                }
                assert(k == i);
            }
            let a = s.substring_char(0, i).to_owned();
            let b = s.substring_char(i + 1, n).to_owned();
            proof {
                assert(a@ =~= s@.take(i as int));
                assert(b@ =~= s@.skip(i + 1));
            }
            return Some((a, b));
        }
        i = i + 1;
    }
    proof {
        assert(!(exists|k: int| 0 <= k < s@.len() && s@[k] == c));
    }
    None
}

/// Whether `c` is one of the ASCII digits `0` to `9`.
pub open spec fn is_digit(c: char) -> bool {
    '0' <= c <= '9'
}

/// The value of a non-empty string of ASCII digits.
pub open spec fn digits_value(s: Seq<char>) -> Option<nat>
    decreases s.len(),
{
    if s.len() == 0 || !is_digit(s.last()) {
        None
    } else if s.len() == 1 {
        Some((s.last() as nat - 48) as nat)
    } else {
        match digits_value(s.drop_last()) {
            Some(v) => Some(v * 10 + (s.last() as nat - 48) as nat),
            None => None,
        }
    }
}

/// The integer that a string denotes in Rust's integer parsing: an optional
/// `+` or `-` sign followed by one or more ASCII digits, and nothing else.
pub open spec fn parse_int_spec(s: Seq<char>) -> Option<int> {
    if s.len() > 0 && s[0] == '-' {
        match digits_value(s.drop_first()) {
            Some(v) => Some(-v),
            None => None,
        }
    } else if s.len() > 0 && s[0] == '+' {
        match digits_value(s.drop_first()) {
            Some(v) => Some(v as int),
            None => None,
        }
    } else {
        match digits_value(s) {
            Some(v) => Some(v as int),
            None => None,
        }
    }
}

/// The value that Rust's parsing of an unsigned integer gives a string: an
/// optional `+` followed by one or more ASCII digits.
pub open spec fn parse_uint_spec(s: Seq<char>) -> Option<nat> {
    if s.len() > 0 && s[0] == '+' {
        digits_value(s.drop_first())
    } else {
        digits_value(s)
    }
}

/// Parses `s` as an unsigned 64-bit integer; on failure, the text of the error.
///
/// Trusted: calls `str::parse::<u64>`, documented to accept exactly an
/// optional `+` sign followed by ASCII digits whose value fits in a `u64`.
/// What the error's text says is not stated.
#[verifier::external_body]
pub fn parse_u64(s: &str) -> (r: Result<u64, String>)
    ensures
        r is Ok <==> (parse_uint_spec(s@) matches Some(v) && v <= u64::MAX),
        r matches Ok(v) ==> parse_uint_spec(s@) == Some(v as nat),
{
    s.parse::<u64>().map_err(|e| e.to_string())
}

/// Parses `s` as a signed 64-bit integer; on failure, the text of the error.
///
/// Trusted: calls `str::parse::<i64>`, documented to accept exactly an
/// optional `+` or `-` sign followed by ASCII digits whose value fits in an
/// `i64`. What the error's text says is not stated.
#[verifier::external_body]
pub fn parse_i64(s: &str) -> (r: Result<i64, String>)
    ensures
        r is Ok <==> (parse_int_spec(s@) matches Some(v) && i64::MIN <= v <= i64::MAX),
        r matches Ok(v) ==> parse_int_spec(s@) == Some(v as int),
{
    s.parse::<i64>().map_err(|e| e.to_string())
}

/// The character of the decimal digit `d`.
pub open spec fn digit_char(d: nat) -> char {
    (d + 48) as char
}

/// The decimal digits of `n`, without leading zeros.
pub open spec fn nat_digits(n: nat) -> Seq<char>
    decreases n,
{
    if n < 10 {
        seq![digit_char(n)]
    } else {
        nat_digits(n / 10).push(digit_char(n % 10))
    }
}

/// The decimal representation of `v`, as Rust's `Display` writes integers.
pub open spec fn decimal(v: int) -> Seq<char> {
    if v < 0 {
        seq!['-'] + nat_digits((-v) as nat)
    } else {
        nat_digits(v as nat)
    }
}

proof fn lemma_nat_digits_ascii(n: nat)
    ensures
        is_ascii_chars(nat_digits(n)),
    decreases n,
{
    if n >= 10 {
        lemma_nat_digits_ascii(n / 10);
    }
}

fn push_digits(n: u64, out: &mut Vec<u8>)
    ensures
        final(out)@.len() == old(out)@.len() + nat_digits(n as nat).len(),
        forall|i: int| 0 <= i < old(out)@.len() ==> final(out)@[i] == old(out)@[i],
        forall|i: int|
            0 <= i < nat_digits(n as nat).len() ==> final(out)@[old(out)@.len() + i]
                == nat_digits(n as nat)[i] as u8,
    decreases n,
{
    if n >= 10 {
        push_digits(n / 10, out);
    }
    let d = (n % 10) as u8;
    out.push(48 + d);
    proof {
        if n >= 10 {
            assert(nat_digits(n as nat) == nat_digits((n / 10) as nat).push(digit_char((n % 10) as nat)));
        }
    }
}

/// Writes `v` in decimal, as Rust's `Display` does.
pub fn format_i64(v: i64) -> (s: String)
    ensures
        s@ == decimal(v as int),
{
    let mut bytes: Vec<u8> = Vec::new();
    let magnitude: u64 = if v < 0 {
        bytes.push(45);
        ((-(v as i128)) as u64)
    } else {
        v as u64
    };
    let ghost prefix = bytes@;
    push_digits(magnitude, &mut bytes);
    let ghost chars = decimal(v as int);
    proof {
        lemma_nat_digits_ascii(magnitude as nat);
        assert(is_ascii_chars(seq!['-']));
        if v < 0 {
            vstd::utf8::is_ascii_chars_concat(chars, seq!['-'], nat_digits(magnitude as nat));
        }
        vstd::utf8::is_ascii_chars_encode_utf8(chars);
        assert forall|i: int| 0 <= i < chars.len() implies bytes@[i] == encode_utf8(chars)[i] by {
            if v < 0 && i > 0 {
                assert(chars[i] == nat_digits(magnitude as nat)[i - 1]);
            }
        }
        assert(bytes@ =~= encode_utf8(chars));
        vstd::utf8::encode_utf8_valid_utf8(chars);
    }
    match utf8_to_string(bytes.as_slice()) {
        Ok(s) => s,
        Err(_) => String::new(),
    }
}

/// Writes `v` in decimal, as Rust's `Display` does.
pub fn format_u64(v: u64) -> (s: String)
    ensures
        s@ == decimal(v as int),
{
    let mut bytes: Vec<u8> = Vec::new();
    push_digits(v, &mut bytes);
    let ghost chars = decimal(v as int);
    proof {
        lemma_nat_digits_ascii(v as nat);
        vstd::utf8::is_ascii_chars_encode_utf8(chars);
        assert forall|i: int| 0 <= i < chars.len() implies bytes@[i] == encode_utf8(chars)[i] by {}
        assert(bytes@ =~= encode_utf8(chars));
        vstd::utf8::encode_utf8_valid_utf8(chars);
    }
    match utf8_to_string(bytes.as_slice()) {
        Ok(s) => s,
        Err(_) => String::new(),
    }
}

/// The parts separated by `sep`.
pub open spec fn join(parts: Seq<Seq<char>>, sep: Seq<char>) -> Seq<char>
    decreases parts.len(),
{
    if parts.len() == 0 {
        Seq::empty()
    } else if parts.len() == 1 {
        parts[0]
    } else {
        join(parts.drop_last(), sep) + sep + parts.last()
    }
}

/// Joins strings with a separator, as `[String]::join` does.
pub fn join_strings(parts: &Vec<String>, sep: &str) -> (r: String)
    ensures
        r@ == join(string_views(parts@), sep@),
{
    let ghost p = string_views(parts@);
    let mut r = String::new();
    let mut i: usize = 0;
    proof {
        assert(p.take(0) =~= Seq::<Seq<char>>::empty());
    }
    while i < parts.len()
        invariant
            i <= parts@.len(),
            p == string_views(parts@),
            r@ == join(p.take(i as int), sep@),
        decreases parts@.len() - i,
    {
        proof {
            assert(p.take(i + 1).drop_last() =~= p.take(i as int));
            assert(p.take(i + 1).last() == parts@[i as int]@);
            if i == 0 {
                assert(p.take(1)[0] == parts@[0]@);
            }
        }
        if i > 0 {
            r.append(sep);
        }
        r.append(parts[i].as_str());
        proof {
            if i == 0 {
                assert(r@ =~= Seq::<char>::empty() + parts@[0]@);
            }
        }
        i = i + 1;
    }
    proof {
        assert(p.take(i as int) =~= p);
    }
    r
}

} // verus!
