//! Character, string and integer-formatting utilities that the parsers
//! and renderers share.

use vstd::prelude::*;

verus! {

/// Numeric value of an ASCII digit character, `None` for any other character.
pub open spec fn spec_digit(c: char) -> Option<u32> {
    if '0' <= c && c <= '9' {
        Some((c as u32 - '0' as u32) as u32)
    } else {
        None
    }
}

/// Exec counterpart of [`spec_digit`].
pub fn digit_value(c: char) -> (r: Option<u32>)
    ensures
        r == spec_digit(c),
{
    if '0' <= c && c <= '9' {
        Some(c as u32 - '0' as u32)
    } else {
        None
    }
}

/// Whether two strings hold the same characters.
pub fn str_eq(a: &str, b: &str) -> (r: bool)
    ensures
        r == (a@ == b@),
{
    let a_len = a.unicode_len();
    let b_len = b.unicode_len();
    if a_len != b_len {
        return false;
    }
    let mut i: usize = 0;
    while i < a_len
        invariant
            i <= a_len,
            a_len == a@.len(),
            b_len == b@.len(),
            a_len == b_len,
            forall|j: int| 0 <= j < i ==> a@[j] == b@[j],
        decreases a_len - i,
    {
        if a.get_char(i) != b.get_char(i) {
            return false;
        }
        i = i + 1;
    }
    proof {
        assert(a@ =~= b@);
    }
    true
}

/// Lexicographic order on character sequences: the order in which the
/// renderers present location columns and material lists.
pub open spec fn lex_le(a: Seq<char>, b: Seq<char>) -> bool
    decreases a.len(),
{
    if a.len() == 0 {
        true
    } else if b.len() == 0 {
        false
    } else if (a[0] as u32) < (b[0] as u32) {
        true
    } else if (a[0] as u32) > (b[0] as u32) {
        false
    } else {
        lex_le(a.drop_first(), b.drop_first())
    }
}

/// Exec counterpart of [`lex_le`].
pub fn str_le(a: &str, b: &str) -> (r: bool)
    ensures
        r == lex_le(a@, b@),
    decreases a@.len(),
{
    let a_len = a.unicode_len();
    let b_len = b.unicode_len();
    if a_len == 0 {
        true
    } else if b_len == 0 {
        false
    } else {
        let ca = a.get_char(0);
        let cb = b.get_char(0);
        if (ca as u32) < (cb as u32) {
            true
        } else if (ca as u32) > (cb as u32) {
            false
        } else {
            let a_rest = a.substring_char(1, a_len);
            let b_rest = b.substring_char(1, b_len);
            proof {
                assert(a_rest@ =~= a@.drop_first());
                assert(b_rest@ =~= b@.drop_first());
            }
            str_le(a_rest, b_rest)
        }
    }
}

/// The decimal digit character for a value below ten.
pub open spec fn spec_digit_char(d: int) -> char {
    (('0' as u32) + d as u32) as char
}

/// Decimal representation of a natural number, most significant digit first.
pub open spec fn spec_u64_str(n: int) -> Seq<char>
    decreases n,
{
    if n < 10 {
        seq![spec_digit_char(if n < 0 { 0 } else { n })]
    } else {
        spec_u64_str(n / 10).push(spec_digit_char(n % 10))
    }
}

/// One-character string for each decimal digit.
fn digit_str(d: u64) -> (r: &'static str)
    requires
        d < 10,
    ensures
        r@ =~= seq![spec_digit_char(d as int)],
{
    proof {
        reveal_strlit("0");
        reveal_strlit("1");
        reveal_strlit("2");
        reveal_strlit("3");
        reveal_strlit("4");
        reveal_strlit("5");
        reveal_strlit("6");
        reveal_strlit("7");
        reveal_strlit("8");
        reveal_strlit("9");
    }
    if d == 0 {
        "0"
    } else if d == 1 {
        "1"
    } else if d == 2 {
        "2"
    } else if d == 3 {
        "3"
    } else if d == 4 {
        "4"
    } else if d == 5 {
        "5"
    } else if d == 6 {
        "6"
    } else if d == 7 {
        "7"
    } else if d == 8 {
        "8"
    } else {
        "9"
    }
}

/// Renders a natural number in decimal.
pub fn u64_to_string(n: u64) -> (r: String)
    ensures
        r@ == spec_u64_str(n as int),
    decreases n,
{
    if n < 10 {
        String::from_str(digit_str(n))
    } else {
        let mut prefix = u64_to_string(n / 10);
        prefix.append(digit_str(n % 10));
        proof {
            assert(prefix@ =~= spec_u64_str(n as int));
        }
        prefix
    }
}

/// Decimal representation of a signed number.
pub open spec fn spec_i64_str(n: int) -> Seq<char> {
    if n < 0 {
        "-"@ + spec_u64_str(-n)
    } else {
        spec_u64_str(n)
    }
}

/// Renders a signed number in decimal.
pub fn i64_to_string(n: i64) -> (r: String)
    ensures
        r@ == spec_i64_str(n as int),
{
    if n < 0 {
        let magnitude: u64 = if n == i64::MIN {
            9223372036854775808u64
        } else {
            (-n) as u64
        };
        let mut s = String::from_str("-");
        let digits = u64_to_string(magnitude);
        s.append(digits.as_str());
        proof {
            assert(s@ =~= spec_i64_str(n as int));
        }
        s
    } else {
        u64_to_string(n as u64)
    }
}

/// Renders an `i32` in decimal.
pub fn i32_to_string(n: i32) -> (r: String)
    ensures
        r@ == spec_i64_str(n as int),
{
    i64_to_string(n as i64)
}

/// Value of a non-empty digit string, `None` if any character is not a
/// digit or the value does not fit in a `u64`.
pub open spec fn spec_digits_value(s: Seq<char>) -> Option<u64>
    decreases s.len(),
{
    if s.len() == 0 {
        None
    } else {
        let d = spec_digit(s.last());
        if d is None {
            None
        } else if s.len() == 1 {
            Some(d->0 as u64)
        } else {
            match spec_digits_value(s.drop_last()) {
                None => None,
                Some(v) => if v as int * 10 + d->0 as int <= u64::MAX as int {
                    Some((v * 10 + d->0 as u64) as u64)
                } else {
                    None
                },
            }
        }
    }
}

/// Value of the first `n` characters of `s` as a digit string.
fn digits_value_upto(s: &str, n: usize) -> (r: Option<u64>)
    requires
        n <= s@.len(),
    ensures
        r == spec_digits_value(s@.subrange(0, n as int)),
    decreases n,
{
    if n == 0 {
        proof {
            assert(s@.subrange(0, 0) =~= Seq::<char>::empty());
        }
        None
    } else {
        let c = s.get_char(n - 1);
        proof {
            assert(s@.subrange(0, n as int).last() == c);
            assert(s@.subrange(0, n as int).drop_last() =~= s@.subrange(0, n as int - 1));
        }
        match digit_value(c) {
            None => None,
            Some(d) => {
                if n == 1 {
                    Some(d as u64)
                } else {
                    match digits_value_upto(s, n - 1) {
                        None => None,
                        Some(v) => {
                            if v <= (u64::MAX - d as u64) / 10 {
                                Some(v * 10 + d as u64)
                            } else {
                                None
                            }
                        },
                    }
                }
            },
        }
    }
}

/// Value of a whole string as a digit string.
pub fn digits_value(s: &str) -> (r: Option<u64>)
    ensures
        r == spec_digits_value(s@),
{
    let n = s.unicode_len();
    let r = digits_value_upto(s, n);
    proof {
        assert(s@.subrange(0, n as int) =~= s@);
    }
    r
}

/// The way an optional leading sign is read from a numeric literal:
/// the remaining digits and whether the value is negated.
pub open spec fn spec_split_sign(s: Seq<char>) -> (Seq<char>, bool) {
    if s.len() > 0 && s[0] == '-' {
        (s.drop_first(), true)
    } else if s.len() > 0 && s[0] == '+' {
        (s.drop_first(), false)
    } else {
        (s, false)
    }
}

/// A decimal integer literal with optional sign, as `i32::from_str`
/// reads it: `None` when empty, malformed or out of range.
pub open spec fn spec_parse_i32(s: Seq<char>) -> Option<i32> {
    let (digits, neg) = spec_split_sign(s);
    match spec_digits_value(digits) {
        None => None,
        Some(v) => if neg {
            if v <= 2147483648u64 {
                Some((-(v as int)) as i32)
            } else {
                None
            }
        } else {
            if v <= 2147483647u64 {
                Some(v as i32)
            } else {
                None
            }
        },
    }
}

/// Parses a signed decimal integer.
pub fn parse_i32(s: &str) -> (r: Option<i32>)
    ensures
        r == spec_parse_i32(s@),
{
    let len = s.unicode_len();
    let mut neg = false;
    let mut start: usize = 0;
    if len > 0 {
        let c = s.get_char(0);
        if c == '-' {
            neg = true;
            start = 1;
        } else if c == '+' {
            start = 1;
        }
    }
    let digits = s.substring_char(start, len);
    proof {
        assert(digits@ =~= spec_split_sign(s@).0);
        assert(neg == spec_split_sign(s@).1);
    }
    match digits_value(digits) {
        None => None,
        Some(v) => {
            if neg {
                if v == 2147483648u64 {
                    Some(i32::MIN)
                } else if v < 2147483648u64 {
                    Some(-(v as i32))
                } else {
                    None
                }
            } else {
                if v <= 2147483647u64 {
                    Some(v as i32)
                } else {
                    None
                }
            }
        },
    }
}

/// Splits a character sequence on a separator character; the result
/// always holds at least one (possibly empty) piece.
pub open spec fn spec_split(s: Seq<char>, sep: char) -> Seq<Seq<char>>
    decreases s.len(),
{
    match first_index_of(s, sep) {
        None => seq![s],
        Some(i) => if 0 <= i < s.len() {
            seq![s.subrange(0, i)] + spec_split(s.subrange(i + 1, s.len() as int), sep)
        } else {
            seq![s]
        },
    }
}

/// Index of the first occurrence of `c` in `s`.
pub open spec fn first_index_of(s: Seq<char>, c: char) -> Option<int>
    decreases s.len(),
{
    if s.len() == 0 {
        None
    } else if s[0] == c {
        Some(0)
    } else {
        match first_index_of(s.drop_first(), c) {
            None => None,
            Some(i) => Some(i + 1),
        }
    }
}

proof fn lemma_first_index_of_bounds(s: Seq<char>, c: char)
    ensures
        match first_index_of(s, c) {
            None => forall|i: int| 0 <= i < s.len() ==> s[i] != c,
            Some(i) => 0 <= i < s.len() && s[i] == c && forall|j: int| 0 <= j < i ==> s[j] != c,
        },
    decreases s.len(),
{
    if s.len() > 0 && s[0] != c {
        lemma_first_index_of_bounds(s.drop_first(), c);
        let rest = s.drop_first();
        match first_index_of(rest, c) {
            None => {
                assert forall|i: int| 0 <= i < s.len() implies s[i] != c by {
                    if i > 0 {
                        assert(rest[i - 1] != c);
                    }
                }
            },
            Some(k) => {
                assert(s[k + 1] == rest[k]);
                assert forall|j: int| 0 <= j < k + 1 implies s[j] != c by {
                    if j > 0 {
                        assert(rest[j - 1] != c);
                    }
                }
            },
        }
    }
}

/// Finds the first occurrence of `c` in `s` at or after `from`.
pub fn find_char_from(s: &str, from: usize, c: char) -> (r: Option<usize>)
    requires
        from <= s@.len(),
    ensures
        match r {
            None => first_index_of(s@.subrange(from as int, s@.len() as int), c) is None,
            Some(i) => from <= i < s@.len() && first_index_of(
                s@.subrange(from as int, s@.len() as int),
                c,
            ) == Some(i - from as int),
        },
    decreases s@.len() - from,
{
    let len = s.unicode_len();
    if from == len {
        return None;
    }
    let ghost tail = s@.subrange(from as int, s@.len() as int);
    if s.get_char(from) == c {
        proof {
            assert(tail[0] == c);
        }
        Some(from)
    } else {
        let r = find_char_from(s, from + 1, c);
        proof {
            assert(s@.subrange(from as int + 1, s@.len() as int) =~= tail.drop_first());
            assert(tail[0] != c);
        }
        match r {
            None => None,
            Some(i) => Some(i),
        }
    }
}

/// Splits a string on a separator character.
pub fn split_char(s: &str, sep: char) -> (r: Vec<String>)
    ensures
        r.deep_view() == spec_split(s@, sep),
{
    let len = s.unicode_len();
    let r = split_char_from(s, 0, sep);
    proof {
        assert(s@.subrange(0, len as int) =~= s@);
    }
    r
}

/// Splits the suffix of `s` that begins at `start`.
fn split_char_from(s: &str, start: usize, sep: char) -> (r: Vec<String>)
    requires
        start <= s@.len(),
    ensures
        r.deep_view() == spec_split(s@.subrange(start as int, s@.len() as int), sep),
    decreases s@.len() - start,
{
    let len = s.unicode_len();
    let ghost tail = s@.subrange(start as int, len as int);
    match find_char_from(s, start, sep) {
        None => {
            let piece = s.substring_char(start, len);
            let mut pieces: Vec<String> = Vec::new();
            pieces.push(String::from_str(piece));
            proof {
                assert(pieces.deep_view() =~= seq![tail]);
            }
            pieces
        },
        Some(i) => {
            let piece = s.substring_char(start, i);
            let mut pieces = split_char_from(s, i + 1, sep);
            let ghost rest_dv = pieces.deep_view();
            pieces.insert(0, String::from_str(piece));
            proof {
                assert(pieces.deep_view() =~= seq![s@.subrange(start as int, i as int)] + rest_dv);
                assert(tail.subrange(0, i - start as int) =~= s@.subrange(start as int, i as int));
                assert(s@.subrange(i as int + 1, len as int) =~= tail.subrange(
                    i - start as int + 1,
                    tail.len() as int,
                ));
                assert(spec_split(tail, sep) == seq![s@.subrange(start as int, i as int)]
                    + spec_split(s@.subrange(i as int + 1, len as int), sep));
            }
            pieces
        },
    }
}

/// Concatenation of a sequence of pieces with a separator between
/// neighbouring pieces.
pub open spec fn spec_join(parts: Seq<Seq<char>>, sep: Seq<char>) -> Seq<char>
    decreases parts.len(),
{
    if parts.len() == 0 {
        Seq::empty()
    } else if parts.len() == 1 {
        parts[0]
    } else {
        parts[0] + sep + spec_join(parts.drop_first(), sep)
    }
}

/// Joins strings with a separator.
pub fn join_strings(parts: &Vec<String>, sep: &str) -> (r: String)
    ensures
        r@ == spec_join(parts.deep_view(), sep@),
{
    if parts.len() == 0 {
        return String::new();
    }
    let r = join_strings_from(parts, 0, sep);
    proof {
        assert(parts.deep_view().subrange(0, parts.deep_view().len() as int) =~= parts.deep_view());
    }
    r
}

/// Joins the suffix of `parts` that begins at `i`.
fn join_strings_from(parts: &Vec<String>, i: usize, sep: &str) -> (r: String)
    requires
        i < parts@.len(),
    ensures
        r@ == spec_join(
            parts.deep_view().subrange(i as int, parts.deep_view().len() as int),
            sep@,
        ),
    decreases parts@.len() - i,
{
    let ghost suffix = parts.deep_view().subrange(i as int, parts.deep_view().len() as int);
    if i == parts.len() - 1 {
        let r = parts[i].clone();
        proof {
            assert(suffix[0] == parts.deep_view()[i as int]);
        }
        r
    } else {
        let mut out = parts[i].clone();
        out.append(sep);
        let rest = join_strings_from(parts, i + 1, sep);
        out.append(rest.as_str());
        proof {
            assert(suffix.drop_first() =~= parts.deep_view().subrange(
                i as int + 1,
                parts.deep_view().len() as int,
            ));
            assert(suffix[0] == parts.deep_view()[i as int]);
        }
        out
    }
}

/// Whether `pat` occurs in `s` starting at index `i`.
pub open spec fn spec_match_at(s: Seq<char>, i: int, pat: Seq<char>) -> bool {
    0 <= i && i + pat.len() <= s.len() && s.subrange(i, i + pat.len() as int) == pat
}

/// Checks whether `pat` occurs in `s` at position `i`.
pub fn match_at(s: &str, i: usize, pat: &str) -> (r: bool)
    requires
        i <= s@.len(),
    ensures
        r == spec_match_at(s@, i as int, pat@),
{
    let s_len = s.unicode_len();
    let pat_len = pat.unicode_len();
    if s_len - i < pat_len {
        return false;
    }
    let mut j: usize = 0;
    while j < pat_len
        invariant
            j <= pat_len,
            i + pat_len <= s_len,
            s_len == s@.len(),
            pat_len == pat@.len(),
            forall|k: int| 0 <= k < j ==> s@[i + k] == pat@[k],
        decreases pat_len - j,
    {
        if s.get_char(i + j) != pat.get_char(j) {
            proof {
                assert(s@.subrange(i as int, i + pat@.len() as int)[j as int] != pat@[j as int]);
            }
            return false;
        }
        j = j + 1;
    }
    proof {
        assert(s@.subrange(i as int, i + pat@.len() as int) =~= pat@);
    }
    true
}

} // verus!

verus! {

/// The lexicographic order is reflexive.
pub proof fn lemma_lex_le_refl(a: Seq<char>)
    ensures
        lex_le(a, a),
    decreases a.len(),
{
    if a.len() > 0 {
        lemma_lex_le_refl(a.drop_first());
    }
}

/// The lexicographic order is total.
pub proof fn lemma_lex_le_total(a: Seq<char>, b: Seq<char>)
    ensures
        lex_le(a, b) || lex_le(b, a),
    decreases a.len(),
{
    if a.len() > 0 && b.len() > 0 && (a[0] as u32) == (b[0] as u32) {
        lemma_lex_le_total(a.drop_first(), b.drop_first());
    }
}

/// The lexicographic order is antisymmetric.
pub proof fn lemma_lex_le_antisym(a: Seq<char>, b: Seq<char>)
    requires
        lex_le(a, b),
        lex_le(b, a),
    ensures
        a == b,
    decreases a.len(),
{
    if a.len() == 0 {
        assert(b.len() == 0);
        assert(a =~= b);
    } else {
        assert(b.len() > 0);
        assert((a[0] as u32) == (b[0] as u32));
        vstd::utf8::char_u32_cast(a[0], a[0] as u32);
        vstd::utf8::char_u32_cast(b[0], b[0] as u32);
        assert(a[0] == b[0]);
        lemma_lex_le_antisym(a.drop_first(), b.drop_first());
        assert(a =~= seq![a[0]] + a.drop_first());
        assert(b =~= seq![b[0]] + b.drop_first());
    }
}

/// The lexicographic order is transitive.
pub proof fn lemma_lex_le_trans(a: Seq<char>, b: Seq<char>, c: Seq<char>)
    requires
        lex_le(a, b),
        lex_le(b, c),
    ensures
        lex_le(a, c),
    decreases a.len(),
{
    if a.len() > 0 && b.len() > 0 && c.len() > 0 && (a[0] as u32) == (b[0] as u32) && (
    b[0] as u32) == (c[0] as u32) {
        lemma_lex_le_trans(a.drop_first(), b.drop_first(), c.drop_first());
    }
}

} // verus!

verus! {

/// A digit character reads back as its digit.
pub proof fn lemma_digit_char_value(d: int)
    requires
        0 <= d < 10,
    ensures
        spec_digit(spec_digit_char(d)) == Some(d as u32),
        spec_digit_char(d) as u32 == 48 + d,
{
    assert(spec_digit_char(d) as u32 == 48 + d) by {
        assert(('0' as u32) == 48);
    }
}

/// Every character of a rendered natural number is a digit, and the
/// digits read back as the number.
pub proof fn lemma_u64_str_value(n: int)
    requires
        0 <= n <= u64::MAX,
    ensures
        spec_u64_str(n).len() >= 1,
        forall|i: int| 0 <= i < spec_u64_str(n).len() ==> spec_digit(
            #[trigger] spec_u64_str(n)[i],
        ) is Some,
        spec_digits_value(spec_u64_str(n)) == Some(n as u64),
    decreases n,
{
    if n < 10 {
        lemma_digit_char_value(n);
        let s = spec_u64_str(n);
        assert(s =~= seq![spec_digit_char(n)]);
        assert(s.last() == spec_digit_char(n));
    } else {
        lemma_u64_str_value(n / 10);
        lemma_digit_char_value(n % 10);
        let p = spec_u64_str(n / 10);
        let s = spec_u64_str(n);
        assert(s == p.push(spec_digit_char(n % 10)));
        assert(s.drop_last() =~= p);
        assert(s.last() == spec_digit_char(n % 10));
        assert forall|i: int| 0 <= i < s.len() implies spec_digit(#[trigger] s[i]) is Some by {
            if i < p.len() {
                assert(s[i] == p[i]);
            }
        }
        assert((n / 10) as int * 10 + (n % 10) == n);
        assert(spec_digits_value(s) == Some(n as u64));
    }
}

/// The first point in a digit run followed by a point stands right
/// after the run.
pub proof fn lemma_first_point_after_digits(a: Seq<char>, b: Seq<char>)
    requires
        forall|i: int| 0 <= i < a.len() ==> spec_digit(#[trigger] a[i]) is Some,
    ensures
        first_index_of(a + seq!['.'] + b, '.') == Some(a.len() as int),
    decreases a.len(),
{
    let s = a + seq!['.'] + b;
    if a.len() == 0 {
        assert(s[0] == '.');
    } else {
        assert(s[0] == a[0]);
        assert(spec_digit(a[0]) is Some);
        assert(a[0] != '.') by {
            assert(spec_digit('.') is None);
        }
        assert(forall|i: int| 0 <= i < a.drop_first().len() ==> (#[trigger] a.drop_first()[i])
            == a[i + 1]);
        lemma_first_point_after_digits(a.drop_first(), b);
        assert(s.drop_first() =~= a.drop_first() + seq!['.'] + b);
    }
}

} // verus!
