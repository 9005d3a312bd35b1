//! Decoding a raw text token into a typed scalar value.

use vstd::prelude::*;

verus! {

/// The set of boolean literals accepted from raw text.
pub open spec fn bool_of_text(s: Seq<char>) -> Option<bool> {
    if s == "0"@ || s == "false"@ || s == "False"@ || s == "FALSE"@ {
        Some(false)
    } else if s == "1"@ || s == "true"@ || s == "True"@ || s == "TRUE"@ {
        Some(true)
    } else {
        None
    }
}

/// Decode a boolean from its literal set: `0`, `false`, `False`, `FALSE`
/// mean false; `1`, `true`, `True`, `TRUE` mean true; anything else is
/// invalid.
pub fn decode_bool(s: &str) -> (r: Option<bool>)
    ensures
        r == bool_of_text(s@),
{
    proof {
        reveal_strlit("0");
        reveal_strlit("false");
        reveal_strlit("False");
        reveal_strlit("FALSE");
        reveal_strlit("1");
        reveal_strlit("true");
        reveal_strlit("True");
        reveal_strlit("TRUE");
    }
    if str_eq(s, "0") || str_eq(s, "false") || str_eq(s, "False") || str_eq(s, "FALSE") {
        Some(false)
    } else if str_eq(s, "1") || str_eq(s, "true") || str_eq(s, "True") || str_eq(s, "TRUE") {
        Some(true)
    } else {
        None
    }
}

/// Whether `c` is a decimal digit.
pub open spec fn is_digit(c: char) -> bool {
    '0' <= c && c <= '9'
}

/// The numeric value of a decimal digit.
pub open spec fn digit_val(c: char) -> int {
    c as int - '0' as int
}

/// Whether every character of `s` is a decimal digit.
pub open spec fn all_digits(s: Seq<char>) -> bool {
    forall|i: int| 0 <= i < s.len() ==> is_digit(s[i])
}

/// The value of a string of decimal digits, most significant first.
pub open spec fn digits_val(s: Seq<char>) -> int
    decreases s.len(),
{
    if s.len() == 0 {
        0
    } else {
        digits_val(s.drop_last()) * 10 + digit_val(s.last())
    }
}

/// The unsigned decimal grammar: an optional `+` sign, then at least one
/// digit. `None` when the token does not match.
pub open spec fn uint_of_text(s: Seq<char>) -> Option<int> {
    let body = if s.len() > 0 && s[0] == '+' {
        s.drop_first()
    } else {
        s
    };
    if body.len() > 0 && all_digits(body) {
        Some(digits_val(body))
    } else {
        None
    }
}

/// The signed decimal grammar: an optional `+` or `-` sign, then at least
/// one digit. `None` when the token does not match.
pub open spec fn int_of_text(s: Seq<char>) -> Option<int> {
    if s.len() > 0 && (s[0] == '+' || s[0] == '-') {
        let body = s.drop_first();
        if body.len() > 0 && all_digits(body) {
            if s[0] == '-' {
                Some(-digits_val(body))
            } else {
                Some(digits_val(body))
            }
        } else {
            None
        }
    } else {
        if s.len() > 0 && all_digits(s) {
            Some(digits_val(s))
        } else {
            None
        }
    }
}

proof fn lemma_digits_val_nonneg(s: Seq<char>)
    requires
        all_digits(s),
    ensures
        digits_val(s) >= 0,
    decreases s.len(),
{
    if s.len() > 0 {
        lemma_digits_val_nonneg(s.drop_last());
    }
}

/// Extending a digit string to the right never decreases its value.
proof fn lemma_digits_val_prefix(s: Seq<char>, n: int)
    requires
        all_digits(s),
        0 <= n <= s.len(),
    ensures
        digits_val(s) >= digits_val(s.take(n)),
    decreases s.len() - n,
{
    if n < s.len() {
        lemma_digits_val_prefix(s, n + 1);
        assert(s.take(n + 1).drop_last() =~= s.take(n));
        assert(digits_val(s.take(n + 1)) == digits_val(s.take(n)) * 10 + digit_val(s[n]));
        lemma_digits_val_nonneg(s.take(n));
        assert(digits_val(s.take(n)) * 10 >= digits_val(s.take(n))) by (nonlinear_arith)
            requires digits_val(s.take(n)) >= 0;
    } else {
        assert(s.take(n) =~= s);
    }
}

/// Parse the digit body of an unsigned number, bounded by `max`.
///
/// Returns the value when the characters from `from` on are all digits,
/// there is at least one, and the value does not exceed `max`.
fn parse_digits(s: &str, from: usize, max: u64) -> (r: Option<u64>)
    requires
        from <= s@.len(),
        s@.len() <= usize::MAX,
    ensures
        match r {
            Some(v) => {
                &&& all_digits(s@.skip(from as int))
                &&& s@.len() - from >= 1
                &&& v == digits_val(s@.skip(from as int))
                &&& v <= max
            },
            None => {
                ||| !all_digits(s@.skip(from as int))
                ||| s@.len() == from
                ||| digits_val(s@.skip(from as int)) > max
            },
        },
{
    let ghost body = s@.skip(from as int);
    let len = s.unicode_len();
    if len == from {
        return None;
    }
    let mut acc: u64 = 0;
    let mut i: usize = from;
    while i < len
        invariant
            from <= i <= len,
            len == s@.len(),
            body == s@.skip(from as int),
            all_digits(body.take(i - from)),
            acc == digits_val(body.take(i - from)),
            acc <= max,
        decreases len - i,
    {
        let c = s.get_char(i);
        assert(body[i - from] == s@[i as int]);
        if !('0' <= c && c <= '9') {
            assert(!is_digit(body[i - from]));
            return None;
        }
        let d: u64 = (c as u32 as u64) - ('0' as u32 as u64);
        assert(d == digit_val(c) && d <= 9);
        if d > max || acc > (max - d) / 10 {
            // the digits seen so far already exceed `max`
            proof {
                let pre = body.take(i - from + 1);
                assert(pre.drop_last() =~= body.take(i - from));
                assert(digits_val(pre) == acc * 10 + d);
                assert(acc * 10 + d > max) by (nonlinear_arith)
                    requires
                        d <= 9,
                        d <= max ==> acc > (max - d) / 10,
                        acc >= 0,
                        max >= 0,
                        d > max || acc > (max - d) / 10;
                if all_digits(body) {
                    lemma_digits_val_prefix(body, i - from + 1);
                }
            }
            return None;
        }
        proof {
            assert(acc * 10 + d <= max) by (nonlinear_arith)
                requires
                    d <= max,
                    acc <= (max - d) / 10,
                    acc >= 0,
                    max >= 0;
            let pre = body.take(i - from + 1);
            assert(pre.drop_last() =~= body.take(i - from));
            assert(pre.last() == body[i - from]);
        }
        acc = acc * 10 + d;
        i += 1;
    }
    assert(body.take(i - from) =~= body);
    Some(acc)
}

/// Parse an unsigned decimal token: optional `+`, then digits, value at
/// most `max`; `None` exactly when the grammar or the bound fails.
pub fn parse_uint(s: &str, max: u64) -> (r: Option<u64>)
    ensures
        match r {
            Some(v) => uint_of_text(s@) == Some(v as int) && v <= max,
            None => match uint_of_text(s@) {
                Some(v) => v > max,
                None => true,
            },
        },
{
    let len = s.unicode_len();
    let from: usize = if len > 0 && s.get_char(0) == '+' {
        1
    } else {
        0
    };
    proof {
        if from == 1 {
            assert(s@.skip(1) =~= s@.drop_first());
        } else {
            assert(s@.skip(0) =~= s@);
        }
    }
    parse_digits(s, from, max)
}

/// Parse a signed decimal token: optional `+` or `-`, then digits, value
/// within `min ..= max`; `None` exactly when the grammar or a bound fails.
///
/// `neg_mag` must be the magnitude of `min`, handed in separately because
/// the magnitude of the smallest value of a signed type has no home in
/// that type.
pub fn parse_int(s: &str, min: i64, max: i64, neg_mag: u64) -> (r: Option<i64>)
    requires
        min < 0 <= max,
        neg_mag == -(min as int),
        max <= i64::MAX,
    ensures
        match r {
            Some(v) => int_of_text(s@) == Some(v as int) && min <= v <= max,
            None => match int_of_text(s@) {
                Some(v) => v < min || v > max,
                None => true,
            },
        },
{
    let len = s.unicode_len();
    if len > 0 && s.get_char(0) == '-' {
        proof {
            assert(s@.skip(1) =~= s@.drop_first());
        }
        match parse_digits(s, 1, neg_mag) {
            Some(mag) => {
                proof {
                    lemma_digits_val_nonneg(s@.drop_first());
                }
                if mag == neg_mag {
                    Some(min)
                } else {
                    Some(-(mag as i64))
                }
            },
            None => None,
        }
    } else {
        let from: usize = if len > 0 && s.get_char(0) == '+' {
            1
        } else {
            0
        };
        proof {
            if from == 1 {
                assert(s@.skip(1) =~= s@.drop_first());
            } else {
                assert(s@.skip(0) =~= s@);
            }
        }
        match parse_digits(s, from, max as u64) {
            Some(v) => Some(v as i64),
            None => None,
        }
    }
}

/// The numeric value of a hexadecimal digit, either case; `None` for any
/// other character.
pub open spec fn hex_digit_val(c: char) -> Option<int> {
    if '0' <= c && c <= '9' {
        Some(c as int - '0' as int)
    } else if 'a' <= c && c <= 'f' {
        Some(c as int - 'a' as int + 10)
    } else if 'A' <= c && c <= 'F' {
        Some(c as int - 'A' as int + 10)
    } else {
        None
    }
}

/// The bytes of an even-length hexadecimal string: each adjacent pair of
/// digits is one byte. `None` on odd length or a non-digit character.
pub open spec fn hex_bytes(s: Seq<char>) -> Option<Seq<u8>>
    decreases s.len(),
{
    if s.len() == 0 {
        Some(Seq::empty())
    } else if s.len() == 1 {
        None
    } else {
        match (hex_digit_val(s[0]), hex_digit_val(s[1])) {
            (Some(h), Some(l)) => match hex_bytes(s.skip(2)) {
                Some(rest) => Some(seq![(h * 16 + l) as u8] + rest),
                None => None,
            },
            _ => None,
        }
    }
}

/// The hexadecimal byte grammar: an optional `0x` prefix, then an
/// even-length hexadecimal string.
pub open spec fn hex_of_text(s: Seq<char>) -> Option<Seq<u8>> {
    let body = if s.len() >= 2 && s[0] == '0' && s[1] == 'x' {
        s.skip(2)
    } else {
        s
    };
    hex_bytes(body)
}

/// The value of one hexadecimal digit character.
fn hex_digit(c: char) -> (r: Option<u8>)
    ensures
        match r {
            Some(v) => hex_digit_val(c) == Some(v as int),
            None => hex_digit_val(c) is None,
        },
{
    if '0' <= c && c <= '9' {
        Some((c as u32 as u8) - ('0' as u32 as u8))
    } else if 'a' <= c && c <= 'f' {
        Some((c as u32 as u8) - ('a' as u32 as u8) + 10)
    } else if 'A' <= c && c <= 'F' {
        Some((c as u32 as u8) - ('A' as u32 as u8) + 10)
    } else {
        None
    }
}

/// Decode a token as hexadecimal bytes: an optional `0x` prefix, then an
/// even-length hexadecimal string; each pair of digits is one byte. The
/// empty string decodes to zero bytes.
pub fn hex(s: &str) -> (r: Option<Vec<u8>>)
    ensures
        match r {
            Some(v) => hex_of_text(s@) == Some(v@),
            None => hex_of_text(s@) is None,
        },
{
    let len = s.unicode_len();
    let from: usize = if len >= 2 && s.get_char(0) == '0' && s.get_char(1) == 'x' {
        2
    } else {
        0
    };
    let ghost body = s@.skip(from as int);
    proof {
        if from == 0 {
            assert(s@.skip(0) =~= s@);
        }
        assert(hex_of_text(s@) == hex_bytes(body));
        assert(body.skip(0) =~= body);
    }
    let mut out: Vec<u8> = Vec::new();
    let mut i: usize = from;
    while i < len
        invariant
            from <= i <= len,
            len == s@.len(),
            body == s@.skip(from as int),
            hex_of_text(s@) == hex_bytes(body),
            (i - from) % 2 == 0,
            hex_bytes(body) == match hex_bytes(body.skip(i - from)) {
                Some(rest) => Some(out@ + rest),
                None => None::<Seq<u8>>,
            },
        decreases len - i,
    {
        assert(body.skip(i - from).len() == len - i);
        assert(body.skip(i - from)[0] == s@[i as int]);
        if i + 1 == len {
            // odd number of digit characters
            return None;
        }
        assert(body.skip(i - from)[1] == s@[i + 1]);
        let h = match hex_digit(s.get_char(i)) {
            Some(h) => h,
            None => {
                return None;
            },
        };
        let l = match hex_digit(s.get_char(i + 1)) {
            Some(l) => l,
            None => {
                return None;
            },
        };
        proof {
            assert(body.skip(i - from).skip(2) =~= body.skip(i + 2 - from));
        }
        let b: u8 = h * 16 + l;
        assert(hex_bytes(body.skip(i - from)) == match hex_bytes(body.skip(i + 2 - from)) {
            Some(rest) => Some(seq![b] + rest),
            None => None::<Seq<u8>>,
        });
        let ghost old_out = out@;
        out.push(b);
        proof {
            if hex_bytes(body.skip(i + 2 - from)) is Some {
                assert(old_out + (seq![b] + hex_bytes(body.skip(i + 2 - from)).unwrap()) =~= out@
                    + hex_bytes(body.skip(i + 2 - from)).unwrap());
            }
        }
        i += 2;
    }
    proof {
        assert(body.skip(i - from) =~= Seq::<char>::empty());
        assert(out@ + Seq::<u8>::empty() =~= out@);
    }
    Some(out)
}

/// Whether `s` contains no comma.
pub open spec fn comma_free(s: Seq<char>) -> bool {
    forall|i: int| 0 <= i < s.len() ==> s[i] != ','
}

/// The segments of `s` split on `,`, with no escaping and no quoting: a
/// token without a comma is a single segment, and the empty token is a
/// single empty segment.
pub open spec fn split_text(s: Seq<char>) -> Seq<Seq<char>>
    decreases s.len(),
{
    if s.len() == 0 {
        seq![s]
    } else if s[0] == ',' {
        seq![Seq::<char>::empty()] + split_text(s.drop_first())
    } else {
        let rest = split_text(s.drop_first());
        seq![seq![s[0]] + rest[0]] + rest.drop_first()
    }
}

/// The segments joined back into one token with `,` between them.
pub open spec fn join_text(parts: Seq<Seq<char>>) -> Seq<char>
    decreases parts.len(),
{
    if parts.len() == 0 {
        Seq::empty()
    } else if parts.len() == 1 {
        parts[0]
    } else {
        parts[0] + seq![','] + join_text(parts.drop_first())
    }
}

/// A token without a comma is a single segment.
pub proof fn lemma_split_comma_free(s: Seq<char>)
    requires
        comma_free(s),
    ensures
        split_text(s) == seq![s],
    decreases s.len(),
{
    if s.len() > 0 {
        lemma_split_comma_free(s.drop_first());
        assert(seq![s[0]] + s.drop_first() =~= s);
        assert(seq![seq![s[0]] + s.drop_first()] + seq![s.drop_first()].drop_first() =~= seq![s]);
    }
}

/// Splitting starts over after the first comma.
pub proof fn lemma_split_at_comma(a: Seq<char>, b: Seq<char>)
    requires
        comma_free(a),
    ensures
        split_text(a + seq![','] + b) == seq![a] + split_text(b),
    decreases a.len(),
{
    let s = a + seq![','] + b;
    if a.len() == 0 {
        assert(s[0] == ',');
        assert(s.drop_first() =~= b);
        assert(a =~= Seq::<char>::empty());
        assert(seq![Seq::<char>::empty()] + split_text(b) =~= seq![a] + split_text(b));
    } else {
        assert(s[0] == a[0]);
        assert(s[0] != ',');
        assert(s.drop_first() =~= a.drop_first() + seq![','] + b);
        lemma_split_at_comma(a.drop_first(), b);
        let rest = split_text(s.drop_first());
        assert(rest == seq![a.drop_first()] + split_text(b));
        assert(rest[0] == a.drop_first());
        assert(seq![a[0]] + a.drop_first() =~= a);
        assert(rest.drop_first() =~= split_text(b));
        assert(seq![seq![a[0]] + rest[0]] + rest.drop_first() =~= seq![a] + split_text(b));
    }
}

/// Joining segments with commas and splitting the result again gives back
/// the segments, provided no segment contains a comma.
pub proof fn lemma_split_join_round_trip(parts: Seq<Seq<char>>)
    requires
        parts.len() >= 1,
        forall|i: int| 0 <= i < parts.len() ==> comma_free(#[trigger] parts[i]),
    ensures
        split_text(join_text(parts)) == parts,
    decreases parts.len(),
{
    if parts.len() == 1 {
        lemma_split_comma_free(parts[0]);
        assert(seq![parts[0]] =~= parts);
    } else {
        lemma_split_at_comma(parts[0], join_text(parts.drop_first()));
        lemma_split_join_round_trip(parts.drop_first());
        assert(seq![parts[0]] + parts.drop_first() =~= parts);
    }
}

/// Split a token into its comma-separated segments.
pub fn split_commas(s: &str) -> (r: Vec<String>)
    ensures
        r.deep_view() == split_text(s@),
{
    let len = s.unicode_len();
    let mut segs: Vec<String> = Vec::new();
    let mut pos: usize = 0;
    proof {
        assert(s@.skip(0) =~= s@);
        assert(segs.deep_view() + split_text(s@) =~= split_text(s@));
    }
    loop
        invariant
            pos <= len,
            len == s@.len(),
            split_text(s@) == segs.deep_view() + split_text(s@.skip(pos as int)),
        decreases len - pos,
    {
        let ghost tail = s@.skip(pos as int);
        let mut j: usize = pos;
        while j < len && s.get_char(j) != ','
            invariant
                pos <= j <= len,
                len == s@.len(),
                forall|k: int| pos <= k < j ==> s@[k] != ',',
            decreases len - j,
        {
            j += 1;
        }
        let seg = s.substring_char(pos, j);
        let ghost old_segs = segs.deep_view();
        segs.push(seg.to_owned());
        proof {
            assert(segs.deep_view() =~= old_segs + seq![seg@]);
        }
        if j < len {
            // the comma found at `j` closes this segment
            proof {
                assert(s@[j as int] == ',');
                assert(tail =~= seg@ + seq![','] + s@.skip(j + 1));
                lemma_split_at_comma(seg@, s@.skip(j + 1));
                assert(old_segs + (seq![seg@] + split_text(s@.skip(j + 1))) =~= segs.deep_view()
                    + split_text(s@.skip(j + 1)));
            }
            pos = j + 1;
        } else {
            proof {
                assert(seg@ =~= tail);
                lemma_split_comma_free(tail);
                assert(old_segs + seq![tail] =~= segs.deep_view());
            }
            return segs;
        }
    }
}

/// Join elements with commas, the encoding whose decoding is `split_text`.
pub fn join_commas(parts: &Vec<String>) -> (r: String)
    ensures
        r@ == join_text(parts.deep_view()),
{
    let mut out = String::new();
    if parts.len() == 0 {
        return out;
    }
    let mut i: usize = parts.len();
    // build from the back, matching the front-recursive shape of `join_text`
    let mut acc: String = parts[i - 1].clone();
    i -= 1;
    while i > 0
        invariant
            i < parts.len(),
            acc@ == join_text(parts.deep_view().skip(i as int)),
        decreases i,
    {
        let ghost before = parts.deep_view().skip(i as int);
        i -= 1;
        let mut piece: String = parts[i].clone();
        piece.append(",");
        piece.append(acc.as_str());
        proof {
            reveal_strlit(",");
            let now = parts.deep_view().skip(i as int);
            assert(now.len() >= 2);
            assert(now[0] == parts.deep_view()[i as int]);
            assert(now.drop_first() =~= before);
            assert(piece@ =~= now[0] + seq![','] + join_text(before));
        }
        acc = piece;
    }
    proof {
        assert(parts.deep_view().skip(0) =~= parts.deep_view());
    }
    acc
}

/// Whether `c` is the lowercase letter `l` or its uppercase form.
pub open spec fn matches_ci(c: char, l: char) -> bool {
    c == l || c as int == l as int - 32
}

/// Case-insensitive equality of `s` against a lowercase word `t`.
pub open spec fn eq_ci(s: Seq<char>, t: Seq<char>) -> bool {
    s.len() == t.len() && forall|i: int| 0 <= i < s.len() ==> matches_ci(s[i], #[trigger] t[i])
}

/// The special float words, any casing: `inf`, `infinity`, `nan`.
pub open spec fn float_special(s: Seq<char>) -> bool {
    ||| eq_ci(s, seq!['i', 'n', 'f'])
    ||| eq_ci(s, seq!['i', 'n', 'f', 'i', 'n', 'i', 't', 'y'])
    ||| eq_ci(s, seq!['n', 'a', 'n'])
}

/// The mantissa grammar of a float literal: digits, or digits with one
/// point and at least one digit on some side of it.
pub open spec fn is_mantissa(s: Seq<char>) -> bool {
    ||| (s.len() > 0 && all_digits(s))
    ||| (exists|j: int|
        0 <= j < s.len() && s[j] == '.' && all_digits(s.take(j)) && all_digits(s.skip(j + 1)) && (
        j > 0 || s.len() - j - 1 > 0))
}

/// The exponent that may follow `e` or `E`: an optional sign, then at
/// least one digit.
pub open spec fn is_exp_suffix(s: Seq<char>) -> bool {
    let body = if s.len() > 0 && (s[0] == '+' || s[0] == '-') {
        s.drop_first()
    } else {
        s
    };
    body.len() > 0 && all_digits(body)
}

pub open spec fn is_exp_marker(c: char) -> bool {
    c == 'e' || c == 'E'
}

/// A float number: a mantissa, optionally followed by an exponent part.
pub open spec fn is_float_number(s: Seq<char>) -> bool {
    ||| is_mantissa(s)
    ||| (exists|i: int|
        0 <= i < s.len() && is_exp_marker(#[trigger] s[i]) && is_mantissa(s.take(i))
            && is_exp_suffix(s.skip(i + 1)))
}

/// The grammar that the standard textual float parse accepts: an optional
/// sign, then a special word or a number.
pub open spec fn float_text_ok(s: Seq<char>) -> bool {
    let body = if s.len() > 0 && (s[0] == '+' || s[0] == '-') {
        s.drop_first()
    } else {
        s
    };
    float_special(body) || is_float_number(body)
}

/// Every character of a mantissa is a digit or the point.
proof fn lemma_mantissa_chars(s: Seq<char>, k: int)
    requires
        is_mantissa(s),
        0 <= k < s.len(),
    ensures
        is_digit(s[k]) || s[k] == '.',
{
    if !(s.len() > 0 && all_digits(s)) {
        let j = choose|j: int|
            0 <= j < s.len() && s[j] == '.' && all_digits(s.take(j)) && all_digits(s.skip(j + 1))
                && (j > 0 || s.len() - j - 1 > 0);
        if k < j {
            assert(s.take(j)[k] == s[k]);
            assert(is_digit(s.take(j)[k]));
        } else if k > j {
            assert(s.skip(j + 1)[k - j - 1] == s[k]);
            assert(is_digit(s.skip(j + 1)[k - j - 1]));
        }
    }
}

/// The first index in `a ..= b` whose character is not a digit, or `b`.
fn scan_digits(s: &str, a: usize, b: usize) -> (j: usize)
    requires
        a <= b <= s@.len(),
    ensures
        a <= j <= b,
        forall|k: int| a <= k < j ==> is_digit(s@[k]),
        j < b ==> !is_digit(s@[j as int]),
{
    let mut j = a;
    while j < b && '0' <= s.get_char(j) && s.get_char(j) <= '9'
        invariant
            a <= j <= b,
            b <= s@.len(),
            forall|k: int| a <= k < j ==> is_digit(s@[k]),
        decreases b - j,
    {
        j += 1;
    }
    j
}

/// Whether the characters of `a .. b` form a mantissa.
fn check_mantissa(s: &str, a: usize, b: usize) -> (r: bool)
    requires
        a <= b <= s@.len(),
    ensures
        r == is_mantissa(s@.subrange(a as int, b as int)),
{
    let ghost part = s@.subrange(a as int, b as int);
    let j = scan_digits(s, a, b);
    if j == b {
        proof {
            assert(forall|k: int| 0 <= k < part.len() ==> part[k] == s@[a + k]);
        }
        assert(b > a ==> all_digits(part));
        assert(b == a ==> !is_mantissa(part));
        return b > a;
    }
    if s.get_char(j) == '.' {
        let k = scan_digits(s, j + 1, b);
        proof {
            assert(forall|x: int| 0 <= x < part.len() ==> part[x] == s@[a + x]);
        }
        if k < b {
            // a second point or another stray character after the point
            proof {
                assert(!is_digit(part[j - a]));
                assert forall|j2: int|
                    !(0 <= j2 < part.len() && part[j2] == '.' && all_digits(part.take(j2))
                        && all_digits(part.skip(j2 + 1)) && (j2 > 0 || part.len() - j2 - 1
                        > 0)) by {
                    if 0 <= j2 < part.len() && part[j2] == '.' {
                        if j2 < j - a {
                            assert(is_digit(s@[a + j2]));
                        } else if j2 > j - a {
                            assert(part.take(j2)[j - a] == part[j - a]);
                        } else {
                            assert(part.skip(j2 + 1)[k - j - 1] == s@[k as int]);
                        }
                    }
                }
            }
            return false;
        }
        proof {
            assert(part[j - a] == '.');
            assert(all_digits(part.take(j - a))) by {
                assert(forall|x: int| 0 <= x < j - a ==> #[trigger] part.take(j - a)[x] == s@[a + x]);
            }
            assert(all_digits(part.skip(j - a + 1))) by {
                assert(forall|x: int|
                    0 <= x < part.len() - (j - a) - 1 ==> #[trigger] part.skip(j - a + 1)[x] == s@[
                    j + 1 + x]);
            }
        }
        let r = j > a || b - j - 1 > 0;
        proof {
            if r {
                assert(is_mantissa(part));
            } else {
                // the point stands alone: rule out both grammar forms
                assert(!all_digits(part));
                assert forall|j2: int|
                    !(0 <= j2 < part.len() && part[j2] == '.' && all_digits(part.take(j2))
                        && all_digits(part.skip(j2 + 1)) && (j2 > 0 || part.len() - j2 - 1
                        > 0)) by {
                    if 0 <= j2 < part.len() && part[j2] == '.' {
                        assert(part.len() == 1 && j2 == 0);
                    }
                }
            }
        }
        return r;
    }
    // a character that is neither digit nor point
    proof {
        assert(forall|x: int| 0 <= x < part.len() ==> part[x] == s@[a + x]);
        assert(!is_digit(part[j - a]) && part[j - a] != '.');
        assert forall|j2: int|
            !(0 <= j2 < part.len() && part[j2] == '.' && all_digits(part.take(j2)) && all_digits(
                part.skip(j2 + 1)) && (j2 > 0 || part.len() - j2 - 1 > 0)) by {
            if 0 <= j2 < part.len() && part[j2] == '.' {
                if j2 < j - a {
                    assert(is_digit(s@[a + j2]));
                } else {
                    assert(j2 > j - a);
                    assert(part.take(j2)[j - a] == part[j - a]);
                }
            }
        }
    }
    false
}

/// Whether the characters of `a .. b` form an exponent suffix.
fn check_exp_suffix(s: &str, a: usize, b: usize) -> (r: bool)
    requires
        a <= b <= s@.len(),
    ensures
        r == is_exp_suffix(s@.subrange(a as int, b as int)),
{
    let ghost part = s@.subrange(a as int, b as int);
    let a2: usize = if a < b && (s.get_char(a) == '+' || s.get_char(a) == '-') {
        proof {
            assert(part.drop_first() =~= s@.subrange(a + 1, b as int));
        }
        a + 1
    } else {
        a
    };
    let ghost digits = s@.subrange(a2 as int, b as int);
    let j = scan_digits(s, a2, b);
    proof {
        assert(forall|x: int| 0 <= x < digits.len() ==> digits[x] == s@[a2 + x]);
    }
    if j == b && b > a2 {
        assert(all_digits(digits));
        true
    } else {
        proof {
            if j < b {
                assert(!is_digit(digits[j - a2]));
            }
        }
        false
    }
}

/// Whether `c` matches the lowercase letter `l`, ignoring case.
fn char_ci(c: char, l: char) -> (r: bool)
    ensures
        r == matches_ci(c, l),
{
    c == l || (c as u32) + 32 == (l as u32)
}

/// Whether the characters from `from` on spell a special float word.
fn check_special(s: &str, from: usize) -> (r: bool)
    requires
        from <= s@.len(),
    ensures
        r == float_special(s@.skip(from as int)),
{
    let ghost part = s@.skip(from as int);
    proof {
        assert(forall|x: int| 0 <= x < part.len() ==> part[x] == s@[from + x]);
    }
    let len = s.unicode_len();
    let n = len - from;
    if n == 3 {
        let c0 = s.get_char(from);
        let c1 = s.get_char(from + 1);
        let c2 = s.get_char(from + 2);
        let inf = char_ci(c0, 'i') && char_ci(c1, 'n') && char_ci(c2, 'f');
        let nan = char_ci(c0, 'n') && char_ci(c1, 'a') && char_ci(c2, 'n');
        proof {
            let w = seq!['i', 'n', 'f'];
            let v = seq!['n', 'a', 'n'];
            assert(inf == eq_ci(part, w)) by {
                if inf {
                    assert(forall|i: int| 0 <= i < 3 ==> matches_ci(part[i], #[trigger] w[i]));
                }
            }
            assert(nan == eq_ci(part, v)) by {
                if nan {
                    assert(forall|i: int| 0 <= i < 3 ==> matches_ci(part[i], #[trigger] v[i]));
                }
            }
        }
        inf || nan
    } else if n == 8 {
        let word = ['i', 'n', 'f', 'i', 'n', 'i', 't', 'y'];
        let mut i: usize = 0;
        let ghost w = seq!['i', 'n', 'f', 'i', 'n', 'i', 't', 'y'];
        assert(forall|x: int| 0 <= x < 8 ==> w[x] == word@[x]);
        while i < 8
            invariant
                i <= 8,
                part.len() == 8,
                part == s@.skip(from as int),
                len == s@.len(),
                from + 8 == len,
                w == seq!['i', 'n', 'f', 'i', 'n', 'i', 't', 'y'],
                forall|x: int| 0 <= x < 8 ==> w[x] == word@[x],
                forall|x: int| 0 <= x < i ==> matches_ci(part[x], #[trigger] w[x]),
            decreases 8 - i,
        {
            if !char_ci(s.get_char(from + i), word[i]) {
                assert(!matches_ci(part[i as int], w[i as int]));
                return false;
            }
            i += 1;
        }
        assert(eq_ci(part, w));
        true
    } else {
        proof {
            assert(part.len() != 3 && part.len() != 8);
        }
        false
    }
}

/// Whether the standard textual float parse would accept this token; the
/// value itself has no place here and is converted by the caller of the
/// library.
pub fn float_token_ok(s: &str) -> (r: bool)
    ensures
        r == float_text_ok(s@),
{
    let len = s.unicode_len();
    let from: usize = if len > 0 && (s.get_char(0) == '+' || s.get_char(0) == '-') {
        1
    } else {
        0
    };
    let ghost body = s@.skip(from as int);
    proof {
        if from == 1 {
            assert(s@.skip(1) =~= s@.drop_first());
        } else {
            assert(s@.skip(0) =~= s@);
        }
        assert(float_text_ok(s@) == (float_special(body) || is_float_number(body)));
    }
    if check_special(s, from) {
        return true;
    }
    // find the first exponent marker, if any
    let mut m: usize = from;
    while m < len && !(s.get_char(m) == 'e' || s.get_char(m) == 'E')
        invariant
            from <= m <= len,
            len == s@.len(),
            forall|k: int| from <= k < m ==> !is_exp_marker(s@[k]),
        decreases len - m,
    {
        m += 1;
    }
    proof {
        assert(forall|x: int| 0 <= x < body.len() ==> body[x] == s@[from + x]);
    }
    if m == len {
        let r = check_mantissa(s, from, len);
        proof {
            assert(s@.subrange(from as int, len as int) =~= body);
            assert forall|i: int|
                !(0 <= i < body.len() && is_exp_marker(#[trigger] body[i]) && is_mantissa(
                    body.take(i)) && is_exp_suffix(body.skip(i + 1))) by {
                if 0 <= i < body.len() {
                    assert(!is_exp_marker(s@[from + i]));
                }
            }
        }
        r
    } else {
        let r = check_mantissa(s, from, m) && check_exp_suffix(s, m + 1, len);
        proof {
            let mi = m - from;
            assert(body[mi] == s@[m as int]);
            assert(body.take(mi) =~= s@.subrange(from as int, m as int));
            assert(body.skip(mi + 1) =~= s@.subrange(m + 1, len as int));
            if r {
                assert(is_float_number(body));
            } else {
                assert(!is_mantissa(body)) by {
                    if is_mantissa(body) {
                        lemma_mantissa_chars(body, mi);
                    }
                }
                assert forall|i: int|
                    !(0 <= i < body.len() && is_exp_marker(#[trigger] body[i]) && is_mantissa(
                        body.take(i)) && is_exp_suffix(body.skip(i + 1))) by {
                    if 0 <= i < body.len() && is_exp_marker(body[i]) && is_mantissa(body.take(i)) {
                        if i < mi {
                            assert(!is_exp_marker(s@[from + i]));
                        } else if i > mi {
                            lemma_mantissa_chars(body.take(i), mi);
                            assert(body.take(i)[mi] == body[mi]);
                        }
                    }
                }
            }
        }
        r
    }
}

/// The kind of value a configuration field expects.
#[derive(Debug, PartialEq, Eq)]
pub enum Kind {
    Bool,
    U8,
    U16,
    U32,
    U64,
    I8,
    I16,
    I32,
    I64,
    F32,
    F64,
    Char,
    Str,
    Bytes,
    Unit,
    /// A field that wraps another kind and may be absent.
    Optional(Box<Kind>),
    /// A comma-separated sequence of another kind.
    Sequence(Box<Kind>),
    /// An enum with unit variants, listed by name.
    Enum(Vec<String>),
    /// An enum with data-carrying variants, which cannot be decoded.
    EnumNonUnit,
    /// A keyed structure, which cannot be decoded from a token.
    Table,
}

/// The mathematical form of a `Kind`.
pub enum KindView {
    Bool,
    U8,
    U16,
    U32,
    U64,
    I8,
    I16,
    I32,
    I64,
    F32,
    F64,
    Char,
    Str,
    Bytes,
    Unit,
    Optional(Box<KindView>),
    Sequence(Box<KindView>),
    Enum(Seq<Seq<char>>),
    EnumNonUnit,
    Table,
}

pub open spec fn kind_view(k: Kind) -> KindView
    decreases k,
{
    match k {
        Kind::Bool => KindView::Bool,
        Kind::U8 => KindView::U8,
        Kind::U16 => KindView::U16,
        Kind::U32 => KindView::U32,
        Kind::U64 => KindView::U64,
        Kind::I8 => KindView::I8,
        Kind::I16 => KindView::I16,
        Kind::I32 => KindView::I32,
        Kind::I64 => KindView::I64,
        Kind::F32 => KindView::F32,
        Kind::F64 => KindView::F64,
        Kind::Char => KindView::Char,
        Kind::Str => KindView::Str,
        Kind::Bytes => KindView::Bytes,
        Kind::Unit => KindView::Unit,
        Kind::Optional(e) => KindView::Optional(Box::new(kind_view(*e))),
        Kind::Sequence(e) => KindView::Sequence(Box::new(kind_view(*e))),
        Kind::Enum(names) => KindView::Enum(names.deep_view()),
        Kind::EnumNonUnit => KindView::EnumNonUnit,
        Kind::Table => KindView::Table,
    }
}

impl View for Kind {
    type V = KindView;

    open spec fn view(&self) -> KindView {
        kind_view(*self)
    }
}

/// A decoded field value.
#[derive(Debug, PartialEq, Eq)]
pub enum FieldValue {
    Bool(bool),
    UInt(u64),
    Int(i64),
    /// A float field keeps its validated token; the hosting binary
    /// converts it, since float values have no place in verified code.
    FloatText(String),
    Char(char),
    Str(String),
    Bytes(Vec<u8>),
    Unit,
    Optional(Option<Box<FieldValue>>),
    Sequence(Vec<FieldValue>),
    /// The matched unit variant of an enum field, by name.
    Variant(String),
}

/// The mathematical form of a `FieldValue`.
pub enum ValView {
    Bool(bool),
    UInt(int),
    Int(int),
    FloatText(Seq<char>),
    Char(char),
    Str(Seq<char>),
    Bytes(Seq<u8>),
    Unit,
    Optional(Option<Box<ValView>>),
    Sequence(Seq<ValView>),
    Variant(Seq<char>),
}

pub open spec fn val_view(v: FieldValue) -> ValView
    decreases v,
    via val_view_decreases
{
    match v {
        FieldValue::Bool(b) => ValView::Bool(b),
        FieldValue::UInt(x) => ValView::UInt(x as int),
        FieldValue::Int(x) => ValView::Int(x as int),
        FieldValue::FloatText(t) => ValView::FloatText(t@),
        FieldValue::Char(c) => ValView::Char(c),
        FieldValue::Str(t) => ValView::Str(t@),
        FieldValue::Bytes(b) => ValView::Bytes(b@),
        FieldValue::Unit => ValView::Unit,
        FieldValue::Optional(o) => ValView::Optional(
            match o {
                Some(b) => Some(Box::new(val_view(*b))),
                None => None,
            },
        ),
        FieldValue::Sequence(items) => ValView::Sequence(
            Seq::new(
                items@.len(),
                |i: int|
                    if 0 <= i < items@.len() {
                        val_view(items@[i])
                    } else {
                        ValView::Unit
                    },
            ),
        ),
        FieldValue::Variant(n) => ValView::Variant(n@),
    }
}

#[via_fn]
proof fn val_view_decreases(v: FieldValue) {
    broadcast use vstd::std_specs::vec::group_vec_axioms;
    broadcast use vstd::seq::group_seq_axioms;

    match v {
        FieldValue::Sequence(items) => {
            assert forall|i: int| 0 <= i < items@.len() implies #[trigger] (decreases_to!(
                v => items@[i])) by {
                assert(decreases_to!(v => items));
                assert(decreases_to!(items => items@));
                assert(decreases_to!(items@ => items@[i]));
            }
        },
        _ => {},
    }
}

impl View for FieldValue {
    type V = ValView;

    open spec fn view(&self) -> ValView {
        val_view(*self)
    }
}

impl DeepView for FieldValue {
    type V = ValView;

    open spec fn deep_view(&self) -> ValView {
        val_view(*self)
    }
}

impl Clone for Kind {
    /// Clone a kind; the copy has the same view.
    fn clone(&self) -> (r: Self)
        ensures
            r@ == self@,
        decreases *self,
    {
        match self {
            Kind::Bool => Kind::Bool,
            Kind::U8 => Kind::U8,
            Kind::U16 => Kind::U16,
            Kind::U32 => Kind::U32,
            Kind::U64 => Kind::U64,
            Kind::I8 => Kind::I8,
            Kind::I16 => Kind::I16,
            Kind::I32 => Kind::I32,
            Kind::I64 => Kind::I64,
            Kind::F32 => Kind::F32,
            Kind::F64 => Kind::F64,
            Kind::Char => Kind::Char,
            Kind::Str => Kind::Str,
            Kind::Bytes => Kind::Bytes,
            Kind::Unit => Kind::Unit,
            Kind::Optional(e) => Kind::Optional(Box::new((**e).clone())),
            Kind::Sequence(e) => Kind::Sequence(Box::new((**e).clone())),
            Kind::Enum(names) => {
                let mut out: Vec<String> = Vec::new();
                let mut i: usize = 0;
                while i < names.len()
                    invariant
                        i <= names@.len(),
                        out@.len() == i,
                        forall|j: int| 0 <= j < i ==> #[trigger] out@[j]@ == names@[j]@,
                    decreases names@.len() - i,
                {
                    let c = names[i].clone();
                    out.push(c);
                    i += 1;
                }
                proof {
                    assert forall|j: int| 0 <= j < out@.len() implies #[trigger] out.deep_view()[j]
                        == names.deep_view()[j] by {
                        assert(out@[j]@ == names@[j]@);
                    }
                    assert(out.deep_view() =~= names.deep_view());
                }
                Kind::Enum(out)
            },
            Kind::EnumNonUnit => Kind::EnumNonUnit,
            Kind::Table => Kind::Table,
        }
    }
}

impl Clone for FieldValue {
    /// Clone a field value; the copy has the same view.
    fn clone(&self) -> (r: Self)
        ensures
            r@ == self@,
        decreases *self,
    {
        match self {
            FieldValue::Bool(b) => FieldValue::Bool(*b),
            FieldValue::UInt(x) => FieldValue::UInt(*x),
            FieldValue::Int(x) => FieldValue::Int(*x),
            FieldValue::FloatText(t) => FieldValue::FloatText(t.clone()),
            FieldValue::Char(c) => FieldValue::Char(*c),
            FieldValue::Str(t) => FieldValue::Str(t.clone()),
            FieldValue::Bytes(b) => {
                let mut out: Vec<u8> = Vec::new();
                let mut i: usize = 0;
                while i < b.len()
                    invariant
                        i <= b@.len(),
                        out@ == b@.take(i as int),
                    decreases b@.len() - i,
                {
                    let x = b[i];
                    out.push(x);
                    proof {
                        assert(out@ =~= b@.take(i + 1));
                    }
                    i += 1;
                }
                proof {
                    assert(b@.take(b@.len() as int) =~= b@);
                }
                FieldValue::Bytes(out)
            },
            FieldValue::Unit => FieldValue::Unit,
            FieldValue::Optional(o) => FieldValue::Optional(
                match o {
                    Some(b) => Some(Box::new((**b).clone())),
                    None => None,
                },
            ),
            FieldValue::Sequence(items) => {
                let mut out: Vec<FieldValue> = Vec::new();
                let mut i: usize = 0;
                while i < items.len()
                    invariant
                        i <= items@.len(),
                        out@.len() == i,
                        self@ == val_view(FieldValue::Sequence(*items)),
                        decreases_to!(*self => *items),
                        forall|j: int| 0 <= j < i ==> #[trigger] out@[j]@ == items@[j]@,
                    decreases items@.len() - i,
                {
                    proof {
                        broadcast use vstd::std_specs::vec::group_vec_axioms;

                        assert(decreases_to!(*items => items@));
                        assert(decreases_to!(items@ => items@[i as int]));
                    }
                    let c = items[i].clone();
                    out.push(c);
                    i += 1;
                }
                proof {
                    let a = val_view(FieldValue::Sequence(out))->Sequence_0;
                    let b = val_view(FieldValue::Sequence(*items))->Sequence_0;
                    assert forall|j: int| 0 <= j < i implies a[j] == b[j] by {
                        assert(out@[j]@ == items@[j]@);
                    }
                    assert(a =~= b);
                }
                FieldValue::Sequence(out)
            },
            FieldValue::Variant(n) => FieldValue::Variant(n.clone()),
        }
    }
}

/// A raw environment token, ready for decoding through the text
/// backend of the decode contract.
pub struct EnvDeserializer(pub String);

impl EnvDeserializer {
    /// Decode the token into the kind a field expects.
    pub fn decode(&self, kind: &Kind) -> (r: Result<FieldValue, DecodeFault>)
        ensures
            match r {
                Ok(v) => decode_text_spec(self.0@, kind@) == Ok::<ValView, FaultView>(v@),
                Err(f) => decode_text_spec(self.0@, kind@) == Err::<ValView, FaultView>(f@),
            },
    {
        decode_text(self.0.as_str(), kind)
    }
}

/// Why a raw value failed to decode into its expected kind.
#[derive(Debug, PartialEq, Eq)]
pub enum DecodeFault {
    /// The token fails the grammar of the target kind.
    Invalid(String),
    /// The token names no declared variant of the enum field.
    UnknownVariant(String),
    /// The enum field has data-carrying variants, which are unsupported.
    ExpectedUnitVariant,
    /// The value's shape does not fit the target kind at all.
    Mismatch,
    /// An integer node outside the target kind's range.
    OutOfRange(i64),
}

/// The mathematical form of a `DecodeFault`.
pub enum FaultView {
    Invalid(Seq<char>),
    UnknownVariant(Seq<char>),
    ExpectedUnitVariant,
    Mismatch,
    OutOfRange(int),
}

impl View for DecodeFault {
    type V = FaultView;

    open spec fn view(&self) -> FaultView {
        match self {
            DecodeFault::Invalid(t) => FaultView::Invalid(t@),
            DecodeFault::UnknownVariant(t) => FaultView::UnknownVariant(t@),
            DecodeFault::ExpectedUnitVariant => FaultView::ExpectedUnitVariant,
            DecodeFault::Mismatch => FaultView::Mismatch,
            DecodeFault::OutOfRange(i) => FaultView::OutOfRange(*i as int),
        }
    }
}

/// The result of decoding a token as an unsigned number bounded by `max`.
pub open spec fn uint_result(s: Seq<char>, max: int) -> Result<ValView, FaultView> {
    match uint_of_text(s) {
        Some(v) => if v <= max {
            Ok(ValView::UInt(v))
        } else {
            Err(FaultView::Invalid(s))
        },
        None => Err(FaultView::Invalid(s)),
    }
}

/// The result of decoding a token as a signed number within `min ..= max`.
pub open spec fn int_result(s: Seq<char>, min: int, max: int) -> Result<ValView, FaultView> {
    match int_of_text(s) {
        Some(v) => if min <= v <= max {
            Ok(ValView::Int(v))
        } else {
            Err(FaultView::Invalid(s))
        },
        None => Err(FaultView::Invalid(s)),
    }
}

/// Whether some declared variant name equals the token, character for
/// character.
pub open spec fn contains_name(names: Seq<Seq<char>>, s: Seq<char>) -> bool {
    exists|i: int| 0 <= i < names.len() && #[trigger] names[i] == s
}

/// What decoding a raw text token into a kind yields: the fixed coercion
/// grammar of the configuration system.
pub open spec fn decode_text_spec(s: Seq<char>, k: KindView) -> Result<ValView, FaultView>
    decreases k, 0int,
{
    match k {
        KindView::Bool => match bool_of_text(s) {
            Some(b) => Ok(ValView::Bool(b)),
            None => Err(FaultView::Invalid(s)),
        },
        KindView::U8 => uint_result(s, u8::MAX as int),
        KindView::U16 => uint_result(s, u16::MAX as int),
        KindView::U32 => uint_result(s, u32::MAX as int),
        KindView::U64 => uint_result(s, u64::MAX as int),
        KindView::I8 => int_result(s, i8::MIN as int, i8::MAX as int),
        KindView::I16 => int_result(s, i16::MIN as int, i16::MAX as int),
        KindView::I32 => int_result(s, i32::MIN as int, i32::MAX as int),
        KindView::I64 => int_result(s, i64::MIN as int, i64::MAX as int),
        KindView::F32 => if float_text_ok(s) {
            Ok(ValView::FloatText(s))
        } else {
            Err(FaultView::Invalid(s))
        },
        KindView::F64 => if float_text_ok(s) {
            Ok(ValView::FloatText(s))
        } else {
            Err(FaultView::Invalid(s))
        },
        KindView::Char => if s.len() == 1 {
            Ok(ValView::Char(s[0]))
        } else {
            Err(FaultView::Invalid(s))
        },
        KindView::Str => Ok(ValView::Str(s)),
        KindView::Bytes => match hex_of_text(s) {
            Some(b) => Ok(ValView::Bytes(b)),
            None => Err(FaultView::Invalid(s)),
        },
        KindView::Unit => Ok(ValView::Unit),
        KindView::Optional(e) => match decode_text_spec(s, *e) {
            Ok(v) => Ok(ValView::Optional(Some(Box::new(v)))),
            Err(f) => Err(f),
        },
        KindView::Sequence(e) => match decode_segments_spec(split_text(s), *e) {
            Ok(vs) => Ok(ValView::Sequence(vs)),
            Err(f) => Err(f),
        },
        KindView::Enum(names) => if contains_name(names, s) {
            Ok(ValView::Variant(s))
        } else {
            Err(FaultView::UnknownVariant(s))
        },
        KindView::EnumNonUnit => Err(FaultView::ExpectedUnitVariant),
        KindView::Table => Err(FaultView::Mismatch),
    }
}

/// Decoding each segment of a split token, left to right, first error
/// wins.
pub open spec fn decode_segments_spec(segs: Seq<Seq<char>>, k: KindView) -> Result<
    Seq<ValView>,
    FaultView,
>
    decreases k, segs.len() + 1,
{
    if segs.len() == 0 {
        Ok(Seq::empty())
    } else {
        match decode_text_spec(segs[0], k) {
            Ok(v) => match decode_segments_spec(segs.drop_first(), k) {
                Ok(rest) => Ok(seq![v] + rest),
                Err(f) => Err(f),
            },
            Err(f) => Err(f),
        }
    }
}

/// Whether a decoded value has the shape and range its kind promises.
pub open spec fn fits_kind(v: ValView, k: KindView) -> bool
    decreases k, 0int,
{
    match k {
        KindView::Bool => v is Bool,
        KindView::U8 => v matches ValView::UInt(x) && 0 <= x <= u8::MAX,
        KindView::U16 => v matches ValView::UInt(x) && 0 <= x <= u16::MAX,
        KindView::U32 => v matches ValView::UInt(x) && 0 <= x <= u32::MAX,
        KindView::U64 => v matches ValView::UInt(x) && 0 <= x <= u64::MAX,
        KindView::I8 => v matches ValView::Int(x) && i8::MIN <= x <= i8::MAX,
        KindView::I16 => v matches ValView::Int(x) && i16::MIN <= x <= i16::MAX,
        KindView::I32 => v matches ValView::Int(x) && i32::MIN <= x <= i32::MAX,
        KindView::I64 => v matches ValView::Int(x) && i64::MIN <= x <= i64::MAX,
        KindView::F32 => v is FloatText,
        KindView::F64 => v is FloatText,
        KindView::Char => v is Char,
        KindView::Str => v is Str,
        KindView::Bytes => v is Bytes,
        KindView::Unit => v is Unit,
        KindView::Optional(e) => v matches ValView::Optional(o) && match o {
            Some(b) => fits_kind(*b, *e),
            None => true,
        },
        KindView::Sequence(e) => v matches ValView::Sequence(vs) && (forall|j: int|
            0 <= j < vs.len() ==> fits_kind(#[trigger] vs[j], *e)),
        KindView::Enum(names) => v matches ValView::Variant(n) && contains_name(names, n),
        KindView::EnumNonUnit => false,
        KindView::Table => false,
    }
}

/// A value the text decoder accepts fits its kind.
pub proof fn lemma_decode_text_fits(s: Seq<char>, k: KindView)
    requires
        decode_text_spec(s, k) is Ok,
    ensures
        fits_kind(decode_text_spec(s, k)->Ok_0, k),
    decreases k, 0int,
{
    match k {
        KindView::Optional(e) => {
            lemma_decode_text_fits(s, *e);
        },
        KindView::Sequence(e) => {
            lemma_decode_segments_fit(split_text(s), *e);
        },
        KindView::U8 => {
            lemma_uint_of_text_nonneg(s);
        },
        KindView::U16 => {
            lemma_uint_of_text_nonneg(s);
        },
        KindView::U32 => {
            lemma_uint_of_text_nonneg(s);
        },
        KindView::U64 => {
            lemma_uint_of_text_nonneg(s);
        },
        _ => {},
    }
}

/// A token the unsigned grammar accepts has a nonnegative value.
pub proof fn lemma_uint_of_text_nonneg(s: Seq<char>)
    ensures
        match uint_of_text(s) {
            Some(v) => v >= 0,
            None => true,
        },
{
    if s.len() > 0 && s[0] == '+' {
        if s.drop_first().len() > 0 && all_digits(s.drop_first()) {
            lemma_digits_val_nonneg(s.drop_first());
        }
    } else {
        if s.len() > 0 && all_digits(s) {
            lemma_digits_val_nonneg(s);
        }
    }
}

/// Each segment a sequence decode accepts fits the element kind.
pub proof fn lemma_decode_segments_fit(segs: Seq<Seq<char>>, k: KindView)
    requires
        decode_segments_spec(segs, k) is Ok,
    ensures
        ({
            let vs = decode_segments_spec(segs, k)->Ok_0;
            &&& vs.len() == segs.len()
            &&& forall|j: int| 0 <= j < vs.len() ==> fits_kind(#[trigger] vs[j], k)
        }),
    decreases k, segs.len() + 1,
{
    if segs.len() > 0 {
        lemma_decode_text_fits(segs[0], k);
        lemma_decode_segments_fit(segs.drop_first(), k);
        let v = decode_text_spec(segs[0], k)->Ok_0;
        let rest = decode_segments_spec(segs.drop_first(), k)->Ok_0;
        assert(forall|j: int| 0 <= j < rest.len() ==> (seq![v] + rest)[j + 1] == #[trigger] rest[j]);
    }
}

/// Each segment of a list, as a decoded string value.
pub open spec fn strs_of(parts: Seq<Seq<char>>) -> Seq<ValView> {
    parts.map(|i: int, p: Seq<char>| ValView::Str(p))
}

/// Comma-free segments all decode as strings, in order.
proof fn lemma_decode_str_segments(parts: Seq<Seq<char>>)
    ensures
        decode_segments_spec(parts, KindView::Str) == Ok::<Seq<ValView>, FaultView>(
            strs_of(parts),
        ),
    decreases parts.len(),
{
    if parts.len() == 0 {
        assert(strs_of(parts) =~= Seq::<ValView>::empty());
        assert(decode_segments_spec(parts, KindView::Str) == Ok::<Seq<ValView>, FaultView>(
            Seq::empty(),
        ));
    } else {
        lemma_decode_str_segments(parts.drop_first());
        assert(decode_text_spec(parts[0], KindView::Str) == Ok::<ValView, FaultView>(
            ValView::Str(parts[0]),
        ));
        assert(decode_segments_spec(parts, KindView::Str) == Ok::<Seq<ValView>, FaultView>(
            seq![ValView::Str(parts[0])] + strs_of(parts.drop_first()),
        ));
        assert(seq![ValView::Str(parts[0])] + strs_of(parts.drop_first()) =~= strs_of(parts));
    }
}

/// Encoding a list as comma-joined text and decoding it back as a
/// sequence of strings yields the original list, for elements that
/// contain no comma.
pub proof fn lemma_sequence_round_trip(parts: Seq<Seq<char>>)
    requires
        parts.len() >= 1,
        forall|i: int| 0 <= i < parts.len() ==> comma_free(#[trigger] parts[i]),
    ensures
        decode_text_spec(join_text(parts), KindView::Sequence(Box::new(KindView::Str))) == Ok::<
            ValView,
            FaultView,
        >(ValView::Sequence(strs_of(parts))),
{
    lemma_split_join_round_trip(parts);
    lemma_decode_str_segments(parts);
}

/// Decoding is a pure function of the token and the kind: equal raw
/// tokens always decode to equal results, with no hidden state.
pub proof fn lemma_decode_deterministic(s1: Seq<char>, s2: Seq<char>, k: KindView)
    requires
        s1 == s2,
    ensures
        decode_text_spec(s1, k) == decode_text_spec(s2, k),
{
}

/// Decode a raw text token into the kind a field expects.
pub fn decode_text(s: &str, kind: &Kind) -> (r: Result<FieldValue, DecodeFault>)
    ensures
        match r {
            Ok(v) => decode_text_spec(s@, kind@) == Ok::<ValView, FaultView>(v@),
            Err(f) => decode_text_spec(s@, kind@) == Err::<ValView, FaultView>(f@),
        },
    decreases *kind,
{
    match kind {
        Kind::Bool => match decode_bool(s) {
            Some(b) => Ok(FieldValue::Bool(b)),
            None => Err(DecodeFault::Invalid(s.to_owned())),
        },
        Kind::U8 => match parse_uint(s, 255) {
            Some(v) => Ok(FieldValue::UInt(v)),
            None => Err(DecodeFault::Invalid(s.to_owned())),
        },
        Kind::U16 => match parse_uint(s, 65535) {
            Some(v) => Ok(FieldValue::UInt(v)),
            None => Err(DecodeFault::Invalid(s.to_owned())),
        },
        Kind::U32 => match parse_uint(s, 4294967295) {
            Some(v) => Ok(FieldValue::UInt(v)),
            None => Err(DecodeFault::Invalid(s.to_owned())),
        },
        Kind::U64 => match parse_uint(s, 18446744073709551615) {
            Some(v) => Ok(FieldValue::UInt(v)),
            None => Err(DecodeFault::Invalid(s.to_owned())),
        },
        Kind::I8 => match parse_int(s, -128, 127, 128) {
            Some(v) => Ok(FieldValue::Int(v)),
            None => Err(DecodeFault::Invalid(s.to_owned())),
        },
        Kind::I16 => match parse_int(s, -32768, 32767, 32768) {
            Some(v) => Ok(FieldValue::Int(v)),
            None => Err(DecodeFault::Invalid(s.to_owned())),
        },
        Kind::I32 => match parse_int(s, -2147483648, 2147483647, 2147483648) {
            Some(v) => Ok(FieldValue::Int(v)),
            None => Err(DecodeFault::Invalid(s.to_owned())),
        },
        Kind::I64 => match parse_int(
            s,
            -9223372036854775808,
            9223372036854775807,
            9223372036854775808,
        ) {
            Some(v) => Ok(FieldValue::Int(v)),
            None => Err(DecodeFault::Invalid(s.to_owned())),
        },
        Kind::F32 => if float_token_ok(s) {
            Ok(FieldValue::FloatText(s.to_owned()))
        } else {
            Err(DecodeFault::Invalid(s.to_owned()))
        },
        Kind::F64 => if float_token_ok(s) {
            Ok(FieldValue::FloatText(s.to_owned()))
        } else {
            Err(DecodeFault::Invalid(s.to_owned()))
        },
        Kind::Char => if s.unicode_len() == 1 {
            Ok(FieldValue::Char(s.get_char(0)))
        } else {
            Err(DecodeFault::Invalid(s.to_owned()))
        },
        Kind::Str => Ok(FieldValue::Str(s.to_owned())),
        Kind::Bytes => match hex(s) {
            Some(b) => Ok(FieldValue::Bytes(b)),
            None => Err(DecodeFault::Invalid(s.to_owned())),
        },
        Kind::Unit => Ok(FieldValue::Unit),
        Kind::Optional(e) => match decode_text(s, e) {
            Ok(v) => Ok(FieldValue::Optional(Some(Box::new(v)))),
            Err(f) => Err(f),
        },
        Kind::Sequence(e) => {
            let segs = split_commas(s);
            let ghost all = segs.deep_view();
            let mut out: Vec<FieldValue> = Vec::new();
            let mut i: usize = 0;
            proof {
                assert(all.skip(0) =~= all);
            }
            let mut failed: Option<DecodeFault> = None;
            while i < segs.len() && failed.is_none()
                invariant
                    i <= segs@.len(),
                    all == segs.deep_view(),
                    all == split_text(s@),
                    decreases_to!(*kind => **e),
                    match failed {
                        None => out@.len() == i && decode_segments_spec(all, kind_view(**e))
                            == match decode_segments_spec(
                            all.skip(i as int),
                            kind_view(**e),
                        ) {
                            Ok(rest) => Ok::<Seq<ValView>, FaultView>(
                                Seq::new(out@.len(), |j: int| val_view(out@[j])) + rest,
                            ),
                            Err(f) => Err::<Seq<ValView>, FaultView>(f),
                        },
                        Some(f) => decode_segments_spec(all, kind_view(**e)) == Err::<
                            Seq<ValView>,
                            FaultView,
                        >(f@),
                    },
                decreases segs@.len() - i,
            {
                assert(all[i as int] == segs@[i as int]@);
                assert(all.skip(i as int)[0] == all[i as int]);
                match decode_text(segs[i].as_str(), e) {
                    Ok(v) => {
                        let ghost old_views = Seq::new(out@.len(), |j: int| val_view(out@[j]));
                        out.push(v);
                        proof {
                            assert(all.skip(i as int).drop_first() =~= all.skip(i + 1));
                            assert(Seq::new(out@.len(), |j: int| val_view(out@[j])) =~= old_views
                                + seq![v@]);
                            if decode_segments_spec(all.skip(i + 1), kind_view(**e)) is Ok {
                                let rest = decode_segments_spec(
                                    all.skip(i + 1),
                                    kind_view(**e),
                                )->Ok_0;
                                assert(old_views + (seq![v@] + rest) =~= (old_views + seq![v@])
                                    + rest);
                            }
                        }
                    },
                    Err(f) => {
                        proof {
                            assert(all.skip(i as int).len() > 0);
                        }
                        failed = Some(f);
                    },
                }
                i += 1;
            }
            match failed {
                Some(f) => Err(f),
                None => {
                    proof {
                        assert(all.skip(i as int) =~= Seq::<Seq<char>>::empty());
                        let views = Seq::new(out@.len(), |j: int| val_view(out@[j]));
                        assert(views + Seq::<ValView>::empty() =~= views);
                        let els = val_view(FieldValue::Sequence(out))->Sequence_0;
                        assert(els.len() == out@.len());
                        assert(forall|j: int|
                            0 <= j < out@.len() ==> #[trigger] els[j] == val_view(out@[j]));
                        assert(els =~= views);
                        assert(val_view(FieldValue::Sequence(out)) == ValView::Sequence(views));
                    }
                    Ok(FieldValue::Sequence(out))
                },
            }
        },
        Kind::Enum(names) => {
            let n = names.len();
            let mut j: usize = 0;
            while j < n
                invariant
                    j <= n,
                    n == names@.len(),
                    kind@ == KindView::Enum(names.deep_view()),
                    forall|x: int| 0 <= x < j ==> names.deep_view()[x] != s@,
                decreases n - j,
            {
                assert(names.deep_view()[j as int] == names@[j as int]@);
                if str_eq(names[j].as_str(), s) {
                    proof {
                        let nv = names.deep_view();
                        assert(nv[j as int] == s@);
                        assert(kind@ == KindView::Enum(nv));
                        assert(contains_name(nv, s@));
                    }
                    return Ok(FieldValue::Variant(s.to_owned()));
                }
                j += 1;
            }
            proof {
                let nv = names.deep_view();
                assert(kind@ == KindView::Enum(nv));
                assert(forall|x: int| 0 <= x < nv.len() ==> #[trigger] nv[x] != s@);
                assert(!contains_name(nv, s@));
            }
            Err(DecodeFault::UnknownVariant(s.to_owned()))
        },
        Kind::EnumNonUnit => Err(DecodeFault::ExpectedUnitVariant),
        Kind::Table => Err(DecodeFault::Mismatch),
    }
}

/// Character-by-character equality of two string slices.
pub(crate) fn str_eq(a: &str, b: &str) -> (r: bool)
    ensures
        r == (a@ == b@),
{
    let a_len = a.unicode_len();
    let b_len = b.unicode_len();
    if a_len != b_len {
        assert(a@.len() != b@.len());
        assert(a@ != b@);
        return false;
    }
    let mut i: usize = 0;
    while i < a_len
        invariant
            i <= a_len,
            a_len == a@.len(),
            b_len == b@.len(),
            a_len == b_len,
            forall|j: int| 0 <= j < i ==> a@[j] == b@[j],
        decreases a_len - i,
    {
        if a.get_char(i) != b.get_char(i) {
            assert(a@[i as int] != b@[i as int]);
            assert(a@ != b@);
            return false;
        }
        i += 1;
    }
    assert(a@ =~= b@);
    true
}

} // verus!
