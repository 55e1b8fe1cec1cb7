//! Reading a list of keys typed as text: integers separated by commas or
//! white space.

use vstd::prelude::*;

verus! {

/// White space as `char::is_whitespace` defines it: the Unicode
/// `White_Space` property.
pub open spec fn is_white_space(c: char) -> bool {
    let u = c as u32;
    ||| 0x9 <= u <= 0xD
    ||| u == 0x20
    ||| u == 0x85
    ||| u == 0xA0
    ||| u == 0x1680
    ||| 0x2000 <= u <= 0x200A
    ||| u == 0x2028
    ||| u == 0x2029
    ||| u == 0x202F
    ||| u == 0x205F
    ||| u == 0x3000
}

/// A character that separates two keys.
pub open spec fn is_separator(c: char) -> bool {
    c == ',' || is_white_space(c)
}

pub open spec fn is_digit(c: char) -> bool {
    '0' <= c <= '9'
}

/// The value of a string of decimal digits.
pub open spec fn digits_value(s: Seq<char>) -> int
    decreases s.len(),
{
    if s.len() == 0 {
        0
    } else {
        digits_value(s.drop_last()) * 10 + (s.last() as u32 - '0' as u32)
    }
}

/// Length of a token's sign: 1 when it starts with `+` or `-`, else 0.
pub open spec fn sign_len(s: Seq<char>) -> int {
    if s.len() > 0 && (s[0] == '-' || s[0] == '+') {
        1
    } else {
        0
    }
}

/// A token without its sign.
pub open spec fn token_body(s: Seq<char>) -> Seq<char> {
    s.subrange(sign_len(s), s.len() as int)
}

pub open spec fn all_digits(s: Seq<char>) -> bool {
    forall|i: int| 0 <= i < s.len() ==> is_digit(#[trigger] s[i])
}

/// The signed value that a token's digits denote.
pub open spec fn token_value(s: Seq<char>) -> int {
    if s.len() > 0 && s[0] == '-' {
        -digits_value(token_body(s))
    } else {
        digits_value(token_body(s))
    }
}

/// A token read as an `i32` the way `str::parse` reads one: an optional
/// `+` or `-`, then at least one decimal digit, the value within range.
pub open spec fn parse_i32(s: Seq<char>) -> Option<i32> {
    if token_body(s).len() > 0 && all_digits(token_body(s)) && i32::MIN <= token_value(s) <= i32::MAX {
        Some(token_value(s) as i32)
    } else {
        None
    }
}

/// Closes a token: an empty one is skipped, a number is kept, anything else
/// marks the input as holding an invalid entry.
pub open spec fn finish_token(keys: Seq<i32>, invalid: bool, token: Seq<char>) -> (Seq<i32>, bool) {
    if token.len() == 0 {
        (keys, invalid)
    } else {
        match parse_i32(token) {
            Some(v) => (keys.push(v), invalid),
            None => (keys, true),
        }
    }
}

/// Scanning state after a prefix of the input: the keys read so far, whether
/// an invalid token was met, and the token still open.
pub open spec fn scan(s: Seq<char>) -> (Seq<i32>, bool, Seq<char>)
    decreases s.len(),
{
    if s.len() == 0 {
        (Seq::empty(), false, Seq::empty())
    } else {
        let (keys, invalid, token) = scan(s.drop_last());
        let c = s.last();
        if is_separator(c) {
            let (k, inv) = finish_token(keys, invalid, token);
            (k, inv, Seq::empty())
        } else {
            (keys, invalid, token.push(c))
        }
    }
}

/// The keys of a comma- or space-separated list, and whether some non-empty
/// entry was not a valid `i32`.
pub open spec fn parse_keys_spec(s: Seq<char>) -> (Seq<i32>, bool) {
    let (keys, invalid, token) = scan(s);
    finish_token(keys, invalid, token)
}

fn is_white_space_char(c: char) -> (r: bool)
    ensures
        r == is_white_space(c),
{
    let u = c as u32;
    (0x9 <= u && u <= 0xD) || u == 0x20 || u == 0x85 || u == 0xA0 || u == 0x1680 || (0x2000 <= u && u
        <= 0x200A) || u == 0x2028 || u == 0x2029 || u == 0x202F || u == 0x205F || u == 0x3000
}

proof fn lemma_digits_value_nonneg(s: Seq<char>)
    requires
        forall|j: int| 0 <= j < s.len() ==> is_digit(#[trigger] s[j]),
    ensures
        0 <= digits_value(s),
    decreases s.len(),
{
    if s.len() > 0 {
        let t = s.drop_last();
        assert forall|j: int| 0 <= j < t.len() implies is_digit(#[trigger] t[j]) by {
            assert(t[j] == s[j]);
        }
        lemma_digits_value_nonneg(t);
        assert(is_digit(s.last()));
    }
}

/// Appending digits never lowers the value.
proof fn lemma_digits_value_grows(s: Seq<char>, i: int)
    requires
        0 <= i <= s.len(),
        forall|j: int| 0 <= j < s.len() ==> is_digit(#[trigger] s[j]),
    ensures
        digits_value(s.subrange(0, i)) <= digits_value(s),
    decreases s.len(),
{
    if i < s.len() {
        let t = s.drop_last();
        assert(s.subrange(0, i) =~= t.subrange(0, i));
        assert forall|j: int| 0 <= j < t.len() implies is_digit(#[trigger] t[j]) by {
            assert(t[j] == s[j]);
        }
        lemma_digits_value_grows(t, i);
        lemma_digits_value_nonneg(t);
        assert(is_digit(s.last()));
    } else {
        assert(s.subrange(0, i) =~= s);
    }
}

/// Reads one token as an `i32`.
fn parse_token(tok: &Vec<char>) -> (r: Option<i32>)
    ensures
        r == parse_i32(tok@),
{
    let n = tok.len();
    if n == 0 {
        return None;
    }
    let first = tok[0];
    let start: usize = if first == '-' || first == '+' {
        1
    } else {
        0
    };
    let ghost body = tok@.subrange(start as int, n as int);
    assert(start == sign_len(tok@));
    assert(body == token_body(tok@));
    if start == n {
        return None;
    }
    let mut i: usize = start;
    let mut acc: i64 = 0;
    while i < n
        invariant
            n == tok@.len(),
            start <= i <= n,
            body == tok@.subrange(start as int, n as int),
            body == token_body(tok@),
            start == sign_len(tok@),
            acc == digits_value(tok@.subrange(start as int, i as int)),
            0 <= acc <= 0x8000_0000,
            forall|j: int| start <= j < i ==> is_digit(#[trigger] tok@[j]),
        decreases n - i,
    {
        let c = tok[i];
        if !('0' <= c && c <= '9') {
            proof {
                assert(!is_digit(body[i - start]));
                assert(!all_digits(body));
                assert(parse_i32(tok@) is None);
            }
            return None;
        }
        let d = (c as u32 - '0' as u32) as i64;
        proof {
            let pre = tok@.subrange(start as int, i as int + 1);
            assert(pre.drop_last() =~= tok@.subrange(start as int, i as int));
        }
        acc = acc * 10 + d;
        i = i + 1;
        if acc > 0x8000_0000 {
            proof {
                if all_digits(body) {
                    lemma_digits_value_grows(body, i - start);
                    assert(body.subrange(0, i - start) =~= tok@.subrange(start as int, i as int));
                    assert(digits_value(body) > 0x8000_0000);
                }
                assert(parse_i32(tok@) is None);
            }
            return None;
        }
    }
    proof {
        assert(tok@.subrange(start as int, i as int) =~= body);
        assert forall|j: int| 0 <= j < body.len() implies is_digit(#[trigger] body[j]) by {
            assert(body[j] == tok@[j + start]);
        }
    }
    if first == '-' {
        Some((-acc) as i32)
    } else if acc <= 0x7fff_ffff {
        Some(acc as i32)
    } else {
        None
    }
}

/// Splits `input` at commas and white space and reads each non-empty entry
/// as an `i32`. Returns the keys in input order, and whether some non-empty
/// entry was not a valid `i32` (such entries are skipped).
pub fn parse_keys(input: &str) -> (r: (Vec<i32>, bool))
    ensures
        (r.0@, r.1) == parse_keys_spec(input@),
{
    let n = input.unicode_len();
    let mut keys: Vec<i32> = Vec::new();
    let mut invalid = false;
    let mut token: Vec<char> = Vec::new();
    let mut i: usize = 0;
    while i < n
        invariant
            n == input@.len(),
            0 <= i <= n,
            (keys@, invalid, token@) == scan(input@.subrange(0, i as int)),
        decreases n - i,
    {
        let c = input.get_char(i);
        proof {
            assert(input@.subrange(0, i as int + 1).drop_last() =~= input@.subrange(0, i as int));
        }
        if c == ',' || is_white_space_char(c) {
            if token.len() > 0 {
                match parse_token(&token) {
                    Some(v) => keys.push(v),
                    None => invalid = true,
                }
            }
            token = Vec::new();
            assert(token@ =~= Seq::<char>::empty());
        } else {
            token.push(c);
        }
        i = i + 1;
    }
    proof {
        assert(input@.subrange(0, n as int) =~= input@);
    }
    if token.len() > 0 {
        match parse_token(&token) {
            Some(v) => keys.push(v),
            None => invalid = true,
        }
    }
    (keys, invalid)
}

} // verus!
