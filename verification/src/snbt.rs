//! SNBT, the textual form of NBT: a hand-written lexer, a recursive-descent
//! parser producing a `Value` tree, and a formatter producing the text a
//! parse accepts.
//!
//! Floating-point literals never touch machine floats: the lexer turns a
//! decimal literal into IEEE-754 bits by integer scaling with
//! round-to-nearest-even, and the formatter prints a bit pattern as its
//! exact decimal expansion, so a formatted value parses back to the same
//! bits.

use vstd::prelude::*;
use crate::model::ValueModel;
use crate::value::{
    lemma_view_nameless_seq_push, lemma_view_value_seq_push, view_nameless_seq, view_value_seq,
    NameLessValue, Value,
};

verus! {

broadcast use vstd::std_specs::vec::group_vec_axioms;

/// The tokens of the SNBT grammar.
#[derive(Debug, Clone, PartialEq)]
pub enum Token {
    ByteArray,
    IntArray,
    LongArray,
    StartList,
    EndListOrArray,
    StartCompound,
    EndCompound,
    Byte(i8),
    Short(i16),
    Int(i32),
    Long(i64),
    Float(u32),
    Double(u64),
    True,
    False,
    TagName(String),
    String(String),
    ArrayListCompoundSeparator,
    Error,
}

/// The SNBT parser's failures.
#[derive(Debug, Clone, PartialEq)]
pub enum Error {
    UnexpectedToken(Token),
    MissingName,
}

/// The abstract value of a token: names and strings as char sequences.
pub enum TokenModel {
    ByteArray,
    IntArray,
    LongArray,
    StartList,
    EndListOrArray,
    StartCompound,
    EndCompound,
    Byte(i8),
    Short(i16),
    Int(i32),
    Long(i64),
    Float(u32),
    Double(u64),
    True,
    False,
    TagName(Seq<char>),
    Text(Seq<char>),
    Separator,
    Error,
}

pub open spec fn view_token(t: Token) -> TokenModel {
    match t {
        Token::ByteArray => TokenModel::ByteArray,
        Token::IntArray => TokenModel::IntArray,
        Token::LongArray => TokenModel::LongArray,
        Token::StartList => TokenModel::StartList,
        Token::EndListOrArray => TokenModel::EndListOrArray,
        Token::StartCompound => TokenModel::StartCompound,
        Token::EndCompound => TokenModel::EndCompound,
        Token::Byte(x) => TokenModel::Byte(x),
        Token::Short(x) => TokenModel::Short(x),
        Token::Int(x) => TokenModel::Int(x),
        Token::Long(x) => TokenModel::Long(x),
        Token::Float(x) => TokenModel::Float(x),
        Token::Double(x) => TokenModel::Double(x),
        Token::True => TokenModel::True,
        Token::False => TokenModel::False,
        Token::TagName(n) => TokenModel::TagName(n@),
        Token::String(v) => TokenModel::Text(v@),
        Token::ArrayListCompoundSeparator => TokenModel::Separator,
        Token::Error => TokenModel::Error,
    }
}

pub open spec fn view_tokens(s: Seq<Token>) -> Seq<TokenModel>
    decreases s.len(),
{
    if s.len() == 0 {
        Seq::empty()
    } else {
        seq![view_token(s[0])] + view_tokens(s.drop_first())
    }
}

/// `view_tokens` is the element-wise view.
pub proof fn lemma_view_tokens(s: Seq<Token>)
    ensures
        view_tokens(s).len() == s.len(),
        forall|i: int| 0 <= i < s.len() ==> view_tokens(s)[i] == view_token(s[i]),
    decreases s.len(),
{
    if s.len() != 0 {
        lemma_view_tokens(s.drop_first());
    }
}

pub open spec fn view_pending(o: Option<String>) -> Option<Seq<char>> {
    match o {
        Some(n) => Some(n@),
        None => None,
    }
}

/// The compound grammar over tokens, one step per token, threading the
/// pending name and the entries read so far exactly as the parser does.
/// `None` is a parse failure: a value with no name before it, a malformed
/// lexeme, or a failing nested parse.
pub open spec fn spec_parse_compound(
    toks: Seq<TokenModel>,
    i: int,
    pending: Option<Seq<char>>,
    acc: Seq<(Seq<char>, ValueModel)>,
) -> Option<(Seq<(Seq<char>, ValueModel)>, int)>
    decreases toks.len() - i,
{
    if i < 0 || i >= toks.len() {
        Some((acc, i))
    } else {
        match toks[i] {
            TokenModel::EndCompound => Some((acc, i + 1)),
            TokenModel::TagName(n) => spec_parse_compound(toks, i + 1, Some(n), acc),
            TokenModel::Separator => spec_parse_compound(toks, i + 1, pending, acc),
            TokenModel::EndListOrArray => spec_parse_compound(toks, i + 1, pending, acc),
            TokenModel::Error => None,
            TokenModel::Byte(x) => match pending {
                Some(n) => spec_parse_compound(
                    toks,
                    i + 1,
                    None,
                    acc.push((n, ValueModel::Byte(x))),
                ),
                None => None,
            },
            TokenModel::Short(x) => match pending {
                Some(n) => spec_parse_compound(
                    toks,
                    i + 1,
                    None,
                    acc.push((n, ValueModel::Short(x))),
                ),
                None => None,
            },
            TokenModel::Int(x) => match pending {
                Some(n) => spec_parse_compound(
                    toks,
                    i + 1,
                    None,
                    acc.push((n, ValueModel::Int(x))),
                ),
                None => None,
            },
            TokenModel::Long(x) => match pending {
                Some(n) => spec_parse_compound(
                    toks,
                    i + 1,
                    None,
                    acc.push((n, ValueModel::Long(x))),
                ),
                None => None,
            },
            TokenModel::Float(x) => match pending {
                Some(n) => spec_parse_compound(
                    toks,
                    i + 1,
                    None,
                    acc.push((n, ValueModel::Float(x))),
                ),
                None => None,
            },
            TokenModel::Double(x) => match pending {
                Some(n) => spec_parse_compound(
                    toks,
                    i + 1,
                    None,
                    acc.push((n, ValueModel::Double(x))),
                ),
                None => None,
            },
            TokenModel::True => match pending {
                Some(n) => spec_parse_compound(
                    toks,
                    i + 1,
                    None,
                    acc.push((n, ValueModel::Boolean(true))),
                ),
                None => None,
            },
            TokenModel::False => match pending {
                Some(n) => spec_parse_compound(
                    toks,
                    i + 1,
                    None,
                    acc.push((n, ValueModel::Boolean(false))),
                ),
                None => None,
            },
            TokenModel::Text(v) => match pending {
                Some(n) => spec_parse_compound(
                    toks,
                    i + 1,
                    None,
                    acc.push((n, ValueModel::Str(v))),
                ),
                None => None,
            },
            TokenModel::ByteArray => match spec_parse_byte_array(toks, i + 1, Seq::empty()) {
                None => None,
                Some((vs, j)) => match pending {
                    Some(n) => if i + 1 <= j <= toks.len() {
                        spec_parse_compound(
                            toks,
                            j,
                            None,
                            acc.push((n, ValueModel::ByteArray(vs))),
                        )
                    } else {
                        None
                    },
                    None => None,
                },
            },
            TokenModel::IntArray => match spec_parse_int_array(toks, i + 1, Seq::empty()) {
                None => None,
                Some((vs, j)) => match pending {
                    Some(n) => if i + 1 <= j <= toks.len() {
                        spec_parse_compound(
                            toks,
                            j,
                            None,
                            acc.push((n, ValueModel::IntArray(vs))),
                        )
                    } else {
                        None
                    },
                    None => None,
                },
            },
            TokenModel::LongArray => match spec_parse_long_array(toks, i + 1, Seq::empty()) {
                None => None,
                Some((vs, j)) => match pending {
                    Some(n) => if i + 1 <= j <= toks.len() {
                        spec_parse_compound(
                            toks,
                            j,
                            None,
                            acc.push((n, ValueModel::LongArray(vs))),
                        )
                    } else {
                        None
                    },
                    None => None,
                },
            },
            TokenModel::StartList => match spec_parse_list(toks, i + 1, Seq::empty()) {
                None => None,
                Some((ms, j)) => match pending {
                    Some(n) => if i + 1 <= j <= toks.len() {
                        spec_parse_compound(toks, j, None, acc.push((n, ValueModel::List(ms))))
                    } else {
                        None
                    },
                    None => None,
                },
            },
            TokenModel::StartCompound => match spec_parse_compound(
                toks,
                i + 1,
                None,
                Seq::empty(),
            ) {
                None => None,
                Some((en, j)) => match pending {
                    Some(n) => if i + 1 <= j <= toks.len() {
                        spec_parse_compound(
                            toks,
                            j,
                            None,
                            acc.push((n, ValueModel::Compound(en))),
                        )
                    } else {
                        None
                    },
                    None => None,
                },
            },
        }
    }
}

/// The list grammar: nameless elements until the closing bracket; tokens
/// with no meaning inside a list are skipped, as the parser skips them.
pub open spec fn spec_parse_list(toks: Seq<TokenModel>, i: int, acc: Seq<ValueModel>) -> Option<
    (Seq<ValueModel>, int),
>
    decreases toks.len() - i,
{
    if i < 0 || i >= toks.len() {
        Some((acc, i))
    } else {
        match toks[i] {
            TokenModel::EndListOrArray => Some((acc, i + 1)),
            TokenModel::Error => None,
            TokenModel::Byte(x) => spec_parse_list(toks, i + 1, acc.push(ValueModel::Byte(x))),
            TokenModel::Short(x) => spec_parse_list(toks, i + 1, acc.push(ValueModel::Short(x))),
            TokenModel::Int(x) => spec_parse_list(toks, i + 1, acc.push(ValueModel::Int(x))),
            TokenModel::Long(x) => spec_parse_list(toks, i + 1, acc.push(ValueModel::Long(x))),
            TokenModel::Float(x) => spec_parse_list(toks, i + 1, acc.push(ValueModel::Float(x))),
            TokenModel::Double(x) => spec_parse_list(
                toks,
                i + 1,
                acc.push(ValueModel::Double(x)),
            ),
            TokenModel::True => spec_parse_list(toks, i + 1, acc.push(ValueModel::Boolean(true))),
            TokenModel::False => spec_parse_list(
                toks,
                i + 1,
                acc.push(ValueModel::Boolean(false)),
            ),
            TokenModel::Text(v) => spec_parse_list(toks, i + 1, acc.push(ValueModel::Str(v))),
            TokenModel::StartList => match spec_parse_list(toks, i + 1, Seq::empty()) {
                None => None,
                Some((ms, j)) => if i + 1 <= j <= toks.len() {
                    spec_parse_list(toks, j, acc.push(ValueModel::List(ms)))
                } else {
                    None
                },
            },
            TokenModel::StartCompound => match spec_parse_compound(
                toks,
                i + 1,
                None,
                Seq::empty(),
            ) {
                None => None,
                Some((en, j)) => if i + 1 <= j <= toks.len() {
                    spec_parse_list(toks, j, acc.push(ValueModel::Compound(en)))
                } else {
                    None
                },
            },
            _ => spec_parse_list(toks, i + 1, acc),
        }
    }
}

/// A `[B;...]` body: byte literals and separators until the bracket.
pub open spec fn spec_parse_byte_array(toks: Seq<TokenModel>, i: int, acc: Seq<i8>) -> Option<
    (Seq<i8>, int),
>
    decreases toks.len() - i,
{
    if i < 0 || i >= toks.len() {
        Some((acc, i))
    } else {
        match toks[i] {
            TokenModel::Byte(x) => spec_parse_byte_array(toks, i + 1, acc.push(x)),
            TokenModel::EndListOrArray => Some((acc, i + 1)),
            TokenModel::Separator => spec_parse_byte_array(toks, i + 1, acc),
            _ => None,
        }
    }
}

/// An `[I;...]` body: bare integer literals and separators.
pub open spec fn spec_parse_int_array(toks: Seq<TokenModel>, i: int, acc: Seq<i32>) -> Option<
    (Seq<i32>, int),
>
    decreases toks.len() - i,
{
    if i < 0 || i >= toks.len() {
        Some((acc, i))
    } else {
        match toks[i] {
            TokenModel::Int(x) => spec_parse_int_array(toks, i + 1, acc.push(x)),
            TokenModel::EndListOrArray => Some((acc, i + 1)),
            TokenModel::Separator => spec_parse_int_array(toks, i + 1, acc),
            _ => None,
        }
    }
}

/// An `[L;...]` body: long literals and separators.
pub open spec fn spec_parse_long_array(toks: Seq<TokenModel>, i: int, acc: Seq<i64>) -> Option<
    (Seq<i64>, int),
>
    decreases toks.len() - i,
{
    if i < 0 || i >= toks.len() {
        Some((acc, i))
    } else {
        match toks[i] {
            TokenModel::Long(x) => spec_parse_long_array(toks, i + 1, acc.push(x)),
            TokenModel::EndListOrArray => Some((acc, i + 1)),
            TokenModel::Separator => spec_parse_long_array(toks, i + 1, acc),
            _ => None,
        }
    }
}

/// A whole document: empty input is the End value; otherwise one
/// brace-led compound with the empty top-level name.
pub open spec fn spec_parse_document(toks: Seq<TokenModel>) -> Option<(Seq<char>, ValueModel)> {
    if toks.len() == 0 {
        Some((Seq::empty(), ValueModel::End))
    } else if toks[0] is StartCompound {
        match spec_parse_compound(toks, 1, None, Seq::empty()) {
            Some((en, _)) => Some((Seq::empty(), ValueModel::Compound(en))),
            None => None,
        }
    } else {
        None
    }
}

/// Converts a decimal literal to IEEE-754 bits by integer scaling and
/// round-to-nearest-even: the value is `digits / 10^frac_len`, negated
/// when `neg` holds.  Values whose exponents fall outside a practical
/// window flush to zero or infinity.  When `wide` holds the result is the
/// 64-bit encoding, else the 32-bit one in the low word.
proof fn lemma_div_upper_bound(n: int, d: int, k: int)
    requires
        d >= 1,
        n >= 0,
        n / d < k,
    ensures
        n < d * k,
{
    vstd::arithmetic::div_mod::lemma_fundamental_div_mod(n, d);
    vstd::arithmetic::mul::lemma_mul_inequality(n / d + 1, k, d);
    assert(d * (n / d) + d == (n / d + 1) * d) by (nonlinear_arith);
    assert(k * d == d * k) by (nonlinear_arith);
}

fn decimal_to_bits(neg: bool, digits: u128, frac_len: u32, wide: bool) -> (r: Option<u64>) {
    let mbits: u32 = if wide {
        52
    } else {
        23
    };
    let bias: i32 = if wide {
        1075
    } else {
        150
    };
    let emax: i32 = if wide {
        2047
    } else {
        255
    };
    let sign: u64 = if neg {
        1u64 << (if wide {
            63u32
        } else {
            31u32
        })
    } else {
        0
    };
    if digits == 0 {
        return Some(sign);
    }
    if digits > 0xFFFF_FFFF_FFFF_FFFF_FFFF || frac_len > 30 {
        return None;
    }
    let mut den: u128 = 1;
    let mut f: u32 = 0;
    while f < frac_len
        invariant
            f <= frac_len,
            frac_len <= 30,
            1 <= den <= 0x5000_0000_0000_0000_0000_0000_0000,
        decreases frac_len - f,
    {
        den = den * 10;
        f = f + 1;
        if den > 0x4B3B_4CA8_5A86_C47A_098A_2240 {
            return None;
        }
    }
    let mut num: u128 = digits;
    let mut exp: i32 = 0;
    let top: u128 = 1u128 << (mbits + 1);
    let bot: u128 = 1u128 << mbits;
    proof {
        assert(1u128 << (mbits + 1) >= 1 && 1u128 << (mbits + 1) <= 0x20_0000_0000_0000
            && 1u128 << mbits >= 1 && 2 * (1u128 << mbits) == 1u128 << (mbits + 1))
            by (bit_vector)
            requires
                mbits == 52 || mbits == 23,
        ;
    }
    while num / den >= top
        invariant
            1 <= den <= 0x1_0000_0000_0000_0000_0000_0000_0000,
            1 <= num <= 0x10_0000_0000_0000_0000_0000,
            1 <= top <= 0x20_0000_0000_0000,
            0 <= exp <= 20001,
        decreases 20001 - exp,
    {
        if exp >= 20000 || den > 0x8000_0000_0000_0000_0000_0000_0000 {
            return None;
        }
        den = den * 2;
        exp = exp + 1;
    }
    proof {
        lemma_div_upper_bound(num as int, den as int, top as int);
    }
    while num / den < bot
        invariant
            1 <= den <= 0x1_0000_0000_0000_0000_0000_0000_0000,
            1 <= num,
            num <= 0x4000_0000_0000_0000_0000_0000_0000_0000,
            1 <= top <= 0x20_0000_0000_0000,
            1 <= bot,
            2 * bot == top,
            num < den * top,
            -3001 <= exp <= 20001,
        decreases 3001 + exp,
    {
        if exp <= -3000 || num > 0x2000_0000_0000_0000_0000_0000_0000_0000 {
            return None;
        }
        proof {
            lemma_div_upper_bound(num as int, den as int, bot as int);
            assert(2 * (den * bot) == den * top) by (nonlinear_arith)
                requires
                    2 * bot == top,
            ;
        }
        num = num * 2;
        exp = exp - 1;
    }
    proof {
        vstd::arithmetic::div_mod::lemma_multiply_divide_lt(
            num as int,
            den as int,
            top as int,
        );
    }
    let mut q: u64 = (num / den) as u64;
    let rem: u128 = num % den;
    if rem > den - rem {
        q = q + 1;
    } else if rem == den - rem && rem != 0 {
        if q % 2 == 1 {
            q = q + 1;
        }
    }
    if q >= (1u64 << (mbits + 1)) {
        q = q / 2;
        exp = exp + 1;
    }
    let e_field: i32 = exp + bias;
    proof {
        assert(1u64 << mbits >= 1) by (bit_vector)
            requires
                mbits == 52 || mbits == 23,
        ;
    }
    if e_field >= emax {
        return Some(sign | ((emax as u64) << mbits));
    }
    if e_field <= 0 {
        return Some(sign);
    }
    Some(sign | ((e_field as u64) << mbits) | (q & ((1u64 << mbits) - 1)))
}

/// The exact decimal text of `m * 2^e`, negated when `neg` holds, as long
/// as it fits the integer window; used to format floats whose bit
/// patterns the parser can read back.
fn exact_decimal(neg: bool, m: u64, e: i32) -> (r: Option<Vec<char>>)
    ensures
        r matches Some(cs) ==> cs.len() >= 1,
{
    let mut m = m;
    let mut e = e;
    while m > 0 && m % 2 == 0 && e < 0
        invariant
            e <= 0x7FFF_FFFF,
        decreases m,
    {
        proof {
            vstd::arithmetic::div_mod::lemma_div_is_strictly_smaller(m as int, 2);
        }
        m = m / 2;
        e = e + 1;
    }
    let mut out: Vec<char> = Vec::new();
    if e >= 0 {
        if e > 60 {
            return None;
        }
        let v: u128 = (m as u128) << (e as u32);
        let mut digits = format_u128(v);
        if neg && v != 0 {
            out.push('-');
        }
        out.append(&mut digits);
        return Some(out);
    }
    if e < -200 {
        return None;
    }
    let k: u32 = (0 - e) as u32;
    if k > 40 {
        return None;
    }
    // m / 2^k == (m * 5^k) / 10^k
    let mut scaled: u128 = m as u128;
    let mut i: u32 = 0;
    while i < k
        invariant
            i <= k,
            k <= 40,
        decreases k - i,
    {
        if scaled > 0x33_0000_0000_0000_0000_0000_0000 {
            return None;
        }
        scaled = scaled * 5;
        i = i + 1;
    }
    let digits = format_u128(scaled);
    if neg && scaled != 0 {
        out.push('-');
    }
    let n = digits.len();
    let k_us = k as usize;
    if n > k_us {
        let mut j: usize = 0;
        while j < n - k_us
            invariant
                j <= n - k_us,
                n == digits.len(),
                k_us < n,
                out.len() >= j,
            decreases n - k_us - j,
        {
            out.push(digits[j]);
            j = j + 1;
        }
        out.push('.');
        let mut j2: usize = n - k_us;
        while j2 < n
            invariant
                n - k_us <= j2 <= n,
                n == digits.len(),
                out.len() >= 1,
            decreases n - j2,
        {
            out.push(digits[j2]);
            j2 = j2 + 1;
        }
    } else {
        out.push('0');
        out.push('.');
        let mut z: usize = 0;
        while z < k_us - n
            invariant
                z <= k_us - n,
                n <= k_us,
                out.len() >= 1,
            decreases k_us - n - z,
        {
            out.push('0');
            z = z + 1;
        }
        let mut j3: usize = 0;
        while j3 < n
            invariant
                j3 <= n,
                n == digits.len(),
                out.len() >= 1,
            decreases n - j3,
        {
            out.push(digits[j3]);
            j3 = j3 + 1;
        }
    }
    Some(out)
}

/// The decimal digits of an unsigned value, most significant first.
fn format_u128(v: u128) -> (r: Vec<char>)
    ensures
        r.len() >= 1,
{
    let mut rev: Vec<char> = Vec::new();
    let mut x = v;
    if x == 0 {
        rev.push('0');
    }
    while x > 0
        invariant
            x > 0 || rev.len() >= 1,
        decreases x,
    {
        let d = (x % 10) as u32;
        rev.push(digit_char(d));
        proof {
            vstd::arithmetic::div_mod::lemma_div_is_strictly_smaller(x as int, 10);
        }
        x = x / 10;
    }
    let mut out: Vec<char> = Vec::new();
    let mut i = rev.len();
    while i > 0
        invariant
            i <= rev.len(),
            rev.len() >= 1,
            out.len() == rev.len() - i,
        decreases i,
    {
        i = i - 1;
        out.push(rev[i]);
    }
    out
}

fn digit_char(d: u32) -> (r: char) {
    if d == 0 {
        '0'
    } else if d == 1 {
        '1'
    } else if d == 2 {
        '2'
    } else if d == 3 {
        '3'
    } else if d == 4 {
        '4'
    } else if d == 5 {
        '5'
    } else if d == 6 {
        '6'
    } else if d == 7 {
        '7'
    } else if d == 8 {
        '8'
    } else {
        '9'
    }
}

/// Relies on `str::chars`: the characters of the string, in order.
#[verifier::external_body]
fn str_to_chars(s: &str) -> (r: Vec<char>)
    ensures
        r@ == s@,
{
    s.chars().collect()
}

/// Relies on `FromIterator` for `String` over `char`: the string holding
/// exactly these characters.
#[verifier::external_body]
fn chars_to_string(v: &Vec<char>) -> (r: String)
    ensures
        r@ == v@,
{
    v.iter().collect()
}

fn is_word_char(c: char) -> (r: bool)
{
    ('a' <= c && c <= 'z') || ('A' <= c && c <= 'Z') || ('0' <= c && c <= '9') || c == '_'
        || c == '-' || c == '.' || c == '+'
}

fn is_digit(c: char) -> (r: bool)
    ensures
        r ==> '0' <= c <= '9',
{
    '0' <= c && c <= '9'
}

/// Classifies a bare word: a typed number literal, a bare integer, or a
/// boolean keyword; anything else is the error token.
fn classify_word(word: &Vec<char>) -> (r: Token) {
    let n = word.len();
    if n == 0 {
        return Token::Error;
    }
    if n == 4 && word[0] == 't' && word[1] == 'r' && word[2] == 'u' && word[3] == 'e' {
        return Token::True;
    }
    if n == 5 && word[0] == 'f' && word[1] == 'a' && word[2] == 'l' && word[3] == 's' && word[4]
        == 'e' {
        return Token::False;
    }
    let last = word[n - 1];
    let is_float = last == 'f' || last == 'F';
    let is_double = last == 'd' || last == 'D';
    if is_float || is_double {
        let neg = word[0] == '-';
        let mut digits: u128 = 0;
        let mut frac_len: u32 = 0;
        let mut seen_dot = false;
        let mut any = false;
        let mut i: usize = if neg {
            1
        } else {
            0
        };
        while i < n - 1
            invariant
                i <= n - 1,
                n == word.len(),
                n >= 1,
                digits <= 0xFFFF_FFFF_FFFF_FFFF_FFFF_FFFF,
                frac_len <= 101,
            decreases n - 1 - i,
        {
            let c = word[i];
            if c == '.' {
                if seen_dot {
                    return Token::Error;
                }
                seen_dot = true;
            } else if is_digit(c) {
                if digits > 0xFF_FFFF_FFFF_FFFF_FFFF {
                    return Token::Error;
                }
                digits = digits * 10 + (((c as u32) - ('0' as u32)) as u128);
                if seen_dot {
                    if frac_len > 100 {
                        return Token::Error;
                    }
                    frac_len = frac_len + 1;
                }
                any = true;
            } else {
                return Token::Error;
            }
            i = i + 1;
        }
        if !any {
            return Token::Error;
        }
        return match decimal_to_bits(neg, digits, frac_len, is_double) {
            Some(b) => if is_double {
                Token::Double(b)
            } else {
                Token::Float(b as u32)
            },
            None => Token::Error,
        };
    }
    let has_suffix = last == 'b' || last == 'B' || last == 's' || last == 'S' || last == 'l'
        || last == 'L';
    let digits_end = if has_suffix {
        n - 1
    } else {
        n
    };
    let neg = word[0] == '-';
    let start: usize = if neg {
        1
    } else {
        0
    };
    if start >= digits_end {
        return Token::Error;
    }
    let mut acc: i64 = 0;
    let mut i = start;
    while i < digits_end
        invariant
            start <= i <= digits_end,
            digits_end <= n,
            n == word.len(),
            neg ==> acc <= 0,
            !neg ==> acc >= 0,
        decreases digits_end - i,
    {
        let c = word[i];
        if !is_digit(c) {
            return Token::Error;
        }
        let d = (c as u32) - ('0' as u32);
        if neg {
            if acc < -0x0CCC_CCCC_CCCC_CCCB {
                return Token::Error;
            }
            acc = acc * 10 - (d as i64);
        } else {
            if acc > 0x0CCC_CCCC_CCCC_CCCB {
                return Token::Error;
            }
            acc = acc * 10 + (d as i64);
        }
        i = i + 1;
    }
    if !has_suffix {
        if acc < -0x8000_0000 || acc > 0x7FFF_FFFF {
            return Token::Error;
        }
        return Token::Int(acc as i32);
    }
    if last == 'b' || last == 'B' {
        if acc < -0x80 || acc > 0x7F {
            return Token::Error;
        }
        return Token::Byte(acc as i8);
    }
    if last == 's' || last == 'S' {
        if acc < -0x8000 || acc > 0x7FFF {
            return Token::Error;
        }
        return Token::Short(acc as i16);
    }
    Token::Long(acc)
}

/// Turns SNBT text into tokens.  Malformed lexemes become the error
/// token, which the parser rejects.
pub fn tokenize(input: &Vec<char>) -> (r: Vec<Token>) {
    let mut out: Vec<Token> = Vec::new();
    let mut i: usize = 0;
    while i < input.len()
        invariant
            i <= input.len(),
        decreases input.len() - i,
    {
        let c = input[i];
        if c == ' ' || c == '\t' || c == '\n' || c == '\r' {
            i = i + 1;
        } else if c == '{' {
            out.push(Token::StartCompound);
            i = i + 1;
        } else if c == '}' {
            out.push(Token::EndCompound);
            i = i + 1;
        } else if c == ']' {
            out.push(Token::EndListOrArray);
            i = i + 1;
        } else if c == ',' {
            out.push(Token::ArrayListCompoundSeparator);
            i = i + 1;
        } else if c == '[' {
            if input.len() - i >= 3 && input[i + 2] == ';' && (input[i + 1] == 'B' || input[i
                + 1] == 'I' || input[i + 1] == 'L') {
                if input[i + 1] == 'B' {
                    out.push(Token::ByteArray);
                } else if input[i + 1] == 'I' {
                    out.push(Token::IntArray);
                } else {
                    out.push(Token::LongArray);
                }
                i = i + 3;
            } else {
                out.push(Token::StartList);
                i = i + 1;
            }
        } else if c == '"' || c == '\'' {
            let quote = c;
            let mut j = i + 1;
            let mut text: Vec<char> = Vec::new();
            let mut closed = false;
            while j < input.len() && !closed
                invariant
                    i < j <= input.len(),
                decreases input.len() - j,
            {
                let d = input[j];
                if d == quote {
                    closed = true;
                } else {
                    text.push(d);
                }
                j = j + 1;
            }
            if closed {
                out.push(Token::String(chars_to_string(&text)));
            } else {
                out.push(Token::Error);
            }
            i = j;
        } else if is_word_char(c) {
            let mut j = i + 1;
            let mut word: Vec<char> = Vec::new();
            word.push(c);
            while j < input.len() && is_word_char(input[j])
                invariant
                    i < j <= input.len(),
                decreases input.len() - j,
            {
                word.push(input[j]);
                j = j + 1;
            }
            if j < input.len() && input[j] == ':' {
                out.push(Token::TagName(chars_to_string(&word)));
                i = j + 1;
            } else {
                out.push(classify_word(&word));
                i = j;
            }
        } else {
            out.push(Token::Error);
            i = i + 1;
        }
    }
    out
}

/// Parses one SNBT document: an empty input is the End value, anything
/// else must be a compound, which becomes the nameless top-level compound.
pub fn parse(tokens: &Vec<Token>) -> (r: Result<Value, Error>)
    ensures
        match spec_parse_document(view_tokens(tokens@)) {
            Some(nm) => r matches Ok(v) && v@ == nm,
            None => r is Err,
        },
        tokens@.len() > 0 && !(view_token(tokens@[0]) is StartCompound) ==> (r matches Err(e)
            && e matches Error::UnexpectedToken(t) && t == tokens@[0]),
{
    proof {
        lemma_view_tokens(tokens@);
    }
    if tokens.len() == 0 {
        return Ok(Value::End);
    }
    let mut idx: usize = 0;
    match &tokens[0] {
        Token::StartCompound => {
            idx = 1;
            let entries = parse_compound(tokens, &mut idx)?;
            Ok(Value::Compound { name: String::new(), value: entries })
        },
        t => Err(Error::UnexpectedToken(clone_token(t))),
    }
}

fn clone_token(t: &Token) -> (r: Token)
    ensures
        r == t,
{
    match t {
        Token::ByteArray => Token::ByteArray,
        Token::IntArray => Token::IntArray,
        Token::LongArray => Token::LongArray,
        Token::StartList => Token::StartList,
        Token::EndListOrArray => Token::EndListOrArray,
        Token::StartCompound => Token::StartCompound,
        Token::EndCompound => Token::EndCompound,
        Token::Byte(x) => Token::Byte(*x),
        Token::Short(x) => Token::Short(*x),
        Token::Int(x) => Token::Int(*x),
        Token::Long(x) => Token::Long(*x),
        Token::Float(x) => Token::Float(*x),
        Token::Double(x) => Token::Double(*x),
        Token::True => Token::True,
        Token::False => Token::False,
        Token::TagName(s) => Token::TagName(clone_string(s)),
        Token::String(s) => Token::String(clone_string(s)),
        Token::ArrayListCompoundSeparator => Token::ArrayListCompoundSeparator,
        Token::Error => Token::Error,
    }
}

fn clone_string(s: &String) -> (r: String)
    ensures
        r == s,
{
    s.clone()
}

/// Consumes name-prefixed entries until the closing brace, exactly as
/// `spec_parse_compound` says: a value with no name before it is
/// `MissingName`; a malformed lexeme is `UnexpectedToken`.
pub fn parse_compound(tokens: &Vec<Token>, idx: &mut usize) -> (r: Result<Vec<Value>, Error>)
    requires
        *old(idx) <= tokens.len(),
    ensures
        *old(idx) <= *final(idx) <= tokens.len(),
        match spec_parse_compound(view_tokens(tokens@), *old(idx) as int, None, Seq::empty()) {
            Some((en, j)) => r matches Ok(vs) && view_value_seq(vs@) == en && *final(idx) == j,
            None => r is Err,
        },
    decreases tokens.len() - *old(idx), 1nat,
{
    let ghost tm = view_tokens(tokens@);
    proof {
        lemma_view_tokens(tokens@);
    }
    let mut values: Vec<Value> = Vec::new();
    let mut last_name: Option<String> = None;
    while *idx < tokens.len()
        invariant
            *idx <= tokens.len(),
            *old(idx) <= *idx,
            tm == view_tokens(tokens@),
            tm.len() == tokens@.len(),
            forall|k: int| 0 <= k < tokens@.len() ==> tm[k] == view_token(tokens@[k]),
            spec_parse_compound(tm, *old(idx) as int, None, Seq::empty())
                == spec_parse_compound(tm, *idx as int, view_pending(last_name),
                view_value_seq(values@)),
        decreases tokens.len() - *idx,
    {
        let ghost pre_idx = *idx as int;
        let ghost pre_pending = view_pending(last_name);
        let ghost pre_acc = view_value_seq(values@);
        let tok_index = *idx;
        *idx = tok_index + 1;
        proof {
            assert(tm[pre_idx] == view_token(tokens@[pre_idx]));
        }
        match &tokens[tok_index] {
            Token::EndCompound => {
                proof {
                    assert(spec_parse_compound(tm, pre_idx, pre_pending, pre_acc) == Some(
                        (pre_acc, pre_idx + 1),
                    ));
                }
                return Ok(values);
            },
            Token::ByteArray => {
                let value = match parse_byte_array(tokens, idx) {
                    Ok(v) => v,
                    Err(e) => {
                        proof {
                            assert(spec_parse_compound(tm, pre_idx, pre_pending, pre_acc)
                                is None);
                        }
                        return Err(e);
                    },
                };
                match last_name.take() {
                    Some(name) => {
                        let ghost nview = name@;
                        let ghost vview = value@;
                        let ghost prev = values@;
                        values.push(Value::ByteArray { name, value });
                        proof {
                            assert(values@ =~= prev.push(values@.last()));
                            lemma_view_value_seq_push(prev, values@.last());
                            assert(view_value_seq(values@) == pre_acc.push(
                                (nview, ValueModel::ByteArray(vview)),
                            ));
                        }
                    },
                    None => {
                        proof {
                            assert(spec_parse_compound(tm, pre_idx, pre_pending, pre_acc)
                                is None);
                        }
                        return Err(Error::MissingName);
                    },
                }
            },
            Token::IntArray => {
                let value = match parse_int_array(tokens, idx) {
                    Ok(v) => v,
                    Err(e) => {
                        proof {
                            assert(spec_parse_compound(tm, pre_idx, pre_pending, pre_acc)
                                is None);
                        }
                        return Err(e);
                    },
                };
                match last_name.take() {
                    Some(name) => {
                        let ghost nview = name@;
                        let ghost vview = value@;
                        let ghost prev = values@;
                        values.push(Value::IntArray { name, value });
                        proof {
                            assert(values@ =~= prev.push(values@.last()));
                            lemma_view_value_seq_push(prev, values@.last());
                            assert(view_value_seq(values@) == pre_acc.push(
                                (nview, ValueModel::IntArray(vview)),
                            ));
                        }
                    },
                    None => {
                        proof {
                            assert(spec_parse_compound(tm, pre_idx, pre_pending, pre_acc)
                                is None);
                        }
                        return Err(Error::MissingName);
                    },
                }
            },
            Token::LongArray => {
                let value = match parse_long_array(tokens, idx) {
                    Ok(v) => v,
                    Err(e) => {
                        proof {
                            assert(spec_parse_compound(tm, pre_idx, pre_pending, pre_acc)
                                is None);
                        }
                        return Err(e);
                    },
                };
                match last_name.take() {
                    Some(name) => {
                        let ghost nview = name@;
                        let ghost vview = value@;
                        let ghost prev = values@;
                        values.push(Value::LongArray { name, value });
                        proof {
                            assert(values@ =~= prev.push(values@.last()));
                            lemma_view_value_seq_push(prev, values@.last());
                            assert(view_value_seq(values@) == pre_acc.push(
                                (nview, ValueModel::LongArray(vview)),
                            ));
                        }
                    },
                    None => {
                        proof {
                            assert(spec_parse_compound(tm, pre_idx, pre_pending, pre_acc)
                                is None);
                        }
                        return Err(Error::MissingName);
                    },
                }
            },
            Token::StartList => {
                let value = match parse_list(tokens, idx) {
                    Ok(v) => v,
                    Err(e) => {
                        proof {
                            assert(spec_parse_compound(tm, pre_idx, pre_pending, pre_acc)
                                is None);
                        }
                        return Err(e);
                    },
                };
                match last_name.take() {
                    Some(name) => {
                        let ghost nview = name@;
                        let ghost vview = view_nameless_seq(value@);
                        let ghost prev = values@;
                        values.push(Value::List { name, value });
                        proof {
                            assert(values@ =~= prev.push(values@.last()));
                            lemma_view_value_seq_push(prev, values@.last());
                            assert(view_value_seq(values@) == pre_acc.push(
                                (nview, ValueModel::List(vview)),
                            ));
                        }
                    },
                    None => {
                        proof {
                            assert(spec_parse_compound(tm, pre_idx, pre_pending, pre_acc)
                                is None);
                        }
                        return Err(Error::MissingName);
                    },
                }
            },
            Token::StartCompound => {
                let value = match parse_compound(tokens, idx) {
                    Ok(v) => v,
                    Err(e) => {
                        proof {
                            assert(spec_parse_compound(tm, pre_idx, pre_pending, pre_acc)
                                is None);
                        }
                        return Err(e);
                    },
                };
                match last_name.take() {
                    Some(name) => {
                        let ghost nview = name@;
                        let ghost vview = view_value_seq(value@);
                        let ghost prev = values@;
                        values.push(Value::Compound { name, value });
                        proof {
                            assert(values@ =~= prev.push(values@.last()));
                            lemma_view_value_seq_push(prev, values@.last());
                            assert(view_value_seq(values@) == pre_acc.push(
                                (nview, ValueModel::Compound(vview)),
                            ));
                        }
                    },
                    None => {
                        proof {
                            assert(spec_parse_compound(tm, pre_idx, pre_pending, pre_acc)
                                is None);
                        }
                        return Err(Error::MissingName);
                    },
                }
            },
            Token::Byte(x) => {
                match last_name.take() {
                    Some(name) => {
                        let ghost prev = values@;
                        values.push(Value::Byte { name, value: *x });
                        proof {
                            assert(values@ =~= prev.push(values@.last()));
                            lemma_view_value_seq_push(prev, values@.last());
                        }
                    },
                    None => {
                        return Err(Error::MissingName);
                    },
                }
            },
            Token::Short(x) => {
                match last_name.take() {
                    Some(name) => {
                        let ghost prev = values@;
                        values.push(Value::Short { name, value: *x });
                        proof {
                            assert(values@ =~= prev.push(values@.last()));
                            lemma_view_value_seq_push(prev, values@.last());
                        }
                    },
                    None => {
                        return Err(Error::MissingName);
                    },
                }
            },
            Token::Int(x) => {
                match last_name.take() {
                    Some(name) => {
                        let ghost prev = values@;
                        values.push(Value::Int { name, value: *x });
                        proof {
                            assert(values@ =~= prev.push(values@.last()));
                            lemma_view_value_seq_push(prev, values@.last());
                        }
                    },
                    None => {
                        return Err(Error::MissingName);
                    },
                }
            },
            Token::Long(x) => {
                match last_name.take() {
                    Some(name) => {
                        let ghost prev = values@;
                        values.push(Value::Long { name, value: *x });
                        proof {
                            assert(values@ =~= prev.push(values@.last()));
                            lemma_view_value_seq_push(prev, values@.last());
                        }
                    },
                    None => {
                        return Err(Error::MissingName);
                    },
                }
            },
            Token::Float(x) => {
                match last_name.take() {
                    Some(name) => {
                        let ghost prev = values@;
                        values.push(Value::Float { name, value: *x });
                        proof {
                            assert(values@ =~= prev.push(values@.last()));
                            lemma_view_value_seq_push(prev, values@.last());
                        }
                    },
                    None => {
                        return Err(Error::MissingName);
                    },
                }
            },
            Token::Double(x) => {
                match last_name.take() {
                    Some(name) => {
                        let ghost prev = values@;
                        values.push(Value::Double { name, value: *x });
                        proof {
                            assert(values@ =~= prev.push(values@.last()));
                            lemma_view_value_seq_push(prev, values@.last());
                        }
                    },
                    None => {
                        return Err(Error::MissingName);
                    },
                }
            },
            Token::True => {
                match last_name.take() {
                    Some(name) => {
                        let ghost prev = values@;
                        values.push(Value::Boolean { name, value: true });
                        proof {
                            assert(values@ =~= prev.push(values@.last()));
                            lemma_view_value_seq_push(prev, values@.last());
                        }
                    },
                    None => {
                        return Err(Error::MissingName);
                    },
                }
            },
            Token::False => {
                match last_name.take() {
                    Some(name) => {
                        let ghost prev = values@;
                        values.push(Value::Boolean { name, value: false });
                        proof {
                            assert(values@ =~= prev.push(values@.last()));
                            lemma_view_value_seq_push(prev, values@.last());
                        }
                    },
                    None => {
                        return Err(Error::MissingName);
                    },
                }
            },
            Token::String(sv) => {
                match last_name.take() {
                    Some(name) => {
                        let ghost prev = values@;
                        values.push(Value::String { name, value: clone_string(sv) });
                        proof {
                            assert(values@ =~= prev.push(values@.last()));
                            lemma_view_value_seq_push(prev, values@.last());
                        }
                    },
                    None => {
                        return Err(Error::MissingName);
                    },
                }
            },
            Token::TagName(sv) => {
                last_name = Some(clone_string(sv));
            },
            Token::ArrayListCompoundSeparator => {},
            Token::EndListOrArray => {},
            Token::Error => {
                proof {
                    assert(spec_parse_compound(tm, pre_idx, pre_pending, pre_acc) is None);
                }
                return Err(Error::UnexpectedToken(Token::Error));
            },
        }
    }
    proof {
        assert(spec_parse_compound(tm, *idx as int, view_pending(last_name),
            view_value_seq(values@)) == Some((view_value_seq(values@), *idx as int)));
    }
    Ok(values)
}

/// Consumes nameless elements until the closing bracket, exactly as
/// `spec_parse_list` says.
pub fn parse_list(tokens: &Vec<Token>, idx: &mut usize) -> (r: Result<Vec<NameLessValue>, Error>)
    requires
        *old(idx) <= tokens.len(),
    ensures
        *old(idx) <= *final(idx) <= tokens.len(),
        match spec_parse_list(view_tokens(tokens@), *old(idx) as int, Seq::empty()) {
            Some((ms, j)) => r matches Ok(vs) && view_nameless_seq(vs@) == ms && *final(idx)
                == j,
            None => r is Err,
        },
    decreases tokens.len() - *old(idx), 0nat,
{
    let ghost tm = view_tokens(tokens@);
    proof {
        lemma_view_tokens(tokens@);
    }
    let mut values: Vec<NameLessValue> = Vec::new();
    while *idx < tokens.len()
        invariant
            *idx <= tokens.len(),
            *old(idx) <= *idx,
            tm == view_tokens(tokens@),
            tm.len() == tokens@.len(),
            forall|k: int| 0 <= k < tokens@.len() ==> tm[k] == view_token(tokens@[k]),
            spec_parse_list(tm, *old(idx) as int, Seq::empty()) == spec_parse_list(
                tm,
                *idx as int,
                view_nameless_seq(values@),
            ),
        decreases tokens.len() - *idx,
    {
        let ghost pre_idx = *idx as int;
        let ghost pre_acc = view_nameless_seq(values@);
        let tok_index = *idx;
        *idx = tok_index + 1;
        proof {
            assert(tm[pre_idx] == view_token(tokens@[pre_idx]));
        }
        match &tokens[tok_index] {
            Token::EndListOrArray => {
                proof {
                    assert(spec_parse_list(tm, pre_idx, pre_acc) == Some((pre_acc, pre_idx + 1)));
                }
                return Ok(values);
            },
            Token::StartList => {
                let value = match parse_list(tokens, idx) {
                    Ok(v) => v,
                    Err(e) => {
                        proof {
                            assert(spec_parse_list(tm, pre_idx, pre_acc) is None);
                        }
                        return Err(e);
                    },
                };
                let ghost vview = view_nameless_seq(value@);
                let ghost prev = values@;
                values.push(NameLessValue::List(value));
                proof {
                    assert(values@ =~= prev.push(values@.last()));
                    lemma_view_nameless_seq_push(prev, values@.last());
                    assert(view_nameless_seq(values@) == pre_acc.push(ValueModel::List(vview)));
                }
            },
            Token::StartCompound => {
                let value = match parse_compound(tokens, idx) {
                    Ok(v) => v,
                    Err(e) => {
                        proof {
                            assert(spec_parse_list(tm, pre_idx, pre_acc) is None);
                        }
                        return Err(e);
                    },
                };
                let ghost vview = view_value_seq(value@);
                let ghost prev = values@;
                values.push(NameLessValue::Compound(value));
                proof {
                    assert(values@ =~= prev.push(values@.last()));
                    lemma_view_nameless_seq_push(prev, values@.last());
                    assert(view_nameless_seq(values@) == pre_acc.push(ValueModel::Compound(vview)));
                }
            },
            Token::Byte(x) => {
                let ghost prev = values@;
                values.push(NameLessValue::Byte(*x));
                proof {
                    assert(values@ =~= prev.push(values@.last()));
                    lemma_view_nameless_seq_push(prev, values@.last());
                }
            },
            Token::Short(x) => {
                let ghost prev = values@;
                values.push(NameLessValue::Short(*x));
                proof {
                    assert(values@ =~= prev.push(values@.last()));
                    lemma_view_nameless_seq_push(prev, values@.last());
                }
            },
            Token::Int(x) => {
                let ghost prev = values@;
                values.push(NameLessValue::Int(*x));
                proof {
                    assert(values@ =~= prev.push(values@.last()));
                    lemma_view_nameless_seq_push(prev, values@.last());
                }
            },
            Token::Long(x) => {
                let ghost prev = values@;
                values.push(NameLessValue::Long(*x));
                proof {
                    assert(values@ =~= prev.push(values@.last()));
                    lemma_view_nameless_seq_push(prev, values@.last());
                }
            },
            Token::Float(x) => {
                let ghost prev = values@;
                values.push(NameLessValue::Float(*x));
                proof {
                    assert(values@ =~= prev.push(values@.last()));
                    lemma_view_nameless_seq_push(prev, values@.last());
                }
            },
            Token::Double(x) => {
                let ghost prev = values@;
                values.push(NameLessValue::Double(*x));
                proof {
                    assert(values@ =~= prev.push(values@.last()));
                    lemma_view_nameless_seq_push(prev, values@.last());
                }
            },
            Token::True => {
                let ghost prev = values@;
                values.push(NameLessValue::Boolean(true));
                proof {
                    assert(values@ =~= prev.push(values@.last()));
                    lemma_view_nameless_seq_push(prev, values@.last());
                }
            },
            Token::False => {
                let ghost prev = values@;
                values.push(NameLessValue::Boolean(false));
                proof {
                    assert(values@ =~= prev.push(values@.last()));
                    lemma_view_nameless_seq_push(prev, values@.last());
                }
            },
            Token::String(sv) => {
                let ghost prev = values@;
                values.push(NameLessValue::String(clone_string(sv)));
                proof {
                    assert(values@ =~= prev.push(values@.last()));
                    lemma_view_nameless_seq_push(prev, values@.last());
                }
            },
            Token::Error => {
                proof {
                    assert(spec_parse_list(tm, pre_idx, pre_acc) is None);
                }
                return Err(Error::UnexpectedToken(Token::Error));
            },
            _ => {},
        }
    }
    proof {
        assert(spec_parse_list(tm, *idx as int, view_nameless_seq(values@)) == Some(
            (view_nameless_seq(values@), *idx as int),
        ));
    }
    Ok(values)
}

/// Only byte literals may stand in a `[B;...]` array.
pub fn parse_byte_array(tokens: &Vec<Token>, idx: &mut usize) -> (r: Result<Vec<i8>, Error>)
    requires
        *old(idx) <= tokens.len(),
    ensures
        *old(idx) <= *final(idx) <= tokens.len(),
        match spec_parse_byte_array(view_tokens(tokens@), *old(idx) as int, Seq::empty()) {
            Some((vs, j)) => r matches Ok(v) && v@ == vs && *final(idx) == j,
            None => r is Err,
        },
{
    let ghost tm = view_tokens(tokens@);
    proof {
        lemma_view_tokens(tokens@);
    }
    let mut values: Vec<i8> = Vec::new();
    while *idx < tokens.len()
        invariant
            *idx <= tokens.len(),
            *old(idx) <= *idx,
            tm == view_tokens(tokens@),
            tm.len() == tokens@.len(),
            forall|k: int| 0 <= k < tokens@.len() ==> tm[k] == view_token(tokens@[k]),
            spec_parse_byte_array(tm, *old(idx) as int, Seq::empty()) == spec_parse_byte_array(tm, *idx as int, values@),
        decreases tokens.len() - *idx,
    {
        let ghost pre_idx = *idx as int;
        let ghost pre_acc = values@;
        let tok_index = *idx;
        *idx = tok_index + 1;
        proof {
            assert(tm[pre_idx] == view_token(tokens@[pre_idx]));
        }
        match &tokens[tok_index] {
            Token::Byte(x) => {
                values.push(*x);
                proof {
                    assert(values@ =~= pre_acc.push(values@.last()));
                }
            },
            Token::EndListOrArray => {
                proof {
                    assert(spec_parse_byte_array(tm, pre_idx, pre_acc) == Some((pre_acc, pre_idx + 1)));
                }
                return Ok(values);
            },
            Token::ArrayListCompoundSeparator => {},
            t => {
                proof {
                    assert(spec_parse_byte_array(tm, pre_idx, pre_acc) is None);
                }
                return Err(Error::UnexpectedToken(clone_token(t)));
            },
        }
    }
    proof {
        assert(spec_parse_byte_array(tm, *idx as int, values@) == Some((values@, *idx as int)));
    }
    Ok(values)
}

/// Only bare integer literals may stand in an `[I;...]` array.
pub fn parse_int_array(tokens: &Vec<Token>, idx: &mut usize) -> (r: Result<Vec<i32>, Error>)
    requires
        *old(idx) <= tokens.len(),
    ensures
        *old(idx) <= *final(idx) <= tokens.len(),
        match spec_parse_int_array(view_tokens(tokens@), *old(idx) as int, Seq::empty()) {
            Some((vs, j)) => r matches Ok(v) && v@ == vs && *final(idx) == j,
            None => r is Err,
        },
{
    let ghost tm = view_tokens(tokens@);
    proof {
        lemma_view_tokens(tokens@);
    }
    let mut values: Vec<i32> = Vec::new();
    while *idx < tokens.len()
        invariant
            *idx <= tokens.len(),
            *old(idx) <= *idx,
            tm == view_tokens(tokens@),
            tm.len() == tokens@.len(),
            forall|k: int| 0 <= k < tokens@.len() ==> tm[k] == view_token(tokens@[k]),
            spec_parse_int_array(tm, *old(idx) as int, Seq::empty()) == spec_parse_int_array(tm, *idx as int, values@),
        decreases tokens.len() - *idx,
    {
        let ghost pre_idx = *idx as int;
        let ghost pre_acc = values@;
        let tok_index = *idx;
        *idx = tok_index + 1;
        proof {
            assert(tm[pre_idx] == view_token(tokens@[pre_idx]));
        }
        match &tokens[tok_index] {
            Token::Int(x) => {
                values.push(*x);
                proof {
                    assert(values@ =~= pre_acc.push(values@.last()));
                }
            },
            Token::EndListOrArray => {
                proof {
                    assert(spec_parse_int_array(tm, pre_idx, pre_acc) == Some((pre_acc, pre_idx + 1)));
                }
                return Ok(values);
            },
            Token::ArrayListCompoundSeparator => {},
            t => {
                proof {
                    assert(spec_parse_int_array(tm, pre_idx, pre_acc) is None);
                }
                return Err(Error::UnexpectedToken(clone_token(t)));
            },
        }
    }
    proof {
        assert(spec_parse_int_array(tm, *idx as int, values@) == Some((values@, *idx as int)));
    }
    Ok(values)
}

/// Only long literals may stand in an `[L;...]` array.
pub fn parse_long_array(tokens: &Vec<Token>, idx: &mut usize) -> (r: Result<Vec<i64>, Error>)
    requires
        *old(idx) <= tokens.len(),
    ensures
        *old(idx) <= *final(idx) <= tokens.len(),
        match spec_parse_long_array(view_tokens(tokens@), *old(idx) as int, Seq::empty()) {
            Some((vs, j)) => r matches Ok(v) && v@ == vs && *final(idx) == j,
            None => r is Err,
        },
{
    let ghost tm = view_tokens(tokens@);
    proof {
        lemma_view_tokens(tokens@);
    }
    let mut values: Vec<i64> = Vec::new();
    while *idx < tokens.len()
        invariant
            *idx <= tokens.len(),
            *old(idx) <= *idx,
            tm == view_tokens(tokens@),
            tm.len() == tokens@.len(),
            forall|k: int| 0 <= k < tokens@.len() ==> tm[k] == view_token(tokens@[k]),
            spec_parse_long_array(tm, *old(idx) as int, Seq::empty()) == spec_parse_long_array(tm, *idx as int, values@),
        decreases tokens.len() - *idx,
    {
        let ghost pre_idx = *idx as int;
        let ghost pre_acc = values@;
        let tok_index = *idx;
        *idx = tok_index + 1;
        proof {
            assert(tm[pre_idx] == view_token(tokens@[pre_idx]));
        }
        match &tokens[tok_index] {
            Token::Long(x) => {
                values.push(*x);
                proof {
                    assert(values@ =~= pre_acc.push(values@.last()));
                }
            },
            Token::EndListOrArray => {
                proof {
                    assert(spec_parse_long_array(tm, pre_idx, pre_acc) == Some((pre_acc, pre_idx + 1)));
                }
                return Ok(values);
            },
            Token::ArrayListCompoundSeparator => {},
            t => {
                proof {
                    assert(spec_parse_long_array(tm, pre_idx, pre_acc) is None);
                }
                return Err(Error::UnexpectedToken(clone_token(t)));
            },
        }
    }
    proof {
        assert(spec_parse_long_array(tm, *idx as int, values@) == Some((values@, *idx as int)));
    }
    Ok(values)
}

/// Parses SNBT text into a value tree.
pub fn to_value(text: &str) -> (r: Result<Value, Error>)
    ensures
        r matches Ok(v) ==> v@.0 == Seq::<char>::empty() && (v@.1 is Compound || v@.1 is End),
{
    let chars = str_to_chars(text);
    let tokens = tokenize(&chars);
    parse(&tokens)
}


// ---------------------------------------------------------------------------
// Formatting
// ---------------------------------------------------------------------------

fn push_str_chars(out: &mut Vec<char>, s: &str) {
    let mut cs = str_to_chars(s);
    out.append(&mut cs);
}

fn push_i64_text(out: &mut Vec<char>, x: i64) {
    let mag: u128 = if x < 0 {
        ((-(x as i128)) as u128)
    } else {
        (x as u128)
    };
    if x < 0 {
        out.push('-');
    }
    let mut d = format_u128(mag);
    out.append(&mut d);
}

/// The exact decimal text of a 32-bit float's bits, with its `f` suffix.
/// Infinities, NaNs and values outside the integer window are refused.
fn push_f32_text(out: &mut Vec<char>, bits: u32) -> (r: Result<(), Error>) {
    proof {
        assert((bits >> 23) & 0xFF < 256 && (bits & 0x7F_FFFF) < 0x80_0000) by (bit_vector);
    }
    let e_field = (bits >> 23) & 0xFF;
    let mant = bits & 0x7F_FFFF;
    let neg = (bits >> 31) == 1;
    if e_field == 255 {
        return Err(Error::UnexpectedToken(Token::Float(bits)));
    }
    let (m, e): (u64, i32) = if e_field == 0 {
        (mant as u64, -149)
    } else {
        ((mant | 0x80_0000) as u64, (e_field as i32) - 150)
    };
    match exact_decimal(neg, m, e) {
        Some(mut text) => {
            out.append(&mut text);
            out.push('f');
            Ok(())
        },
        None => Err(Error::UnexpectedToken(Token::Float(bits))),
    }
}

/// The exact decimal text of a 64-bit float's bits, with its `d` suffix.
fn push_f64_text(out: &mut Vec<char>, bits: u64) -> (r: Result<(), Error>) {
    proof {
        assert((bits >> 52) & 0x7FF < 2048 && (bits & 0xF_FFFF_FFFF_FFFF)
            < 0x10_0000_0000_0000) by (bit_vector);
    }
    let e_field = ((bits >> 52) & 0x7FF) as u32;
    let mant = bits & 0xF_FFFF_FFFF_FFFF;
    let neg = (bits >> 63) == 1;
    if e_field == 2047 {
        return Err(Error::UnexpectedToken(Token::Double(bits)));
    }
    let (m, e): (u64, i32) = if e_field == 0 {
        (mant, -1074)
    } else {
        (mant | 0x10_0000_0000_0000, (e_field as i32) - 1075)
    };
    match exact_decimal(neg, m, e) {
        Some(mut text) => {
            out.append(&mut text);
            out.push('d');
            Ok(())
        },
        None => Err(Error::UnexpectedToken(Token::Double(bits))),
    }
}

/// Quotes a string payload; a text holding both quote characters cannot
/// be written without escapes and is refused.
fn push_quoted(out: &mut Vec<char>, s: &str) -> (r: Result<(), Error>) {
    let cs = str_to_chars(s);
    let mut has_dq = false;
    let mut has_sq = false;
    let mut i: usize = 0;
    while i < cs.len()
        invariant
            i <= cs.len(),
        decreases cs.len() - i,
    {
        if cs[i] == '"' {
            has_dq = true;
        }
        if cs[i] == '\'' {
            has_sq = true;
        }
        i = i + 1;
    }
    if has_dq && has_sq {
        return Err(Error::UnexpectedToken(Token::Error));
    }
    let quote = if has_dq {
        '\''
    } else {
        '"'
    };
    out.push(quote);
    let mut j: usize = 0;
    while j < cs.len()
        invariant
            j <= cs.len(),
        decreases cs.len() - j,
    {
        out.push(cs[j]);
        j = j + 1;
    }
    out.push(quote);
    Ok(())
}

/// Emits a tag name and its colon; a name the lexer could not read back
/// (empty, or holding a non-word character) is refused.
fn push_name(out: &mut Vec<char>, s: &str) -> (r: Result<(), Error>) {
    let cs = str_to_chars(s);
    if cs.len() == 0 {
        return Err(Error::MissingName);
    }
    let mut i: usize = 0;
    while i < cs.len()
        invariant
            i <= cs.len(),
        decreases cs.len() - i,
    {
        if !is_word_char(cs[i]) {
            return Err(Error::UnexpectedToken(Token::Error));
        }
        i = i + 1;
    }
    let mut j: usize = 0;
    while j < cs.len()
        invariant
            j <= cs.len(),
        decreases cs.len() - j,
    {
        out.push(cs[j]);
        j = j + 1;
    }
    out.push(':');
    Ok(())
}

fn push_byte_seq(out: &mut Vec<char>, v: &Vec<i8>) {
    push_str_chars(out, "[B;");
    let mut i: usize = 0;
    while i < v.len()
        invariant
            i <= v.len(),
        decreases v.len() - i,
    {
        if i > 0 {
            out.push(',');
        }
        push_i64_text(out, v[i] as i64);
        out.push('b');
        i = i + 1;
    }
    out.push(']');
}

fn push_int_seq(out: &mut Vec<char>, v: &Vec<i32>) {
    push_str_chars(out, "[I;");
    let mut i: usize = 0;
    while i < v.len()
        invariant
            i <= v.len(),
        decreases v.len() - i,
    {
        if i > 0 {
            out.push(',');
        }
        push_i64_text(out, v[i] as i64);
        i = i + 1;
    }
    out.push(']');
}

fn push_long_seq(out: &mut Vec<char>, v: &Vec<i64>) {
    push_str_chars(out, "[L;");
    let mut i: usize = 0;
    while i < v.len()
        invariant
            i <= v.len(),
        decreases v.len() - i,
    {
        if i > 0 {
            out.push(',');
        }
        push_i64_text(out, v[i]);
        out.push('L');
        i = i + 1;
    }
    out.push(']');
}

/// Emits one nameless value: a list element.
fn fmt_nameless(value: &NameLessValue, out: &mut Vec<char>) -> (r: Result<(), Error>)
    decreases value, 1nat,
{
    match value {
        NameLessValue::End => Err(Error::UnexpectedToken(Token::Error)),
        NameLessValue::Byte(x) => {
            push_i64_text(out, *x as i64);
            out.push('b');
            Ok(())
        },
        NameLessValue::Short(x) => {
            push_i64_text(out, *x as i64);
            out.push('s');
            Ok(())
        },
        NameLessValue::Int(x) => {
            push_i64_text(out, *x as i64);
            Ok(())
        },
        NameLessValue::Long(x) => {
            push_i64_text(out, *x);
            out.push('L');
            Ok(())
        },
        NameLessValue::Float(bits) => push_f32_text(out, *bits),
        NameLessValue::Double(bits) => push_f64_text(out, *bits),
        NameLessValue::ByteArray(v) => {
            push_byte_seq(out, v);
            Ok(())
        },
        NameLessValue::String(sv) => push_quoted(out, sv.as_str()),
        NameLessValue::List(es) => fmt_list(es, out),
        NameLessValue::Compound(vs) => fmt_entries(vs, out),
        NameLessValue::IntArray(v) => {
            push_int_seq(out, v);
            Ok(())
        },
        NameLessValue::LongArray(v) => {
            push_long_seq(out, v);
            Ok(())
        },
        NameLessValue::Boolean(b) => {
            if *b {
                push_str_chars(out, "true");
            } else {
                push_str_chars(out, "false");
            }
            Ok(())
        },
    }
}

fn fmt_list(es: &Vec<NameLessValue>, out: &mut Vec<char>) -> (r: Result<(), Error>)
    decreases es, 0nat,
{
    out.push('[');
    let mut i: usize = 0;
    while i < es.len()
        invariant
            i <= es.len(),
        decreases es.len() - i,
    {
        if i > 0 {
            out.push(',');
        }
        let rr = fmt_nameless(&es[i], out);
        if rr.is_err() {
            return rr;
        }
        i = i + 1;
    }
    out.push(']');
    Ok(())
}

/// Emits one named entry of a compound.
fn fmt_value(value: &Value, out: &mut Vec<char>) -> (r: Result<(), Error>)
    decreases value, 1nat,
{
    match value {
        Value::End => Err(Error::UnexpectedToken(Token::Error)),
        Value::Byte { name, value: x } => {
            push_name(out, name.as_str())?;
            push_i64_text(out, *x as i64);
            out.push('b');
            Ok(())
        },
        Value::Short { name, value: x } => {
            push_name(out, name.as_str())?;
            push_i64_text(out, *x as i64);
            out.push('s');
            Ok(())
        },
        Value::Int { name, value: x } => {
            push_name(out, name.as_str())?;
            push_i64_text(out, *x as i64);
            Ok(())
        },
        Value::Long { name, value: x } => {
            push_name(out, name.as_str())?;
            push_i64_text(out, *x);
            out.push('L');
            Ok(())
        },
        Value::Float { name, value: bits } => {
            push_name(out, name.as_str())?;
            push_f32_text(out, *bits)
        },
        Value::Double { name, value: bits } => {
            push_name(out, name.as_str())?;
            push_f64_text(out, *bits)
        },
        Value::ByteArray { name, value: v } => {
            push_name(out, name.as_str())?;
            push_byte_seq(out, v);
            Ok(())
        },
        Value::String { name, value: sv } => {
            push_name(out, name.as_str())?;
            push_quoted(out, sv.as_str())
        },
        Value::List { name, value: es } => {
            push_name(out, name.as_str())?;
            fmt_list(es, out)
        },
        Value::Compound { name, value: vs } => {
            push_name(out, name.as_str())?;
            fmt_entries(vs, out)
        },
        Value::IntArray { name, value: v } => {
            push_name(out, name.as_str())?;
            push_int_seq(out, v);
            Ok(())
        },
        Value::LongArray { name, value: v } => {
            push_name(out, name.as_str())?;
            push_long_seq(out, v);
            Ok(())
        },
        Value::Boolean { name, value: b } => {
            push_name(out, name.as_str())?;
            if *b {
                push_str_chars(out, "true");
            } else {
                push_str_chars(out, "false");
            }
            Ok(())
        },
    }
}

fn fmt_entries(vs: &Vec<Value>, out: &mut Vec<char>) -> (r: Result<(), Error>)
    decreases vs, 0nat,
{
    out.push('{');
    let mut i: usize = 0;
    while i < vs.len()
        invariant
            i <= vs.len(),
        decreases vs.len() - i,
    {
        if i > 0 {
            out.push(',');
        }
        let rr = fmt_value(&vs[i], out);
        if rr.is_err() {
            return rr;
        }
        i = i + 1;
    }
    out.push('}');
    Ok(())
}

/// Formats a value tree as SNBT text.  The End value formats as the empty
/// text, which parses back to it; any other top-level value must be a
/// compound, as a parse only accepts one.
pub fn snbt_format(value: &Value) -> (r: Result<String, Error>)
    ensures
        value@.1 is End ==> (r matches Ok(s) && s@ == Seq::<char>::empty()),
        !(value@.1 is End) && !(value@.1 is Compound) ==> r is Err,
{
    match value {
        Value::End => Ok(String::new()),
        Value::Compound { value: vs, .. } => {
            let mut out: Vec<char> = Vec::new();
            let rr = fmt_entries(vs, &mut out);
            if let Err(e) = rr {
                return Err(e);
            }
            Ok(chars_to_string(&out))
        },
        _ => Err(Error::UnexpectedToken(Token::Error)),
    }
}

} // verus!
