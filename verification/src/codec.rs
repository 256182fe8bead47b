//! The log's line format: one record per line, written as a JSON object with
//! the fields `op`, `key`, `value` and `expires_at`. The grammar is given by
//! spec functions; the executable parser is verified against it, and the
//! encoding of a record is proved to parse back to that record.
//!
//! A set line reads `{"op":"set","key":"k","value":[104,105]}`, with
//! `,"expires_at":N` before the closing brace while a TTL is active; a delete
//! line reads `{"op":"del","key":"k"}`. Keys are escaped as JSON strings:
//! the writer emits `\"` and `\\` for quote and backslash and `\u00xx` for
//! control characters; the reader also accepts the short escapes `\b`, `\t`,
//! `\n`, `\f` and `\r`, which other JSON writers prefer for those five.
use vstd::prelude::*;
use vstd::string::*;
use crate::digits::{
    all_digits, dec_digits, digit_val, digits_val, exec_digit_char, exec_digit_val, is_digit,
    lemma_dec_digits, lemma_digits_val_cons, pow10, push_dec_digits,
};
use crate::model::RecordModel;

verus! {

pub open spec fn is_control(c: char) -> bool {
    (c as u32) < 0x20
}

pub open spec fn is_hex_lower(c: char) -> bool {
    is_digit(c) || (0x61 <= (c as u32) && (c as u32) <= 0x66)
}

pub open spec fn hex_val(c: char) -> nat {
    if is_digit(c) {
        digit_val(c)
    } else {
        ((c as u32) - 0x61 + 10) as nat
    }
}

/// The lowercase hex digit for a value below sixteen.
pub open spec fn hex_char(n: nat) -> char {
    if n < 10 {
        crate::digits::digit_char(n)
    } else if n == 10 {
        'a'
    } else if n == 11 {
        'b'
    } else if n == 12 {
        'c'
    } else if n == 13 {
        'd'
    } else if n == 14 {
        'e'
    } else {
        'f'
    }
}

/// How one key character appears inside the quotes of a JSON string.
pub open spec fn esc_char(c: char) -> Seq<char> {
    if c == '"' {
        seq!['\\', '"']
    } else if c == '\\' {
        seq!['\\', '\\']
    } else if is_control(c) {
        seq!['\\', 'u', '0', '0', hex_char(((c as u32) / 16) as nat), hex_char(
            ((c as u32) % 16) as nat,
        )]
    } else {
        seq![c]
    }
}

pub open spec fn escape(s: Seq<char>) -> Seq<char>
    decreases s.len(),
{
    if s.len() == 0 {
        Seq::empty()
    } else {
        esc_char(s[0]) + escape(s.drop_first())
    }
}

/// The characters that may follow a backslash as a short escape.
pub open spec fn is_short_escape(c: char) -> bool {
    c == '"' || c == '\\' || c == 'b' || c == 't' || c == 'n' || c == 'f' || c == 'r'
}

/// The character a short escape denotes.
pub open spec fn short_escape_char(c: char) -> char {
    if c == 'b' {
        '\u{8}'
    } else if c == 't' {
        '\t'
    } else if c == 'n' {
        '\n'
    } else if c == 'f' {
        '\u{c}'
    } else if c == 'r' {
        '\r'
    } else {
        c
    }
}

pub open spec fn starts_with(s: Seq<char>, p: Seq<char>) -> bool {
    p.len() <= s.len() && s.take(p.len() as int) == p
}

pub open spec fn header_put() -> Seq<char> {
    "{\"op\":\"set\",\"key\":\""@
}

pub open spec fn header_del() -> Seq<char> {
    "{\"op\":\"del\",\"key\":\""@
}

pub open spec fn lit_value() -> Seq<char> {
    ",\"value\":["@
}

pub open spec fn lit_expires() -> Seq<char> {
    ",\"expires_at\":"@
}

/// Consumes the maximal digit run, accumulating its value.
pub open spec fn spec_parse_num_loop(s: Seq<char>, acc: nat) -> (nat, Seq<char>)
    decreases s.len(),
{
    if s.len() > 0 && is_digit(s[0]) {
        spec_parse_num_loop(s.drop_first(), acc * 10 + digit_val(s[0]))
    } else {
        (acc, s)
    }
}

/// A JSON number: a single zero, or a nonzero digit followed by digits.
pub open spec fn spec_parse_num(s: Seq<char>) -> Option<(nat, Seq<char>)> {
    if s.len() > 0 && s[0] == '0' {
        Some((0, s.drop_first()))
    } else if s.len() > 0 && is_digit(s[0]) {
        Some(spec_parse_num_loop(s, 0))
    } else {
        None
    }
}

/// The body of a JSON string after its opening quote, up to and including
/// the closing quote; yields the unescaped key.
pub open spec fn spec_parse_string(s: Seq<char>, acc: Seq<char>) -> Option<(Seq<char>, Seq<char>)>
    decreases s.len(),
{
    if s.len() == 0 {
        None
    } else if s[0] == '"' {
        Some((acc, s.drop_first()))
    } else if s[0] == '\\' {
        if s.len() >= 2 && is_short_escape(s[1]) {
            spec_parse_string(s.skip(2), acc.push(short_escape_char(s[1])))
        } else if s.len() >= 6 && s[1] == 'u' && s[2] == '0' && s[3] == '0' && is_hex_lower(s[4])
            && is_hex_lower(s[5]) {
            spec_parse_string(s.skip(6), acc.push(((hex_val(s[4]) * 16 + hex_val(s[5])) as u32) as char))
        } else {
            None
        }
    } else if is_control(s[0]) {
        None
    } else {
        spec_parse_string(s.drop_first(), acc.push(s[0]))
    }
}

/// After the first element of a byte array: either the closing bracket or a
/// comma and a further byte.
pub open spec fn spec_parse_bytes_rest(s: Seq<char>, acc: Seq<u8>) -> Option<(Seq<u8>, Seq<char>)>
    decreases s.len(),
{
    if s.len() == 0 {
        None
    } else if s[0] == ']' {
        Some((acc, s.drop_first()))
    } else if s[0] == ',' {
        match spec_parse_num(s.drop_first()) {
            Some((n, rest)) => {
                if n <= 255 && rest.len() < s.len() {
                    spec_parse_bytes_rest(rest, acc.push(n as u8))
                } else {
                    None
                }
            },
            None => None,
        }
    } else {
        None
    }
}

/// A byte array after its opening bracket, up to and including the closing
/// bracket.
pub open spec fn spec_parse_bytes(s: Seq<char>) -> Option<(Seq<u8>, Seq<char>)> {
    if s.len() > 0 && s[0] == ']' {
        Some((Seq::empty(), s.drop_first()))
    } else {
        match spec_parse_num(s) {
            Some((n, rest)) => {
                if n <= 255 {
                    spec_parse_bytes_rest(rest, seq![n as u8])
                } else {
                    None
                }
            },
            None => None,
        }
    }
}

/// The meaning of one log line: the record it denotes, or nothing if the
/// line is malformed.
pub open spec fn spec_decode(s: Seq<char>) -> Option<RecordModel> {
    if starts_with(s, header_put()) {
        match spec_parse_string(s.skip(header_put().len() as int), Seq::empty()) {
            Some((key, s2)) => {
                if starts_with(s2, lit_value()) {
                    match spec_parse_bytes(s2.skip(lit_value().len() as int)) {
                        Some((value, s4)) => {
                            if s4 == seq!['}'] {
                                Some(RecordModel::Put { key, value, expires_at: None })
                            } else if starts_with(s4, lit_expires()) {
                                match spec_parse_num(s4.skip(lit_expires().len() as int)) {
                                    Some((t, s6)) => {
                                        if t <= u64::MAX && s6 == seq!['}'] {
                                            Some(RecordModel::Put {
                                                key,
                                                value,
                                                expires_at: Some(t as u64),
                                            })
                                        } else {
                                            None
                                        }
                                    },
                                    None => None,
                                }
                            } else {
                                None
                            }
                        },
                        None => None,
                    }
                } else {
                    None
                }
            },
            None => None,
        }
    } else if starts_with(s, header_del()) {
        match spec_parse_string(s.skip(header_del().len() as int), Seq::empty()) {
            Some((key, s2)) => {
                if s2 == seq!['}'] {
                    Some(RecordModel::Del { key })
                } else {
                    None
                }
            },
            None => None,
        }
    } else {
        None
    }
}

/// The encoding of a byte array's tail: `,N` per byte, then `]`.
pub open spec fn enc_bytes_rest(bs: Seq<u8>) -> Seq<char>
    decreases bs.len(),
{
    if bs.len() == 0 {
        seq![']']
    } else {
        seq![','] + dec_digits(bs[0] as nat) + enc_bytes_rest(bs.drop_first())
    }
}

/// The encoding of a byte array after its opening bracket.
pub open spec fn enc_bytes(bs: Seq<u8>) -> Seq<char> {
    if bs.len() == 0 {
        seq![']']
    } else {
        dec_digits(bs[0] as nat) + enc_bytes_rest(bs.drop_first())
    }
}

/// The one line that encodes a record.
pub open spec fn enc_record(r: RecordModel) -> Seq<char> {
    match r {
        RecordModel::Put { key, value, expires_at } => header_put() + escape(key) + seq!['"']
            + lit_value() + enc_bytes(value) + (match expires_at {
            Some(t) => lit_expires() + dec_digits(t as nat) + seq!['}'],
            None => seq!['}'],
        }),
        RecordModel::Del { key } => header_del() + escape(key) + seq!['"'] + seq!['}'],
    }
}

/// Relies on String::push: appends exactly one character.
#[verifier::external_body]
fn push_char(s: &mut String, c: char)
    ensures
        final(s)@ == old(s)@.push(c),
{
    s.push(c);
}

/// Relies on char::from_u32: yields the character with a given code point
/// whenever that value is a Unicode scalar value, and nothing otherwise.
#[verifier::external_body]
fn char_from_u32(v: u32) -> (c: Option<char>)
    ensures
        (c is Some) == (v < 0xD800 || (0xE000 <= v && v <= 0x10FFFF)),
        c matches Some(ch) ==> ch as u32 == v,
{
    char::from_u32(v)
}

/// Builds the string holding exactly the given characters.
pub fn chars_to_string(v: &Vec<char>) -> (s: String)
    ensures
        s@ == v@,
{
    let mut s = String::new();
    let mut j: usize = 0;
    while j < v.len()
        invariant
            j <= v@.len(),
            s@ == v@.take(j as int),
        decreases v@.len() - j,
    {
        push_char(&mut s, v[j]);
        assert(s@ =~= v@.take(j as int + 1));
        j = j + 1;
    }
    assert(v@.take(v@.len() as int) =~= v@);
    s
}

/// Collects the characters of a string slice.
pub fn str_to_chars(s: &str) -> (v: Vec<char>)
    ensures
        v@ == s@,
{
    let n = s.unicode_len();
    let mut v: Vec<char> = Vec::new();
    let mut j: usize = 0;
    while j < n
        invariant
            j <= n,
            n == s@.len(),
            v@ == s@.take(j as int),
        decreases n - j,
    {
        v.push(s.get_char(j));
        assert(v@ =~= s@.take(j as int + 1));
        j = j + 1;
    }
    assert(s@.take(n as int) =~= s@);
    v
}

/// The lowercase hex digit for a value below sixteen, in executable form.
fn exec_hex_char(n: u8) -> (c: char)
    requires
        n < 16,
    ensures
        c == hex_char(n as nat),
{
    if n < 10 {
        exec_digit_char(n)
    } else if n == 10 {
        'a'
    } else if n == 11 {
        'b'
    } else if n == 12 {
        'c'
    } else if n == 13 {
        'd'
    } else if n == 14 {
        'e'
    } else {
        'f'
    }
}

fn exec_is_hex(c: char) -> (r: bool)
    ensures
        r == is_hex_lower(c),
{
    let v = c as u32;
    (0x30 <= v && v <= 0x39) || (0x61 <= v && v <= 0x66)
}

fn exec_hex_val(c: char) -> (n: u8)
    requires
        is_hex_lower(c),
    ensures
        n as nat == hex_val(c),
        n < 16,
{
    let v = c as u32;
    if 0x30 <= v && v <= 0x39 {
        exec_digit_val(c)
    } else {
        (v - 0x61 + 10) as u8
    }
}

/// Writes the characters of a literal onto `out`.
pub fn push_lit(out: &mut Vec<char>, lit: &str)
    ensures
        final(out)@ == old(out)@ + lit@,
{
    let n = lit.unicode_len();
    let mut j: usize = 0;
    while j < n
        invariant
            j <= n,
            n == lit@.len(),
            out@ == old(out)@ + lit@.take(j as int),
        decreases n - j,
    {
        out.push(lit.get_char(j));
        assert(out@ =~= old(out)@ + lit@.take(j as int + 1));
        j = j + 1;
    }
    assert(lit@.take(n as int) =~= lit@);
}

/// Writes the escaped form of a key onto `out`.
pub fn push_escaped(out: &mut Vec<char>, key: &str)
    ensures
        final(out)@ == old(out)@ + escape(key@),
{
    let n = key.unicode_len();
    let mut j: usize = 0;
    while j < n
        invariant
            j <= n,
            n == key@.len(),
            out@ == old(out)@ + escape(key@.take(j as int)),
        decreases n - j,
    {
        let c = key.get_char(j);
        proof {
            lemma_escape_concat(key@.take(j as int), seq![c]);
            assert(key@.take(j as int) + seq![c] =~= key@.take(j as int + 1));
            assert(seq![c].drop_first() =~= Seq::<char>::empty());
            assert(esc_char(c) + escape(Seq::<char>::empty()) =~= esc_char(c));
            assert(escape(seq![c]) == esc_char(c));
        }
        if c == '"' {
            out.push('\\');
            out.push('"');
        } else if c == '\\' {
            out.push('\\');
            out.push('\\');
        } else if (c as u32) < 0x20 {
            out.push('\\');
            out.push('u');
            out.push('0');
            out.push('0');
            let cc = c as u32;
            out.push(exec_hex_char((cc / 16) as u8));
            out.push(exec_hex_char((cc % 16) as u8));
        } else {
            out.push(c);
        }
        assert(out@ =~= old(out)@ + escape(key@.take(j as int + 1)));
        j = j + 1;
    }
    assert(key@.take(n as int) =~= key@);
}

/// Writes the encoding of a byte array (after its opening bracket) onto
/// `out`.
pub fn push_bytes(out: &mut Vec<char>, bs: &Vec<u8>)
    ensures
        final(out)@ == old(out)@ + enc_bytes(bs@),
{
    if bs.len() == 0 {
        out.push(']');
        assert(out@ =~= old(out)@ + enc_bytes(bs@));
        return ;
    }
    push_dec_digits(out, bs[0] as u64);
    let mut j: usize = 1;
    proof {
        assert(bs@.skip(1) =~= bs@.drop_first());
        assert(out@ + enc_bytes_rest(bs@.skip(j as int)) =~= old(out)@ + enc_bytes(bs@));
    }
    while j < bs.len()
        invariant
            1 <= j <= bs@.len(),
            out@ + enc_bytes_rest(bs@.skip(j as int)) == old(out)@ + enc_bytes(bs@),
        decreases bs@.len() - j,
    {
        let ghost pre = out@;
        out.push(',');
        push_dec_digits(out, bs[j] as u64);
        proof {
            assert(bs@.skip(j as int)[0] == bs@[j as int]);
            assert(bs@.skip(j as int).drop_first() =~= bs@.skip(j as int + 1));
            assert(enc_bytes_rest(bs@.skip(j as int)) == seq![','] + dec_digits(bs@[j as int] as nat)
                + enc_bytes_rest(bs@.skip(j as int + 1)));
            assert(out@ + enc_bytes_rest(bs@.skip(j as int + 1)) =~= pre + enc_bytes_rest(
                bs@.skip(j as int),
            ));
        }
        j = j + 1;
    }
    proof {
        assert(bs@.skip(bs@.len() as int) =~= Seq::<u8>::empty());
        assert(enc_bytes_rest(Seq::<u8>::empty()) == seq![']']);
    }
    out.push(']');
    assert(out@ =~= old(out)@ + enc_bytes(bs@));
}

/// Checks that the characters at `i` start with the literal; on success the
/// position just past it is returned.
pub fn expect_lit(v: &Vec<char>, i: usize, lit: &str) -> (r: Option<usize>)
    requires
        i <= v@.len(),
    ensures
        match r {
            Some(j) => starts_with(v@.skip(i as int), lit@) && j == i + lit@.len() && i <= j
                <= v@.len(),
            None => !starts_with(v@.skip(i as int), lit@),
        },
{
    let n = lit.unicode_len();
    if v.len() - i < n {
        return None;
    }
    let mut j: usize = 0;
    while j < n
        invariant
            j <= n,
            n == lit@.len(),
            i + n <= v@.len(),
            v@.len() <= usize::MAX,
            forall|q: int| 0 <= q < j ==> v@[i + q] == lit@[q],
        decreases n - j,
    {
        if v[i + j] != lit.get_char(j) {
            proof {
                if starts_with(v@.skip(i as int), lit@) {
                    assert(v@.skip(i as int).take(lit@.len() as int)[j as int] == lit@[j as int]);
                    assert(v@.skip(i as int)[j as int] == v@[i + j]);
                    assert(false);
                }
            }
            return None;
        }
        j = j + 1;
    }
    proof {
        assert(v@.skip(i as int).take(lit@.len() as int) =~= lit@);
    }
    Some(i + n)
}

proof fn lemma_parse_loop_ge(s: Seq<char>, acc: nat)
    ensures
        spec_parse_num_loop(s, acc).0 >= acc,
    decreases s.len(),
{
    if s.len() > 0 && is_digit(s[0]) {
        lemma_parse_loop_ge(s.drop_first(), acc * 10 + digit_val(s[0]));
    }
}

/// Parses a JSON number at `i`; `None` when there is none, or when its value
/// does not fit in 64 bits.
pub fn parse_num(v: &Vec<char>, i: usize) -> (r: Option<(u64, usize)>)
    requires
        i <= v@.len(),
    ensures
        match r {
            Some(p) => spec_parse_num(v@.skip(i as int)) == Some((p.0 as nat, v@.skip(p.1 as int)))
                && i < p.1 <= v@.len(),
            None => match spec_parse_num(v@.skip(i as int)) {
                Some(p) => p.0 > u64::MAX,
                None => true,
            },
        },
{
    if i == v.len() {
        return None;
    }
    let c = v[i];
    proof {
        assert(v@.skip(i as int)[0] == v@[i as int]);
    }
    if !crate::digits::exec_is_digit(c) {
        return None;
    }
    if c == '0' {
        proof {
            assert(v@.skip(i as int).drop_first() =~= v@.skip(i as int + 1));
        }
        return Some((0, i + 1));
    }
    let mut j = i;
    let mut acc: u128 = 0;
    loop
        invariant
            i <= j <= v@.len(),
            i < v@.len(),
            acc <= u64::MAX as u128,
            v@[i as int] == c,
            is_digit(c),
            c != '0',
            spec_parse_num_loop(v@.skip(i as int), 0) == spec_parse_num_loop(
                v@.skip(j as int),
                acc as nat,
            ),
        ensures
            i < j <= v@.len(),
            acc <= u64::MAX as u128,
            spec_parse_num_loop(v@.skip(i as int), 0) == spec_parse_num_loop(
                v@.skip(j as int),
                acc as nat,
            ),
            j == v@.len() || !is_digit(v@[j as int]),
        decreases v@.len() - j,
    {
        if j == v.len() {
            break ;
        }
        if !crate::digits::exec_is_digit(v[j]) {
            break ;
        }
        let d = exec_digit_val(v[j]);
        proof {
            assert(v@.skip(j as int)[0] == v@[j as int]);
            assert(v@.skip(j as int).drop_first() =~= v@.skip(j as int + 1));
        }
        acc = acc * 10 + d as u128;
        j = j + 1;
        if acc > u64::MAX as u128 {
            proof {
                lemma_parse_loop_ge(v@.skip(j as int), acc as nat);
            }
            return None;
        }
    }
    proof {
        if j < v@.len() {
            assert(v@.skip(j as int)[0] == v@[j as int]);
        }
        assert(spec_parse_num_loop(v@.skip(j as int), acc as nat) == (acc as nat, v@.skip(
            j as int,
        )));
    }
    Some((acc as u64, j))
}

fn exec_is_short_escape(c: char) -> (r: bool)
    ensures
        r == is_short_escape(c),
{
    c == '"' || c == '\\' || c == 'b' || c == 't' || c == 'n' || c == 'f' || c == 'r'
}

fn exec_short_escape_char(c: char) -> (r: char)
    ensures
        r == short_escape_char(c),
{
    if c == 'b' {
        '\u{8}'
    } else if c == 't' {
        '\t'
    } else if c == 'n' {
        '\n'
    } else if c == 'f' {
        '\u{c}'
    } else if c == 'r' {
        '\r'
    } else {
        c
    }
}

/// Parses a JSON string body at `i` (just past the opening quote), yielding
/// the unescaped key and the position just past the closing quote.
pub fn parse_string(v: &Vec<char>, i: usize) -> (r: Option<(Vec<char>, usize)>)
    requires
        i <= v@.len(),
    ensures
        match r {
            Some(p) => spec_parse_string(v@.skip(i as int), Seq::empty()) == Some((p.0@, v@.skip(
                p.1 as int,
            ))) && i <= p.1 <= v@.len(),
            None => spec_parse_string(v@.skip(i as int), Seq::empty()) is None,
        },
{
    let mut j = i;
    let mut acc: Vec<char> = Vec::new();
    loop
        invariant
            i <= j <= v@.len(),
            spec_parse_string(v@.skip(i as int), Seq::empty()) == spec_parse_string(
                v@.skip(j as int),
                acc@,
            ),
        decreases v@.len() - j,
    {
        if j == v.len() {
            return None;
        }
        let c = v[j];
        proof {
            assert(v@.skip(j as int)[0] == v@[j as int]);
            assert(v@.skip(j as int).drop_first() =~= v@.skip(j as int + 1));
        }
        if c == '"' {
            return Some((acc, j + 1));
        }
        if c == '\\' {
            if v.len() - j >= 2 && exec_is_short_escape(v[j + 1]) {
                proof {
                    assert(v@.skip(j as int)[1] == v@[j as int + 1]);
                    assert(v@.skip(j as int).skip(2) =~= v@.skip(j as int + 2));
                }
                acc.push(exec_short_escape_char(v[j + 1]));
                j = j + 2;
            } else if v.len() - j >= 6 && v[j + 1] == 'u' && v[j + 2] == '0' && v[j + 3] == '0'
                && exec_is_hex(v[j + 4]) && exec_is_hex(v[j + 5]) {
                proof {
                    assert(v@.skip(j as int)[1] == v@[j as int + 1]);
                    assert(v@.skip(j as int)[2] == v@[j as int + 2]);
                    assert(v@.skip(j as int)[3] == v@[j as int + 3]);
                    assert(v@.skip(j as int)[4] == v@[j as int + 4]);
                    assert(v@.skip(j as int)[5] == v@[j as int + 5]);
                    assert(v@.skip(j as int).skip(6) =~= v@.skip(j as int + 6));
                }
                let hi = exec_hex_val(v[j + 4]);
                let lo = exec_hex_val(v[j + 5]);
                let code: u32 = (hi as u32) * 16 + (lo as u32);
                match char_from_u32(code) {
                    Some(ch) => {
                        proof {
                            vstd::utf8::char_u32_cast(ch, code);
                        }
                        acc.push(ch);
                        j = j + 6;
                    },
                    None => {
                        assert(false);
                        return None;
                    },
                }
            } else {
                proof {
                    if j + 1 < v@.len() {
                        assert(v@.skip(j as int)[1] == v@[j as int + 1]);
                    }
                    if j + 5 < v@.len() {
                        assert(v@.skip(j as int)[2] == v@[j as int + 2]);
                        assert(v@.skip(j as int)[3] == v@[j as int + 3]);
                        assert(v@.skip(j as int)[4] == v@[j as int + 4]);
                        assert(v@.skip(j as int)[5] == v@[j as int + 5]);
                    }
                }
                return None;
            }
        } else if (c as u32) < 0x20 {
            return None;
        } else {
            acc.push(c);
            j = j + 1;
        }
    }
}

/// Parses a byte array at `i` (just past the opening bracket), yielding the
/// bytes and the position just past the closing bracket.
pub fn parse_bytes(v: &Vec<char>, i: usize) -> (r: Option<(Vec<u8>, usize)>)
    requires
        i <= v@.len(),
    ensures
        match r {
            Some(p) => spec_parse_bytes(v@.skip(i as int)) == Some((p.0@, v@.skip(p.1 as int)))
                && i <= p.1 <= v@.len(),
            None => spec_parse_bytes(v@.skip(i as int)) is None,
        },
{
    proof {
        if i < v@.len() {
            assert(v@.skip(i as int)[0] == v@[i as int]);
        }
    }
    if i < v.len() && v[i] == ']' {
        proof {
            assert(v@.skip(i as int).drop_first() =~= v@.skip(i as int + 1));
        }
        let out: Vec<u8> = Vec::new();
        return Some((out, i + 1));
    }
    match parse_num(v, i) {
        None => None,
        Some((n, j0)) => {
            if n > 255 {
                return None;
            }
            let mut out: Vec<u8> = Vec::new();
            out.push(n as u8);
            let mut j = j0;
            assert(out@ =~= seq![n as u8]);
            loop
                invariant
                    i < j <= v@.len(),
                    spec_parse_bytes(v@.skip(i as int)) == spec_parse_bytes_rest(
                        v@.skip(j as int),
                        out@,
                    ),
                decreases v@.len() - j,
            {
                if j == v.len() {
                    return None;
                }
                proof {
                    assert(v@.skip(j as int)[0] == v@[j as int]);
                    assert(v@.skip(j as int).drop_first() =~= v@.skip(j as int + 1));
                }
                if v[j] == ']' {
                    return Some((out, j + 1));
                }
                if v[j] != ',' {
                    return None;
                }
                match parse_num(v, j + 1) {
                    None => {
                        return None;
                    },
                    Some((n2, j2)) => {
                        if n2 > 255 {
                            return None;
                        }
                        out.push(n2 as u8);
                        j = j2;
                    },
                }
            }
        },
    }
}

proof fn lemma_starts_with_concat(p: Seq<char>, t: Seq<char>)
    ensures
        starts_with(p + t, p),
        (p + t).skip(p.len() as int) == t,
{
    assert((p + t).take(p.len() as int) =~= p);
    assert((p + t).skip(p.len() as int) =~= t);
}

proof fn lemma_escape_concat(a: Seq<char>, b: Seq<char>)
    ensures
        escape(a + b) == escape(a) + escape(b),
    decreases a.len(),
{
    if a.len() == 0 {
        assert(a + b =~= b);
        assert(escape(a) + escape(b) =~= escape(b));
    } else {
        assert((a + b)[0] == a[0]);
        assert((a + b).drop_first() =~= a.drop_first() + b);
        lemma_escape_concat(a.drop_first(), b);
        assert(esc_char(a[0]) + (escape(a.drop_first()) + escape(b)) =~= (esc_char(a[0]) + escape(
            a.drop_first(),
        )) + escape(b));
    }
}

proof fn lemma_hex_val_char(x: nat)
    requires
        x < 16,
    ensures
        is_hex_lower(hex_char(x)),
        hex_val(hex_char(x)) == x,
{
}

proof fn lemma_parse_loop_digits(d: Seq<char>, rest: Seq<char>, acc: nat)
    requires
        all_digits(d),
    ensures
        spec_parse_num_loop(d + rest, acc) == spec_parse_num_loop(
            rest,
            acc * pow10(d.len()) + digits_val(d),
        ),
    decreases d.len(),
{
    if d.len() == 0 {
        assert(d + rest =~= rest);
        assert(pow10(0) == 1);
        assert(digits_val(d) == 0);
    } else {
        let d2 = d.drop_first();
        assert(is_digit(d[0]));
        assert((d + rest)[0] == d[0]);
        assert((d + rest).drop_first() =~= d2 + rest);
        assert(all_digits(d2)) by {
            assert(forall|q: int| 0 <= q < d2.len() ==> #[trigger] d2[q] == d[q + 1]);
        }
        assert(spec_parse_num_loop(d + rest, acc) == spec_parse_num_loop(
            d2 + rest,
            acc * 10 + digit_val(d[0]),
        ));
        lemma_parse_loop_digits(d2, rest, acc * 10 + digit_val(d[0]));
        lemma_digits_val_cons(d[0], d2);
        assert(seq![d[0]] + d2 =~= d);
        let k = d2.len();
        assert(pow10(d.len()) == 10 * pow10(k));
        assert((acc * 10 + digit_val(d[0])) * pow10(k) == acc * (10 * pow10(k)) + digit_val(d[0])
            * pow10(k)) by (nonlinear_arith);
        assert((acc * 10 + digit_val(d[0])) * pow10(k) + digits_val(d2) == acc * pow10(d.len())
            + digits_val(d));
    }
}

proof fn lemma_parse_num_dec_digits(n: nat, rest: Seq<char>)
    requires
        rest.len() == 0 || !is_digit(rest[0]),
    ensures
        spec_parse_num(dec_digits(n) + rest) == Some((n, rest)),
{
    lemma_dec_digits(n);
    let d = dec_digits(n);
    let s = d + rest;
    assert(s[0] == d[0]);
    if n == 0 {
        assert(d =~= seq!['0']);
        assert(s.drop_first() =~= rest);
    } else {
        assert(d[0] != '0');
        lemma_parse_loop_digits(d, rest, 0);
        assert(spec_parse_num_loop(rest, n) == (n, rest));
    }
}

proof fn lemma_parse_string_escape(k: Seq<char>, rest: Seq<char>, acc: Seq<char>)
    ensures
        spec_parse_string(escape(k) + (seq!['"'] + rest), acc) == Some((acc + k, rest)),
    decreases k.len(),
{
    if k.len() == 0 {
        let s = escape(k) + (seq!['"'] + rest);
        assert(s =~= seq!['"'] + rest);
        assert(s[0] == '"');
        assert(s.drop_first() =~= rest);
        assert(acc + k =~= acc);
    } else {
        let c = k[0];
        let k2 = k.drop_first();
        let q = seq!['"'] + rest;
        let s = escape(k) + q;
        assert(escape(k) == esc_char(c) + escape(k2));
        assert(s =~= esc_char(c) + (escape(k2) + q));
        let s2 = escape(k2) + q;
        lemma_parse_string_escape(k2, rest, acc.push(c));
        assert(acc.push(c) + k2 =~= acc + k);
        if c == '"' {
            assert(s[0] == '\\');
            assert(s[1] == '"');
            assert(short_escape_char('"') == '"');
            assert(s.skip(2) =~= s2);
        } else if c == '\\' {
            assert(s[0] == '\\');
            assert(s[1] == '\\');
            assert(short_escape_char('\\') == '\\');
            assert(s.skip(2) =~= s2);
        } else if is_control(c) {
            let v = c as u32;
            lemma_hex_val_char((v / 16) as nat);
            lemma_hex_val_char((v % 16) as nat);
            assert(s[0] == '\\');
            assert(s[1] == 'u');
            assert(!is_short_escape('u'));
            assert(s[2] == '0');
            assert(s[3] == '0');
            assert(s[4] == hex_char((v / 16) as nat));
            assert(s[5] == hex_char((v % 16) as nat));
            assert(s.skip(6) =~= s2);
            assert(v / 16 * 16 + v % 16 == v);
            assert(hex_val(s[4]) * 16 + hex_val(s[5]) == v);
            vstd::utf8::char_u32_cast(c, v);
            assert(((hex_val(s[4]) * 16 + hex_val(s[5])) as u32) as char == c);
        } else {
            assert(s[0] == c);
            assert(s.drop_first() =~= s2);
        }
    }
}

proof fn lemma_enc_bytes_rest_head(bs: Seq<u8>)
    ensures
        enc_bytes_rest(bs).len() >= 1,
        enc_bytes_rest(bs)[0] == ']' || enc_bytes_rest(bs)[0] == ',',
        !is_digit(enc_bytes_rest(bs)[0]),
{
    if bs.len() > 0 {
        assert(enc_bytes_rest(bs)[0] == ',');
    }
}

proof fn lemma_parse_bytes_rest_enc(bs: Seq<u8>, rest: Seq<char>, acc: Seq<u8>)
    ensures
        spec_parse_bytes_rest(enc_bytes_rest(bs) + rest, acc) == Some((acc + bs, rest)),
    decreases bs.len(),
{
    if bs.len() == 0 {
        let s = enc_bytes_rest(bs) + rest;
        assert(s =~= seq![']'] + rest);
        assert(s[0] == ']');
        assert(s.drop_first() =~= rest);
        assert(acc + bs =~= acc);
    } else {
        let b0 = bs[0];
        let bs2 = bs.drop_first();
        let r2 = enc_bytes_rest(bs2);
        let s = enc_bytes_rest(bs) + rest;
        assert(enc_bytes_rest(bs) == seq![','] + dec_digits(b0 as nat) + r2);
        assert(s =~= seq![','] + (dec_digits(b0 as nat) + (r2 + rest)));
        assert(s[0] == ',');
        assert(s.drop_first() =~= dec_digits(b0 as nat) + (r2 + rest));
        lemma_enc_bytes_rest_head(bs2);
        assert((r2 + rest)[0] == r2[0]);
        lemma_parse_num_dec_digits(b0 as nat, r2 + rest);
        lemma_dec_digits(b0 as nat);
        assert((r2 + rest).len() < s.len());
        lemma_parse_bytes_rest_enc(bs2, rest, acc.push(b0));
        assert(acc.push(b0) + bs2 =~= acc + bs);
    }
}

proof fn lemma_parse_bytes_enc(bs: Seq<u8>, rest: Seq<char>)
    ensures
        spec_parse_bytes(enc_bytes(bs) + rest) == Some((bs, rest)),
{
    if bs.len() == 0 {
        let s = enc_bytes(bs) + rest;
        assert(s =~= seq![']'] + rest);
        assert(s[0] == ']');
        assert(s.drop_first() =~= rest);
        assert(Seq::<u8>::empty() =~= bs);
    } else {
        let b0 = bs[0];
        let bs2 = bs.drop_first();
        let r2 = enc_bytes_rest(bs2);
        let s = enc_bytes(bs) + rest;
        assert(enc_bytes(bs) == dec_digits(b0 as nat) + r2);
        assert(s =~= dec_digits(b0 as nat) + (r2 + rest));
        lemma_dec_digits(b0 as nat);
        lemma_enc_bytes_rest_head(bs2);
        assert((r2 + rest)[0] == r2[0]);
        lemma_parse_num_dec_digits(b0 as nat, r2 + rest);
        assert(s[0] == dec_digits(b0 as nat)[0]);
        assert(is_digit(s[0]));
        assert(s[0] != ']');
        lemma_parse_bytes_rest_enc(bs2, rest, seq![b0]);
        assert(seq![b0] + bs2 =~= bs);
    }
}

/// No newline anywhere: what keeps one record to one log line.
pub open spec fn no_newline(s: Seq<char>) -> bool {
    forall|i: int| 0 <= i < s.len() ==> (#[trigger] s[i]) != '\n'
}

proof fn lemma_no_newline_concat(a: Seq<char>, b: Seq<char>)
    requires
        no_newline(a),
        no_newline(b),
    ensures
        no_newline(a + b),
{
    assert forall|i: int| 0 <= i < (a + b).len() implies (#[trigger] (a + b)[i]) != '\n' by {
        if i < a.len() {
            assert((a + b)[i] == a[i]);
        } else {
            assert((a + b)[i] == b[i - a.len()]);
        }
    }
}

proof fn lemma_escape_no_newline(k: Seq<char>)
    ensures
        no_newline(escape(k)),
    decreases k.len(),
{
    if k.len() == 0 {
    } else {
        lemma_escape_no_newline(k.drop_first());
        let c = k[0];
        assert(no_newline(esc_char(c))) by {
            if c == '"' || c == '\\' {
            } else if is_control(c) {
                assert(hex_char(((c as u32) / 16) as nat) != '\n');
                assert(hex_char(((c as u32) % 16) as nat) != '\n');
            } else {
                assert(c != '\n');
            }
        }
        lemma_no_newline_concat(esc_char(c), escape(k.drop_first()));
    }
}

proof fn lemma_digits_no_newline(s: Seq<char>)
    requires
        all_digits(s),
    ensures
        no_newline(s),
{
    assert forall|i: int| 0 <= i < s.len() implies (#[trigger] s[i]) != '\n' by {
        assert(is_digit(s[i]));
    }
}

proof fn lemma_enc_bytes_rest_no_newline(bs: Seq<u8>)
    ensures
        no_newline(enc_bytes_rest(bs)),
    decreases bs.len(),
{
    if bs.len() == 0 {
        assert(no_newline(seq![']']));
    } else {
        lemma_enc_bytes_rest_no_newline(bs.drop_first());
        lemma_dec_digits(bs[0] as nat);
        lemma_digits_no_newline(dec_digits(bs[0] as nat));
        assert(no_newline(seq![',']));
        lemma_no_newline_concat(seq![','], dec_digits(bs[0] as nat));
        lemma_no_newline_concat(seq![','] + dec_digits(bs[0] as nat), enc_bytes_rest(bs.drop_first()));
    }
}

proof fn lemma_enc_bytes_no_newline(bs: Seq<u8>)
    ensures
        no_newline(enc_bytes(bs)),
{
    lemma_enc_bytes_rest_no_newline(bs);
    if bs.len() == 0 {
        assert(no_newline(seq![']']));
    } else {
        lemma_dec_digits(bs[0] as nat);
        lemma_digits_no_newline(dec_digits(bs[0] as nat));
        lemma_enc_bytes_rest_no_newline(bs.drop_first());
        lemma_no_newline_concat(dec_digits(bs[0] as nat), enc_bytes_rest(bs.drop_first()));
    }
}

/// An encoded record holds no newline, so one record stays one line of the
/// log.
pub proof fn lemma_enc_record_no_newline(r: RecordModel)
    ensures
        no_newline(enc_record(r)),
{
    reveal_strlit("{\"op\":\"set\",\"key\":\"");
    reveal_strlit("{\"op\":\"del\",\"key\":\"");
    reveal_strlit(",\"value\":[");
    reveal_strlit(",\"expires_at\":");
    assert(no_newline(header_put()));
    assert(no_newline(header_del()));
    assert(no_newline(lit_value()));
    assert(no_newline(lit_expires()));
    assert(no_newline(seq!['"']));
    assert(no_newline(seq!['}']));
    match r {
        RecordModel::Put { key, value, expires_at } => {
            lemma_escape_no_newline(key);
            lemma_enc_bytes_no_newline(value);
            let end_part: Seq<char> = match expires_at {
                Some(t) => lit_expires() + dec_digits(t as nat) + seq!['}'],
                None => seq!['}'],
            };
            assert(no_newline(end_part)) by {
                match expires_at {
                    Some(t) => {
                        lemma_dec_digits(t as nat);
                        lemma_digits_no_newline(dec_digits(t as nat));
                        lemma_no_newline_concat(lit_expires(), dec_digits(t as nat));
                        lemma_no_newline_concat(lit_expires() + dec_digits(t as nat), seq!['}']);
                    },
                    None => {},
                }
            }
            lemma_no_newline_concat(header_put(), escape(key));
            lemma_no_newline_concat(header_put() + escape(key), seq!['"']);
            lemma_no_newline_concat(header_put() + escape(key) + seq!['"'], lit_value());
            lemma_no_newline_concat(
                header_put() + escape(key) + seq!['"'] + lit_value(),
                enc_bytes(value),
            );
            lemma_no_newline_concat(
                header_put() + escape(key) + seq!['"'] + lit_value() + enc_bytes(value),
                end_part,
            );
        },
        RecordModel::Del { key } => {
            lemma_escape_no_newline(key);
            lemma_no_newline_concat(header_del(), escape(key));
            lemma_no_newline_concat(header_del() + escape(key), seq!['"']);
            lemma_no_newline_concat(header_del() + escape(key) + seq!['"'], seq!['}']);
        },
    }
}

/// A rest of the input equals the single closing brace exactly when one
/// character is left and it is that brace.
pub proof fn lemma_end_brace(s: Seq<char>, i: int)
    requires
        0 <= i <= s.len(),
    ensures
        (s.skip(i) == seq!['}']) == (s.len() - i == 1 && s[i] == '}'),
{
    if s.len() - i == 1 {
        assert(s.skip(i) =~= seq![s[i]]);
        if s[i] == '}' {
            assert(s.skip(i) =~= seq!['}']);
        } else {
            if s.skip(i) == seq!['}'] {
                assert(s.skip(i)[0] == '}');
                assert(false);
            }
        }
    } else {
        if s.skip(i) == seq!['}'] {
            assert(s.skip(i).len() == 1);
            assert(false);
        }
    }
}

/// The encoding of a record always parses back to exactly that record.
pub proof fn lemma_decode_enc_record(r: RecordModel)
    ensures
        spec_decode(enc_record(r)) == Some(r),
{
    reveal_strlit("{\"op\":\"set\",\"key\":\"");
    reveal_strlit("{\"op\":\"del\",\"key\":\"");
    reveal_strlit(",\"value\":[");
    reveal_strlit(",\"expires_at\":");
    match r {
        RecordModel::Put { key, value, expires_at } => {
            let end_part: Seq<char> = match expires_at {
                Some(t) => lit_expires() + dec_digits(t as nat) + seq!['}'],
                None => seq!['}'],
            };
            let s = enc_record(r);
            let rest3 = enc_bytes(value) + end_part;
            let rest2 = lit_value() + rest3;
            let tail1 = escape(key) + (seq!['"'] + rest2);
            assert(s =~= header_put() + tail1);
            lemma_starts_with_concat(header_put(), tail1);
            assert(starts_with(s, header_put()));
            assert(s.skip(header_put().len() as int) == tail1);
            lemma_parse_string_escape(key, rest2, Seq::empty());
            assert(Seq::<char>::empty() + key =~= key);
            assert(spec_parse_string(tail1, Seq::empty()) == Some((key, rest2)));
            lemma_starts_with_concat(lit_value(), rest3);
            assert(rest2 =~= lit_value() + rest3);
            lemma_parse_bytes_enc(value, end_part);
            assert(rest3 =~= enc_bytes(value) + end_part);
            match expires_at {
                None => {
                    assert(end_part == seq!['}']);
                },
                Some(t) => {
                    assert(end_part.len() == lit_expires().len() + dec_digits(t as nat).len() + 1)
                        by {
                        lemma_dec_digits(t as nat);
                    }
                    assert(end_part != seq!['}']);
                    let rest5 = dec_digits(t as nat) + seq!['}'];
                    assert(end_part =~= lit_expires() + rest5);
                    lemma_starts_with_concat(lit_expires(), rest5);
                    assert(!is_digit('}'));
                    lemma_parse_num_dec_digits(t as nat, seq!['}']);
                    assert(t as nat <= u64::MAX);
                },
            }
        },
        RecordModel::Del { key } => {
            let s = enc_record(r);
            let tail1 = escape(key) + (seq!['"'] + seq!['}']);
            assert(s =~= header_del() + tail1);
            if starts_with(s, header_put()) {
                assert(s.take(header_put().len() as int)[7] == s[7]);
                assert(s[7] == header_del()[7]);
                assert(false);
            }
            lemma_starts_with_concat(header_del(), tail1);
            lemma_parse_string_escape(key, seq!['}'], Seq::empty());
            assert(Seq::<char>::empty() + key =~= key);
        },
    }
}

} // verus!
