//! A small JSON writer for `--json` output. fux never reads JSON; the
//! reader stated here says how any JSON reader reads what is written.
use vstd::prelude::*;
use crate::text::{digits, push_char, push_decimal, push_str};

verus! {

broadcast use vstd::string::group_string_axioms;

pub enum Json {
    Null,
    Bool(bool),
    Number(i64),
    String(String),
    Array(Vec<Json>),
    Object(Vec<(&'static str, Json)>),
}

/// A lowercase hexadecimal digit.
pub open spec fn hex_char(d: u32) -> char {
    if d < 10 {
        ((d + 48) as u8) as char
    } else {
        ((d + 87) as u8) as char
    }
}

/// `\u` and the four lowercase hexadecimal digits of `c`.
pub open spec fn unicode_escape(c: char) -> Seq<char> {
    let n = c as u32;
    seq![
        '\\',
        'u',
        hex_char((n >> 12u32) & 15u32),
        hex_char((n >> 8u32) & 15u32),
        hex_char((n >> 4u32) & 15u32),
        hex_char(n & 15u32),
    ]
}

/// How a character stands inside a JSON string.
pub open spec fn escaped(c: char) -> Seq<char> {
    if c == '"' {
        seq!['\\', '"']
    } else if c == '\\' {
        seq!['\\', '\\']
    } else if c == '\n' {
        seq!['\\', 'n']
    } else if c == '\r' {
        seq!['\\', 'r']
    } else if c == '\t' {
        seq!['\\', 't']
    } else if (c as u32) < 0x20 || c == '\u{7f}' || c == '\u{2028}' || c == '\u{2029}' {
        unicode_escape(c)
    } else {
        seq![c]
    }
}

/// The characters of `s`, each as it stands inside a JSON string.
pub open spec fn escaped_all(s: Seq<char>) -> Seq<char>
    decreases s.len(),
{
    if s.len() == 0 {
        Seq::empty()
    } else {
        escaped_all(s.drop_last()) + escaped(s.last())
    }
}

/// A JSON string.
pub open spec fn quoted(s: Seq<char>) -> Seq<char> {
    seq!['"'] + escaped_all(s) + seq!['"']
}

/// A number in decimal, with `-` if negative.
pub open spec fn number_text(n: i64) -> Seq<char> {
    if n < 0 {
        seq!['-'] + digits((-n) as nat)
    } else {
        digits(n as nat)
    }
}

/// A value as JSON text.
pub open spec fn rendered(j: Json) -> Seq<char>
    decreases j, 0int,
{
    match j {
        Json::Null => "null"@,
        Json::Bool(b) => if b {
            "true"@
        } else {
            "false"@
        },
        Json::Number(n) => number_text(n),
        Json::String(s) => quoted(s@),
        Json::Array(items) => {
            proof {
                assert(decreases_to!(j => items@));
            }
            seq!['['] + items_text(items@) + seq![']']
        },
        Json::Object(fields) => {
            proof {
                assert(decreases_to!(j => fields@));
            }
            seq!['{'] + fields_text(fields@) + seq!['}']
        },
    }
}

/// Values, as JSON, separated by commas.
pub open spec fn items_text(items: Seq<Json>) -> Seq<char>
    decreases items, 1int,
{
    if items.len() == 0 {
        Seq::empty()
    } else {
        proof {
            assert(decreases_to!(items => items.drop_last()));
        }
        items_text(items.drop_last()) + (if items.len() > 1 {
            seq![',']
        } else {
            Seq::empty()
        }) + rendered(items.last())
    }
}

/// Fields, as JSON `"key":value`, separated by commas.
pub open spec fn fields_text(fields: Seq<(&'static str, Json)>) -> Seq<char>
    decreases fields, 1int,
{
    if fields.len() == 0 {
        Seq::empty()
    } else {
        proof {
            assert(decreases_to!(fields => fields.drop_last()));
            assert(decreases_to!(fields => fields.last()));
        }
        fields_text(fields.drop_last()) + (if fields.len() > 1 {
            seq![',']
        } else {
            Seq::empty()
        }) + quoted(fields.last().0@) + seq![':'] + rendered(fields.last().1)
    }
}

fn hex_digit(d: u32) -> (c: char)
    requires
        d < 16,
    ensures
        c == hex_char(d),
{
    if d < 10 {
        ((d + 48) as u8) as char
    } else {
        ((d + 87) as u8) as char
    }
}

/// Appends a character as it stands inside a JSON string.
fn push_escaped(out: &mut String, c: char)
    ensures
        final(out)@ == old(out)@ + escaped(c),
{
    if c == '"' {
        push_str(out, "\\\"");
        proof {
            reveal_strlit("\\\"");
        }
    } else if c == '\\' {
        push_str(out, "\\\\");
        proof {
            reveal_strlit("\\\\");
        }
    } else if c == '\n' {
        push_str(out, "\\n");
        proof {
            reveal_strlit("\\n");
        }
    } else if c == '\r' {
        push_str(out, "\\r");
        proof {
            reveal_strlit("\\r");
        }
    } else if c == '\t' {
        push_str(out, "\\t");
        proof {
            reveal_strlit("\\t");
        }
    } else if (c as u32) < 0x20 || c == '\u{7f}' || c == '\u{2028}' || c == '\u{2029}' {
        let n = c as u32;
        assert((n >> 12u32) & 15u32 < 16) by (bit_vector);
        assert((n >> 8u32) & 15u32 < 16) by (bit_vector);
        assert((n >> 4u32) & 15u32 < 16) by (bit_vector);
        assert(n & 15u32 < 16) by (bit_vector);
        push_char(out, '\\');
        push_char(out, 'u');
        push_char(out, hex_digit((n >> 12u32) & 15u32));
        push_char(out, hex_digit((n >> 8u32) & 15u32));
        push_char(out, hex_digit((n >> 4u32) & 15u32));
        push_char(out, hex_digit(n & 15u32));
    } else {
        push_char(out, c);
    }
    assert(final(out)@ =~= old(out)@ + escaped(c));
}

/// Appends `s` as a JSON string.
fn push_quoted(out: &mut String, s: &str)
    ensures
        final(out)@ == old(out)@ + quoted(s@),
{
    let cs = crate::text::chars_of(s);
    push_char(out, '"');
    let ghost start = out@;
    let mut i: usize = 0;
    assert(cs@.take(0) =~= Seq::<char>::empty());
    while i < cs.len()
        invariant
            i <= cs@.len(),
            cs@ == s@,
            out@ == start + escaped_all(cs@.take(i as int)),
        decreases cs.len() - i,
    {
        push_escaped(out, cs[i]);
        assert(cs@.take(i + 1).drop_last() =~= cs@.take(i as int));
        assert(start + escaped_all(cs@.take(i as int)) + escaped(cs@[i as int]) =~= start
            + escaped_all(cs@.take(i + 1)));
        i += 1;
    }
    assert(cs@.take(i as int) =~= s@);
    push_char(out, '"');
    assert(final(out)@ =~= old(out)@ + quoted(s@));
}

impl Json {
    /// A JSON string holding `text`.
    pub fn str(text: &str) -> (j: Json)
        ensures
            j matches Json::String(s) && s@ == text@,
    {
        Json::String(crate::text::string_of(text))
    }

    /// The value as JSON text.
    pub fn render(&self) -> (out: String)
        ensures
            out@ == rendered(*self),
    {
        let mut out = String::new();
        self.write(&mut out);
        assert(out@ =~= rendered(*self));
        out
    }

    fn write(&self, out: &mut String)
        ensures
            final(out)@ == old(out)@ + rendered(*self),
        decreases self,
    {
        match self {
            Json::Null => {
                push_str(out, "null");
            },
            Json::Bool(b) => {
                push_str(out, if *b { "true" } else { "false" });
            },
            Json::Number(n) => {
                let n = *n;
                if n < 0 {
                    push_char(out, '-');
                    let magnitude: u64 = ((-(n + 1)) as u64) + 1;
                    push_decimal(out, magnitude);
                } else {
                    push_decimal(out, n as u64);
                }
                assert(final(out)@ =~= old(out)@ + rendered(*self));
            },
            Json::String(s) => {
                push_quoted(out, s.as_str());
            },
            Json::Array(items) => {
                push_char(out, '[');
                let ghost start = out@;
                let mut i: usize = 0;
                assert(items@.take(0) =~= Seq::<Json>::empty());
                while i < items.len()
                    invariant
                        i <= items@.len(),
                        *self == Json::Array(*items),
                        out@ == start + items_text(items@.take(i as int)),
                    decreases items.len() - i,
                {
                    if i > 0 {
                        push_char(out, ',');
                    }
                    let item = &items[i];
                    assert(decreases_to!(*self => (*self)->Array_0));
                    assert((*self)->Array_0 == *items);
                    assert(decreases_to!(*items => items@));
                    assert(decreases_to!(items@ => items@[i as int]));
                    item.write(out);
                    assert(items@.take(i + 1).drop_last() =~= items@.take(i as int));
                    assert(out@ =~= start + items_text(items@.take(i + 1)));
                    i += 1;
                }
                assert(items@.take(i as int) =~= items@);
                push_char(out, ']');
                assert(final(out)@ =~= old(out)@ + rendered(*self));
            },
            Json::Object(fields) => {
                push_char(out, '{');
                let ghost start = out@;
                let mut i: usize = 0;
                assert(fields@.take(0) =~= Seq::<(&'static str, Json)>::empty());
                while i < fields.len()
                    invariant
                        i <= fields@.len(),
                        *self == Json::Object(*fields),
                        out@ == start + fields_text(fields@.take(i as int)),
                    decreases fields.len() - i,
                {
                    if i > 0 {
                        push_char(out, ',');
                    }
                    let field = &fields[i];
                    push_quoted(out, field.0);
                    push_char(out, ':');
                    assert(decreases_to!(*self => (*self)->Object_0));
                    assert((*self)->Object_0 == *fields);
                    assert(decreases_to!(*fields => fields@));
                    assert(decreases_to!(fields@ => fields@[i as int]));
                    assert(decreases_to!(fields@[i as int] => fields@[i as int].1));
                    field.1.write(out);
                    assert(fields@.take(i + 1).drop_last() =~= fields@.take(i as int));
                    assert(out@ =~= start + fields_text(fields@.take(i + 1)));
                    i += 1;
                }
                assert(fields@.take(i as int) =~= fields@);
                push_char(out, '}');
                assert(final(out)@ =~= old(out)@ + rendered(*self));
            },
        }
    }
}

/// The base64 alphabet.
pub open spec fn alphabet_char(i: u32) -> char {
    if i < 26 {
        ((i + 65) as u8) as char
    } else if i < 52 {
        ((i + 71) as u8) as char
    } else if i < 62 {
        ((i - 4) as u8) as char
    } else if i == 62 {
        '+'
    } else {
        '/'
    }
}

/// Three bytes as one number, the first the highest.
pub open spec fn triple(a: u8, b: u8, c: u8) -> u32 {
    ((a as u32) << 16u32) | ((b as u32) << 8u32) | (c as u32)
}

/// The four characters for a group of `len` bytes (1 to 3), padded with `=`.
pub open spec fn group_text(a: u8, b: u8, c: u8, len: int) -> Seq<char> {
    let n = triple(a, b, c);
    seq![
        alphabet_char((n >> 18u32) & 63u32),
        alphabet_char((n >> 12u32) & 63u32),
        if 2 <= len { alphabet_char((n >> 6u32) & 63u32) } else { '=' },
        if 3 <= len { alphabet_char(n & 63u32) } else { '=' },
    ]
}

/// Standard base64 with padding.
pub open spec fn base64_text(b: Seq<u8>) -> Seq<char>
    decreases b.len(),
{
    if b.len() == 0 {
        Seq::empty()
    } else if b.len() >= 3 {
        group_text(b[0], b[1], b[2], 3) + base64_text(b.skip(3))
    } else if b.len() == 2 {
        group_text(b[0], b[1], 0, 2)
    } else {
        group_text(b[0], 0, 0, 1)
    }
}

fn alphabet(i: u32) -> (c: char)
    requires
        i < 64,
    ensures
        c == alphabet_char(i),
{
    if i < 26 {
        ((i + 65) as u8) as char
    } else if i < 52 {
        ((i + 71) as u8) as char
    } else if i < 62 {
        ((i - 4) as u8) as char
    } else if i == 62 {
        '+'
    } else {
        '/'
    }
}

/// Appends the four characters for a group of `len` bytes.
fn push_group(out: &mut String, a: u8, b: u8, c: u8, len: usize)
    ensures
        final(out)@ == old(out)@ + group_text(a, b, c, len as int),
{
    let n: u32 = ((a as u32) << 16u32) | ((b as u32) << 8u32) | (c as u32);
    assert((n >> 18u32) & 63u32 < 64) by (bit_vector);
    assert((n >> 12u32) & 63u32 < 64) by (bit_vector);
    assert((n >> 6u32) & 63u32 < 64) by (bit_vector);
    assert(n & 63u32 < 64) by (bit_vector);
    push_char(out, alphabet((n >> 18u32) & 63u32));
    push_char(out, alphabet((n >> 12u32) & 63u32));
    if 2 <= len {
        push_char(out, alphabet((n >> 6u32) & 63u32));
    } else {
        push_char(out, '=');
    }
    if 3 <= len {
        push_char(out, alphabet(n & 63u32));
    } else {
        push_char(out, '=');
    }
    assert(final(out)@ =~= old(out)@ + group_text(a, b, c, len as int));
}

/// Standard base64 with padding, for OSC 52.
pub fn base64(bytes: &[u8]) -> (out: String)
    ensures
        out@ == base64_text(bytes@),
{
    let mut out = String::new();
    let mut i: usize = 0;
    assert(bytes@.skip(0) =~= bytes@);
    assert(out@ + base64_text(bytes@) =~= base64_text(bytes@));
    // Three bytes at a time, and what is left over.
    while bytes.len() - i >= 3
        invariant
            i <= bytes@.len(),
            out@ + base64_text(bytes@.skip(i as int)) == base64_text(bytes@),
        decreases bytes.len() - i,
    {
        let ghost rest = bytes@.skip(i as int);
        push_group(&mut out, bytes[i], bytes[i + 1], bytes[i + 2], 3);
        assert(rest.skip(3) =~= bytes@.skip(i + 3));
        i += 3;
    }
    let ghost rest = bytes@.skip(i as int);
    let left = bytes.len() - i;
    if left == 2 {
        push_group(&mut out, bytes[i], bytes[i + 1], 0, 2);
    } else if left == 1 {
        push_group(&mut out, bytes[i], 0, 0, 1);
    }
    assert(out@ =~= base64_text(bytes@));
    out
}


/// Base64 writes four characters for every three bytes or part of three.
pub proof fn lemma_base64_length(b: Seq<u8>)
    ensures
        base64_text(b).len() == 4 * ((b.len() + 2) / 3),
    decreases b.len(),
{
    if b.len() >= 3 {
        lemma_base64_length(b.skip(3));
    }
}


/// The number a base64 character stands for; `=` and any other character
/// stand for 0.
pub open spec fn sextet(c: char) -> u32 {
    let v = c as u32;
    if 65 <= v <= 90 {
        (v - 65) as u32
    } else if 97 <= v <= 122 {
        (v - 71) as u32
    } else if 48 <= v <= 57 {
        (v + 4) as u32
    } else if c == '+' {
        62
    } else if c == '/' {
        63
    } else {
        0
    }
}

/// The bytes four base64 characters stand for: three, or one or two where
/// the group ends in `==` or `=`.
pub open spec fn group_bytes(g: Seq<char>) -> Seq<u8> {
    let n = (sextet(g[0]) << 18u32) | (sextet(g[1]) << 12u32) | (sextet(g[2]) << 6u32) | sextet(g[3]);
    let all = seq![((n >> 16u32) & 255u32) as u8, ((n >> 8u32) & 255u32) as u8, (n & 255u32) as u8];
    if g[2] == '=' {
        all.take(1)
    } else if g[3] == '=' {
        all.take(2)
    } else {
        all
    }
}

/// Standard base64 decoding, four characters at a time.
pub open spec fn base64_decoded(t: Seq<char>) -> Seq<u8>
    decreases t.len(),
{
    if t.len() < 4 {
        Seq::empty()
    } else {
        group_bytes(t.take(4)) + base64_decoded(t.skip(4))
    }
}

/// Each character of the alphabet stands for its own number, and none is
/// `=`.
proof fn lemma_alphabet_inverse(i: u32)
    requires
        i < 64,
    ensures
        sextet(alphabet_char(i)) == i,
        alphabet_char(i) != '=',
        in_alphabet(alphabet_char(i)),
{
}

/// A group of bytes reads back from its four characters.
proof fn lemma_group_round_trip(a: u8, b: u8, c: u8, len: int)
    requires
        1 <= len <= 3,
        len < 3 ==> c == 0,
        len < 2 ==> b == 0,
    ensures
        group_bytes(group_text(a, b, c, len)) == seq![a, b, c].take(len),
{
    let n = triple(a, b, c);
    let s0 = (n >> 18u32) & 63u32;
    let s1 = (n >> 12u32) & 63u32;
    let s2 = (n >> 6u32) & 63u32;
    let s3 = n & 63u32;
    assert(s0 < 64 && s1 < 64 && s2 < 64 && s3 < 64) by (bit_vector)
        requires
            s0 == (n >> 18u32) & 63u32,
            s1 == (n >> 12u32) & 63u32,
            s2 == (n >> 6u32) & 63u32,
            s3 == n & 63u32,
    ;
    lemma_alphabet_inverse(s0);
    lemma_alphabet_inverse(s1);
    lemma_alphabet_inverse(s2);
    lemma_alphabet_inverse(s3);
    assert(b == 0 && c == 0 ==> s2 == 0 && s3 == 0) by (bit_vector)
        requires
            n == ((a as u32) << 16u32) | ((b as u32) << 8u32) | (c as u32),
            s2 == (n >> 6u32) & 63u32,
            s3 == n & 63u32,
    ;
    assert(c == 0 ==> s3 == 0) by (bit_vector)
        requires
            n == ((a as u32) << 16u32) | ((b as u32) << 8u32) | (c as u32),
            s3 == n & 63u32,
    ;
    let g = group_text(a, b, c, len);
    assert(sextet(g[0]) == s0 && sextet(g[1]) == s1 && sextet(g[2]) == s2 && sextet(g[3]) == s3);
    let m = (s0 << 18u32) | (s1 << 12u32) | (s2 << 6u32) | s3;
    assert(((m >> 16u32) & 255u32) as u8 == a && ((m >> 8u32) & 255u32) as u8 == b && (m & 255u32)
        as u8 == c) by (bit_vector)
        requires
            n == ((a as u32) << 16u32) | ((b as u32) << 8u32) | (c as u32),
            s0 == (n >> 18u32) & 63u32,
            s1 == (n >> 12u32) & 63u32,
            s2 == (n >> 6u32) & 63u32,
            s3 == n & 63u32,
            m == (s0 << 18u32) | (s1 << 12u32) | (s2 << 6u32) | s3,
    ;
    assert(group_bytes(g) =~= seq![a, b, c].take(len));
}

/// Whether `c` is one of the 64 characters of the base64 alphabet:
/// `A`-`Z`, `a`-`z`, `0`-`9`, `+` and `/`.
pub open spec fn in_alphabet(c: char) -> bool {
    let v = c as u32;
    (65 <= v <= 90) || (97 <= v <= 122) || (48 <= v <= 57) || c == '+' || c == '/'
}

/// How many `=` end the base64 text of `n` bytes.
pub open spec fn padding(n: nat) -> nat {
    ((3 - n % 3) % 3) as nat
}

/// The four characters of a group of `len` bytes: `=` exactly at the
/// places past `len + 1`, alphabet characters elsewhere.
proof fn lemma_group_chars(a: u8, b: u8, c: u8, len: int)
    requires
        1 <= len <= 3,
    ensures
        forall|k: int|
            0 <= k < 4 ==> ((#[trigger] group_text(a, b, c, len)[k] == '=') <==> k > len),
        forall|k: int|
            0 <= k < 4 && #[trigger] group_text(a, b, c, len)[k] != '=' ==> in_alphabet(
                group_text(a, b, c, len)[k],
            ),
{
    let n = triple(a, b, c);
    let s0 = (n >> 18u32) & 63u32;
    let s1 = (n >> 12u32) & 63u32;
    let s2 = (n >> 6u32) & 63u32;
    let s3 = n & 63u32;
    assert(s0 < 64 && s1 < 64 && s2 < 64 && s3 < 64) by (bit_vector)
        requires
            s0 == (n >> 18u32) & 63u32,
            s1 == (n >> 12u32) & 63u32,
            s2 == (n >> 6u32) & 63u32,
            s3 == n & 63u32,
    ;
    lemma_alphabet_inverse(s0);
    lemma_alphabet_inverse(s1);
    lemma_alphabet_inverse(s2);
    lemma_alphabet_inverse(s3);
}

/// Base64 text ends in exactly as many `=` as the last group lacks bytes
/// (none, one or two), and every other character is from the alphabet.
pub proof fn lemma_base64_padding(b: Seq<u8>)
    ensures
        forall|i: int|
            0 <= i < base64_text(b).len() ==> ((#[trigger] base64_text(b)[i] == '=') <==> i
                >= base64_text(b).len() - padding(b.len())),
        forall|i: int|
            0 <= i < base64_text(b).len() && #[trigger] base64_text(b)[i] != '=' ==> in_alphabet(
                base64_text(b)[i],
            ),
    decreases b.len(),
{
    let t = base64_text(b);
    lemma_base64_length(b);
    if b.len() >= 3 {
        let rest = b.skip(3);
        lemma_base64_padding(rest);
        lemma_base64_length(rest);
        lemma_group_chars(b[0], b[1], b[2], 3);
        let g = group_text(b[0], b[1], b[2], 3);
        assert(padding(b.len()) == padding(rest.len()));
        assert forall|i: int| 0 <= i < t.len() implies ((#[trigger] t[i] == '=') <==> i >= t.len()
            - padding(b.len())) && (t[i] != '=' ==> in_alphabet(t[i])) by {
            if i < 4 {
                assert(t[i] == g[i]);
            } else {
                assert(t[i] == base64_text(rest)[i - 4]);
            }
        }
    } else if b.len() == 2 {
        lemma_group_chars(b[0], b[1], 0, 2);
    } else if b.len() == 1 {
        lemma_group_chars(b[0], 0, 0, 1);
    }
}

/// Decoding the base64 text of some bytes gives the bytes back.
pub proof fn lemma_base64_reads_back(b: Seq<u8>)
    ensures
        base64_decoded(base64_text(b)) == b,
    decreases b.len(),
{
    if b.len() >= 3 {
        lemma_base64_reads_back(b.skip(3));
        lemma_group_round_trip(b[0], b[1], b[2], 3);
        let t = base64_text(b);
        let g = group_text(b[0], b[1], b[2], 3);
        assert(t.take(4) =~= g);
        assert(t.skip(4) =~= base64_text(b.skip(3)));
        assert(seq![b[0], b[1], b[2]].take(3) + b.skip(3) =~= b);
    } else if b.len() == 2 {
        lemma_group_round_trip(b[0], b[1], 0, 2);
        let g = group_text(b[0], b[1], 0, 2);
        assert(g.take(4) =~= g);
        assert(base64_decoded(g.skip(4)) =~= Seq::<u8>::empty());
        assert(seq![b[0], b[1], 0u8].take(2) + Seq::<u8>::empty() =~= b);
    } else if b.len() == 1 {
        lemma_group_round_trip(b[0], 0, 0, 1);
        let g = group_text(b[0], 0, 0, 1);
        assert(g.take(4) =~= g);
        assert(base64_decoded(g.skip(4)) =~= Seq::<u8>::empty());
        assert(seq![b[0], 0u8, 0u8].take(1) + Seq::<u8>::empty() =~= b);
    }
}


/// The value of a hexadecimal digit, either case; 0 for anything else.
pub open spec fn hex_value(c: char) -> u32 {
    let v = c as u32;
    if 48 <= v <= 57 {
        (v - 48) as u32
    } else if 97 <= v <= 102 {
        (v - 87) as u32
    } else if 65 <= v <= 70 {
        (v - 55) as u32
    } else {
        0
    }
}

/// Whether `c` is a hexadecimal digit.
pub open spec fn is_hex(c: char) -> bool {
    let v = c as u32;
    (48 <= v <= 57) || (97 <= v <= 102) || (65 <= v <= 70)
}

/// The character an escape after `\` stands for, and how many characters
/// the escape takes with its `\`, where it is one JSON reads.
pub open spec fn escape_read(t: Seq<char>) -> Option<(char, int)> {
    if t.len() < 2 {
        None
    } else if t[1] == '"' {
        Some(('"', 2))
    } else if t[1] == '\\' {
        Some(('\\', 2))
    } else if t[1] == '/' {
        Some(('/', 2))
    } else if t[1] == 'n' {
        Some(('\n', 2))
    } else if t[1] == 'r' {
        Some(('\r', 2))
    } else if t[1] == 't' {
        Some(('\t', 2))
    } else if t[1] == 'u' && t.len() >= 6 && is_hex(t[2]) && is_hex(t[3]) && is_hex(t[4]) && is_hex(t[5]) {
        let v = (hex_value(t[2]) << 12u32) | (hex_value(t[3]) << 8u32) | (hex_value(t[4]) << 4u32)
            | hex_value(t[5]);
        if v < 0xd800 || v > 0xdfff {
            Some((v as char, 6))
        } else {
            None
        }
    } else {
        None
    }
}

/// How a JSON reader reads the inside of a string: the characters up to
/// the closing quote, with the escapes read, and what follows the quote;
/// none where a raw control character or a bad escape comes first, or no
/// quote closes it.
pub open spec fn read_body(t: Seq<char>) -> Option<(Seq<char>, Seq<char>)>
    decreases t.len(),
{
    if t.len() == 0 {
        None
    } else if t[0] == '"' {
        Some((Seq::empty(), t.skip(1)))
    } else if t[0] == '\\' {
        match escape_read(t) {
            Some((c, used)) => if 2 <= used <= t.len() {
                match read_body(t.skip(used)) {
                    Some((d, rest)) => Some((seq![c] + d, rest)),
                    None => None,
                }
            } else {
                None
            },
            None => None,
        }
    } else if (t[0] as u32) < 0x20 {
        None
    } else {
        match read_body(t.skip(1)) {
            Some((d, rest)) => Some((seq![t[0]] + d, rest)),
            None => None,
        }
    }
}

/// How a JSON reader reads a string: an opening quote, then its inside.
pub open spec fn read_string(t: Seq<char>) -> Option<(Seq<char>, Seq<char>)> {
    if t.len() > 0 && t[0] == '"' {
        read_body(t.skip(1))
    } else {
        None
    }
}

/// The escapes of a text are those of its first character and then of the
/// rest.
proof fn lemma_escaped_front(s: Seq<char>)
    requires
        s.len() > 0,
    ensures
        escaped_all(s) == escaped(s[0]) + escaped_all(s.drop_first()),
    decreases s.len(),
{
    if s.len() == 1 {
        assert(s.drop_last() =~= Seq::<char>::empty());
        assert(s.drop_first() =~= Seq::<char>::empty());
        assert(escaped_all(s.drop_first()) =~= Seq::<char>::empty());
        assert(escaped_all(s) =~= escaped(s[0]));
    } else {
        lemma_escaped_front(s.drop_last());
        assert(s.drop_last().drop_first() =~= s.drop_first().drop_last());
        assert(s.drop_first().last() == s.last());
        assert(s.drop_last()[0] == s[0]);
    }
}

/// A `\u` escape reads back as its character.
proof fn lemma_unicode_escape_reads_back(c: char, more: Seq<char>)
    requires
        (c as u32) < 0x20 || c == '\u{7f}' || c == '\u{2028}' || c == '\u{2029}',
    ensures
        escape_read(unicode_escape(c) + more) == Some((c, 6int)),
{
    let n = c as u32;
    let t = unicode_escape(c) + more;
    let d3 = (n >> 12u32) & 15u32;
    let d2 = (n >> 8u32) & 15u32;
    let d1 = (n >> 4u32) & 15u32;
    let d0 = n & 15u32;
    assert(d3 < 16 && d2 < 16 && d1 < 16 && d0 < 16) by (bit_vector)
        requires
            d3 == (n >> 12u32) & 15u32,
            d2 == (n >> 8u32) & 15u32,
            d1 == (n >> 4u32) & 15u32,
            d0 == n & 15u32,
    ;
    assert(n < 0x10000);
    assert((d3 << 12u32) | (d2 << 8u32) | (d1 << 4u32) | d0 == n) by (bit_vector)
        requires
            n < 0x10000,
            d3 == (n >> 12u32) & 15u32,
            d2 == (n >> 8u32) & 15u32,
            d1 == (n >> 4u32) & 15u32,
            d0 == n & 15u32,
    ;
    assert(t[2] == hex_char(d3) && t[3] == hex_char(d2) && t[4] == hex_char(d1) && t[5] == hex_char(d0));
    assert(hex_value(hex_char(d3)) == d3 && is_hex(hex_char(d3)));
    assert(hex_value(hex_char(d2)) == d2 && is_hex(hex_char(d2)));
    assert(hex_value(hex_char(d1)) == d1 && is_hex(hex_char(d1)));
    assert(hex_value(hex_char(d0)) == d0 && is_hex(hex_char(d0)));
    assert((n as char) == c);
}

/// One character's escape, before text that reads as `d` up to a quote,
/// reads as that character and then `d`.
#[verifier::rlimit(40)]
proof fn lemma_char_reads_back(c: char, tail: Seq<char>)
    requires
        read_body(tail) is Some,
    ensures
        read_body(escaped(c) + tail) == Some(
            (seq![c] + read_body(tail)->Some_0.0, read_body(tail)->Some_0.1),
        ),
{
    let e = escaped(c);
    let t = e + tail;
    assert(t.skip(e.len() as int) =~= tail);
    if c == '"' || c == '\\' || c == '\n' || c == '\r' || c == '\t' {
        assert(e.len() == 2);
        assert(t[0] == '\\');
        assert(escape_read(t) == Some((c, 2int)));
    } else if (c as u32) < 0x20 || c == '\u{7f}' || c == '\u{2028}' || c == '\u{2029}' {
        lemma_unicode_escape_reads_back(c, tail);
        assert(t[0] == '\\');
    } else {
        assert(e == seq![c]);
        assert(t[0] == c);
    }
}

/// The escapes of `s`, then a quote, read back as `s`, with what follows
/// the quote left over.
proof fn lemma_body_reads_back(s: Seq<char>, rest: Seq<char>)
    ensures
        read_body(escaped_all(s) + seq!['"'] + rest) == Some((s, rest)),
    decreases s.len(),
{
    if s.len() == 0 {
        let t = escaped_all(s) + seq!['"'] + rest;
        assert(escaped_all(s) =~= Seq::<char>::empty());
        assert(t =~= seq!['"'] + rest);
        assert(t.skip(1) =~= rest);
    } else {
        lemma_escaped_front(s);
        lemma_body_reads_back(s.drop_first(), rest);
        let tail = escaped_all(s.drop_first()) + seq!['"'] + rest;
        lemma_char_reads_back(s[0], tail);
        assert(escaped_all(s) + seq!['"'] + rest =~= escaped(s[0]) + tail);
        assert(seq![s[0]] + s.drop_first() =~= s);
    }
}

/// A rendered JSON string holds no raw control character, and a JSON reader
/// reads it back as the text it was made from.
pub proof fn lemma_string_reads_back(s: Seq<char>)
    ensures
        read_string(quoted(s)) == Some((s, Seq::<char>::empty())),
        forall|i: int| 0 <= i < quoted(s).len() ==> (quoted(s)[i] as u32) >= 0x20,
{
    lemma_body_reads_back(s, Seq::empty());
    let q = quoted(s);
    assert(q.skip(1) =~= escaped_all(s) + seq!['"'] + Seq::<char>::empty());
    lemma_escapes_printable(s);
    assert forall|i: int| 0 <= i < q.len() implies (q[i] as u32) >= 0x20 by {
        if 1 <= i < q.len() - 1 {
            assert(q[i] == escaped_all(s)[i - 1]);
        }
    }
}

/// Escaped text holds no raw control character.
proof fn lemma_escapes_printable(s: Seq<char>)
    ensures
        forall|i: int| 0 <= i < escaped_all(s).len() ==> (escaped_all(s)[i] as u32) >= 0x20,
    decreases s.len(),
{
    if s.len() > 0 {
        lemma_escapes_printable(s.drop_last());
        let a = escaped_all(s.drop_last());
        let e = escaped(s.last());
        let n = s.last() as u32;
        assert((n >> 12u32) & 15u32 < 16 && (n >> 8u32) & 15u32 < 16 && (n >> 4u32) & 15u32 < 16
            && n & 15u32 < 16) by (bit_vector);
        assert forall|i: int| 0 <= i < e.len() implies (e[i] as u32) >= 0x20 by {}
        assert forall|i: int| 0 <= i < escaped_all(s).len() implies (escaped_all(s)[i] as u32) >= 0x20 by {
            if i < a.len() {
                assert(escaped_all(s)[i] == a[i]);
            } else {
                assert(escaped_all(s)[i] == e[i - a.len()]);
            }
        }
    }
}

}
