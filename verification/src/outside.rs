//! What the library has from other crates: digests, JSON string literals and
//! the text form of identifiers.

use vstd::prelude::*;

verus! {

pub open spec fn hex_digit(d: int) -> char {
    if d < 10 {
        (48 + d) as char
    } else {
        (87 + d) as char
    }
}

pub open spec fn is_hex_digit(c: char) -> bool {
    '0' <= c <= '9' || 'a' <= c <= 'f'
}

// ---------------------------------------------------------------------------
// JSON string literals
// ---------------------------------------------------------------------------

/// How one character is written inside a JSON string literal.
pub open spec fn json_char(c: char) -> Seq<char> {
    if c == '"' {
        seq!['\\', '"']
    } else if c == '\\' {
        seq!['\\', '\\']
    } else if c as int == 8 {
        seq!['\\', 'b']
    } else if c as int == 9 {
        seq!['\\', 't']
    } else if c as int == 10 {
        seq!['\\', 'n']
    } else if c as int == 12 {
        seq!['\\', 'f']
    } else if c as int == 13 {
        seq!['\\', 'r']
    } else if (c as int) < 32 {
        seq!['\\', 'u', '0', '0', hex_digit(c as int / 16), hex_digit(c as int % 16)]
    } else {
        seq![c]
    }
}

pub open spec fn json_chars(s: Seq<char>) -> Seq<char>
    decreases s.len(),
{
    if s.len() == 0 {
        Seq::empty()
    } else {
        json_char(s[0]) + json_chars(s.drop_first())
    }
}

/// The JSON string literal of a text.
pub open spec fn json_text(s: Seq<char>) -> Seq<char> {
    seq!['"'] + json_chars(s) + seq!['"']
}

/// `serde_json::to_string` of a `str`: it always succeeds, and gives the text
/// between quotes, with the quote, the backslash and the control characters
/// escaped and everything else as it is.
#[verifier::external_body]
pub(crate) fn json_string(s: &str) -> (r: std::result::Result<String, String>)
    ensures
        r is Ok,
        r->Ok_0@ == json_text(s@),
{
    serde_json::to_string(s).map_err(|error| error.to_string())
}

proof fn json_char_prefix(a: char, b: char, x: Seq<char>, y: Seq<char>)
    requires
        json_char(a) + x == json_char(b) + y,
    ensures
        a == b,
        x == y,
{
    let p = json_char(a) + x;
    let q = json_char(b) + y;
    assert(p[0] == json_char(a)[0] && q[0] == json_char(b)[0]);
    if json_char(a).len() > 1 {
        assert(p[1] == json_char(a)[1]);
    }
    if json_char(b).len() > 1 {
        assert(q[1] == json_char(b)[1]);
    }
    if json_char(a).len() == 6 && json_char(b).len() == 6 {
        assert(p[4] == json_char(a)[4] && p[5] == json_char(a)[5]);
        assert(q[4] == json_char(b)[4] && q[5] == json_char(b)[5]);
        assert(a as int / 16 == b as int / 16);
        assert(a as int % 16 == b as int % 16);
    }
    assert(a == b);
    assert(p.skip(json_char(a).len() as int) =~= x);
    assert(q.skip(json_char(b).len() as int) =~= y);
}

proof fn json_chars_prefix(a: Seq<char>, b: Seq<char>, x: Seq<char>, y: Seq<char>)
    requires
        json_chars(a) + seq!['"'] + x == json_chars(b) + seq!['"'] + y,
    ensures
        a == b,
        x == y,
    decreases a.len() + b.len(),
{
    let p = json_chars(a) + seq!['"'] + x;
    let q = json_chars(b) + seq!['"'] + y;
    if a.len() == 0 && b.len() == 0 {
        assert(p.skip(1) =~= x);
        assert(q.skip(1) =~= y);
        assert(a =~= b);
    } else if a.len() == 0 {
        assert(p[0] == '"');
        assert(q[0] == json_char(b[0])[0]);
        assert(false);
    } else if b.len() == 0 {
        assert(q[0] == '"');
        assert(p[0] == json_char(a[0])[0]);
        assert(false);
    } else {
        let u = json_chars(a.drop_first()) + seq!['"'] + x;
        let v = json_chars(b.drop_first()) + seq!['"'] + y;
        assert(p =~= json_char(a[0]) + u);
        assert(q =~= json_char(b[0]) + v);
        json_char_prefix(a[0], b[0], u, v);
        json_chars_prefix(a.drop_first(), b.drop_first(), x, y);
        assert(a =~= seq![a[0]] + a.drop_first());
        assert(b =~= seq![b[0]] + b.drop_first());
    }
}

/// A literal ends where it ends: two texts whose literals begin the same
/// sequence are the same text.
pub proof fn json_text_prefix(a: Seq<char>, b: Seq<char>, x: Seq<char>, y: Seq<char>)
    requires
        json_text(a) + x == json_text(b) + y,
    ensures
        a == b,
        x == y,
{
    let p = json_text(a) + x;
    let q = json_text(b) + y;
    assert(p.skip(1) =~= json_chars(a) + seq!['"'] + x);
    assert(q.skip(1) =~= json_chars(b) + seq!['"'] + y);
    json_chars_prefix(a, b, x, y);
}

// ---------------------------------------------------------------------------
// Digests
// ---------------------------------------------------------------------------

/// The BLAKE3 digest of some bytes, in hexadecimal.
pub uninterp spec fn blake3_hex(bytes: Seq<u8>) -> Seq<char>;

/// `blake3::hash` followed by `to_hex`: the digest of the bytes as 64 lowercase
/// hexadecimal digits. Which digest it is depends on the bytes alone.
#[verifier::external_body]
pub(crate) fn hash_hex(bytes: &[u8]) -> (r: String)
    ensures
        r@ == blake3_hex(bytes@),
        r@.len() == 64,
        forall|i: int| 0 <= i < r@.len() ==> is_hex_digit(#[trigger] r@[i]),
{
    blake3::hash(bytes).to_hex().to_string()
}

// ---------------------------------------------------------------------------
// Identifiers
// ---------------------------------------------------------------------------

pub open spec fn power16(n: nat) -> int
    decreases n,
{
    if n == 0 {
        1
    } else {
        16 * power16((n - 1) as nat)
    }
}

/// The `i`-th of the 32 hexadecimal digits of a 128-bit number, the most
/// significant first.
pub open spec fn nibble(id: int, i: int) -> int {
    (id / power16((31 - i) as nat)) % 16
}

/// The hyphenated text form of an identifier: 8-4-4-4-12 lowercase digits.
pub open spec fn uuid_text(id: u128) -> Seq<char> {
    Seq::new(
        36,
        |i: int|
            if i == 8 || i == 13 || i == 18 || i == 23 {
                '-'
            } else {
                let hyphens: int = if i < 8 {
                    0
                } else if i < 13 {
                    1
                } else if i < 18 {
                    2
                } else if i < 23 {
                    3
                } else {
                    4
                };
                hex_digit(nibble(id as int, i - hyphens))
            },
    )
}

/// `uuid::Uuid::from_u128` followed by its `Display`: the hyphenated lowercase
/// form of the number.
#[verifier::external_body]
pub(crate) fn identifier(id: u128) -> (r: String)
    ensures
        r@ == uuid_text(id),
{
    uuid::Uuid::from_u128(id).to_string()
}

/// What is read from a text as an identifier: the number, or what is wrong with
/// the text.
pub uninterp spec fn uuid_reading(s: Seq<char>) -> std::result::Result<u128, Seq<char>>;

/// A reading with its text as a sequence.
pub open spec fn shown_reading(r: std::result::Result<u128, String>) -> std::result::Result<u128, Seq<char>> {
    match r {
        Ok(id) => Ok(id),
        Err(error) => Err(error@),
    }
}

/// `uuid::Uuid::parse_str` followed by `as_u128`, or by the `Display` of its
/// error. What comes out depends on the text alone, and the hyphenated form of
/// a number gives the number back. Which other forms are read, and what an
/// error says, is left to the name.
#[verifier::external_body]
pub(crate) fn read_identifier(s: &str) -> (r: std::result::Result<u128, String>)
    ensures
        shown_reading(r) == uuid_reading(s@),
        forall|id: u128| s@ == #[trigger] uuid_text(id) ==> r is Ok && r->Ok_0 == id,
{
    match uuid::Uuid::parse_str(s) {
        Ok(id) => Ok(id.as_u128()),
        Err(error) => Err(error.to_string()),
    }
}

// ---------------------------------------------------------------------------
// Letter case
// ---------------------------------------------------------------------------

/// A text in lower case, by the rules of Unicode.
pub uninterp spec fn lower_case(s: Seq<char>) -> Seq<char>;

/// `str::to_lowercase` of the standard library. The result depends on the text
/// alone.
#[verifier::external_body]
pub(crate) fn to_lower_case(s: &str) -> (r: String)
    ensures
        r@ == lower_case(s@),
{
    s.to_lowercase()
}

} // verus!
