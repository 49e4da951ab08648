//! Text as sequences of characters: equality, order, decimal rendering and
//! the small parsers the rest of the library is built from.

use vstd::prelude::*;
use vstd::string::*;

verus! {

/// `String::push`: the character is appended to the end of the string and
/// nothing else changes.
pub assume_specification[ String::push ](s: &mut String, c: char)
    ensures
        final(s)@ == old(s)@.push(c),
;

/// Equality of two `str`: true exactly when both hold the same characters.
pub assume_specification[ <str as PartialEq>::eq ](a: &str, b: &str) -> (r: bool)
    ensures
        r == (a@ == b@),
;

/// The outcome of comparing two values of an ordered type.
#[derive(Clone, Copy, Debug, PartialEq, Eq, Structural)]
pub enum Rank {
    Less,
    Same,
    Greater,
}

/// The characters of a text, in order.
pub fn chars_of(s: &str) -> (r: Vec<char>)
    ensures
        r@ == s@,
{
    let mut out: Vec<char> = Vec::new();
    for c in it: s.chars()
        invariant
            it.seq() == s@,
            out@ == it.seq().take(it.index() as int),
    {
        out.push(c);
    }
    assert(out@ =~= s@);
    out
}

/// The text made of the characters from `from` up to, not including, `to`.
pub fn slice_text(chars: &Vec<char>, from: usize, to: usize) -> (r: String)
    requires
        from <= to <= chars@.len(),
    ensures
        r@ == chars@.subrange(from as int, to as int),
{
    let mut out = String::new();
    assert(out@ =~= chars@.subrange(from as int, from as int));
    for i in from..to
        invariant
            from <= to <= chars@.len(),
            out@ == chars@.subrange(from as int, i as int),
    {
        out.push(chars[i]);
        assert(chars@.subrange(from as int, i as int).push(chars@[i as int])
            =~= chars@.subrange(from as int, i + 1));
    }
    out
}

pub fn same(a: &str, b: &str) -> (r: bool)
    ensures
        r == (a@ == b@),
{
    *a == *b
}

/// An owned copy of a text.
pub fn copy(s: &str) -> (r: String)
    ensures
        r@ == s@,
{
    s.to_owned()
}

pub open spec fn optional(s: Option<String>) -> Option<Seq<char>> {
    match s {
        Some(t) => Some(t@),
        None => None,
    }
}

pub fn copy_optional(a: &Option<String>) -> (r: Option<String>)
    ensures
        r == *a,
        optional(r) == optional(*a),
{
    match a {
        Some(x) => Some(x.clone()),
        None => None,
    }
}

/// The order of texts: by the first character in which they differ, a proper
/// prefix first.
pub open spec fn before(a: Seq<char>, b: Seq<char>) -> bool
    decreases a.len(),
{
    if b.len() == 0 {
        false
    } else if a.len() == 0 {
        true
    } else if a[0] != b[0] {
        a[0] < b[0]
    } else {
        before(a.drop_first(), b.drop_first())
    }
}

pub proof fn before_irreflexive(a: Seq<char>)
    ensures
        !before(a, a),
    decreases a.len(),
{
    if a.len() > 0 {
        before_irreflexive(a.drop_first());
    }
}

pub proof fn before_transitive(a: Seq<char>, b: Seq<char>, c: Seq<char>)
    requires
        before(a, b),
        before(b, c),
    ensures
        before(a, c),
    decreases a.len(),
{
    if a.len() > 0 && b.len() > 0 && c.len() > 0 {
        if a[0] == b[0] && b[0] == c[0] {
            before_transitive(a.drop_first(), b.drop_first(), c.drop_first());
        }
    }
}

/// Two texts of which neither comes before the other are the same text.
pub proof fn before_separates(a: Seq<char>, b: Seq<char>)
    requires
        !before(a, b),
        !before(b, a),
    ensures
        a == b,
    decreases a.len(),
{
    if a.len() == 0 || b.len() == 0 {
        assert(a =~= b);
    } else {
        before_separates(a.drop_first(), b.drop_first());
        assert(a =~= seq![a[0]] + a.drop_first());
        assert(b =~= seq![b[0]] + b.drop_first());
    }
}

pub fn compare(a: &str, b: &str) -> (r: Rank)
    ensures
        (r is Less) == before(a@, b@),
        (r is Greater) == before(b@, a@),
        (r is Same) == (a@ == b@),
{
    proof {
        before_irreflexive(a@);
        if before(a@, b@) && before(b@, a@) {
            before_transitive(a@, b@, a@);
        }
        if !before(a@, b@) && !before(b@, a@) {
            before_separates(a@, b@);
        }
    }
    let x = chars_of(a);
    let y = chars_of(b);
    let mut i: usize = 0;
    assert(x@.skip(0) =~= x@);
    assert(y@.skip(0) =~= y@);
    loop
        invariant
            i <= x@.len(),
            i <= y@.len(),
            before(x@, y@) == before(x@.skip(i as int), y@.skip(i as int)),
            before(y@, x@) == before(y@.skip(i as int), x@.skip(i as int)),
            x@ == a@,
            y@ == b@,
            a@ == b@ ==> !before(a@, b@) && !before(b@, a@),
            !(before(a@, b@) && before(b@, a@)),
            !before(a@, b@) && !before(b@, a@) ==> a@ == b@,
        decreases x@.len() - i,
    {
        if i == y.len() {
            if i == x.len() {
                return Rank::Same;
            }
            return Rank::Greater;
        }
        if i == x.len() {
            return Rank::Less;
        }
        if x[i] != y[i] {
            if x[i] < y[i] {
                return Rank::Less;
            }
            return Rank::Greater;
        }
        assert(x@.skip(i as int).drop_first() =~= x@.skip(i + 1));
        assert(y@.skip(i as int).drop_first() =~= y@.skip(i + 1));
        i = i + 1;
    }
}

// ---------------------------------------------------------------------------
// Decimal numbers
// ---------------------------------------------------------------------------

pub open spec fn digit(d: nat) -> char {
    (48 + d) as char
}

pub open spec fn is_digit(c: char) -> bool {
    '0' <= c <= '9'
}

pub open spec fn digit_value(c: char) -> nat {
    (c as int - 48) as nat
}

/// The decimal rendering of a natural number, without leading zeros.
pub open spec fn decimal(n: nat) -> Seq<char>
    decreases n,
{
    if n < 10 {
        seq![digit(n)]
    } else {
        decimal(n / 10).push(digit(n % 10))
    }
}

/// The decimal rendering of an integer: a minus sign for negative numbers.
pub open spec fn decimal_int(i: int) -> Seq<char> {
    if i < 0 {
        "-"@ + decimal((-i) as nat)
    } else {
        decimal(i as nat)
    }
}

/// The number that a run of digits denotes.
pub open spec fn number(s: Seq<char>) -> nat
    decreases s.len(),
{
    if s.len() == 0 {
        0
    } else {
        10 * number(s.drop_last()) + digit_value(s.last())
    }
}

pub open spec fn all_digits(s: Seq<char>) -> bool {
    forall|i: int| 0 <= i < s.len() ==> is_digit(#[trigger] s[i])
}

/// A rendering is a nonempty run of digits that denotes the number.
pub proof fn decimal_denotes(n: nat)
    ensures
        all_digits(decimal(n)),
        decimal(n).len() > 0,
        number(decimal(n)) == n,
    decreases n,
{
    if n < 10 {
        let s = decimal(n);
        assert(s.drop_last() =~= Seq::<char>::empty());
        assert(number(s.drop_last()) == 0);
        assert(s.last() == digit(n));
    } else {
        decimal_denotes(n / 10);
        assert(decimal(n).drop_last() =~= decimal(n / 10));
    }
}

/// Different numbers have different renderings.
pub proof fn decimal_injective(a: nat, b: nat)
    requires
        decimal(a) == decimal(b),
    ensures
        a == b,
{
    decimal_denotes(a);
    decimal_denotes(b);
}

pub proof fn decimal_int_injective(a: int, b: int)
    requires
        decimal_int(a) == decimal_int(b),
    ensures
        a == b,
{
    reveal_strlit("-");
    let m = "-"@;
    if a >= 0 {
        decimal_denotes(a as nat);
        assert(is_digit(decimal_int(a)[0]));
    }
    if b >= 0 {
        decimal_denotes(b as nat);
        assert(is_digit(decimal_int(b)[0]));
    }
    if a < 0 && b < 0 {
        assert(decimal_int(a).skip(1) =~= decimal((-a) as nat));
        assert(decimal_int(b).skip(1) =~= decimal((-b) as nat));
        decimal_injective((-a) as nat, (-b) as nat);
    } else if a >= 0 && b >= 0 {
        decimal_injective(a as nat, b as nat);
    } else {
        assert(false);
    }
}

pub fn digit_char(d: u8) -> (c: char)
    requires
        d < 10,
    ensures
        c == digit(d as nat),
{
    (48 + d) as char
}

/// The decimal rendering of an unsigned number.
pub fn decimal_u128(n: u128) -> (r: String)
    ensures
        r@ == decimal(n as nat),
    decreases n,
{
    let mut out = if n >= 10 {
        decimal_u128(n / 10)
    } else {
        String::new()
    };
    let d: u8 = (n % 10) as u8;
    out.push(digit_char(d));
    assert(n < 10 ==> out@ =~= seq![digit(n as nat)]);
    out
}

pub fn decimal_u64(n: u64) -> (r: String)
    ensures
        r@ == decimal(n as nat),
{
    decimal_u128(n as u128)
}

pub fn decimal_usize(n: usize) -> (r: String)
    ensures
        r@ == decimal(n as nat),
{
    decimal_u128(n as u128)
}

/// The decimal rendering of a signed number.
pub fn decimal_i64(n: i64) -> (r: String)
    ensures
        r@ == decimal_int(n as int),
{
    if n < 0 {
        let magnitude: i128 = -(n as i128);
        let digits = decimal_u128(magnitude as u128);
        let mut out = copy("-");
        out.append(digits.as_str());
        out
    } else {
        decimal_u128(n as u128)
    }
}

/// `count` zeros.
pub open spec fn zeros(count: int) -> Seq<char> {
    Seq::new(if count < 0 { 0 } else { count as nat }, |i: int| '0')
}

/// The rendering of a number filled with leading zeros to at least `width`
/// digits.
pub open spec fn padded(n: nat, width: nat) -> Seq<char> {
    zeros(width - decimal(n).len()) + decimal(n)
}

/// As [`padded`], for a number that may be negative: the sign comes first and
/// counts toward the width.
pub open spec fn padded_int(i: int, width: nat) -> Seq<char> {
    if i < 0 {
        "-"@ + padded((-i) as nat, (width - 1) as nat)
    } else {
        padded(i as nat, width)
    }
}

pub fn padded_u64(n: u64, width: usize) -> (r: String)
    ensures
        r@ == padded(n as nat, width as nat),
{
    let digits = decimal_u64(n);
    let count = digits.as_str().unicode_len();
    let mut out = String::new();
    let mut filled: usize = count;
    assert(out@ =~= zeros(filled - count));
    while filled < width
        invariant
            count <= filled,
            count < width ==> filled <= width,
            filled > width ==> filled == count,
            out@ == zeros(filled - count),
            count == digits@.len(),
        decreases width - filled,
    {
        out.push('0');
        filled = filled + 1;
        assert(out@ =~= zeros(filled - count));
    }
    assert(zeros(width - count) =~= out@);
    out.append(digits.as_str());
    out
}

pub fn padded_i64(n: i64, width: usize) -> (r: String)
    requires
        width >= 1,
    ensures
        r@ == padded_int(n as int, width as nat),
{
    if n < 0 {
        let magnitude: i128 = -(n as i128);
        let digits = padded_u64(magnitude as u64, width - 1);
        let mut out = copy("-");
        out.append(digits.as_str());
        out
    } else {
        padded_u64(n as u64, width)
    }
}

/// Adding a leading zero does not change what a run of digits denotes.
pub proof fn number_of_zeros(count: int, s: Seq<char>)
    ensures
        number(zeros(count) + s) == number(s),
        all_digits(s) ==> all_digits(zeros(count) + s),
    decreases s.len(), count,
{
    if s.len() == 0 {
        assert(zeros(count) + s =~= zeros(count));
        if count > 0 {
            number_of_zeros(count - 1, s);
            assert(zeros(count - 1) + s =~= zeros(count - 1));
            assert(zeros(count).drop_last() =~= zeros(count - 1));
            assert(digit_value('0') == 0);
        }
    } else {
        number_of_zeros(count, s.drop_last());
        assert((zeros(count) + s).drop_last() =~= zeros(count) + s.drop_last());
    }
}

/// A padded rendering denotes the number, and is as long as asked for when the
/// number fits.
pub proof fn padded_denotes(n: nat, width: nat)
    ensures
        all_digits(padded(n, width)),
        number(padded(n, width)) == n,
        decimal(n).len() <= width ==> padded(n, width).len() == width,
{
    decimal_denotes(n);
    number_of_zeros(width - decimal(n).len(), decimal(n));
}

/// How the standard library renders a text for debugging: in quotes, with the
/// characters escaped that a string literal would escape.
pub uninterp spec fn debug_text(s: Seq<char>) -> Seq<char>;

/// The `Debug` rendering of a `str`, as `format!("{s:?}")` gives it. The
/// result depends on the text alone.
#[verifier::external_body]
pub(crate) fn debug(s: &str) -> (r: String)
    ensures
        r@ == debug_text(s@),
{
    format!("{s:?}")
}

/// How many bytes UTF-8 takes for a character.
pub open spec fn char_bytes(c: char) -> nat {
    if '\u{80}' > c {
        1
    } else if '\u{800}' > c {
        2
    } else if '\u{10000}' > c {
        3
    } else {
        4
    }
}

/// How many bytes UTF-8 takes for a text.
pub open spec fn bytes(s: Seq<char>) -> nat
    decreases s.len(),
{
    if s.len() == 0 {
        0
    } else {
        bytes(s.drop_last()) + char_bytes(s.last())
    }
}

pub proof fn bytes_concat(a: Seq<char>, b: Seq<char>)
    ensures
        bytes(a + b) == bytes(a) + bytes(b),
    decreases b.len(),
{
    if b.len() == 0 {
        assert(a + b =~= a);
    } else {
        assert((a + b).drop_last() =~= a + b.drop_last());
        bytes_concat(a, b.drop_last());
    }
}

pub proof fn bytes_at_most(s: Seq<char>)
    ensures
        s.len() <= bytes(s) <= 4 * s.len(),
    decreases s.len(),
{
    if s.len() > 0 {
        bytes_at_most(s.drop_last());
    }
}

/// How many bytes a text takes.
pub fn byte_length(s: &str) -> (r: u128)
    ensures
        r == bytes(s@),
{
    let chars = chars_of(s);
    let mut total: u128 = 0;
    for i in 0..chars.len()
        invariant
            chars@ == s@,
            total == bytes(chars@.take(i as int)),
            total <= 4 * i,
    {
        let c = chars[i];
        assert(chars@.take(i + 1).drop_last() =~= chars@.take(i as int));
        assert(chars@.take(i + 1).last() == c);
        let width: u128 = if '\u{80}' > c {
            1
        } else if '\u{800}' > c {
            2
        } else if '\u{10000}' > c {
            3
        } else {
            4
        };
        total = total + width;
    }
    assert(chars@.take(chars@.len() as int) =~= s@);
    total
}

/// So many blanks.
pub open spec fn blanks(count: int) -> Seq<char> {
    Seq::new(
        if count > 0 {
            count as nat
        } else {
            0
        },
        |i: int| ' ',
    )
}

/// A text, filled up with blanks behind it.
pub open spec fn filled(s: Seq<char>, width: nat) -> Seq<char> {
    s + blanks(width - s.len())
}

/// A text, filled up with blanks before it.
pub open spec fn shifted(s: Seq<char>, width: nat) -> Seq<char> {
    blanks(width - s.len()) + s
}

fn some_blanks(length: usize, width: usize) -> (r: String)
    ensures
        r@ == blanks(width - length),
{
    proof {
        reveal_strlit("");
    }
    let mut out = copy("");
    assert(out@ =~= blanks(0));
    let mut i: usize = length;
    assert(length >= width ==> blanks(width - length) =~= blanks(0));
    while i < width
        invariant
            length <= i,
            i <= width || length >= width,
            length >= width ==> i == length && out@ == blanks(width - length),
            length < width ==> i <= width && out@ == blanks(i - length),
        decreases width - i,
    {
        out.push(' ');
        assert(blanks(i - length).push(' ') =~= blanks(i - length + 1));
        i = i + 1;
    }
    out
}

/// Fills a text up with blanks behind it.
pub fn fill(s: &str, width: usize) -> (r: String)
    ensures
        r@ == filled(s@, width as nat),
{
    let chars = chars_of(s);
    let mut out = copy(s);
    out.append(some_blanks(chars.len(), width).as_str());
    out
}

/// Fills a text up with blanks before it.
pub fn shift(s: &str, width: usize) -> (r: String)
    ensures
        r@ == shifted(s@, width as nat),
{
    let chars = chars_of(s);
    let mut out = some_blanks(chars.len(), width);
    out.append(s);
    out
}

/// Whether a text stands somewhere in another.
pub open spec fn occurs(part: Seq<char>, s: Seq<char>) -> bool {
    exists|i: int| 0 <= i <= s.len() - part.len() && #[trigger] s.subrange(i, i + part.len()) == part
}

/// Whether a text stands somewhere in another.
pub fn contains(s: &str, part: &str) -> (r: bool)
    ensures
        r == occurs(part@, s@),
{
    let chars = chars_of(s);
    let wanted = chars_of(part);
    if wanted.len() > chars.len() {
        return false;
    }
    let total: usize = chars.len();
    let width: usize = wanted.len();
    let last: usize = total - width;
    let mut i: usize = 0;
    loop
        invariant
            chars@ == s@,
            wanted@ == part@,
            total == chars@.len(),
            width == wanted@.len(),
            last + width == total,
            i <= last,
            forall|k: int| 0 <= k < i ==> #[trigger] s@.subrange(k, k + part@.len()) != part@,
        decreases last - i,
    {
        let here = slice_text(&chars, i, i + width);
        if same(here.as_str(), part) {
            assert(s@.subrange(i as int, i + part@.len()) == part@);
            return true;
        }
        if i == last {
            return false;
        }
        i = i + 1;
    }
}

/// Texts, separated by another.
pub open spec fn joined_by(list: Seq<Seq<char>>, separator: Seq<char>) -> Seq<char>
    decreases list.len(),
{
    if list.len() == 0 {
        Seq::empty()
    } else if list.len() == 1 {
        list[0]
    } else {
        joined_by(list.drop_last(), separator) + separator + list.last()
    }
}

/// Joins texts, with another between each two.
pub fn join(list: &Vec<String>, separator: &str) -> (r: String)
    ensures
        r@ == joined_by(list@.map_values(|s: String| s@), separator@),
{
    let ghost all = list@.map_values(|s: String| s@);
    proof {
        reveal_strlit("");
    }
    let mut out = copy("");
    assert(out@ =~= joined_by(all.take(0), separator@));
    for i in 0..list.len()
        invariant
            all == list@.map_values(|s: String| s@),
            out@ == joined_by(all.take(i as int), separator@),
    {
        assert(all.take(i + 1).drop_last() =~= all.take(i as int));
        assert(all.take(i + 1).last() == list@[i as int]@);
        if i > 0 {
            out.append(separator);
            out.append(list[i].as_str());
        } else {
            out = copy(list[i].as_str());
        }
    }
    assert(all.take(all.len() as int) =~= all);
    out
}

pub open spec fn power10(w: nat) -> nat
    decreases w,
{
    if w == 0 {
        1
    } else {
        10 * power10((w - 1) as nat)
    }
}

/// A number below the `w`-th power of ten has at most `w` digits.
pub proof fn decimal_length(n: nat, w: nat)
    requires
        w > 0,
        n < power10(w),
    ensures
        decimal(n).len() <= w,
    decreases w,
{
    reveal_with_fuel(power10, 2);
    if n >= 10 {
        if w == 1 {
            assert(power10(0) == 1);
        } else {
            decimal_length(n / 10, (w - 1) as nat);
        }
    }
}

}
