//! Texts typed by a user: blanks, words and numbers.

use vstd::prelude::*;
use vstd::string::*;

use crate::order;
use crate::order::views;
use crate::text;
use crate::text::all_digits;
use crate::text::is_digit;
use crate::text::number;

verus! {

/// The characters that Unicode counts as white space.
pub open spec fn blank(c: char) -> bool {
    ||| '\u{9}' <= c <= '\u{d}'
    ||| c == '\u{20}'
    ||| c == '\u{85}'
    ||| c == '\u{a0}'
    ||| c == '\u{1680}'
    ||| '\u{2000}' <= c <= '\u{200a}'
    ||| c == '\u{2028}'
    ||| c == '\u{2029}'
    ||| c == '\u{202f}'
    ||| c == '\u{205f}'
    ||| c == '\u{3000}'
}

fn is_blank(c: char) -> (r: bool)
    ensures
        r == blank(c),
{
    ('\u{9}' <= c && c <= '\u{d}') || c == '\u{20}' || c == '\u{85}' || c == '\u{a0}' || c == '\u{1680}' || ('\u{2000}'
        <= c && c <= '\u{200a}') || c == '\u{2028}' || c == '\u{2029}' || c == '\u{202f}' || c == '\u{205f}' || c
        == '\u{3000}'
}

/// A text without the blanks at its end.
pub open spec fn trimmed_end(s: Seq<char>) -> Seq<char>
    decreases s.len(),
{
    if s.len() > 0 && blank(s.last()) {
        trimmed_end(s.drop_last())
    } else {
        s
    }
}

/// A text without the blanks at its start and at its end.
pub open spec fn trimmed(s: Seq<char>) -> Seq<char>
    decreases s.len(),
{
    if s.len() > 0 && blank(s[0]) {
        trimmed(s.skip(1))
    } else {
        trimmed_end(s)
    }
}

/// Drops the blanks at both ends.
pub fn trim(s: &str) -> (r: String)
    ensures
        r@ == trimmed(s@),
{
    let chars = text::chars_of(s);
    let mut from: usize = 0;
    assert(chars@.skip(0) =~= chars@);
    while from < chars.len() && is_blank(chars[from])
        invariant
            from <= chars@.len(),
            chars@ == s@,
            trimmed(chars@.skip(from as int)) == trimmed(s@),
        decreases chars@.len() - from,
    {
        assert(chars@.skip(from as int)[0] == chars@[from as int]);
        assert(chars@.skip(from as int).skip(1) =~= chars@.skip(from + 1));
        from = from + 1;
    }
    let ghost rest = chars@.skip(from as int);
    assert(rest.len() > 0 ==> rest[0] == chars@[from as int]);
    let mut to: usize = chars.len();
    assert(chars@.subrange(from as int, to as int) =~= rest);
    while to > from && is_blank(chars[to - 1])
        invariant
            from <= to <= chars@.len(),
            trimmed_end(chars@.subrange(from as int, to as int)) == trimmed(s@),
        decreases to,
    {
        let ghost part = chars@.subrange(from as int, to as int);
        assert(part.last() == chars@[to - 1]);
        assert(part.drop_last() =~= chars@.subrange(from as int, to - 1));
        to = to - 1;
    }
    let ghost part = chars@.subrange(from as int, to as int);
    assert(part.len() > 0 ==> part.last() == chars@[to - 1]);
    text::slice_text(&chars, from, to)
}

/// The words of a text and, behind them, the one that it breaks off in, which
/// is empty after a blank.
pub open spec fn cut(s: Seq<char>) -> (Seq<Seq<char>>, Seq<char>)
    decreases s.len(),
{
    if s.len() == 0 {
        (Seq::empty(), Seq::empty())
    } else {
        let (done, open) = cut(s.drop_last());
        if !blank(s.last()) {
            (done, open.push(s.last()))
        } else if open.len() == 0 {
            (done, open)
        } else {
            (done.push(open), Seq::empty())
        }
    }
}

/// The words of a text: its stretches without blanks.
pub open spec fn words_of(s: Seq<char>) -> Seq<Seq<char>> {
    let (done, open) = cut(s);
    if open.len() == 0 {
        done
    } else {
        done.push(open)
    }
}

/// Splits a text at its blanks.
pub fn words(s: &str) -> (r: Vec<String>)
    ensures
        views(r@) == words_of(s@),
{
    let chars = text::chars_of(s);
    let mut done: Vec<String> = Vec::new();
    proof {
        reveal_strlit("");
    }
    let mut open = text::copy("");
    let mut empty = true;
    assert(open@ =~= Seq::<char>::empty());
    assert(views(done@) =~= Seq::<Seq<char>>::empty());
    for i in 0..chars.len()
        invariant
            chars@ == s@,
            empty == (open@.len() == 0),
            (views(done@), open@) == cut(chars@.take(i as int)),
    {
        let c = chars[i];
        assert(chars@.take(i + 1).drop_last() =~= chars@.take(i as int));
        assert(chars@.take(i + 1).last() == c);
        if !is_blank(c) {
            open.push(c);
            empty = false;
        } else if !empty {
            proof {
                order::push_contains(done@, open);
                reveal_strlit("");
            }
            done.push(open);
            open = text::copy("");
            assert(open@ =~= Seq::<char>::empty());
            empty = true;
        }
    }
    assert(chars@.take(chars@.len() as int) =~= s@);
    if !empty {
        proof {
            order::push_contains(done@, open);
        }
        done.push(open);
    }
    done
}

/// The number that a text of digits stands for, where it is at most `limit`.
fn digits_value(chars: &Vec<char>, from: usize, limit: u64) -> (r: Option<u64>)
    requires
        from <= chars@.len(),
    ensures
        ({
            let body = chars@.skip(from as int);
            let valid = body.len() > 0 && all_digits(body) && number(body) <= limit;
            &&& r is Some == valid
            &&& valid ==> r->0 == number(body)
        }),
{
    let ghost body = chars@.skip(from as int);
    if from == chars.len() {
        return None;
    }
    let mut value: u128 = 0;
    let mut over = false;
    assert(body.take(0) =~= Seq::<char>::empty());
    for i in from..chars.len()
        invariant
            from <= chars@.len(),
            body == chars@.skip(from as int),
            all_digits(body.take(i - from)),
            over ==> number(body.take(i - from)) > limit,
            !over ==> value == number(body.take(i - from)) && value <= limit,
    {
        let c = chars[i];
        assert(body[i - from] == c);
        let ghost more = body.take(i - from + 1);
        assert(more.drop_last() =~= body.take(i - from));
        assert(more.last() == c);
        if !(c >= '0' && c <= '9') {
            assert(!is_digit(body[i - from]));
            return None;
        }
        assert(number(more) == number(body.take(i - from)) * 10 + text::digit_value(c));
        assert forall|k: int| 0 <= k < more.len() implies is_digit(#[trigger] more[k]) by {
            if k < more.len() - 1 {
                assert(more[k] == body.take(i - from)[k]);
            }
        }
        if !over {
            value = value * 10 + (c as u128 - 48);
            if value > limit as u128 {
                over = true;
            }
        }
    }
    assert(body.take(body.len() as int) =~= body);
    if over {
        None
    } else {
        Some(value as u64)
    }
}

/// The number that a text stands for: digits, perhaps behind a plus sign.
pub open spec fn unsigned(s: Seq<char>) -> Option<nat> {
    let body = if s.len() > 0 && s[0] == '+' {
        s.skip(1)
    } else {
        s
    };
    if body.len() > 0 && all_digits(body) && number(body) <= u64::MAX {
        Some(number(body))
    } else {
        None
    }
}

/// Reads a number without a sign, or with a plus sign.
pub fn parse_u64(s: &str) -> (r: Option<u64>)
    ensures
        r is Some == unsigned(s@) is Some,
        r is Some ==> r->0 == unsigned(s@)->0,
{
    let chars = text::chars_of(s);
    if chars.len() > 0 && chars[0] == '+' {
        digits_value(&chars, 1, u64::MAX)
    } else {
        assert(chars@.skip(0) =~= s@);
        digits_value(&chars, 0, u64::MAX)
    }
}

/// The number that a text stands for: digits, perhaps behind a sign.
pub open spec fn signed(s: Seq<char>) -> Option<int> {
    let negative = s.len() > 0 && s[0] == '-';
    let body = if s.len() > 0 && (s[0] == '+' || s[0] == '-') {
        s.skip(1)
    } else {
        s
    };
    let value = if negative {
        -number(body)
    } else {
        number(body) as int
    };
    if body.len() > 0 && all_digits(body) && i64::MIN <= value <= i64::MAX {
        Some(value)
    } else {
        None
    }
}

/// Reads a number that may have a sign.
pub fn parse_i64(s: &str) -> (r: Option<i64>)
    ensures
        r is Some == signed(s@) is Some,
        r is Some ==> r->0 == signed(s@)->0,
{
    let chars = text::chars_of(s);
    if chars.len() > 0 && chars[0] == '-' {
        match digits_value(&chars, 1, 0x8000_0000_0000_0000) {
            Some(magnitude) => Some((-(magnitude as i128)) as i64),
            None => None,
        }
    } else {
        let from: usize = if chars.len() > 0 && chars[0] == '+' {
            1
        } else {
            0
        };
        assert(chars@.skip(0) =~= s@);
        match digits_value(&chars, from, 0x7fff_ffff_ffff_ffff) {
            Some(magnitude) => Some(magnitude as i64),
            None => None,
        }
    }
}

// ---------------------------------------------------------------------------
// What the calls promise
// ---------------------------------------------------------------------------

/// A number that was written is read back.
pub proof fn a_written_number_is_read_back(n: i64, m: u64, a: String, b: String, s: &str, t: &str, r: Option<i64>, u: Option<u64>)
    requires
        call_ensures(text::decimal_i64, (n,), a),
        call_ensures(text::decimal_u64, (m,), b),
        s@ == a@,
        t@ == b@,
        call_ensures(parse_i64, (s,), r),
        call_ensures(parse_u64, (t,), u),
    ensures
        r == Some(n),
        u == Some(m),
{
    text::decimal_denotes(m as nat);
    assert(t@[0] != '+') by {
        assert(text::is_digit(t@[0]));
    }
    if n >= 0 {
        text::decimal_denotes(n as nat);
        assert(text::is_digit(s@[0]));
    } else {
        let body = text::decimal((-n) as nat);
        text::decimal_denotes((-n) as nat);
        reveal_strlit("-");
        assert(s@ == "-"@ + body);
        assert(s@[0] == '-');
        assert(s@.skip(1) =~= body);
    }
}

/// The words of two texts with a blank between them are the words of the one and
/// then those of the other.
pub proof fn a_blank_parts_words(first: &str, second: &str, whole: &str, a: Vec<String>, b: Vec<String>, c: Vec<String>)
    requires
        whole@ == first@ + seq![' '] + second@,
        call_ensures(words, (first,), a),
        call_ensures(words, (second,), b),
        call_ensures(words, (whole,), c),
    ensures
        views(c@) == views(a@) + views(b@),
{
    cut_behind_blank(first@, second@);
    let (done, open) = cut(second@);
    assert(words_of(first@) + done.push(open) =~= (words_of(first@) + done).push(open));
}

proof fn cut_behind_blank(first: Seq<char>, second: Seq<char>)
    ensures
        cut(first + seq![' '] + second) == (words_of(first) + cut(second).0, cut(second).1),
    decreases second.len(),
{
    let whole = first + seq![' '] + second;
    if second.len() == 0 {
        assert(whole =~= first.push(' '));
        assert(whole.drop_last() =~= first);
        assert(words_of(first) + Seq::<Seq<char>>::empty() =~= words_of(first));
    } else {
        let head = second.drop_last();
        cut_behind_blank(first, head);
        assert(whole.drop_last() =~= first + seq![' '] + head);
        assert(whole.last() == second.last());
        let (done, open) = cut(head);
        assert((words_of(first) + done).push(open) =~= words_of(first) + done.push(open));
    }
}

/// A text without blanks is one word.
pub proof fn a_text_without_blanks_is_one_word(s: &str, r: Vec<String>)
    requires
        s@.len() > 0,
        forall|i: int| 0 <= i < s@.len() ==> !blank(#[trigger] s@[i]),
        call_ensures(words, (s,), r),
    ensures
        r@.len() == 1,
        r@[0]@ == s@,
{
    uncut(s@);
    assert(views(r@) =~= seq![s@]);
    assert(views(r@).len() == r@.len());
    assert(views(r@)[0] == r@[0]@);
}

proof fn uncut(s: Seq<char>)
    requires
        forall|i: int| 0 <= i < s.len() ==> !blank(#[trigger] s[i]),
    ensures
        cut(s) == (Seq::<Seq<char>>::empty(), s),
    decreases s.len(),
{
    if s.len() > 0 {
        let head = s.drop_last();
        assert forall|i: int| 0 <= i < head.len() implies !blank(#[trigger] head[i]) by {
            assert(head[i] == s[i]);
        }
        uncut(head);
        assert(s.last() == s[s.len() - 1]);
        assert(head.push(s.last()) =~= s);
    }
}

} // verus!
