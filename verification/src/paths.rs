//! Paths: how a text is read as a path, which paths stay below a root, and
//! where the files of a workspace stand.
//!
//! The platform says how a text is read. Everywhere the names of a path are its
//! components; what separates them, and what a path may begin with, differs.

use vstd::prelude::*;
use vstd::string::*;

use crate::error::{Fault, Result, RewindError};
use crate::order;
use crate::order::views;
use crate::outside;
use crate::text;

verus! {

/// The platform whose rules a path follows.
#[derive(Clone, Copy, Debug, PartialEq, Eq, Structural)]
pub enum Platform {
    /// Slashes separate names, and an absolute path begins with one.
    Posix,
    /// Slashes and backslashes separate names, and a path may begin with a drive
    /// or another prefix.
    Windows,
}

/// Which characters separate names.
#[derive(Clone, Copy, Debug, PartialEq, Eq, Structural)]
pub enum Separators {
    Slash,
    Either,
    Backslash,
}

impl Separators {
    pub open spec fn has(self, c: char) -> bool {
        match self {
            Separators::Slash => c == '/',
            Separators::Either => c == '/' || c == '\\',
            Separators::Backslash => c == '\\',
        }
    }

    fn holds(self, c: char) -> (r: bool)
        ensures
            r == self.has(c),
    {
        match self {
            Separators::Slash => c == '/',
            Separators::Either => c == '/' || c == '\\',
            Separators::Backslash => c == '\\',
        }
    }
}

/// The separator that a path is written with.
pub open spec fn separator(platform: Platform) -> char {
    match platform {
        Platform::Posix => '/',
        Platform::Windows => '\\',
    }
}

fn main_separator(platform: Platform) -> (r: char)
    ensures
        r == separator(platform),
{
    match platform {
        Platform::Posix => '/',
        Platform::Windows => '\\',
    }
}

/// What a path of Windows may begin with.
#[derive(Clone, Copy, Debug, PartialEq, Eq, Structural)]
pub enum PrefixKind {
    /// A drive, such as `C:`.
    Disk,
    /// A share of a server, `\\server\share`.
    Share,
    /// A device, `\\.\name`.
    Device,
    /// A drive whose path is taken as it is written, `\\?\C:`.
    VerbatimDisk,
    /// A share whose path is taken as it is written, `\\?\UNC\server\share`.
    VerbatimShare,
    /// Anything else that is taken as it is written, `\\?\name`.
    Verbatim,
}

impl PrefixKind {
    /// Whether what follows is taken as it is written: only backslashes separate
    /// its names, and a dot is a component.
    pub open spec fn verbatim(self) -> bool {
        self is VerbatimDisk || self is VerbatimShare || self is Verbatim
    }

    /// Whether a path with this prefix has a root even where none is written.
    pub open spec fn has_root(self) -> bool {
        self is Share || self is Device
    }

    fn is_verbatim(self) -> (r: bool)
        ensures
            r == self.verbatim(),
    {
        match self {
            PrefixKind::VerbatimDisk | PrefixKind::VerbatimShare | PrefixKind::Verbatim => true,
            PrefixKind::Disk | PrefixKind::Share | PrefixKind::Device => false,
        }
    }

    fn is_rooted(self) -> (r: bool)
        ensures
            r == self.has_root(),
    {
        match self {
            PrefixKind::Share | PrefixKind::Device => true,
            _ => false,
        }
    }
}

/// One component of a path.
#[derive(Clone, Debug)]
pub enum Component {
    Prefix(PrefixKind, String),
    Root,
    Current,
    Parent,
    Normal(String),
}

/// What a component is.
pub enum Part {
    Prefix(PrefixKind, Seq<char>),
    Root,
    Current,
    Parent,
    Name(Seq<char>),
}

impl View for Component {
    type V = Part;

    open spec fn view(&self) -> Part {
        match self {
            Component::Prefix(kind, written) => Part::Prefix(*kind, written@),
            Component::Root => Part::Root,
            Component::Current => Part::Current,
            Component::Parent => Part::Parent,
            Component::Normal(name) => Part::Name(name@),
        }
    }
}

/// The place of the first separator from a place on; the end where there is
/// none.
pub open spec fn stop(s: Seq<char>, from: int, marks: Separators) -> int
    decreases s.len() - from,
{
    if from < 0 || from >= s.len() {
        s.len() as int
    } else if marks.has(s[from]) {
        from
    } else {
        stop(s, from + 1, marks)
    }
}

/// Where the second of two names ends, or the first where there is no second.
pub open spec fn second_stop(s: Seq<char>, from: int, marks: Separators) -> int {
    let first = stop(s, from, marks);
    if first + 1 < s.len() {
        let second = stop(s, first + 1, marks);
        if second > first + 1 {
            second
        } else {
            first
        }
    } else {
        first
    }
}

pub open spec fn is_letter(c: char) -> bool {
    'a' <= c <= 'z' || 'A' <= c <= 'Z'
}

/// Whether a drive is written at a place.
pub open spec fn drive_at(s: Seq<char>, i: int) -> bool {
    i + 1 < s.len() && is_letter(s[i]) && s[i + 1] == ':'
}

/// What a path of Windows begins with, and where that ends.
pub open spec fn prefix_of(s: Seq<char>) -> Option<(PrefixKind, int)> {
    let either = Separators::Either;
    if !(s.len() >= 2 && either.has(s[0]) && either.has(s[1])) {
        if drive_at(s, 0) {
            Some((PrefixKind::Disk, 2))
        } else {
            None
        }
    } else if s.len() >= 4 && s[0] == '\\' && s[1] == '\\' && s[2] == '?' && s[3] == '\\' {
        if s.len() >= 8 && s[4] == 'U' && s[5] == 'N' && s[6] == 'C' && either.has(s[7]) {
            Some((PrefixKind::VerbatimShare, second_stop(s, 8, Separators::Backslash)))
        } else if drive_at(s, 4) && (s.len() == 6 || either.has(s[6])) {
            Some((PrefixKind::VerbatimDisk, 6))
        } else {
            Some((PrefixKind::Verbatim, stop(s, 4, Separators::Backslash)))
        }
    } else if s.len() >= 4 && s[2] == '.' && either.has(s[3]) {
        Some((PrefixKind::Device, stop(s, 4, either)))
    } else if 2 < stop(s, 2, either) < second_stop(s, 2, either) {
        Some((PrefixKind::Share, second_stop(s, 2, either)))
    } else {
        None
    }
}

proof fn stop_in_range(s: Seq<char>, from: int, marks: Separators)
    requires
        0 <= from <= s.len(),
    ensures
        from <= stop(s, from, marks) <= s.len(),
    decreases s.len() - from,
{
    if from < s.len() && !marks.has(s[from]) {
        stop_in_range(s, from + 1, marks);
    }
}

/// A prefix is a part of the path.
proof fn prefix_in_range(s: Seq<char>)
    ensures
        prefix_of(s) matches Some((kind, end)) ==> 0 < end <= s.len(),
{
    assert forall|from: int, marks: Separators| 0 <= from <= s.len() implies from <= #[trigger] stop(s, from, marks)
        <= s.len() by {
        stop_in_range(s, from, marks);
    }
}

fn find_stop(chars: &Vec<char>, from: usize, marks: Separators) -> (r: usize)
    requires
        from <= chars@.len(),
    ensures
        r == stop(chars@, from as int, marks),
        from <= r <= chars@.len(),
{
    let mut i: usize = from;
    while i < chars.len()
        invariant
            from <= i <= chars@.len(),
            stop(chars@, from as int, marks) == stop(chars@, i as int, marks),
        decreases chars@.len() - i,
    {
        if marks.holds(chars[i]) {
            return i;
        }
        i = i + 1;
    }
    i
}

fn find_second_stop(chars: &Vec<char>, from: usize, marks: Separators) -> (r: usize)
    requires
        from <= chars@.len(),
    ensures
        r == second_stop(chars@, from as int, marks),
        from <= r <= chars@.len(),
{
    let first = find_stop(chars, from, marks);
    if first < chars.len() && first + 1 < chars.len() {
        let second = find_stop(chars, first + 1, marks);
        if second > first + 1 {
            return second;
        }
    }
    first
}

fn has_drive(chars: &Vec<char>, i: usize) -> (r: bool)
    requires
        i < usize::MAX,
    ensures
        r == drive_at(chars@, i as int),
{
    if i + 1 >= chars.len() {
        return false;
    }
    let c = chars[i];
    (('a' <= c && c <= 'z') || ('A' <= c && c <= 'Z')) && chars[i + 1] == ':'
}

fn find_prefix(chars: &Vec<char>) -> (r: Option<(PrefixKind, usize)>)
    ensures
        match r {
            Some((kind, end)) => prefix_of(chars@) == Some((kind, end as int)) && 0 < end <= chars@.len(),
            None => prefix_of(chars@) is None,
        },
{
    proof {
        prefix_in_range(chars@);
    }
    let either = Separators::Either;
    let count = chars.len();
    if !(count >= 2 && either.holds(chars[0]) && either.holds(chars[1])) {
        if has_drive(chars, 0) {
            return Some((PrefixKind::Disk, 2));
        }
        return None;
    }
    if count >= 4 && chars[0] == '\\' && chars[1] == '\\' && chars[2] == '?' && chars[3] == '\\' {
        if count >= 8 && chars[4] == 'U' && chars[5] == 'N' && chars[6] == 'C' && either.holds(chars[7]) {
            return Some((PrefixKind::VerbatimShare, find_second_stop(chars, 8, Separators::Backslash)));
        }
        if has_drive(chars, 4) && (count == 6 || either.holds(chars[6])) {
            return Some((PrefixKind::VerbatimDisk, 6));
        }
        return Some((PrefixKind::Verbatim, find_stop(chars, 4, Separators::Backslash)));
    }
    if count >= 4 && chars[2] == '.' && either.holds(chars[3]) {
        return Some((PrefixKind::Device, find_stop(chars, 4, either)));
    }
    let server = find_stop(chars, 2, either);
    let share = find_second_stop(chars, 2, either);
    if 2 < server && server < share {
        Some((PrefixKind::Share, share))
    } else {
        None
    }
}

/// The stretches of a text between its separators.
pub open spec fn pieces(marks: Separators, s: Seq<char>) -> Seq<Seq<char>>
    decreases s.len(),
{
    if s.len() == 0 {
        seq![Seq::empty()]
    } else {
        let head = pieces(marks, s.drop_last());
        if marks.has(s.last()) {
            head.push(Seq::empty())
        } else {
            head.drop_last().push(head.last().push(s.last()))
        }
    }
}

/// Where a dot is a component.
#[derive(Clone, Copy, Debug, PartialEq, Eq, Structural)]
pub enum Dots {
    /// Where it begins the path.
    First,
    Never,
    Always,
}

impl Dots {
    pub open spec fn count(self, first: bool) -> bool {
        self is Always || (self is First && first)
    }

    fn counts(self, first: bool) -> (r: bool)
        ensures
            r == self.count(first),
    {
        match self {
            Dots::First => first,
            Dots::Never => false,
            Dots::Always => true,
        }
    }
}

/// What a stretch stands for: nothing where it is empty, nor where it is a dot
/// that does not count.
pub open spec fn part(piece: Seq<char>, dot: bool) -> Option<Part> {
    if piece == ""@ {
        None
    } else if piece == "."@ {
        if dot {
            Some(Part::Current)
        } else {
            None
        }
    } else if piece == ".."@ {
        Some(Part::Parent)
    } else {
        Some(Part::Name(piece))
    }
}

/// The components that the stretches of a path stand for.
pub open spec fn parts(list: Seq<Seq<char>>, dots: Dots) -> Seq<Part>
    decreases list.len(),
{
    if list.len() == 0 {
        Seq::empty()
    } else {
        let head = parts(list.drop_last(), dots);
        match part(list.last(), dots.count(list.len() == 1)) {
            Some(p) => head.push(p),
            None => head,
        }
    }
}

/// Whether a text begins with a separator.
pub open spec fn rooted(marks: Separators, s: Seq<char>) -> bool {
    s.len() > 0 && marks.has(s[0])
}

/// The components of a path without a prefix.
pub open spec fn plain_components(marks: Separators, s: Seq<char>) -> Seq<Part> {
    (if rooted(marks, s) {
        seq![Part::Root]
    } else {
        Seq::empty()
    }) + parts(pieces(marks, s), Dots::First)
}

/// What follows a prefix, without the separator that it begins with.
pub open spec fn behind(s: Seq<char>, end: int) -> Seq<char> {
    if rooted(Separators::Either, s.skip(end)) {
        s.skip(end + 1)
    } else {
        s.skip(end)
    }
}

/// The components of a path with a prefix.
pub open spec fn prefixed_components(s: Seq<char>, kind: PrefixKind, end: int) -> Seq<Part> {
    seq![Part::Prefix(kind, s.take(end))] + (if kind.has_root() || rooted(Separators::Either, s.skip(end)) {
        seq![Part::Root]
    } else {
        Seq::empty()
    }) + (if kind.verbatim() {
        parts(pieces(Separators::Backslash, behind(s, end)), Dots::Always)
    } else {
        parts(pieces(Separators::Either, behind(s, end)), Dots::Never)
    })
}

/// The components of a path.
pub open spec fn components_of(platform: Platform, s: Seq<char>) -> Seq<Part> {
    match platform {
        Platform::Posix => plain_components(Separators::Slash, s),
        Platform::Windows => match prefix_of(s) {
            None => plain_components(Separators::Either, s),
            Some((kind, end)) => prefixed_components(s, kind, end),
        },
    }
}

pub proof fn pieces_nonempty(marks: Separators, s: Seq<char>)
    ensures
        pieces(marks, s).len() > 0,
    decreases s.len(),
{
    if s.len() > 0 {
        pieces_nonempty(marks, s.drop_last());
    }
}

fn split(chars: &Vec<char>, from: usize, marks: Separators) -> (r: Vec<String>)
    requires
        from <= chars@.len(),
    ensures
        views(r@) == pieces(marks, chars@.skip(from as int)),
        r@.len() > 0,
{
    let ghost s = chars@.skip(from as int);
    let mut done: Vec<String> = Vec::new();
    proof {
        reveal_strlit("");
    }
    let mut open = text::copy("");
    assert(open@ =~= Seq::<char>::empty());
    assert(views(done@).push(open@) =~= pieces(marks, s.take(0)));
    for i in from..chars.len()
        invariant
            from <= chars@.len(),
            s == chars@.skip(from as int),
            views(done@).push(open@) == pieces(marks, s.take(i - from)),
    {
        let c = chars[i];
        let ghost so_far = s.take(i - from);
        let ghost next = s.take(i + 1 - from);
        assert(next.drop_last() =~= so_far);
        assert(next.last() == c);
        assert(pieces(marks, so_far).drop_last() =~= views(done@));
        if marks.holds(c) {
            proof {
                order::push_contains(done@, open);
                reveal_strlit("");
            }
            done.push(open);
            open = text::copy("");
            assert(open@ =~= Seq::<char>::empty());
            assert(views(done@).push(open@) =~= pieces(marks, next));
        } else {
            open.push(c);
        }
    }
    assert(s.take(chars@.len() - from) =~= s);
    proof {
        order::push_contains(done@, open);
    }
    done.push(open);
    done
}

fn add_parts(out: &mut Vec<Component>, list: &Vec<String>, dots: Dots)
    ensures
        views(final(out)@) == views(old(out)@) + parts(views(list@), dots),
{
    let ghost start = views(out@);
    assert(start =~= start + parts(views(list@).take(0), dots));
    for i in 0..list.len()
        invariant
            views(out@) == start + parts(views(list@).take(i as int), dots),
    {
        let ghost done = views(list@).take(i + 1);
        assert(done.drop_last() =~= views(list@).take(i as int));
        assert(done.last() == list@[i as int]@);
        let piece = list[i].as_str();
        let found = if text::same(piece, "") {
            None
        } else if text::same(piece, ".") {
            if dots.counts(i == 0) {
                Some(Component::Current)
            } else {
                None
            }
        } else if text::same(piece, "..") {
            Some(Component::Parent)
        } else {
            Some(Component::Normal(text::copy(piece)))
        };
        match found {
            Some(c) => {
                proof {
                    order::push_contains(out@, c);
                    assert(views(out@).push(c@) =~= start + parts(views(list@).take(i as int), dots).push(c@));
                }
                out.push(c);
            },
            None => {},
        }
    }
    assert(views(list@).take(list@.len() as int) =~= views(list@));
}

fn plain(chars: &Vec<char>, marks: Separators) -> (r: Vec<Component>)
    ensures
        views(r@) == plain_components(marks, chars@),
{
    let mut out: Vec<Component> = Vec::new();
    if chars.len() > 0 && marks.holds(chars[0]) {
        out.push(Component::Root);
    }
    assert(views(out@) =~= if rooted(marks, chars@) {
        seq![Part::Root]
    } else {
        Seq::empty()
    });
    let list = split(chars, 0, marks);
    assert(chars@.skip(0) =~= chars@);
    add_parts(&mut out, &list, Dots::First);
    out
}

fn prefixed(chars: &Vec<char>, kind: PrefixKind, end: usize) -> (r: Vec<Component>)
    requires
        end <= chars@.len(),
    ensures
        views(r@) == prefixed_components(chars@, kind, end as int),
{
    let mut out: Vec<Component> = Vec::new();
    let first = Component::Prefix(kind, text::slice_text(chars, 0, end));
    assert(chars@.subrange(0, end as int) =~= chars@.take(end as int));
    out.push(first);
    let physical = end < chars.len() && Separators::Either.holds(chars[end]);
    assert(physical == rooted(Separators::Either, chars@.skip(end as int)));
    if kind.is_rooted() || physical {
        out.push(Component::Root);
    }
    let ghost start = views(out@);
    assert(start =~= seq![Part::Prefix(kind, chars@.take(end as int))] + (if kind.has_root() || rooted(
        Separators::Either,
        chars@.skip(end as int),
    ) {
        seq![Part::Root]
    } else {
        Seq::empty()
    }));
    let from: usize = if physical {
        end + 1
    } else {
        end
    };
    assert(chars@.skip(from as int) == behind(chars@, end as int));
    if kind.is_verbatim() {
        let list = split(chars, from, Separators::Backslash);
        add_parts(&mut out, &list, Dots::Always);
    } else {
        let list = split(chars, from, Separators::Either);
        add_parts(&mut out, &list, Dots::Never);
    }
    out
}

/// The components of a path.
pub fn components(platform: Platform, s: &str) -> (r: Vec<Component>)
    ensures
        views(r@) == components_of(platform, s@),
{
    let chars = text::chars_of(s);
    match platform {
        Platform::Posix => plain(&chars, Separators::Slash),
        Platform::Windows => match find_prefix(&chars) {
            None => plain(&chars, Separators::Either),
            Some((kind, end)) => prefixed(&chars, kind, end),
        },
    }
}

/// The names of a list of components, separated by slashes.
pub open spec fn joined_names(list: Seq<Part>) -> Seq<char>
    decreases list.len(),
{
    if list.len() == 0 {
        Seq::empty()
    } else {
        let head = list.drop_last();
        match list.last() {
            Part::Name(name) => if names(head) == 0 {
                name
            } else {
                joined_names(head) + seq!['/'] + name
            },
            _ => joined_names(head),
        }
    }
}

/// How many of the components are names.
pub open spec fn names(list: Seq<Part>) -> nat
    decreases list.len(),
{
    if list.len() == 0 {
        0
    } else {
        names(list.drop_last()) + if list.last() is Name {
            1nat
        } else {
            0
        }
    }
}

/// Whether a component leads upwards or starts over.
pub open spec fn escapes(p: Part) -> bool {
    p is Parent || p is Root || p is Prefix
}

/// Whether no component leads upwards or starts over.
pub open spec fn stays_below(list: Seq<Part>) -> bool {
    forall|i: int| 0 <= i < list.len() ==> !escapes(#[trigger] list[i])
}

/// A capital letter made small.
pub open spec fn small(c: char) -> char {
    if 'A' <= c <= 'Z' {
        (c as u8 + 32) as char
    } else {
        c
    }
}

/// A character of a prefix as it is compared: a drive without its case, and
/// either separator as the same where both may be written.
pub open spec fn compared(kind: PrefixKind, i: int, c: char) -> char {
    match kind {
        PrefixKind::Disk => if i == 0 {
            small(c)
        } else {
            c
        },
        PrefixKind::VerbatimDisk => if i == 4 {
            small(c)
        } else {
            c
        },
        PrefixKind::VerbatimShare => if i == 7 {
            '\\'
        } else {
            c
        },
        PrefixKind::Verbatim => c,
        PrefixKind::Share | PrefixKind::Device => if c == '/' {
            '\\'
        } else {
            c
        },
    }
}

/// Whether two prefixes of a kind are the same.
pub open spec fn same_prefix(kind: PrefixKind, a: Seq<char>, b: Seq<char>) -> bool {
    a.len() == b.len() && forall|i: int|
        0 <= i < a.len() ==> compared(kind, i, #[trigger] a[i]) == compared(kind, i, b[i])
}

/// Whether two components are the same.
pub open spec fn same_part(a: Part, b: Part) -> bool {
    match (a, b) {
        (Part::Prefix(kind, x), Part::Prefix(other, y)) => kind == other && same_prefix(kind, x, y),
        _ => a == b,
    }
}

/// Whether two lists of components are the same.
pub open spec fn same_parts(a: Seq<Part>, b: Seq<Part>) -> bool {
    a.len() == b.len() && forall|i: int| 0 <= i < a.len() ==> same_part(#[trigger] a[i], b[i])
}

/// Whether a list of components begins with another.
pub open spec fn leads(prefix: Seq<Part>, list: Seq<Part>) -> bool {
    prefix.len() <= list.len() && forall|i: int| 0 <= i < prefix.len() ==> same_part(#[trigger] prefix[i], list[i])
}

fn small_letter(c: char) -> (r: char)
    ensures
        r == small(c),
{
    if 'A' <= c && c <= 'Z' {
        (c as u8 + 32) as char
    } else {
        c
    }
}

fn as_compared(kind: PrefixKind, i: usize, c: char) -> (r: char)
    ensures
        r == compared(kind, i as int, c),
{
    match kind {
        PrefixKind::Disk => if i == 0 {
            small_letter(c)
        } else {
            c
        },
        PrefixKind::VerbatimDisk => if i == 4 {
            small_letter(c)
        } else {
            c
        },
        PrefixKind::VerbatimShare => if i == 7 {
            '\\'
        } else {
            c
        },
        PrefixKind::Verbatim => c,
        PrefixKind::Share | PrefixKind::Device => if c == '/' {
            '\\'
        } else {
            c
        },
    }
}

fn prefixes_agree(kind: PrefixKind, a: &str, b: &str) -> (r: bool)
    ensures
        r == same_prefix(kind, a@, b@),
{
    let x = text::chars_of(a);
    let y = text::chars_of(b);
    if x.len() != y.len() {
        return false;
    }
    for i in 0..x.len()
        invariant
            x@ == a@,
            y@ == b@,
            x@.len() == y@.len(),
            forall|k: int| 0 <= k < i ==> compared(kind, k, #[trigger] x@[k]) == compared(kind, k, y@[k]),
    {
        if as_compared(kind, i, x[i]) != as_compared(kind, i, y[i]) {
            assert(compared(kind, i as int, a@[i as int]) != compared(kind, i as int, b@[i as int]));
            return false;
        }
    }
    true
}

pub fn same_component(a: &Component, b: &Component) -> (r: bool)
    ensures
        r == same_part(a@, b@),
{
    match (a, b) {
        (Component::Prefix(kind, x), Component::Prefix(other, y)) => {
            *kind == *other && prefixes_agree(*kind, x.as_str(), y.as_str())
        },
        (Component::Root, Component::Root) => true,
        (Component::Current, Component::Current) => true,
        (Component::Parent, Component::Parent) => true,
        (Component::Normal(x), Component::Normal(y)) => text::same(x.as_str(), y.as_str()),
        _ => false,
    }
}

/// A component as it is written.
pub open spec fn word(p: Part) -> Seq<char> {
    match p {
        Part::Prefix(kind, written) => written,
        Part::Root => Seq::empty(),
        Part::Current => "."@,
        Part::Parent => ".."@,
        Part::Name(name) => name,
    }
}

/// Whether a component that follows a list is written right behind it: where
/// nothing precedes it, behind the root, and behind a bare drive.
pub open spec fn follows_directly(head: Seq<Part>) -> bool {
    head.len() == 0 || head.last() is Root || (head.last() matches Part::Prefix(kind, written)
        && kind is Disk)
}

/// A path as text.
pub open spec fn rendered(platform: Platform, list: Seq<Part>) -> Seq<char>
    decreases list.len(),
{
    if list.len() == 0 {
        Seq::empty()
    } else {
        let head = list.drop_last();
        let before = rendered(platform, head);
        match list.last() {
            Part::Root => before + seq![separator(platform)],
            last => if follows_directly(head) {
                before + word(last)
            } else {
                before + seq![separator(platform)] + word(last)
            },
        }
    }
}

/// A path as text.
pub fn render(platform: Platform, list: &Vec<Component>) -> (r: String)
    ensures
        r@ == rendered(platform, views(list@)),
{
    proof {
        reveal_strlit("");
    }
    let mut out = text::copy("");
    let mut direct = true;
    let ghost all = views(list@);
    assert(out@ =~= rendered(platform, all.take(0)));
    for i in 0..list.len()
        invariant
            all == views(list@),
            out@ == rendered(platform, all.take(i as int)),
            direct == follows_directly(all.take(i as int)),
    {
        let ghost before = out@;
        let ghost head = all.take(i as int);
        let ghost next = all.take(i + 1);
        assert(next.drop_last() =~= head);
        assert(next.last() == list@[i as int]@);
        let separator = main_separator(platform);
        match &list[i] {
            Component::Root => {
                out.push(separator);
                assert(before.push(separator) =~= before + seq![separator]);
                direct = true;
            },
            other => {
                let written = other.written();
                if !direct {
                    out.push(separator);
                    assert(before.push(separator) =~= before + seq![separator]);
                }
                out.append(written.as_str());
                direct = match other {
                    Component::Prefix(kind, _) => match kind {
                        PrefixKind::Disk => true,
                        _ => false,
                    },
                    _ => false,
                };
            },
        }
        assert(out@ =~= rendered(platform, next));
    }
    assert(all.take(all.len() as int) =~= all);
    out
}

/// Whether the first path begins with the second, component by component.
pub open spec fn begins_with(platform: Platform, path: Seq<char>, root: Seq<char>) -> bool {
    leads(components_of(platform, root), components_of(platform, path))
}

/// The components of a path below a root that it begins with. On Windows what
/// is left of the path is a path of its own, and is read anew.
pub open spec fn below(platform: Platform, path: Seq<char>, root: Seq<char>) -> Seq<Part> {
    let rest = components_of(platform, path).skip(components_of(platform, root).len() as int);
    match platform {
        Platform::Posix => rest,
        Platform::Windows => components_of(platform, rendered(platform, rest)),
    }
}

/// The components below a root; none where the path does not begin with it.
fn strip_prefix(platform: Platform, root: &str, path: &str) -> (r: Option<Vec<Component>>)
    ensures
        r is Some == begins_with(platform, path@, root@),
        r is Some ==> views(r->0@) == below(platform, path@, root@),
{
    let prefix = components(platform, root);
    let whole = components(platform, path);
    let ghost a = components_of(platform, root@);
    let ghost b = components_of(platform, path@);
    if prefix.len() > whole.len() {
        return None;
    }
    for i in 0..prefix.len()
        invariant
            views(prefix@) == a,
            views(whole@) == b,
            a == components_of(platform, root@),
            b == components_of(platform, path@),
            prefix@.len() <= whole@.len(),
            forall|k: int| 0 <= k < i ==> same_part(#[trigger] a[k], b[k]),
    {
        assert(a[i as int] == prefix@[i as int]@ && b[i as int] == whole@[i as int]@);
        if !same_component(&prefix[i], &whole[i]) {
            assert(!same_part(a[i as int], b[i as int]));
            return None;
        }
    }
    let mut rest: Vec<Component> = Vec::new();
    for i in prefix.len()..whole.len()
        invariant
            views(whole@) == b,
            prefix@.len() == a.len(),
            prefix@.len() <= whole@.len(),
            views(rest@) == b.subrange(a.len() as int, i as int),
    {
        let c = whole[i].clone_part();
        proof {
            order::push_contains(rest@, c);
        }
        assert(b.subrange(a.len() as int, i + 1) =~= b.subrange(a.len() as int, i as int).push(b[i as int]));
        rest.push(c);
    }
    assert(b.subrange(a.len() as int, b.len() as int) =~= b.skip(a.len() as int));
    match platform {
        Platform::Posix => Some(rest),
        Platform::Windows => {
            let left = render(platform, &rest);
            Some(components(platform, left.as_str()))
        },
    }
}

/// Whether a path is another one, or lies below it.
pub fn starts_with(platform: Platform, path: &str, root: &str) -> (r: bool)
    ensures
        r == begins_with(platform, path@, root@),
{
    strip_prefix(platform, root, path).is_some()
}

impl Component {
    fn clone_part(&self) -> (r: Component)
        ensures
            r@ == self@,
    {
        match self {
            Component::Prefix(kind, written) => Component::Prefix(*kind, text::copy(written.as_str())),
            Component::Root => Component::Root,
            Component::Current => Component::Current,
            Component::Parent => Component::Parent,
            Component::Normal(name) => Component::Normal(text::copy(name.as_str())),
        }
    }

    fn written(&self) -> (r: String)
        ensures
            r@ == word(self@),
    {
        proof {
            reveal_strlit("");
        }
        match self {
            Component::Prefix(_, written) => text::copy(written.as_str()),
            Component::Root => {
                let none = text::copy("");
                assert(none@ =~= Seq::<char>::empty());
                none
            },
            Component::Current => text::copy("."),
            Component::Parent => text::copy(".."),
            Component::Normal(name) => text::copy(name.as_str()),
        }
    }
}

/// The place of the last dot of a name, or a number below zero.
pub open spec fn last_dot(name: Seq<char>) -> int
    decreases name.len(),
{
    if name.len() == 0 {
        -1
    } else if name.last() == '.' {
        name.len() - 1
    } else {
        last_dot(name.drop_last())
    }
}

/// What follows the last dot of a file name, unless the dot begins the name.
pub open spec fn extension_of(name: Seq<char>) -> Option<Seq<char>> {
    if name == ".."@ || last_dot(name) <= 0 {
        None
    } else {
        Some(name.skip(last_dot(name) + 1))
    }
}

/// The extension of a file name.
pub fn extension(name: &str) -> (r: Option<String>)
    ensures
        text::optional(r) == extension_of(name@),
{
    if text::same(name, "..") {
        return None;
    }
    let chars = text::chars_of(name);
    let mut i: usize = chars.len();
    assert(chars@.take(i as int) =~= name@);
    while i > 0
        invariant
            chars@ == name@,
            i <= chars@.len(),
            name@ != ".."@,
            last_dot(chars@.take(i as int)) == last_dot(name@),
        decreases i,
    {
        assert(chars@.take(i as int).last() == chars@[i - 1]);
        assert(chars@.take(i as int).drop_last() =~= chars@.take(i - 1));
        if chars[i - 1] == '.' {
            if i == 1 {
                return None;
            }
            let rest = text::slice_text(&chars, i, chars.len());
            assert(rest@ =~= name@.skip(i as int));
            return Some(rest);
        }
        i = i - 1;
    }
    None
}

/// Whether a path names an entry of a directory.
pub fn is_directly_in(platform: Platform, path: &str, directory: &str) -> (r: bool)
    ensures
        r == ({
            let whole = components_of(platform, path@);
            whole.len() > 0 && !(whole.last() is Root) && !(whole.last() is Prefix) && same_parts(
                whole.drop_last(),
                components_of(platform, directory@),
            )
        }),
{
    let whole = components(platform, path);
    let base = components(platform, directory);
    let ghost a = components_of(platform, path@);
    let ghost b = components_of(platform, directory@);
    if whole.len() == 0 {
        return false;
    }
    let last = whole.len() - 1;
    assert(a[last as int] == whole@[last as int]@);
    match &whole[last] {
        Component::Root | Component::Prefix(_, _) => {
            return false;
        },
        _ => {},
    }
    if base.len() != last {
        assert(a.drop_last().len() != b.len());
        return false;
    }
    for i in 0..last
        invariant
            views(whole@) == a,
            views(base@) == b,
            a == components_of(platform, path@),
            b == components_of(platform, directory@),
            last == whole@.len() - 1,
            base@.len() == last,
            forall|k: int| 0 <= k < i ==> same_part(#[trigger] a[k], b[k]),
    {
        assert(a[i as int] == whole@[i as int]@ && b[i as int] == base@[i as int]@);
        if !same_component(&whole[i], &base[i]) {
            assert(!same_part(a.drop_last()[i as int], b[i as int]));
            return false;
        }
    }
    assert forall|k: int| 0 <= k < b.len() implies same_part(#[trigger] a.drop_last()[k], b[k]) by {
        assert(same_part(a[k], b[k]));
    }
    true
}

/// A path relative to a root that it lies below, with `/` between the names.
pub fn normalize_relative(platform: Platform, root: &str, path: &str) -> (r: Result<String>)
    ensures
        r is Ok == (begins_with(platform, path@, root@) && stays_below(below(platform, path@, root@))),
        match r {
            Ok(relative) => relative@ == joined_names(below(platform, path@, root@)),
            Err(e) => e@ == Fault::PathEscape(path@),
        },
{
    let rest = match strip_prefix(platform, root, path) {
        Some(rest) => rest,
        None => {
            return Err(RewindError::PathEscape(text::copy(path)));
        },
    };
    let ghost b = below(platform, path@, root@);
    proof {
        reveal_strlit("");
    }
    let mut out = text::copy("");
    let mut count: usize = 0;
    for i in 0..rest.len()
        invariant
            views(rest@) == b,
            b == below(platform, path@, root@),
            begins_with(platform, path@, root@),
            count == names(b.take(i as int)),
            count <= i,
            out@ == joined_names(b.take(i as int)),
            forall|k: int| 0 <= k < i ==> !escapes(#[trigger] b[k]),
    {
        assert(b.take(i + 1).drop_last() =~= b.take(i as int));
        assert(b.take(i + 1).last() == b[i as int]);
        assert(b[i as int] == rest@[i as int]@);
        match &rest[i] {
            Component::Normal(name) => {
                if count == 0 {
                    assert(names(b.take(i as int)) == 0);
                    out = text::copy(name.as_str());
                } else {
                    out.push('/');
                    out.append(name.as_str());
                    assert(joined_names(b.take(i as int)).push('/') + name@ =~= joined_names(b.take(i as int)) + seq![
                        '/',
                    ] + name@);
                }
                count = count + 1;
            },
            Component::Current => {},
            Component::Parent => {
                assert(escapes(b[i as int]));
                return Err(RewindError::PathEscape(text::copy(path)));
            },
            Component::Root | Component::Prefix(_, _) => {
                assert(escapes(b[i as int]));
                return Err(RewindError::PathEscape(text::copy(path)));
            },
        }
    }
    assert(b.take(b.len() as int) =~= b);
    Ok(out)
}

/// Refuses a path that is absolute or leads upwards.
pub fn validate_relative(platform: Platform, relative: &str) -> (r: Result<()>)
    ensures
        r is Ok == stays_below(components_of(platform, relative@)),
        r is Err ==> r->Err_0@ == Fault::PathEscape(relative@),
{
    let list = components(platform, relative);
    let ghost c = components_of(platform, relative@);
    for i in 0..list.len()
        invariant
            views(list@) == c,
            c == components_of(platform, relative@),
            forall|k: int| 0 <= k < i ==> !escapes(#[trigger] c[k]),
    {
        assert(c[i as int] == list@[i as int]@);
        match &list[i] {
            Component::Parent | Component::Root | Component::Prefix(_, _) => {
                assert(escapes(c[i as int]));
                return Err(RewindError::PathEscape(text::copy(relative)));
            },
            Component::Current | Component::Normal(_) => {},
        }
    }
    Ok(())
}

/// Whether a path of Windows begins with a prefix that is taken as it is
/// written.
pub open spec fn is_verbatim(s: Seq<char>) -> bool {
    prefix_of(s) matches Some((kind, end)) && kind.verbatim()
}

/// Whether a path of Windows is a bare drive.
pub open spec fn is_bare_drive(s: Seq<char>) -> bool {
    s.len() == 2 && prefix_of(s) == Some((PrefixKind::Disk, 2int))
}

/// Where components lead from a list of others: a name goes down, and two dots
/// take back a name.
pub open spec fn walked(from: Seq<Part>, steps: Seq<Part>) -> Seq<Part>
    decreases steps.len(),
{
    if steps.len() == 0 {
        from
    } else {
        let here = walked(from, steps.drop_last());
        match steps.last() {
            Part::Root => here.take(if here.len() < 1 {
                here.len() as int
            } else {
                1
            }).push(Part::Root),
            Part::Current => here,
            Part::Parent => if here.len() > 0 && here.last() is Name {
                here.drop_last()
            } else {
                here
            },
            last => here.push(last),
        }
    }
}

/// A path set behind another, with a separator between them where there is none
/// yet.
pub open spec fn set_behind(platform: Platform, root: Seq<char>, relative: Seq<char>) -> Seq<char> {
    let marks = match platform {
        Platform::Posix => Separators::Slash,
        Platform::Windows => Separators::Either,
    };
    if root.len() == 0 || marks.has(root.last()) || (platform is Windows && is_bare_drive(root)) {
        root + relative
    } else {
        root + seq![separator(platform)] + relative
    }
}

/// A path joined to another: one that is absolute replaces it, another is set
/// behind it.
pub open spec fn joined(platform: Platform, root: Seq<char>, relative: Seq<char>) -> Seq<char> {
    match platform {
        Platform::Posix => if rooted(Separators::Slash, relative) {
            relative
        } else {
            set_behind(platform, root, relative)
        },
        Platform::Windows => if prefix_of(relative) is Some {
            relative
        } else if is_verbatim(root) && relative.len() > 0 {
            rendered(platform, walked(components_of(platform, root), components_of(platform, relative)))
        } else if rooted(Separators::Either, relative) {
            match prefix_of(root) {
                Some((kind, end)) => root.take(end) + relative,
                None => relative,
            }
        } else {
            set_behind(platform, root, relative)
        },
    }
}

fn behind_each_other(platform: Platform, chars: &Vec<char>, root: &str, relative: &str) -> (r: String)
    requires
        chars@ == root@,
    ensures
        r@ == set_behind(platform, root@, relative@),
{
    let mut out = text::copy(root);
    if chars.len() > 0 {
        let last = chars[chars.len() - 1];
        let needed = match platform {
            Platform::Posix => !Separators::Slash.holds(last),
            Platform::Windows => {
                let bare = chars.len() == 2 && match find_prefix(chars) {
                    Some((PrefixKind::Disk, end)) => end == 2,
                    _ => false,
                };
                !Separators::Either.holds(last) && !bare
            },
        };
        if needed {
            let separator = main_separator(platform);
            out.push(separator);
            assert(root@.push(separator) + relative@ =~= root@ + seq![separator] + relative@);
        }
    }
    out.append(relative);
    out
}

fn walk(from: Vec<Component>, steps: &Vec<Component>) -> (r: Vec<Component>)
    ensures
        views(r@) == walked(views(from@), views(steps@)),
{
    let ghost start = views(from@);
    let ghost all = views(steps@);
    let mut here = from;
    assert(all.take(0) =~= Seq::<Part>::empty());
    for i in 0..steps.len()
        invariant
            all == views(steps@),
            views(here@) == walked(start, all.take(i as int)),
    {
        let ghost now = views(here@);
        let ghost next = all.take(i + 1);
        assert(next.drop_last() =~= all.take(i as int));
        assert(next.last() == steps@[i as int]@);
        match &steps[i] {
            Component::Root => {
                if here.len() > 1 {
                    here.truncate(1);
                }
                assert(views(here@) =~= now.take(if now.len() < 1 {
                    now.len() as int
                } else {
                    1
                }));
                proof {
                    order::push_contains(here@, Component::Root);
                }
                here.push(Component::Root);
            },
            Component::Current => {},
            Component::Parent => {
                let named = here.len() > 0 && match &here[here.len() - 1] {
                    Component::Normal(_) => true,
                    _ => false,
                };
                assert(now.len() > 0 ==> now.last() == here@[here@.len() - 1]@);
                if named {
                    here.pop();
                    assert(views(here@) =~= now.drop_last());
                }
            },
            other => {
                let c = other.clone_part();
                proof {
                    order::push_contains(here@, c);
                }
                here.push(c);
            },
        }
        assert(views(here@) =~= walked(start, next));
    }
    assert(all.take(all.len() as int) =~= all);
    here
}

/// Joins a path to another.
pub fn join(platform: Platform, root: &str, relative: &str) -> (r: String)
    ensures
        r@ == joined(platform, root@, relative@),
{
    let chars = text::chars_of(root);
    let more = text::chars_of(relative);
    match platform {
        Platform::Posix => {
            if more.len() > 0 && Separators::Slash.holds(more[0]) {
                return text::copy(relative);
            }
        },
        Platform::Windows => {
            if find_prefix(&more).is_some() {
                return text::copy(relative);
            }
            let found = find_prefix(&chars);
            let verbatim = match found {
                Some((kind, _)) => kind.is_verbatim(),
                None => false,
            };
            if verbatim && more.len() > 0 {
                let list = walk(components(platform, root), &components(platform, relative));
                return render(platform, &list);
            }
            if more.len() > 0 && Separators::Either.holds(more[0]) {
                return match found {
                    Some((_, end)) => {
                        let mut out = text::slice_text(&chars, 0, end);
                        assert(chars@.subrange(0, end as int) =~= root@.take(end as int));
                        out.append(relative);
                        out
                    },
                    None => text::copy(relative),
                };
            }
        },
    }
    behind_each_other(platform, &chars, root, relative)
}

/// A relative path with the separators of a platform in place of slashes.
pub open spec fn native(platform: Platform, relative: Seq<char>) -> Seq<char> {
    relative.map_values(
        |c: char| if c == '/' {
            separator(platform)
        } else {
            c
        },
    )
}

/// A relative path as the platform writes it.
pub fn native_path(platform: Platform, relative: &str) -> (r: String)
    ensures
        r@ == native(platform, relative@),
{
    let chars = text::chars_of(relative);
    proof {
        reveal_strlit("");
    }
    let mut out = text::copy("");
    let ghost all = native(platform, relative@);
    assert(out@ =~= all.take(0));
    for i in 0..chars.len()
        invariant
            chars@ == relative@,
            all == native(platform, relative@),
            out@ == all.take(i as int),
    {
        let c = chars[i];
        out.push(if c == '/' {
            main_separator(platform)
        } else {
            c
        });
        assert(all.take(i + 1) =~= all.take(i as int).push(all[i as int]));
    }
    assert(all.take(all.len() as int) =~= all);
    out
}

pub open spec fn marker_at(platform: Platform, root: Seq<char>) -> Seq<char> {
    joined(platform, joined(platform, root, ".rewind"@), "workspace.json"@)
}

/// The file that marks a workspace.
pub fn marker_path(platform: Platform, root: &str) -> (r: String)
    ensures
        r@ == marker_at(platform, root@),
{
    let directory = join(platform, root, ".rewind");
    join(platform, directory.as_str(), "workspace.json")
}

/// What stands at a place, as far as confinement asks.
#[derive(Clone, Debug)]
pub enum Place {
    /// Nothing can be reached there.
    Missing,
    /// A directory of its own.
    Directory,
    /// A regular file.
    File,
    /// A link.
    Symlink,
    /// Anything else.
    Other,
    /// It could not be looked at.
    Unreadable(String),
}

/// The parent directories of a target below a root, outermost first, as far as
/// they are named.
pub open spec fn parents(list: Seq<Part>) -> nat {
    if list.len() == 0 {
        0
    } else {
        leading(list.drop_last())
    }
}

/// How many components from the first on are names.
pub open spec fn leading(list: Seq<Part>) -> nat
    decreases list.len(),
{
    if list.len() == 0 {
        0
    } else {
        let head = list.drop_last();
        if leading(head) == head.len() && list.last() is Name {
            list.len()
        } else {
            leading(head)
        }
    }
}

/// The path of the `n`-th parent, counted from the root.
pub open spec fn parent_path(platform: Platform, root: Seq<char>, list: Seq<Part>, n: nat) -> Seq<char>
    decreases n,
{
    if n == 0 {
        root
    } else {
        joined(platform, parent_path(platform, root, list, (n - 1) as nat), list[n - 1]->Name_0)
    }
}

pub proof fn leading_are_names(list: Seq<Part>)
    ensures
        leading(list) <= list.len(),
        forall|i: int| 0 <= i < leading(list) ==> #[trigger] list[i] is Name,
        leading(list) < list.len() ==> !(list[leading(list) as int] is Name),
    decreases list.len(),
{
    if list.len() > 0 {
        let head = list.drop_last();
        leading_are_names(head);
        assert(forall|i: int| 0 <= i < head.len() ==> head[i] == #[trigger] list[i]);
    }
}

/// Whether a parent lets a target through: there is nothing yet, or a
/// directory of its own.
pub open spec fn passable(place: Place) -> bool {
    place is Missing || place is Directory
}

/// What confining a target below a root comes to, given what stands at the
/// named parents: the first parent that is no directory refuses it.
pub open spec fn confinement(platform: Platform, root: Seq<char>, target: Seq<char>, observed: Seq<Place>) -> Option<Fault> {
    let list = below(platform, target, root);
    let n = parents(list);
    if !begins_with(platform, target, root) {
        Some(Fault::PathEscape(target))
    } else if exists|i: int| 0 <= i < n && !passable(#[trigger] observed[i]) {
        let i = first_impassable(observed, n as int);
        match observed[i] {
            Place::Unreadable(error) => Some(Fault::Io(error@)),
            _ => Some(
                Fault::PathEscape(
                    "parent component is not a confined directory: "@ + parent_path(platform, root, list, (i + 1) as nat),
                ),
            ),
        }
    } else if n < list.len() - 1 {
        Some(Fault::PathEscape(target))
    } else {
        None
    }
}

/// The first place that does not let a target through.
pub open spec fn first_impassable(observed: Seq<Place>, n: int) -> int {
    choose|i: int|
        0 <= i < n && !passable(#[trigger] observed[i]) && forall|j: int|
            0 <= j < i ==> passable(#[trigger] observed[j])
}

proof fn first_is(observed: Seq<Place>, n: int, i: int)
    requires
        0 <= i < n,
        !passable(observed[i]),
        forall|j: int| 0 <= j < i ==> passable(#[trigger] observed[j]),
    ensures
        first_impassable(observed, n) == i,
{
    let k = first_impassable(observed, n);
    assert(0 <= k < n && !passable(observed[k]) && forall|j: int| 0 <= j < k ==> passable(#[trigger] observed[j]));
    if k < i {
        assert(passable(observed[k]));
    }
    if i < k {
        assert(passable(observed[i]));
    }
}

/// The named parents of a target below a root, outermost first.
pub fn parents_below(platform: Platform, root: &str, target: &str) -> (r: Vec<String>)
    ensures
        begins_with(platform, target@, root@) ==> r@.len() == parents(below(platform, target@, root@)),
        !begins_with(platform, target@, root@) ==> r@.len() == 0,
        forall|i: int|
            0 <= i < r@.len() ==> (#[trigger] r@[i])@ == parent_path(platform, root@, below(platform, target@, root@), (i + 1) as nat),
{
    let mut out: Vec<String> = Vec::new();
    let list = match strip_prefix(platform, root, target) {
        Some(list) => list,
        None => {
            return out;
        },
    };
    let ghost b = below(platform, target@, root@);
    if list.len() == 0 {
        assert(b.len() == 0);
        return out;
    }
    let mut current = text::copy(root);
    let last = list.len() - 1;
    proof {
        leading_are_names(b.drop_last());
    }
    for i in 0..last
        invariant
            views(list@) == b,
            b == below(platform, target@, root@),
            begins_with(platform, target@, root@),
            last == list@.len() - 1,
            leading(b.drop_last()) <= b.len() - 1,
            forall|k: int| 0 <= k < leading(b.drop_last()) ==> #[trigger] b.drop_last()[k] is Name,
            leading(b.drop_last()) < b.len() - 1 ==> !(b.drop_last()[leading(b.drop_last()) as int] is Name),
            out@.len() == i,
            i <= leading(b.drop_last()),
            current@ == parent_path(platform, root@, b, i as nat),
            forall|k: int| 0 <= k < out@.len() ==> (#[trigger] out@[k])@ == parent_path(platform, root@, b, (k + 1) as nat),
    {
        assert(b.drop_last()[i as int] == list@[i as int]@);
        match &list[i] {
            Component::Normal(name) => {
                current = join(platform, current.as_str(), name.as_str());
                out.push(text::copy(current.as_str()));
            },
            _ => {
                assert(i == leading(b.drop_last()));
                return out;
            },
        }
    }
    out
}

/// Refuses a target below a root that a parent leads out of: one that is a
/// link, or no directory.
pub fn ensure_parent_confinement(platform: Platform, root: &str, target: &str, observed: &Vec<Place>) -> (r: Result<()>)
    requires
        begins_with(platform, target@, root@) ==> observed@.len() == parents(below(platform, target@, root@)),
    ensures
        match confinement(platform, root@, target@, observed@) {
            Some(fault) => r is Err && r->Err_0@ == fault,
            None => r is Ok,
        },
{
    let list = match strip_prefix(platform, root, target) {
        Some(list) => list,
        None => {
            return Err(RewindError::PathEscape(text::copy(target)));
        },
    };
    let ghost b = below(platform, target@, root@);
    let chain = parents_below(platform, root, target);
    for i in 0..chain.len()
        invariant
            b == below(platform, target@, root@),
            begins_with(platform, target@, root@),
            chain@.len() == parents(b),
            observed@.len() == parents(b),
            forall|k: int|
                0 <= k < chain@.len() ==> (#[trigger] chain@[k])@ == parent_path(platform, root@, b, (k + 1) as nat),
            forall|k: int| 0 <= k < i ==> passable(#[trigger] observed@[k]),
    {
        match &observed[i] {
            Place::Missing => {},
            Place::Directory => {},
            Place::Unreadable(error) => {
                assert(!passable(observed@[i as int]));
                proof {
                    first_is(observed@, parents(b) as int, i as int);
                }
                return Err(RewindError::Io(text::copy(error.as_str())));
            },
            Place::File | Place::Symlink | Place::Other => {
                assert(!passable(observed@[i as int]));
                proof {
                    first_is(observed@, parents(b) as int, i as int);
                }
                let mut message = text::copy("parent component is not a confined directory: ");
                message.append(chain[i].as_str());
                return Err(RewindError::PathEscape(message));
            },
        }
    }
    if list.len() > 0 && chain.len() < list.len() - 1 {
        return Err(RewindError::PathEscape(text::copy(target)));
    }
    Ok(())
}

/// The place of a relative path in a workspace, where its parents keep it
/// there.
pub fn workspace_path(platform: Platform, root: &str, relative: &str, observed: &Vec<Place>) -> (r: Result<String>)
    requires
        begins_with(platform, joined(platform, root@, native(platform, relative@)), root@) ==> observed@.len() == parents(
            below(platform, joined(platform, root@, native(platform, relative@)), root@),
        ),
    ensures
        r is Ok == (stays_below(components_of(platform, relative@)) && confinement(platform, 
            root@,
            joined(platform, root@, native(platform, relative@)),
            observed@,
        ) is None),
        match r {
            Ok(path) => path@ == joined(platform, root@, native(platform, relative@)),
            Err(e) => e@ == if !stays_below(components_of(platform, relative@)) {
                Fault::PathEscape(relative@)
            } else {
                confinement(platform, root@, joined(platform, root@, native(platform, relative@)), observed@)->0
            },
        },
{
    match validate_relative(platform, relative) {
        Ok(()) => {},
        Err(e) => {
            return Err(e);
        },
    }
    let path = join(platform, root, native_path(platform, relative).as_str());
    match ensure_parent_confinement(platform, root, path.as_str(), observed) {
        Ok(()) => Ok(path),
        Err(e) => Err(e),
    }
}

/// What a change that was just made comes to: its parents must still keep it
/// below the root, and what it left must not be a link.
pub open spec fn mutation_fault(
    platform: Platform,
    root: Seq<char>,
    path: Seq<char>,
    leaf_exists: bool,
    observed: Seq<Place>,
    leaf: Place,
) -> Option<Fault> {
    match confinement(platform, root, path, observed) {
        Some(fault) => Some(fault),
        None => if !leaf_exists {
            None
        } else {
            match leaf {
                Place::Unreadable(error) => Some(
                    Fault::PathEscape("mutated path is missing after mutation "@ + path + ": "@ + error@),
                ),
                Place::Symlink => Some(
                    Fault::PathEscape("mutated path became a symlink after mutation: "@ + path),
                ),
                _ => None,
            }
        },
    }
}

/// Confirms that a change stayed below the root.
pub fn verify_mutation_confined(
    platform: Platform,
    root: &str,
    mutated_path: &str,
    mutated_leaf_exists: bool,
    observed: &Vec<Place>,
    leaf: &Place,
) -> (r: Result<()>)
    requires
        begins_with(platform, mutated_path@, root@) ==> observed@.len() == parents(below(platform, mutated_path@, root@)),
    ensures
        match mutation_fault(platform, root@, mutated_path@, mutated_leaf_exists, observed@, *leaf) {
            Some(fault) => r is Err && r->Err_0@ == fault,
            None => r is Ok,
        },
{
    match ensure_parent_confinement(platform, root, mutated_path, observed) {
        Ok(()) => {},
        Err(e) => {
            return Err(e);
        },
    }
    if !mutated_leaf_exists {
        return Ok(());
    }
    match leaf {
        Place::Unreadable(error) => {
            let mut message = text::copy("mutated path is missing after mutation ");
            message.append(mutated_path);
            message.append(": ");
            message.append(error.as_str());
            Err(RewindError::PathEscape(message))
        },
        Place::Symlink => {
            let mut message = text::copy("mutated path became a symlink after mutation: ");
            message.append(mutated_path);
            Err(RewindError::PathEscape(message))
        },
        _ => Ok(()),
    }
}

/// Where the staging area of a transaction stands: beside the workspace, on
/// the same filesystem.
pub open spec fn staging_at(platform: Platform, parent: Seq<char>, transaction: u128) -> Seq<char> {
    joined(platform, joined(platform, parent, ".rewind-txn"@), outside::uuid_text(transaction))
}

/// The staging area of a transaction, given the parent of the workspace.
pub fn staging_root(platform: Platform, parent: &Option<String>, transaction_id: u128) -> (r: Result<String>)
    ensures
        r is Ok == parent is Some,
        match r {
            Ok(path) => path@ == staging_at(platform, parent->0@, transaction_id),
            Err(e) => e@ == Fault::Storage("workspace has no same-filesystem parent"@),
        },
{
    match parent {
        Some(parent) => {
            let directory = join(platform, parent.as_str(), ".rewind-txn");
            Ok(join(platform, directory.as_str(), outside::identifier(transaction_id).as_str()))
        },
        None => Err(RewindError::Storage(text::copy("workspace has no same-filesystem parent"))),
    }
}

/// Refuses a directory that is a link, or none at all.
pub fn local_directory(path: &str, place: &Place, created: bool) -> (r: Result<()>)
    ensures
        r is Ok == (place is Directory),
        r is Err ==> r->Err_0@ == match *place {
            Place::Unreadable(error) => Fault::Io(error@),
            _ => Fault::PathEscape((if created {
                "directory was replaced during creation: "@
            } else {
                "expected a local directory: "@
            }) + path@),
        },
{
    match place {
        Place::Directory => Ok(()),
        Place::Unreadable(error) => Err(RewindError::Io(text::copy(error.as_str()))),
        _ => {
            let mut message = if created {
                text::copy("directory was replaced during creation: ")
            } else {
                text::copy("expected a local directory: ")
            };
            message.append(path);
            Err(RewindError::PathEscape(message))
        },
    }
}

/// The name of the file that an atomic write fills before it is renamed.
pub fn temporary_name(name: &str, id: u128) -> (r: String)
    ensures
        r@ == "."@ + name@ + "."@ + outside::uuid_text(id) + ".tmp"@,
{
    let mut out = text::copy(".");
    out.append(name);
    out.append(".");
    out.append(outside::identifier(id).as_str());
    out.append(".tmp");
    out
}

/// Whether something stands at a place that is not what is wanted there. A place
/// that cannot be looked at is not held against it.
pub open spec fn misplaced(place: Place, wanted: bool) -> bool {
    !wanted && !(place is Missing) && !(place is Unreadable)
}

/// Refuses a marker that is no file of its own.
pub fn check_marker_place(marker: &str, place: &Place) -> (r: Result<()>)
    ensures
        r is Err == misplaced(*place, *place is File),
        r is Err ==> r->Err_0@ == Fault::PathEscape("workspace marker is not a regular file: "@ + marker@),
{
    match place {
        Place::File | Place::Missing | Place::Unreadable(_) => Ok(()),
        Place::Directory | Place::Symlink | Place::Other => {
            let mut message = text::copy("workspace marker is not a regular file: ");
            message.append(marker);
            Err(RewindError::PathEscape(message))
        },
    }
}

/// Refuses a metadata directory that is a link, or none at all.
pub fn check_metadata_place(directory: &str, place: &Place) -> (r: Result<()>)
    ensures
        r is Err == misplaced(*place, *place is Directory),
        r is Err ==> r->Err_0@ == Fault::PathEscape("workspace metadata directory is not local: "@ + directory@),
{
    match place {
        Place::Directory | Place::Missing | Place::Unreadable(_) => Ok(()),
        Place::File | Place::Symlink | Place::Other => {
            let mut message = text::copy("workspace metadata directory is not local: ");
            message.append(directory);
            Err(RewindError::PathEscape(message))
        },
    }
}

/// Refuses a root that is no directory.
pub fn check_root(path: &str, is_directory: bool) -> (r: Result<()>)
    ensures
        r is Ok == is_directory,
        r is Err ==> r->Err_0@ == Fault::WorkspaceIdentity(path@ + " is not a directory"@),
{
    if is_directory {
        return Ok(());
    }
    let mut message = text::copy(path);
    message.append(" is not a directory");
    Err(RewindError::WorkspaceIdentity(message))
}

/// The store that is used where none is asked for: the one of the environment,
/// else one in the home directory.
pub fn default_store_root(platform: Platform, rewind_home: &Option<String>, home: &Option<String>) -> (r: Result<String>)
    ensures
        r is Ok == (rewind_home is Some || home is Some),
        match r {
            Ok(path) => path@ == match *rewind_home {
                Some(store) => store@,
                None => joined(platform, home->0@, ".rewind"@),
            },
            Err(e) => e@ == Fault::Storage("user home directory is unavailable"@),
        },
{
    match rewind_home {
        Some(store) => Ok(text::copy(store.as_str())),
        None => match home {
            Some(home) => Ok(join(platform, home.as_str(), ".rewind")),
            None => Err(RewindError::Storage(text::copy("user home directory is unavailable"))),
        },
    }
}

/// The directories from a path upwards, itself first.
pub open spec fn upwards(list: Seq<Part>) -> Seq<Seq<Part>>
    decreases list.len(),
{
    if list.len() == 0 || list.last() is Root || list.last() is Prefix {
        seq![list]
    } else {
        seq![list] + upwards(list.drop_last())
    }
}

/// The places of a marker that a search from a path upwards looks at, in order.
pub fn marker_candidates(platform: Platform, start: &str) -> (r: Vec<String>)
    ensures
        views(r@) == upwards(components_of(platform, start@)).map_values(|p: Seq<Part>| marker_at(platform, rendered(platform, p))),
{
    let ghost f = |p: Seq<Part>| marker_at(platform, rendered(platform, p));
    let mut here = components(platform, start);
    let mut out: Vec<String> = Vec::new();
    let ghost all = upwards(components_of(platform, start@)).map_values(f);
    assert(views(out@) + upwards(views(here@)).map_values(f) =~= all);
    loop
        invariant_except_break
            views(out@) + upwards(views(here@)).map_values(f) == all,
        invariant
            f == (|p: Seq<Part>| marker_at(platform, rendered(platform, p))),
        ensures
            views(out@) == all,
        decreases here@.len(),
    {
        let ghost now = views(here@);
        let marker = marker_path(platform, render(platform, &here).as_str());
        let ghost before = views(out@);
        proof {
            order::push_contains(out@, marker);
        }
        out.push(marker);
        match here.pop() {
            None => {
                assert(upwards(now).map_values(f) =~= seq![f(now)]);
                assert(views(out@) =~= all);
                break;
            },
            Some(last) => {
                assert(now.last() == last@);
                assert(views(here@) =~= now.drop_last());
                match last {
                    Component::Root | Component::Prefix(_, _) => {
                        assert(upwards(now).map_values(f) =~= seq![f(now)]);
                        assert(views(out@) =~= all);
                        break;
                    },
                    _ => {
                        assert(upwards(now).map_values(f) =~= seq![f(now)] + upwards(views(here@)).map_values(f));
                        assert(views(out@) + upwards(views(here@)).map_values(f) =~= all);
                    },
                }
            },
        }
    }
    out
}

/// The marker that a search upwards finds: the first that is there.
pub fn discover_marker(platform: Platform, start: &str, present: &Vec<bool>) -> (r: Result<String>)
    requires
        present@.len() == upwards(components_of(platform, start@)).len(),
    ensures
        r is Ok == exists|i: int| 0 <= i < present@.len() && #[trigger] present@[i],
        match r {
            Ok(path) => exists|i: int|
                0 <= i < present@.len() && #[trigger] present@[i] && path@ == marker_at(platform, 
                    rendered(platform, upwards(components_of(platform, start@))[i]),
                ) && forall|j: int| 0 <= j < i ==> !(#[trigger] present@[j]),
            Err(e) => e@ == Fault::WorkspaceNotInitialized,
        },
{
    let candidates = marker_candidates(platform, start);
    let ghost all = upwards(components_of(platform, start@));
    assert(views(candidates@).len() == all.len());
    for i in 0..candidates.len()
        invariant
            all == upwards(components_of(platform, start@)),
            candidates@.len() == present@.len(),
            present@.len() == all.len(),
            views(candidates@) == all.map_values(|p: Seq<Part>| marker_at(platform, rendered(platform, p))),
            forall|j: int| 0 <= j < i ==> !(#[trigger] present@[j]),
    {
        if present[i] {
            assert(views(candidates@)[i as int] == candidates@[i as int]@);
            assert(present@[i as int]);
            return Ok(text::copy(candidates[i].as_str()));
        }
    }
    Err(RewindError::WorkspaceNotInitialized)
}

// ---------------------------------------------------------------------------
// Paths inside a root
// ---------------------------------------------------------------------------

proof fn pieces_of_joined(marks: Separators, a: Seq<char>, c: char, b: Seq<char>)
    requires
        marks.has(c),
    ensures
        pieces(marks, a + seq![c] + b) == pieces(marks, a) + pieces(marks, b),
    decreases b.len(),
{
    let whole = a + seq![c] + b;
    pieces_nonempty(marks, a);
    if b.len() == 0 {
        assert(whole.drop_last() =~= a);
        assert(whole.last() == c);
        assert(pieces(marks, whole) =~= pieces(marks, a) + pieces(marks, b));
    } else {
        let inner = a + seq![c] + b.drop_last();
        assert(whole.drop_last() =~= inner);
        pieces_of_joined(marks, a, c, b.drop_last());
        pieces_nonempty(marks, b.drop_last());
        let head = pieces(marks, a);
        let tail = pieces(marks, b.drop_last());
        assert((head + tail).last() == tail.last());
        assert((head + tail).drop_last() =~= head + tail.drop_last());
        assert(pieces(marks, whole) =~= head + pieces(marks, b));
    }
}

/// Whether a text holds no separator.
pub open spec fn unmarked(marks: Separators, name: Seq<char>) -> bool {
    forall|i: int| 0 <= i < name.len() ==> !marks.has(#[trigger] name[i])
}

/// A name of a file: no separator in it, and nothing that has another meaning.
pub open spec fn proper(marks: Separators, name: Seq<char>) -> bool {
    &&& unmarked(marks, name)
    &&& name != ""@
    &&& name != "."@
    &&& name != ".."@
}

proof fn pieces_of_name(marks: Separators, name: Seq<char>)
    requires
        unmarked(marks, name),
    ensures
        pieces(marks, name) == seq![name],
    decreases name.len(),
{
    if name.len() == 0 {
        assert(name =~= Seq::<char>::empty());
    } else {
        assert(unmarked(marks, name.drop_last())) by {
            assert forall|i: int| 0 <= i < name.len() - 1 implies !marks.has(#[trigger] name.drop_last()[i]) by {
                assert(!marks.has(name[i]));
            }
        }
        pieces_of_name(marks, name.drop_last());
        assert(!marks.has(name[name.len() - 1]));
        assert(name.drop_last().push(name.last()) =~= name);
        assert(pieces(marks, name) =~= seq![name]);
    }
}

/// No stretch holds a separator.
proof fn pieces_are_unmarked(marks: Separators, s: Seq<char>, i: int)
    requires
        0 <= i < pieces(marks, s).len(),
    ensures
        unmarked(marks, pieces(marks, s)[i]),
    decreases s.len(),
{
    if s.len() > 0 {
        let head = pieces(marks, s.drop_last());
        pieces_nonempty(marks, s.drop_last());
        if marks.has(s.last()) {
            if i < head.len() {
                pieces_are_unmarked(marks, s.drop_last(), i);
            }
        } else {
            pieces_are_unmarked(marks, s.drop_last(), i);
            if i == head.len() - 1 {
                let piece = pieces(marks, s)[i];
                assert forall|k: int| 0 <= k < piece.len() implies !marks.has(#[trigger] piece[k]) by {
                    if k < head.last().len() {
                        assert(!marks.has(head.last()[k]));
                    }
                }
            }
        }
    }
}

/// Where a dot is a component behind the beginning of a path.
pub open spec fn later(dots: Dots) -> Dots {
    match dots {
        Dots::First | Dots::Never => Dots::Never,
        Dots::Always => Dots::Always,
    }
}

proof fn parts_of_both(a: Seq<Seq<char>>, b: Seq<Seq<char>>, dots: Dots)
    requires
        a.len() > 0,
    ensures
        parts(a + b, dots) == parts(a, dots) + parts(b, later(dots)),
    decreases b.len(),
{
    if b.len() == 0 {
        assert(a + b =~= a);
        assert(parts(a, dots) + parts(b, later(dots)) =~= parts(a, dots));
    } else {
        parts_of_both(a, b.drop_last(), dots);
        assert((a + b).drop_last() =~= a + b.drop_last());
        assert((a + b).last() == b.last());
        assert(parts(a + b, dots) =~= parts(a, dots) + parts(b, later(dots)));
    }
}

proof fn parts_of_nothing(marks: Separators, dots: Dots)
    ensures
        parts(pieces(marks, Seq::empty()), dots) == Seq::<Part>::empty(),
{
    reveal_strlit("");
    let empty = pieces(marks, Seq::<char>::empty());
    assert(""@ =~= Seq::<char>::empty());
    assert(empty =~= seq![Seq::<char>::empty()]);
    assert(empty.last() == ""@);
    assert(parts(empty.drop_last(), dots) =~= Seq::<Part>::empty());
}

/// Whether a text can be set behind another with only this between them.
pub open spec fn glues(marks: Separators, a: Seq<char>, glue: Seq<char>) -> bool {
    (glue.len() == 1 && marks.has(glue[0])) || (glue.len() == 0 && a.len() > 0 && marks.has(a.last()))
}

/// The components of two texts with a separator between them.
proof fn parts_of_glued(marks: Separators, dots: Dots, a: Seq<char>, glue: Seq<char>, b: Seq<char>)
    requires
        glues(marks, a, glue),
    ensures
        parts(pieces(marks, a + glue + b), dots) == parts(pieces(marks, a), dots) + parts(
            pieces(marks, b),
            later(dots),
        ),
{
    if glue.len() == 1 {
        let c = glue[0];
        assert(glue =~= seq![c]);
        pieces_of_joined(marks, a, c, b);
        pieces_nonempty(marks, a);
        parts_of_both(pieces(marks, a), pieces(marks, b), dots);
    } else {
        let base = a.drop_last();
        let c = a.last();
        let none = Seq::<char>::empty();
        assert(a =~= base + seq![c] + none);
        assert(a + glue + b =~= base + seq![c] + b);
        pieces_of_joined(marks, base, c, none);
        pieces_of_joined(marks, base, c, b);
        pieces_nonempty(marks, base);
        parts_of_both(pieces(marks, base), pieces(marks, none), dots);
        parts_of_both(pieces(marks, base), pieces(marks, b), dots);
        parts_of_nothing(marks, later(dots));
        assert(parts(pieces(marks, a), dots) =~= parts(pieces(marks, base), dots));
    }
}

/// Stretches that do not begin a path stand for names and steps upwards, each
/// of which they would stand for at the beginning too.
proof fn later_parts_are(list: Seq<Seq<char>>, j: int)
    requires
        0 <= j < parts(list, Dots::Never).len(),
    ensures
        parts(list, Dots::Never)[j] is Parent || parts(list, Dots::Never)[j] is Name,
        parts(list, Dots::First).contains(parts(list, Dots::Never)[j]),
    decreases list.len(),
{
    if list.len() > 0 {
        let head = list.drop_last();
        let p = parts(list, Dots::Never)[j];
        if j < parts(head, Dots::Never).len() {
            later_parts_are(head, j);
            assert(parts(list, Dots::Never)[j] == parts(head, Dots::Never)[j]);
            let k = choose|k: int| 0 <= k < parts(head, Dots::First).len() && parts(head, Dots::First)[k] == p;
            assert(parts(list, Dots::First)[k] == p);
        } else {
            assert(part(list.last(), false) == Some(p));
            assert(part(list.last(), list.len() == 1) == Some(p));
            assert(parts(list, Dots::First).last() == p);
            assert(parts(list, Dots::First)[parts(list, Dots::First).len() - 1] == p);
        }
    }
}

/// The components of a path without a prefix that another is set behind.
proof fn plain_joined(marks: Separators, root: Seq<char>, glue: Seq<char>, relative: Seq<char>)
    requires
        root.len() > 0,
        glues(marks, root, glue),
    ensures
        plain_components(marks, root + glue + relative) == plain_components(marks, root) + parts(
            pieces(marks, relative),
            Dots::Never,
        ),
{
    let whole = root + glue + relative;
    assert(whole[0] == root[0]);
    parts_of_glued(marks, Dots::First, root, glue, relative);
    assert(plain_components(marks, whole) =~= plain_components(marks, root) + parts(
        pieces(marks, relative),
        Dots::Never,
    ));
}

/// What stretches stand for: proper names, or what has a meaning of its own.
proof fn parts_are_proper(marks: Separators, list: Seq<Seq<char>>, dots: Dots, i: int)
    requires
        forall|p: int| 0 <= p < list.len() ==> unmarked(marks, #[trigger] list[p]),
        0 <= i < parts(list, dots).len(),
    ensures
        parts(list, dots)[i] matches Part::Name(name) ==> proper(marks, name),
        dots is Never || (dots is First && (i > 0 || list[0] == ""@)) ==> !(parts(list, dots)[i] is Current),
        !(parts(list, dots)[i] is Root),
        !(parts(list, dots)[i] is Prefix),
    decreases list.len(),
{
    if list.len() > 0 {
        let head = list.drop_last();
        assert forall|p: int| 0 <= p < head.len() implies unmarked(marks, #[trigger] head[p]) by {
            assert(unmarked(marks, list[p]));
        }
        if i < parts(head, dots).len() {
            parts_are_proper(marks, head, dots, i);
            if head.len() > 0 {
                assert(head[0] == list[0]);
            }
        } else {
            assert(unmarked(marks, list[list.len() - 1]));
        }
    }
}

proof fn components_are_proper(marks: Separators, s: Seq<char>, dots: Dots, i: int)
    requires
        0 <= i < parts(pieces(marks, s), dots).len(),
    ensures
        parts(pieces(marks, s), dots)[i] matches Part::Name(name) ==> proper(marks, name),
        dots is Never || (dots is First && (i > 0 || pieces(marks, s)[0] == ""@)) ==> !(parts(
            pieces(marks, s),
            dots,
        )[i] is Current),
        !(parts(pieces(marks, s), dots)[i] is Root),
        !(parts(pieces(marks, s), dots)[i] is Prefix),
{
    assert forall|p: int| 0 <= p < pieces(marks, s).len() implies unmarked(marks, #[trigger] pieces(marks, s)[p]) by {
        pieces_are_unmarked(marks, s, p);
    }
    parts_are_proper(marks, pieces(marks, s), dots, i);
}

/// Whether a list holds proper names alone.
pub open spec fn all_proper(marks: Separators, list: Seq<Part>) -> bool {
    forall|i: int| 0 <= i < list.len() ==> (#[trigger] list[i] matches Part::Name(name) && proper(marks, name))
}

proof fn part_of_name(marks: Separators, name: Seq<char>, dots: Dots)
    requires
        proper(marks, name),
    ensures
        pieces(marks, name) == seq![name],
        parts(seq![name], dots) == seq![Part::Name(name)],
{
    pieces_of_name(marks, name);
    let one = seq![name];
    assert(parts(one.drop_last(), dots) =~= Seq::<Part>::empty());
    assert(one.last() == name);
    assert(parts(one, dots) =~= seq![Part::Name(name)]);
}

/// Names that are written one behind another are read as they were.
proof fn components_of_names(marks: Separators, list: Seq<Part>)
    requires
        marks.has('/'),
        all_proper(marks, list),
    ensures
        plain_components(marks, joined_names(list)) == list,
        parts(pieces(marks, joined_names(list)), Dots::Never) == list,
        list.len() > 0 ==> joined_names(list).len() > 0 && !rooted(marks, joined_names(list)),
        names(list) == list.len(),
    decreases list.len(),
{
    if list.len() == 0 {
        parts_of_nothing(marks, Dots::First);
        parts_of_nothing(marks, Dots::Never);
        assert(plain_components(marks, joined_names(list)) =~= list);
        assert(parts(pieces(marks, joined_names(list)), Dots::Never) =~= list);
    } else {
        let head = list.drop_last();
        assert(forall|i: int| 0 <= i < head.len() ==> #[trigger] head[i] == list[i]);
        components_of_names(marks, head);
        let name = list.last()->Name_0;
        assert(list[list.len() - 1] matches Part::Name(n) && proper(marks, n));
        part_of_name(marks, name, Dots::First);
        part_of_name(marks, name, Dots::Never);
        reveal_strlit("");
        assert(name.len() > 0) by {
            if name.len() == 0 {
                assert(name =~= ""@);
            }
        }
        assert(!marks.has(name[0]));
        if head.len() == 0 {
            assert(joined_names(list) == name);
            assert(list =~= seq![Part::Name(name)]);
            assert(plain_components(marks, name) =~= list);
        } else {
            let before = joined_names(head);
            let slash = seq!['/'];
            assert(joined_names(list) == before + slash + name);
            parts_of_glued(marks, Dots::First, before, slash, name);
            parts_of_glued(marks, Dots::Never, before, slash, name);
            assert((before + slash + name)[0] == before[0]);
            assert(parts(pieces(marks, before), Dots::First) =~= head) by {
                assert(plain_components(marks, before) =~= parts(pieces(marks, before), Dots::First));
            }
            assert(head + seq![Part::Name(name)] =~= list);
            assert(plain_components(marks, joined_names(list)) =~= list);
        }
    }
}

/// The components of a path below a root: proper names, where the path stays
/// below it.
proof fn below_are_names(root: Seq<char>, path: Seq<char>, i: int)
    requires
        root.len() > 0,
        begins_with(Platform::Posix, path, root),
        stays_below(below(Platform::Posix, path, root)),
        0 <= i < below(Platform::Posix, path, root).len(),
    ensures
        below(Platform::Posix, path, root)[i] matches Part::Name(name) && proper(Separators::Slash, name),
{
    let base = components_of(Platform::Posix, root);
    let whole = components_of(Platform::Posix, path);
    let n = base.len() as int;
    root_has_components(root);
    assert(below(Platform::Posix, path, root)[i] == whole[n + i]);
    assert(!escapes(below(Platform::Posix, path, root)[i]));
    let start: int = if rooted(Separators::Slash, path) {
        1
    } else {
        0
    };
    assert(whole[n + i] == parts(pieces(Separators::Slash, path), Dots::First)[n + i - start]);
    if rooted(Separators::Slash, path) && n + i - start == 0 {
        absolute_begins_empty(path);
    }
    components_are_proper(Separators::Slash, path, Dots::First, n + i - start);
}

proof fn absolute_begins_empty(s: Seq<char>)
    requires
        rooted(Separators::Slash, s),
    ensures
        pieces(Separators::Slash, s)[0] == ""@,
        pieces(Separators::Slash, s).len() > 1,
    decreases s.len(),
{
    reveal_strlit("");
    assert(""@ =~= Seq::<char>::empty());
    if s.len() == 1 {
        assert(s.drop_last() =~= Seq::<char>::empty());
        assert(pieces(Separators::Slash, s.drop_last()) =~= seq![Seq::<char>::empty()]);
        assert(s.last() == '/');
    } else {
        assert(s.drop_last()[0] == '/');
        absolute_begins_empty(s.drop_last());
    }
}

proof fn root_has_components(root: Seq<char>)
    requires
        root.len() > 0,
    ensures
        components_of(Platform::Posix, root).len() > 0,
{
    if !rooted(Separators::Slash, root) {
        first_piece_counts(root);
    }
}

proof fn first_piece_counts(s: Seq<char>)
    requires
        s.len() > 0,
        s[0] != '/',
    ensures
        pieces(Separators::Slash, s)[0].len() > 0,
        parts(pieces(Separators::Slash, s), Dots::First).len() > 0,
    decreases s.len(),
{
    reveal_strlit("");
    let list = pieces(Separators::Slash, s);
    pieces_nonempty(Separators::Slash, s);
    first_piece_is(s);
    first_part_counts(list);
}

proof fn first_piece_is(s: Seq<char>)
    requires
        s.len() > 0,
        s[0] != '/',
    ensures
        pieces(Separators::Slash, s).len() > 0,
        pieces(Separators::Slash, s)[0].len() > 0,
    decreases s.len(),
{
    pieces_nonempty(Separators::Slash, s.drop_last());
    if s.len() > 1 {
        assert(s.drop_last()[0] == s[0]);
        first_piece_is(s.drop_last());
    } else {
        assert(s.drop_last() =~= Seq::<char>::empty());
    }
}

proof fn first_part_counts(list: Seq<Seq<char>>)
    requires
        list.len() > 0,
        list[0].len() > 0,
    ensures
        parts(list, Dots::First).len() > 0,
    decreases list.len(),
{
    reveal_strlit("");
    if list.len() > 1 {
        assert(list.drop_last()[0] == list[0]);
        first_part_counts(list.drop_last());
    } else {
        assert(list.last() != ""@) by {
            assert(""@.len() == 0);
        }
    }
}

// ---------------------------------------------------------------------------
// Paths of Windows
// ---------------------------------------------------------------------------

/// Components with backslashes between them.
pub open spec fn glued(list: Seq<Part>) -> Seq<char>
    decreases list.len(),
{
    if list.len() == 0 {
        Seq::empty()
    } else if list.len() == 1 {
        word(list[0])
    } else {
        glued(list.drop_last()) + seq!['\\'] + word(list.last())
    }
}

/// Whether a list holds what may follow a root: names, dots and steps upwards.
pub open spec fn sound(list: Seq<Part>) -> bool {
    forall|i: int|
        0 <= i < list.len() ==> match #[trigger] list[i] {
            Part::Current | Part::Parent => true,
            Part::Name(name) => proper(Separators::Backslash, name),
            _ => false,
        }
}

proof fn sound_head(list: Seq<Part>)
    requires
        sound(list),
        list.len() > 0,
    ensures
        sound(list.drop_last()),
{
    assert forall|i: int| 0 <= i < list.len() - 1 implies match #[trigger] list.drop_last()[i] {
        Part::Current | Part::Parent => true,
        Part::Name(name) => proper(Separators::Backslash, name),
        _ => false,
    } by {
        assert(list.drop_last()[i] == list[i]);
    }
}

/// Names alone are written with backslashes between them.
proof fn rendered_names(list: Seq<Part>)
    requires
        sound(list),
    ensures
        rendered(Platform::Windows, list) == glued(list),
    decreases list.len(),
{
    if list.len() > 0 {
        let head = list.drop_last();
        sound_head(list);
        rendered_names(head);
        let last = list[list.len() - 1];
        assert(list.last() == last);
        if head.len() == 0 {
            assert(rendered(Platform::Windows, list) =~= word(last));
        } else {
            assert(head.last() == list[list.len() - 2]);
        }
    }
}

/// What follows a prefix and its root is written with backslashes between.
proof fn rendered_behind(kind: PrefixKind, written: Seq<char>, tail: Seq<Part>)
    requires
        sound(tail),
    ensures
        rendered(Platform::Windows, seq![Part::Prefix(kind, written), Part::Root] + tail) == written + seq!['\\']
            + glued(tail),
    decreases tail.len(),
{
    let lead = seq![Part::Prefix(kind, written), Part::Root];
    let list = lead + tail;
    if tail.len() == 0 {
        assert(list =~= lead);
        let one = seq![Part::Prefix(kind, written)];
        assert(lead.drop_last() =~= one);
        assert(one.drop_last() =~= Seq::<Part>::empty());
        assert(rendered(Platform::Windows, Seq::<Part>::empty()) =~= Seq::<char>::empty());
        assert(one.last() == Part::Prefix(kind, written));
        assert(rendered(Platform::Windows, one) =~= written);
        assert(lead.last() == Part::Root);
        assert(rendered(Platform::Windows, lead) =~= written + seq!['\\']);
        assert(written + seq!['\\'] + glued(tail) =~= written + seq!['\\']);
    } else {
        sound_head(tail);
        rendered_behind(kind, written, tail.drop_last());
        let head = list.drop_last();
        assert(head =~= lead + tail.drop_last());
        let last = tail[tail.len() - 1];
        assert(list.last() == last);
        if tail.len() == 1 {
            assert(head =~= lead);
            assert(head.last() is Root);
            assert(glued(tail.drop_last()) =~= Seq::<char>::empty());
            assert(rendered(Platform::Windows, list) =~= written + seq!['\\'] + glued(tail));
        } else {
            assert(head.last() == tail[tail.len() - 2]);
            assert(rendered(Platform::Windows, list) =~= written + seq!['\\'] + glued(tail));
        }
    }
}

proof fn part_of_word(p: Part)
    requires
        match p {
            Part::Current | Part::Parent => true,
            Part::Name(name) => proper(Separators::Backslash, name),
            _ => false,
        },
    ensures
        pieces(Separators::Backslash, word(p)) == seq![word(p)],
        parts(seq![word(p)], Dots::Always) == seq![p],
{
    reveal_strlit("");
    reveal_strlit(".");
    reveal_strlit("..");
    pieces_of_name(Separators::Backslash, word(p));
    let one = seq![word(p)];
    assert(parts(one.drop_last(), Dots::Always) =~= Seq::<Part>::empty());
    assert(one.last() == word(p));
    assert(word(p).len() > 0) by {
        if word(p).len() == 0 {
            assert(word(p) =~= ""@);
        }
    }
    if p is Parent {
        assert(".."@.len() == 2 && "."@.len() == 1);
    }
    assert(part(word(p), true) == Some(p));
    assert(parts(one, Dots::Always) =~= seq![p]);
}

/// What is written with backslashes between is read as it was.
proof fn parts_of_glued_list(list: Seq<Part>)
    requires
        sound(list),
    ensures
        parts(pieces(Separators::Backslash, glued(list)), Dots::Always) == list,
    decreases list.len(),
{
    let back = Separators::Backslash;
    if list.len() == 0 {
        parts_of_nothing(back, Dots::Always);
        assert(glued(list) =~= Seq::<char>::empty());
        assert(parts(pieces(back, glued(list)), Dots::Always) =~= list);
    } else {
        let last = list[list.len() - 1];
        part_of_word(last);
        if list.len() == 1 {
            assert(list =~= seq![last]);
        } else {
            let head = list.drop_last();
            sound_head(list);
            parts_of_glued_list(head);
            parts_of_glued(back, Dots::Always, glued(head), seq!['\\'], word(last));
            assert(head + seq![last] =~= list);
        }
    }
}

/// Names with backslashes between them begin with the first name.
proof fn glued_begins(list: Seq<Part>)
    requires
        list.len() > 0,
        all_proper(Separators::Either, list),
    ensures
        ({
            let first = list[0]->Name_0;
            let whole = glued(list);
            &&& first.len() > 0
            &&& whole.len() >= first.len()
            &&& whole.take(first.len() as int) == first
            &&& whole.len() > first.len() ==> whole[first.len() as int] == '\\'
        }),
    decreases list.len(),
{
    let first = list[0]->Name_0;
    assert(list[0] matches Part::Name(n) && proper(Separators::Either, n));
    reveal_strlit("");
    if first.len() == 0 {
        assert(first =~= ""@);
    }
    if list.len() == 1 {
        assert(glued(list).take(first.len() as int) =~= first);
    } else {
        let head = list.drop_last();
        assert(forall|i: int| 0 <= i < head.len() ==> #[trigger] head[i] == list[i]);
        glued_begins(head);
        let whole = glued(list);
        let before = glued(head);
        assert(whole.take(first.len() as int) =~= before.take(first.len() as int));
        if before.len() > first.len() {
            assert(whole[first.len() as int] == before[first.len() as int]);
        } else {
            assert(whole[first.len() as int] == '\\');
        }
    }
}

/// Names with slashes between them begin with the first name.
proof fn joined_names_begin(list: Seq<Part>)
    requires
        list.len() > 0,
        all_proper(Separators::Either, list),
    ensures
        ({
            let first = list[0]->Name_0;
            let whole = joined_names(list);
            &&& first.len() > 0
            &&& whole.len() >= first.len()
            &&& whole.take(first.len() as int) == first
            &&& whole.len() > first.len() ==> whole[first.len() as int] == '/'
        }),
    decreases list.len(),
{
    let first = list[0]->Name_0;
    assert(list[0] matches Part::Name(n) && proper(Separators::Either, n));
    reveal_strlit("");
    if first.len() == 0 {
        assert(first =~= ""@);
    }
    let head = list.drop_last();
    assert(forall|i: int| 0 <= i < head.len() ==> #[trigger] head[i] == list[i]);
    assert(list[list.len() - 1] is Name);
    components_of_names(Separators::Either, head);
    if list.len() == 1 {
        assert(joined_names(list) == first);
        assert(joined_names(list).take(first.len() as int) =~= first);
    } else {
        joined_names_begin(head);
        let whole = joined_names(list);
        let before = joined_names(head);
        assert(whole == before + seq!['/'] + list.last()->Name_0);
        assert(whole.take(first.len() as int) =~= before.take(first.len() as int));
        if before.len() > first.len() {
            assert(whole[first.len() as int] == before[first.len() as int]);
        } else {
            assert(whole[first.len() as int] == '/');
        }
    }
}

/// Whether names are written with slashes or backslashes between them, a drive
/// stands at their beginning only if the first name begins with one; nothing
/// else begins a prefix.
proof fn names_have_no_prefix(list: Seq<Part>)
    requires
        all_proper(Separators::Either, list),
    ensures
        prefix_of(glued(list)) is Some == drive_at(joined_names(list), 0),
        prefix_of(joined_names(list)) is Some == drive_at(joined_names(list), 0),
        !rooted(Separators::Either, joined_names(list)),
{
    if list.len() > 0 {
        glued_begins(list);
        joined_names_begin(list);
        let first = list[0]->Name_0;
        assert(proper(Separators::Either, first)) by {
            assert(list[0] matches Part::Name(n) && proper(Separators::Either, n));
        }
        let a = glued(list);
        let b = joined_names(list);
        assert(!Separators::Either.has(first[0]));
        assert(a[0] == a.take(first.len() as int)[0]);
        assert(b[0] == b.take(first.len() as int)[0]);
        if first.len() >= 2 {
            assert(a[1] == a.take(first.len() as int)[1]);
            assert(b[1] == b.take(first.len() as int)[1]);
        }
    }
}

/// The names of a relative path, whatever begins it.
proof fn names_of_relative(list: Seq<Seq<char>>)
    ensures
        joined_names(parts(list, Dots::First)) == joined_names(parts(list, Dots::Never)),
        names(parts(list, Dots::First)) == names(parts(list, Dots::Never)),
    decreases list.len(),
{
    if list.len() > 0 {
        names_of_relative(list.drop_last());
        let a = parts(list.drop_last(), Dots::First);
        let b = parts(list.drop_last(), Dots::Never);
        match part(list.last(), false) {
            Some(p) => {
                assert(part(list.last(), list.len() == 1) == Some(p));
                assert(a.push(p).drop_last() =~= a);
                assert(b.push(p).drop_last() =~= b);
            },
            None => {
                match part(list.last(), list.len() == 1) {
                    Some(p) => {
                        assert(p is Current);
                        assert(a.push(p).drop_last() =~= a);
                    },
                    None => {},
                }
            },
        }
    }
}

/// Walking a relative path that does not lead upwards adds its names.
proof fn walked_names(base: Seq<Part>, list: Seq<Seq<char>>)
    requires
        stays_below(parts(list, Dots::First)),
    ensures
        walked(base, parts(list, Dots::First)) == base + parts(list, Dots::Never),
    decreases list.len(),
{
    let all = parts(list, Dots::First);
    if list.len() == 0 {
        assert(base + parts(list, Dots::Never) =~= base);
    } else {
        let head = parts(list.drop_last(), Dots::First);
        let less = parts(list.drop_last(), Dots::Never);
        assert(stays_below(head)) by {
            assert forall|i: int| 0 <= i < head.len() implies !escapes(#[trigger] head[i]) by {
                assert(all[i] == head[i]);
                assert(!escapes(all[i]));
            }
        }
        walked_names(base, list.drop_last());
        match part(list.last(), list.len() == 1) {
            Some(p) => {
                assert(all == head.push(p));
                assert(all.drop_last() =~= head);
                assert(all[all.len() - 1] == p);
                assert(!escapes(p));
                if p is Current {
                    assert(part(list.last(), false) is None);
                } else {
                    assert(part(list.last(), false) == Some(p));
                    assert((base + less).push(p) =~= base + less.push(p));
                }
            },
            None => {
                assert(part(list.last(), false) is None);
            },
        }
    }
}

/// The components of a path with a prefix that another is set behind.
proof fn prefixed_joined(root: Seq<char>, glue: Seq<char>, relative: Seq<char>, kind: PrefixKind, end: int)
    requires
        0 < end <= root.len(),
        !kind.verbatim(),
        !rooted(Separators::Either, relative),
        if end == root.len() {
            if kind is Disk {
                glue.len() == 0
            } else {
                glue.len() == 1 && Separators::Either.has(glue[0])
            }
        } else {
            glues(Separators::Either, root, glue)
        },
    ensures
        prefixed_components(root + glue + relative, kind, end) == prefixed_components(root, kind, end) + parts(
            pieces(Separators::Either, relative),
            Dots::Never,
        ),
{
    let either = Separators::Either;
    let whole = root + glue + relative;
    let rest = parts(pieces(either, relative), Dots::Never);
    assert(whole.take(end) =~= root.take(end));
    if end == root.len() {
        assert(root.skip(end) =~= Seq::<char>::empty());
        assert(behind(root, end) =~= Seq::<char>::empty());
        parts_of_nothing(either, Dots::Never);
        assert(whole.skip(end) =~= glue + relative);
        if kind is Disk {
            assert(glue + relative =~= relative);
            assert(behind(whole, end) =~= relative);
        } else {
            assert((glue + relative)[0] == glue[0]);
            assert(whole.skip(end + 1) =~= relative);
            assert(behind(whole, end) =~= relative);
        }
    } else {
        assert(whole.skip(end)[0] == root.skip(end)[0]);
        let a = behind(root, end);
        assert(behind(whole, end) =~= a + glue + relative);
        if a.len() == 0 && glue.len() == 0 {
            assert(a + glue + relative =~= relative);
            assert(a =~= Seq::<char>::empty());
            parts_of_nothing(either, Dots::Never);
        } else {
            if glue.len() == 0 {
                assert(a.last() == root.last());
            }
            parts_of_glued(either, Dots::Never, a, glue, relative);
        }
    }
    assert(prefixed_components(whole, kind, end) =~= prefixed_components(root, kind, end) + rest);
}

/// Whether a path keeps its prefix when another is joined to it. Where the
/// prefix is taken as it is written, a root must follow it.
pub open spec fn keeps_prefix(platform: Platform, root: Seq<char>, relative: Seq<char>) -> bool {
    platform is Windows ==> {
        &&& prefix_of(joined(platform, root, relative)) == prefix_of(root)
        &&& prefix_of(root) matches Some((kind, end)) ==> (kind.verbatim() ==> rooted(
            Separators::Either,
            root.skip(end),
        ))
    }
}

proof fn verbatim_components(root: Seq<char>, kind: PrefixKind, end: int)
    requires
        kind.verbatim(),
        prefix_of(root) == Some((kind, end)),
        rooted(Separators::Either, root.skip(end)),
    ensures
        ({
            let tail = parts(pieces(Separators::Backslash, behind(root, end)), Dots::Always);
            &&& sound(tail)
            &&& components_of(Platform::Windows, root) == seq![Part::Prefix(kind, root.take(end)), Part::Root] + tail
        }),
{
    let back = Separators::Backslash;
    let tail = parts(pieces(back, behind(root, end)), Dots::Always);
    assert forall|i: int| 0 <= i < tail.len() implies match #[trigger] tail[i] {
        Part::Current | Part::Parent => true,
        Part::Name(name) => proper(back, name),
        _ => false,
    } by {
        components_are_proper(back, behind(root, end), Dots::Always, i);
    }
    assert(components_of(Platform::Windows, root) =~= seq![Part::Prefix(kind, root.take(end)), Part::Root] + tail);
}

proof fn proper_is_sound(list: Seq<Part>)
    requires
        all_proper(Separators::Either, list),
    ensures
        sound(list),
{
    assert forall|i: int| 0 <= i < list.len() implies match #[trigger] list[i] {
        Part::Current | Part::Parent => true,
        Part::Name(name) => proper(Separators::Backslash, name),
        _ => false,
    } by {
        assert(list[i] matches Part::Name(name) && proper(Separators::Either, name));
        let name = list[i]->Name_0;
        assert forall|k: int| 0 <= k < name.len() implies !Separators::Backslash.has(#[trigger] name[k]) by {
            assert(!Separators::Either.has(name[k]));
        }
    }
}

/// The names of a relative path that leads nowhere else.
proof fn relative_names(relative: Seq<char>)
    requires
        stays_below(components_of(Platform::Windows, relative)),
    ensures
        prefix_of(relative) is None,
        !rooted(Separators::Either, relative),
        components_of(Platform::Windows, relative) == parts(pieces(Separators::Either, relative), Dots::First),
        all_proper(Separators::Either, parts(pieces(Separators::Either, relative), Dots::Never)),
{
    let either = Separators::Either;
    let own = components_of(Platform::Windows, relative);
    if prefix_of(relative) is Some {
        assert(own[0] is Prefix);
        assert(escapes(own[0]));
    }
    if rooted(either, relative) {
        assert(own[0] is Root);
        assert(escapes(own[0]));
    }
    let all = parts(pieces(either, relative), Dots::First);
    assert(own =~= all);
    let rest = parts(pieces(either, relative), Dots::Never);
    assert forall|i: int| 0 <= i < rest.len() implies (#[trigger] rest[i] matches Part::Name(name) && proper(
        either,
        name,
    )) by {
        later_parts_are(pieces(either, relative), i);
        components_are_proper(either, relative, Dots::Never, i);
        let k = choose|k: int| 0 <= k < all.len() && all[k] == rest[i];
        assert(!escapes(own[k]));
    }
}

/// A path joined to a verbatim one, as it is written.
proof fn verbatim_joined(root: Seq<char>, relative: Seq<char>, kind: PrefixKind, end: int)
    requires
        kind.verbatim(),
        prefix_of(root) == Some((kind, end)),
        rooted(Separators::Either, root.skip(end)),
        stays_below(components_of(Platform::Windows, relative)),
        relative.len() > 0,
    ensures
        ({
            let tail = parts(pieces(Separators::Backslash, behind(root, end)), Dots::Always) + parts(
                pieces(Separators::Either, relative),
                Dots::Never,
            );
            &&& sound(tail)
            &&& joined(Platform::Windows, root, relative) == root.take(end) + seq!['\\'] + glued(tail)
            &&& components_of(Platform::Windows, root) + parts(pieces(Separators::Either, relative), Dots::Never)
                == seq![Part::Prefix(kind, root.take(end)), Part::Root] + tail
        }),
{
    let first = parts(pieces(Separators::Backslash, behind(root, end)), Dots::Always);
    let rest = parts(pieces(Separators::Either, relative), Dots::Never);
    let tail = first + rest;
    let lead = seq![Part::Prefix(kind, root.take(end)), Part::Root];
    relative_names(relative);
    verbatim_components(root, kind, end);
    proper_is_sound(rest);
    assert forall|i: int| 0 <= i < tail.len() implies match #[trigger] tail[i] {
        Part::Current | Part::Parent => true,
        Part::Name(name) => proper(Separators::Backslash, name),
        _ => false,
    } by {
        if i < first.len() {
            assert(tail[i] == first[i]);
        } else {
            assert(tail[i] == rest[i - first.len()]);
        }
    }
    let base = components_of(Platform::Windows, root);
    walked_names(base, pieces(Separators::Either, relative));
    assert(base + rest =~= lead + tail);
    rendered_behind(kind, root.take(end), tail);
}

proof fn stop_passes_none(s: Seq<char>, from: int, marks: Separators, k: int)
    requires
        0 <= from <= k < stop(s, from, marks),
    ensures
        k < s.len(),
        !marks.has(s[k]),
    decreases s.len() - from,
{
    if from < s.len() && !marks.has(s[from]) {
        if k > from {
            stop_passes_none(s, from + 1, marks, k);
        }
    }
}

/// A prefix with a name at its end does not end with a separator.
proof fn named_prefix_ends(root: Seq<char>, kind: PrefixKind, end: int)
    requires
        prefix_of(root) == Some((kind, end)),
        end == root.len(),
        kind is Share || (kind is Device && end > 4),
    ensures
        !Separators::Either.has(root.last()),
{
    let either = Separators::Either;
    if kind is Share {
        let server = stop(root, 2, either);
        stop_passes_none(root, server + 1, either, end - 1);
    } else {
        stop_passes_none(root, 4, either, end - 1);
    }
}

/// The components of a path joined to another on Windows.
proof fn windows_joined(root: Seq<char>, relative: Seq<char>)
    requires
        root.len() > 0,
        stays_below(components_of(Platform::Windows, relative)),
        keeps_prefix(Platform::Windows, root, relative),
    ensures
        components_of(Platform::Windows, joined(Platform::Windows, root, relative)) == components_of(
            Platform::Windows,
            root,
        ) + parts(pieces(Separators::Either, relative), Dots::Never),
{
    let either = Separators::Either;
    let windows = Platform::Windows;
    let whole = joined(windows, root, relative);
    let rest = parts(pieces(either, relative), Dots::Never);
    relative_names(relative);
    prefix_in_range(root);
    let glue: Seq<char> = if either.has(root.last()) || is_bare_drive(root) {
        Seq::empty()
    } else {
        seq!['\\']
    };
    match prefix_of(root) {
        None => {
            assert(whole =~= root + glue + relative);
            plain_joined(either, root, glue, relative);
        },
        Some((kind, end)) => {
            if kind.verbatim() && relative.len() > 0 {
                verbatim_joined(root, relative, kind, end);
                let tail = parts(pieces(Separators::Backslash, behind(root, end)), Dots::Always) + rest;
                let written = root.take(end);
                assert(whole.take(end) =~= written);
                assert(whole.skip(end)[0] == '\\');
                assert(behind(whole, end) =~= glued(tail));
                parts_of_glued_list(tail);
                assert(prefixed_components(whole, kind, end) =~= seq![Part::Prefix(kind, written), Part::Root] + tail);
            } else if kind.verbatim() {
                assert(whole =~= root + glue);
                parts_of_nothing(either, Dots::Never);
                let a = behind(root, end);
                assert(whole.take(end) =~= root.take(end));
                assert(whole.skip(end)[0] == root.skip(end)[0]);
                assert(behind(whole, end) =~= a + glue);
                if glue.len() == 1 {
                    let none = Seq::<char>::empty();
                    assert(a + glue =~= a + glue + none);
                    parts_of_glued(Separators::Backslash, Dots::Always, a, glue, none);
                    parts_of_nothing(Separators::Backslash, Dots::Always);
                } else {
                    assert(a + glue =~= a);
                }
                assert(prefixed_components(whole, kind, end) =~= prefixed_components(root, kind, end) + rest);
            } else {
                assert(whole =~= root + glue + relative);
                if relative.len() == 0 && glue.len() == 0 {
                    assert(whole =~= root);
                    assert(relative =~= Seq::<char>::empty());
                    parts_of_nothing(either, Dots::Never);
                    assert(components_of(windows, root) + rest =~= components_of(windows, root));
                } else {
                    if end == root.len() && !(kind is Disk) {
                        if kind is Device && end == 4 {
                            assert(whole[4] == relative[0]);
                            stop_in_range(whole, 5, either);
                            assert(stop(whole, 4, either) >= 5);
                        }
                        named_prefix_ends(root, kind, end);
                    }
                    prefixed_joined(root, glue, relative, kind, end);
                }
            }
        },
    }
}

/// The names of a relative path, read anew.
proof fn names_read_anew(list: Seq<Part>)
    requires
        all_proper(Separators::Either, list),
        !drive_at(joined_names(list), 0),
    ensures
        components_of(Platform::Windows, rendered(Platform::Windows, list)) == list,
{
    proper_is_sound(list);
    rendered_names(list);
    names_have_no_prefix(list);
    plain_glued(list);
}

proof fn plain_glued(list: Seq<Part>)
    requires
        all_proper(Separators::Either, list),
    ensures
        plain_components(Separators::Either, glued(list)) == list,
        list.len() > 0 ==> glued(list).len() > 0 && !rooted(Separators::Either, glued(list)),
    decreases list.len(),
{
    let either = Separators::Either;
    if list.len() == 0 {
        parts_of_nothing(either, Dots::First);
        assert(plain_components(either, glued(list)) =~= list);
    } else {
        let head = list.drop_last();
        assert(forall|i: int| 0 <= i < head.len() ==> #[trigger] head[i] == list[i]);
        plain_glued(head);
        let name = list.last()->Name_0;
        assert(list[list.len() - 1] matches Part::Name(n) && proper(either, n));
        part_of_name(either, name, Dots::First);
        part_of_name(either, name, Dots::Never);
        reveal_strlit("");
        assert(name.len() > 0) by {
            if name.len() == 0 {
                assert(name =~= ""@);
            }
        }
        assert(!either.has(name[0]));
        if head.len() == 0 {
            assert(list =~= seq![Part::Name(name)]);
            assert(glued(list) == name);
            assert(plain_components(either, name) =~= list);
        } else {
            let before = glued(head);
            let mark = seq!['\\'];
            parts_of_glued(either, Dots::First, before, mark, name);
            assert((before + mark + name)[0] == before[0]);
            assert(parts(pieces(either, before), Dots::First) =~= head) by {
                assert(plain_components(either, before) =~= parts(pieces(either, before), Dots::First));
            }
            assert(head + seq![Part::Name(name)] =~= list);
            assert(plain_components(either, glued(list)) =~= list);
        }
    }
}

// ---------------------------------------------------------------------------
// Laws
// ---------------------------------------------------------------------------

/// A valid relative path leads nowhere but into the root. On Windows this holds
/// as long as what is joined does not become part of the root's prefix, and its
/// first name is not taken for a drive.
pub proof fn valid_paths_stay_inside(platform: Platform, root: Seq<char>, relative: Seq<char>)
    requires
        root.len() > 0,
        stays_below(components_of(platform, relative)),
        keeps_prefix(platform, root, relative),
        platform is Windows ==> !drive_at(joined_names(components_of(platform, relative)), 0),
    ensures
        begins_with(platform, joined(platform, root, relative), root),
        stays_below(below(platform, joined(platform, root, relative), root)),
{
    let base = components_of(platform, root);
    let whole = components_of(platform, joined(platform, root, relative));
    let own = components_of(platform, relative);
    let marks = match platform {
        Platform::Posix => Separators::Slash,
        Platform::Windows => Separators::Either,
    };
    let rest = parts(pieces(marks, relative), Dots::Never);
    match platform {
        Platform::Posix => {
            if rooted(Separators::Slash, relative) {
                assert(own[0] is Root);
                assert(escapes(own[0]));
            }
            let glue: Seq<char> = if root.last() == '/' {
                Seq::empty()
            } else {
                seq!['/']
            };
            assert(joined(platform, root, relative) =~= root + glue + relative);
            plain_joined(Separators::Slash, root, glue, relative);
            assert forall|i: int| 0 <= i < rest.len() implies !escapes(#[trigger] rest[i]) by {
                later_parts_are(pieces(marks, relative), i);
                let all = parts(pieces(marks, relative), Dots::First);
                let k = choose|k: int| 0 <= k < all.len() && all[k] == rest[i];
                assert(own =~= all);
                assert(!escapes(own[k]));
            }
        },
        Platform::Windows => {
            relative_names(relative);
            windows_joined(root, relative);
            names_of_relative(pieces(marks, relative));
            names_read_anew(rest);
            assert forall|i: int| 0 <= i < rest.len() implies !escapes(#[trigger] rest[i]) by {
                assert(rest[i] matches Part::Name(name) && proper(marks, name));
            }
        },
    }
    assert(whole == base + rest);
    assert forall|i: int| 0 <= i < base.len() implies same_part(#[trigger] base[i], whole[i]) by {
        assert(whole[i] == base[i]);
    }
    assert(whole.skip(base.len() as int) =~= rest);
}

/// A normalised path is a valid relative path, and set behind the root it leads
/// to the place it was made from. On Windows this holds of a path whose rest
/// below the root is made of names, and means the same when it is read anew, as
/// long as the root keeps its prefix.
pub proof fn normalizing_keeps_the_place(platform: Platform, root: Seq<char>, path: Seq<char>)
    requires
        root.len() > 0,
        begins_with(platform, path, root),
        stays_below(below(platform, path, root)),
        keeps_prefix(platform, root, joined_names(below(platform, path, root))),
        platform is Windows ==> below(platform, path, root) == components_of(platform, path).skip(
            components_of(platform, root).len() as int,
        ) && forall|i: int|
            0 <= i < below(platform, path, root).len() ==> #[trigger] below(platform, path, root)[i] is Name,
    ensures
        stays_below(components_of(platform, joined_names(below(platform, path, root)))),
        same_parts(
            components_of(platform, joined(platform, root, joined_names(below(platform, path, root)))),
            components_of(platform, path),
        ),
{
    let list = below(platform, path, root);
    let relative = joined_names(list);
    let base = components_of(platform, root);
    let whole = components_of(platform, path);
    let marks = match platform {
        Platform::Posix => Separators::Slash,
        Platform::Windows => Separators::Either,
    };
    match platform {
        Platform::Posix => {
            assert forall|i: int| 0 <= i < list.len() implies (#[trigger] list[i] matches Part::Name(name) && proper(
                marks,
                name,
            )) by {
                below_are_names(root, path, i);
            }
            components_of_names(marks, list);
            let glue: Seq<char> = if root.last() == '/' {
                Seq::empty()
            } else {
                seq!['/']
            };
            assert(joined(platform, root, relative) =~= root + glue + relative);
            plain_joined(marks, root, glue, relative);
        },
        Platform::Windows => {
            let left = rendered(platform, whole.skip(base.len() as int));
            if prefix_of(left) is Some {
                assert(list[0] is Prefix);
            }
            if rooted(marks, left) {
                assert(list[0] is Root);
            }
            assert(list =~= parts(pieces(marks, left), Dots::First));
            assert forall|i: int| 0 <= i < list.len() implies (#[trigger] list[i] matches Part::Name(name) && proper(
                marks,
                name,
            )) by {
                components_are_proper(marks, left, Dots::First, i);
                assert(below(platform, path, root)[i] is Name);
            }
            proper_is_sound(list);
            rendered_names(list);
            names_have_no_prefix(list);
            components_of_names(marks, list);
            assert(components_of(platform, relative) == list);
            windows_joined(root, relative);
        },
    }
    let place = components_of(platform, joined(platform, root, relative));
    assert(place == base + list);
    assert forall|i: int| 0 <= i < place.len() implies same_part(#[trigger] place[i], whole[i]) by {
        if i < base.len() {
            assert(place[i] == base[i]);
            assert(same_part(base[i], whole[i]));
        } else {
            assert(whole[i] == whole.skip(base.len() as int)[i - base.len()]);
            assert(place[i] == list[i - base.len()]);
        }
    }
}

/// A root on a drive keeps its prefix, whether it is written verbatim or not.
pub proof fn drives_keep_their_prefix(root: Seq<char>, relative: Seq<char>)
    requires
        stays_below(components_of(Platform::Windows, relative)),
        prefix_of(root) matches Some((kind, end)) && (kind is Disk || (kind is VerbatimDisk && end < root.len())),
    ensures
        keeps_prefix(Platform::Windows, root, relative),
{
    let windows = Platform::Windows;
    let (kind, end) = prefix_of(root)->0;
    let whole = joined(windows, root, relative);
    relative_names(relative);
    if kind is Disk {
        assert(whole[0] == root[0] && whole[1] == root[1]);
    } else {
        assert(root.skip(6)[0] == root[6]);
        if relative.len() > 0 {
            verbatim_joined(root, relative, kind, end);
            assert(forall|i: int| 0 <= i < 6 ==> whole[i] == root.take(6)[i]);
            assert(whole[6] == '\\');
        } else {
            assert(forall|i: int| 0 <= i < 7 ==> whole[i] == root[i]);
        }
        assert(forall|i: int| 0 <= i < 6 ==> whole[i] == root[i]);
    }
}

// ---------------------------------------------------------------------------
// What the calls promise
// ---------------------------------------------------------------------------

/// A target is let through only below the root, and only where each parent that
/// was looked at is a directory of its own or is not there yet. A link, a file,
/// anything else and what could not be looked at refuse it.
pub proof fn no_parent_leads_out(
    platform: Platform,
    root: &str,
    target: &str,
    observed: Vec<Place>,
    r: Result<()>,
    i: int,
)
    requires
        begins_with(platform, target@, root@) ==> observed@.len() == parents(below(platform, target@, root@)),
        call_ensures(ensure_parent_confinement, (platform, root, target, &observed), r),
    ensures
        r is Ok ==> begins_with(platform, target@, root@),
        r is Ok && 0 <= i < observed@.len() ==> observed@[i] is Missing || observed@[i] is Directory,
        !begins_with(platform, target@, root@) ==> r is Err && r->Err_0 is PathEscape,
        begins_with(platform, target@, root@) && 0 <= i < observed@.len() && (observed@[i] is Symlink
            || observed@[i] is File || observed@[i] is Other || observed@[i] is Unreadable) ==> r is Err,
{
    if begins_with(platform, target@, root@) && 0 <= i < observed@.len() && !passable(observed@[i]) {
        let n = parents(below(platform, target@, root@));
        assert(0 <= i < n && !passable(observed@[i]));
    }
}

/// A change is confirmed only where its parents still keep it below the root and
/// where what it left is there and no link.
pub proof fn a_change_that_left_a_link_is_refused(
    platform: Platform,
    root: &str,
    path: &str,
    leaf_exists: bool,
    observed: Vec<Place>,
    leaf: Place,
    parents_ok: Result<()>,
    r: Result<()>,
)
    requires
        begins_with(platform, path@, root@) ==> observed@.len() == parents(below(platform, path@, root@)),
        call_ensures(ensure_parent_confinement, (platform, root, path, &observed), parents_ok),
        call_ensures(verify_mutation_confined, (platform, root, path, leaf_exists, &observed, &leaf), r),
    ensures
        r is Ok == (parents_ok is Ok && (leaf_exists ==> !(leaf is Symlink) && !(leaf is Unreadable))),
{
}

/// A relative path behind a root is the two with a slash between them, on a
/// platform with slashes, and an absolute path stands for itself.
pub proof fn a_joined_path_is_root_and_relative(root: &str, relative: &str, r: String)
    requires
        call_ensures(join, (Platform::Posix, root, relative), r),
    ensures
        relative@.len() > 0 && relative@[0] == '/' ==> r@ == relative@,
        !(relative@.len() > 0 && relative@[0] == '/') && root@.len() > 0 && root@.last() != '/' ==> r@ == root@ + seq![
            '/',
        ] + relative@,
        !(relative@.len() > 0 && relative@[0] == '/') && (root@.len() == 0 || root@.last() == '/') ==> r@ == root@
            + relative@,
{
}

/// A relative path is refused exactly where it begins with a slash or where a
/// stretch of it between slashes is two dots. Nothing else leads out.
pub proof fn a_path_that_leads_out_is_refused(relative: &str, r: Result<()>)
    requires
        call_ensures(validate_relative, (Platform::Posix, relative), r),
    ensures
        r is Ok == (!(relative@.len() > 0 && relative@[0] == '/') && forall|i: int|
            0 <= i < pieces(Separators::Slash, relative@).len() ==> (#[trigger] pieces(
                Separators::Slash,
                relative@,
            )[i]) != ".."@),
        r is Err ==> r->Err_0 is PathEscape,
{
    let s = relative@;
    let list = components_of(Platform::Posix, s);
    let cut = pieces(Separators::Slash, s);
    let named = parts(cut, Dots::First);
    upward_parts(cut, Dots::First);
    if rooted(Separators::Slash, s) {
        assert(list[0] == Part::Root);
        assert(escapes(list[0]));
    } else {
        assert(list =~= named);
        if exists|i: int| 0 <= i < cut.len() && (#[trigger] cut[i]) == ".."@ {
            let k = choose|k: int| 0 <= k < named.len() && escapes(#[trigger] named[k]);
            assert(escapes(list[k]));
        } else {
            assert forall|k: int| 0 <= k < list.len() implies !escapes(#[trigger] list[k]) by {
                assert(list[k] == named[k]);
            }
        }
    }
}

proof fn upward_parts(list: Seq<Seq<char>>, dots: Dots)
    ensures
        (exists|k: int| 0 <= k < parts(list, dots).len() && escapes(#[trigger] parts(list, dots)[k])) == exists|i: int|
            0 <= i < list.len() && (#[trigger] list[i]) == ".."@,
    decreases list.len(),
{
    if list.len() > 0 {
        let head = list.drop_last();
        upward_parts(head, dots);
        let few = parts(head, dots);
        let all = parts(list, dots);
        reveal_strlit("");
        reveal_strlit(".");
        reveal_strlit("..");
        assert(""@.len() == 0 && "."@.len() == 1 && ".."@.len() == 2);
        let last = part(list.last(), dots.count(list.len() == 1));
        assert(all == match last {
            Some(p) => few.push(p),
            None => few,
        });
        if exists|i: int| 0 <= i < list.len() && (#[trigger] list[i]) == ".."@ {
            let i = choose|i: int| 0 <= i < list.len() && (#[trigger] list[i]) == ".."@;
            if i < head.len() {
                assert(head[i] == ".."@);
                let k = choose|k: int| 0 <= k < few.len() && escapes(#[trigger] few[k]);
                assert(all[k] == few[k]);
            } else {
                assert(all[few.len() as int] == Part::Parent);
                assert(escapes(all[few.len() as int]));
            }
        }
        if exists|k: int| 0 <= k < all.len() && escapes(#[trigger] all[k]) {
            let k = choose|k: int| 0 <= k < all.len() && escapes(#[trigger] all[k]);
            if k < few.len() {
                assert(all[k] == few[k]);
                let i = choose|i: int| 0 <= i < head.len() && (#[trigger] head[i]) == ".."@;
                assert(list[i] == ".."@);
            } else {
                assert(list[list.len() - 1] == ".."@);
            }
        }
    }
}

/// A local directory is one of its own: a link, a file, anything else and what
/// is missing or could not be looked at is refused.
pub proof fn a_local_directory_is_no_link(path: &str, place: Place, created: bool, r: Result<()>)
    requires
        call_ensures(local_directory, (path, &place, created), r),
    ensures
        r is Ok == (place is Directory),
{
}

} // verus!
