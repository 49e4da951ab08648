//! The command line of a detached process on Windows.

use vstd::prelude::*;
use vstd::string::*;

use crate::order::views;
use crate::text;

verus! {

/// So many backslashes.
pub open spec fn slashes(count: nat) -> Seq<char> {
    Seq::new(count, |i: int| '\\')
}

/// An argument without its trailing backslashes, escaped, and how many those
/// are. Backslashes double before a quotation mark and stay single elsewhere.
pub open spec fn escaped(argument: Seq<char>) -> (Seq<char>, nat)
    decreases argument.len(),
{
    if argument.len() == 0 {
        (Seq::empty(), 0)
    } else {
        let (head, run) = escaped(argument.drop_last());
        let c = argument.last();
        if c == '\\' {
            (head, run + 1)
        } else if c == '"' {
            (head + slashes(2 * run + 1) + seq!['"'], 0)
        } else {
            (head + slashes(run) + seq![c], 0)
        }
    }
}

/// An argument between quotation marks. Its trailing backslashes double, so
/// that the closing mark closes.
pub open spec fn quoted(argument: Seq<char>) -> Seq<char> {
    let (body, run) = escaped(argument);
    seq!['"'] + body + slashes(2 * run) + seq!['"']
}

fn push_slashes(out: &mut String, count: usize)
    ensures
        final(out)@ == old(out)@ + slashes(count as nat),
{
    let ghost start = out@;
    assert(start + slashes(0) =~= start);
    for i in 0..count
        invariant
            out@ == start + slashes(i as nat),
    {
        out.push('\\');
        assert((start + slashes(i as nat)).push('\\') =~= start + slashes((i + 1) as nat));
    }
}

/// Quotes one argument, so that the parsing rules of the C runtime give it
/// back as it is.
pub fn quote(argument: &str) -> (r: String)
    ensures
        r@ == quoted(argument@),
{
    let chars = text::chars_of(argument);
    proof {
        reveal_strlit("");
    }
    let mut out = text::copy("");
    out.push('"');
    let mut run: usize = 0;
    assert(out@ =~= seq!['"'] + escaped(chars@.take(0)).0);
    for i in 0..chars.len()
        invariant
            chars@ == argument@,
            run <= i,
            run == escaped(chars@.take(i as int)).1,
            out@ == seq!['"'] + escaped(chars@.take(i as int)).0,
    {
        let c = chars[i];
        let ghost head = escaped(chars@.take(i as int)).0;
        assert(chars@.take(i + 1).drop_last() =~= chars@.take(i as int));
        assert(chars@.take(i + 1).last() == c);
        if c == '\\' {
            run = run + 1;
        } else if c == '"' {
            push_slashes(&mut out, run);
            push_slashes(&mut out, run);
            out.push('\\');
            out.push('"');
            assert(slashes(run as nat) + slashes(run as nat) + seq!['\\'] =~= slashes((2 * run + 1) as nat));
            assert(out@ =~= seq!['"'] + (head + slashes((2 * run + 1) as nat) + seq!['"']));
            run = 0;
        } else {
            push_slashes(&mut out, run);
            out.push(c);
            assert(out@ =~= seq!['"'] + (head + slashes(run as nat) + seq![c]));
            run = 0;
        }
    }
    assert(chars@.take(chars@.len() as int) =~= argument@);
    let ghost body = escaped(argument@).0;
    push_slashes(&mut out, run);
    push_slashes(&mut out, run);
    out.push('"');
    assert(out@ =~= seq!['"'] + body + slashes((2 * run) as nat) + seq!['"']);
    out
}

/// A command line: the program and its arguments, quoted, with a space before
/// each argument.
pub open spec fn line_of(program: Seq<char>, arguments: Seq<Seq<char>>) -> Seq<char>
    decreases arguments.len(),
{
    if arguments.len() == 0 {
        quoted(program)
    } else {
        line_of(program, arguments.drop_last()) + seq![' '] + quoted(arguments.last())
    }
}

pub fn command_line(program: &str, arguments: &Vec<String>) -> (r: String)
    ensures
        r@ == line_of(program@, views(arguments@)),
{
    let mut out = quote(program);
    let ghost list = views(arguments@);
    for i in 0..arguments.len()
        invariant
            list == views(arguments@),
            out@ == line_of(program@, list.take(i as int)),
    {
        assert(list.take(i + 1).drop_last() =~= list.take(i as int));
        assert(list.take(i + 1).last() == arguments@[i as int]@);
        let ghost start = out@;
        out.push(' ');
        out.append(quote(arguments[i].as_str()).as_str());
        assert(out@ =~= start + seq![' '] + quoted(arguments@[i as int]@));
    }
    assert(list.take(list.len() as int) =~= list);
    out
}

// ---------------------------------------------------------------------------
// How the C runtime parses a command line
// ---------------------------------------------------------------------------

/// The parser: the arguments that are complete, the one that is open, the run
/// of backslashes just read, and whether a quotation mark is open.
pub struct Parser {
    pub done: Seq<Seq<char>>,
    pub argument: Option<Seq<char>>,
    pub run: nat,
    pub quoting: bool,
}

impl Parser {
    pub open spec fn text(self) -> Seq<char> {
        match self.argument {
            Some(t) => t,
            None => Seq::empty(),
        }
    }

    /// Reads one character. A run of backslashes counts half before a
    /// quotation mark, which is literal after an odd run, and in full
    /// elsewhere. A blank ends an argument unless it is quoted.
    pub open spec fn read(self, c: char) -> Parser {
        if c == '\\' {
            Parser { argument: Some(self.text()), run: self.run + 1, ..self }
        } else if c == '"' {
            let half = self.text() + slashes(self.run / 2);
            if self.run % 2 == 1 {
                Parser { argument: Some(half + seq!['"']), run: 0, ..self }
            } else {
                Parser { argument: Some(half), run: 0, quoting: !self.quoting, ..self }
            }
        } else if (c == ' ' || c == '\t') && !self.quoting {
            match self.argument {
                Some(t) => Parser { done: self.done.push(t + slashes(self.run)), argument: None, run: 0, ..self },
                None => self,
            }
        } else {
            Parser { argument: Some(self.text() + slashes(self.run) + seq![c]), run: 0, ..self }
        }
    }

    pub open spec fn read_all(self, s: Seq<char>) -> Parser
        decreases s.len(),
    {
        if s.len() == 0 {
            self
        } else {
            self.read_all(s.drop_last()).read(s.last())
        }
    }

    /// The arguments when the line ends.
    pub open spec fn finish(self) -> Seq<Seq<char>> {
        match self.argument {
            Some(t) => self.done.push(t + slashes(self.run)),
            None => self.done,
        }
    }
}

/// The arguments that the C runtime reads from a command line.
pub open spec fn parsed(line: Seq<char>) -> Seq<Seq<char>> {
    Parser { done: Seq::empty(), argument: None, run: 0, quoting: false }.read_all(line).finish()
}

proof fn read_concat(p: Parser, a: Seq<char>, b: Seq<char>)
    ensures
        p.read_all(a + b) == p.read_all(a).read_all(b),
    decreases b.len(),
{
    if b.len() == 0 {
        assert(a + b =~= a);
    } else {
        assert((a + b).drop_last() =~= a + b.drop_last());
        read_concat(p, a, b.drop_last());
    }
}

proof fn read_one(p: Parser, c: char)
    ensures
        p.read_all(seq![c]) == p.read(c),
{
    assert(seq![c].drop_last() =~= Seq::<char>::empty());
    assert(p.read_all(Seq::<char>::empty()) == p);
}

proof fn read_slashes(p: Parser, count: nat)
    requires
        p.argument is Some,
    ensures
        p.read_all(slashes(count)) == (Parser { run: p.run + count, ..p }),
    decreases count,
{
    if count > 0 {
        let less = (count - 1) as nat;
        read_slashes(p, less);
        assert(slashes(count).drop_last() =~= slashes(less));
    }
}

/// The part of an argument before its trailing backslashes, as escaped, is
/// read as itself.
proof fn body_read(p: Parser, argument: Seq<char>)
    requires
        p.argument == Some(Seq::<char>::empty()),
        p.run == 0,
        p.quoting,
    ensures
        ({
            let (body, run) = escaped(argument);
            let after = p.read_all(body);
            &&& run <= argument.len()
            &&& after.done == p.done
            &&& after.run == 0
            &&& after.quoting
            &&& after.argument is Some
            &&& after.text() + slashes(run) == argument
        }),
    decreases argument.len(),
{
    if argument.len() == 0 {
        assert(slashes(0) =~= Seq::<char>::empty());
        assert(p.text() + slashes(0) =~= argument);
    } else {
        let less = argument.drop_last();
        let c = argument.last();
        body_read(p, less);
        let (head, run) = escaped(less);
        let (body, now) = escaped(argument);
        let mid = p.read_all(head);
        assert(argument =~= less.push(c));
        if c == '\\' {
            assert(mid.text() + slashes(run + 1) =~= (mid.text() + slashes(run)).push('\\'));
        } else {
            let count: nat = if c == '"' {
                2 * run + 1
            } else {
                run
            };
            read_concat(p, head, slashes(count));
            read_slashes(mid, count);
            read_concat(p, head + slashes(count), seq![c]);
            let loaded = Parser { run: count, ..mid };
            read_one(loaded, c);
            assert(p.read_all(body) == loaded.read(c));
            assert(slashes(0) =~= Seq::<char>::empty());
            if c == '"' {
                assert((2 * run + 1) / 2 == run);
                assert((2 * run + 1) % 2 == 1);
            }
            assert(p.read_all(body).text() + slashes(0) =~= (mid.text() + slashes(run)).push(c));
        }
    }
}

/// A quoted argument is read as the argument.
proof fn quoted_read(p: Parser, argument: Seq<char>)
    requires
        p.argument is None,
        p.run == 0,
        !p.quoting,
    ensures
        p.read_all(quoted(argument)) == (Parser { argument: Some(argument), ..p }),
{
    let (body, run) = escaped(argument);
    let opened = p.read('"');
    assert(slashes(0) =~= Seq::<char>::empty());
    assert(opened.text() =~= Seq::<char>::empty());
    read_one(p, '"');
    read_concat(p, seq!['"'], body);
    body_read(opened, argument);
    let mid = opened.read_all(body);
    read_concat(p, seq!['"'] + body, slashes(2 * run));
    read_slashes(mid, 2 * run);
    read_concat(p, seq!['"'] + body + slashes(2 * run), seq!['"']);
    let loaded = Parser { run: 2 * run, ..mid };
    read_one(loaded, '"');
    assert((2 * run) / 2 == run && (2 * run) % 2 == 0);
}

/// A command line is parsed into the program and the arguments that it was
/// made of, whatever they hold.
pub proof fn quoting_round_trips(program: Seq<char>, arguments: Seq<Seq<char>>)
    ensures
        parsed(line_of(program, arguments)) == seq![program] + arguments,
{
    let start = Parser { done: Seq::empty(), argument: None, run: 0, quoting: false };
    line_read(start, program, arguments);
    let after = start.read_all(line_of(program, arguments));
    assert(slashes(0) =~= Seq::<char>::empty());
    assert(after.text() + slashes(0) =~= after.text());
}

proof fn line_read(start: Parser, program: Seq<char>, arguments: Seq<Seq<char>>)
    requires
        start == (Parser { done: Seq::empty(), argument: None, run: 0, quoting: false }),
    ensures
        ({
            let after = start.read_all(line_of(program, arguments));
            &&& after.argument is Some
            &&& after.run == 0
            &&& !after.quoting
            &&& after.done.push(after.text()) == seq![program] + arguments
        }),
    decreases arguments.len(),
{
    if arguments.len() == 0 {
        quoted_read(start, program);
        assert(start.done.push(program) =~= seq![program] + arguments);
    } else {
        let less = arguments.drop_last();
        let line = line_of(program, less);
        line_read(start, program, less);
        let mid = start.read_all(line);
        read_concat(start, line, seq![' ']);
        read_one(mid, ' ');
        let between = mid.read(' ');
        assert(slashes(0) =~= Seq::<char>::empty());
        assert(mid.text() + slashes(0) =~= mid.text());
        read_concat(start, line + seq![' '], quoted(arguments.last()));
        quoted_read(between, arguments.last());
        let after = start.read_all(line_of(program, arguments));
        assert(after.done.push(after.text()) =~= seq![program] + arguments);
    }
}

// ---------------------------------------------------------------------------
// What the calls promise
// ---------------------------------------------------------------------------

/// A command line is read as the program and the arguments that it was made of.
pub proof fn a_command_line_is_read_as_it_was_made(program: &str, arguments: Vec<String>, r: String)
    requires
        call_ensures(command_line, (program, &arguments), r),
    ensures
        parsed(r@) == seq![program@] + views(arguments@),
{
    quoting_round_trips(program@, views(arguments@));
}

} // verus!
