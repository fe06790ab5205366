//! What to say of a command that has ended.

use crate::foreign::{lossy, lossy_text, white};
use crate::text::{chars_of, string_of};
use vstd::prelude::*;
use vstd::string::StringExecFns;

verus! {

/// How a command ended and what it wrote.
#[derive(Clone, Debug, PartialEq, Eq)]
pub struct CommandOutput {
    /// The signal that killed it, if one did.
    pub signal: Option<i32>,
    /// The code it exited with, if it exited.
    pub code: Option<i32>,
    /// What it wrote to its standard output.
    pub stdout: Vec<u8>,
    /// What it wrote to its standard error.
    pub stderr: Vec<u8>,
}

/// The digit for a number below ten.
pub open spec fn digit(d: int) -> char {
    if d == 0 {
        '0'
    } else if d == 1 {
        '1'
    } else if d == 2 {
        '2'
    } else if d == 3 {
        '3'
    } else if d == 4 {
        '4'
    } else if d == 5 {
        '5'
    } else if d == 6 {
        '6'
    } else if d == 7 {
        '7'
    } else if d == 8 {
        '8'
    } else {
        '9'
    }
}

/// The digits of a number that is not negative, without leading zeros.
pub open spec fn digits(n: int) -> Seq<char>
    decreases n,
{
    if n < 10 {
        seq![digit(n)]
    } else {
        digits(n / 10).push(digit(n % 10))
    }
}

/// A number in decimal, with a minus sign where it is negative.
pub open spec fn decimal(n: int) -> Seq<char> {
    if n < 0 {
        seq!['-'] + digits(-n)
    } else {
        digits(n)
    }
}

/// `s` without the white space at its beginning.
pub open spec fn trim_start(s: Seq<char>) -> Seq<char>
    decreases s.len(),
{
    if s.len() > 0 && white(s[0]) {
        trim_start(s.drop_first())
    } else {
        s
    }
}

/// `s` without the white space at its end.
pub open spec fn trim_end(s: Seq<char>) -> Seq<char>
    decreases s.len(),
{
    if s.len() > 0 && white(s.last()) {
        trim_end(s.drop_last())
    } else {
        s
    }
}

/// `s` without the white space at both ends.
pub open spec fn trim(s: Seq<char>) -> Seq<char> {
    trim_end(trim_start(s))
}

/// `head`, and `more` after it, with `sep` between the two where neither
/// is empty.
pub open spec fn joined(head: Seq<char>, sep: Seq<char>, more: Seq<char>) -> Seq<char> {
    if more.len() == 0 {
        head
    } else if head.len() == 0 {
        more
    } else {
        head + sep + more
    }
}

/// What is said of a command, given the texts to show of what it wrote:
/// the signal that killed it, the code it exited with, and the text of its
/// standard error, or that of its standard output where the other is
/// empty.
pub open spec fn composed(
    signal: Option<i32>,
    code: Option<i32>,
    output: Seq<char>,
    errors: Seq<char>,
) -> Seq<char> {
    let killed = match signal {
        Some(s) => "killed by signal "@ + decimal(s as int),
        None => Seq::empty(),
    };
    let exited = match code {
        Some(c) => "exit code "@ + decimal(c as int),
        None => Seq::empty(),
    };
    let extra = if errors.len() == 0 {
        output
    } else {
        errors
    };
    joined(joined(killed, ", "@, exited), ": "@, extra)
}

/// What is said of a command, given what it wrote as text: the texts are
/// shown without the white space at their ends.
pub open spec fn described(
    signal: Option<i32>,
    code: Option<i32>,
    output: Seq<char>,
    errors: Seq<char>,
) -> Seq<char> {
    composed(signal, code, trim(output), trim(errors))
}

/// What is said of a command, given the bytes it wrote.
pub open spec fn summary(
    signal: Option<i32>,
    code: Option<i32>,
    stdout: Seq<u8>,
    stderr: Seq<u8>,
) -> Seq<char> {
    described(signal, code, lossy_text(stdout), lossy_text(stderr))
}

/// What is said of a command that was to do `action` on `repo`, unless it
/// exited with the code 0: the action, the repository in parentheses, a
/// colon and what is said of the command.
pub open spec fn failure_text(
    code: Option<i32>,
    action: Seq<char>,
    repo: Seq<char>,
    said: Seq<char>,
) -> Option<Seq<char>> {
    if code == Some(0i32) {
        None
    } else {
        Some(action + " ("@ + repo + "): "@ + said)
    }
}

/// A number below ten as a digit.
fn digit_of(d: i64) -> (c: char)
    requires
        0 <= d < 10,
    ensures
        c == digit(d as int),
{
    if d == 0 {
        '0'
    } else if d == 1 {
        '1'
    } else if d == 2 {
        '2'
    } else if d == 3 {
        '3'
    } else if d == 4 {
        '4'
    } else if d == 5 {
        '5'
    } else if d == 6 {
        '6'
    } else if d == 7 {
        '7'
    } else if d == 8 {
        '8'
    } else {
        '9'
    }
}

/// A number in decimal.
pub fn decimal_of(n: i32) -> (text: String)
    ensures
        text@ == decimal(n as int),
{
    let wide: i64 = n as i64;
    let size: i64 = if wide < 0 {
        -wide
    } else {
        wide
    };
    let mut m: i64 = size;
    let mut tail: Vec<char> = Vec::new();
    while m >= 10
        invariant
            0 <= m <= size,
            digits(size as int) == digits(m as int) + tail@,
        decreases m,
    {
        let d = digit_of(m % 10);
        proof {
            assert(digits(m as int) == digits(m as int / 10).push(d));
            assert(digits(m as int / 10).push(d) + tail@ =~= digits(m as int / 10) + tail@.insert(
                0,
                d,
            ));
        }
        tail.insert(0, d);
        m = m / 10;
    }
    let d = digit_of(m);
    proof {
        assert(digits(m as int) + tail@ =~= tail@.insert(0, d));
    }
    tail.insert(0, d);
    if wide < 0 {
        proof {
            assert(seq!['-'] + tail@ =~= tail@.insert(0, '-'));
        }
        tail.insert(0, '-');
    }
    string_of(tail.as_slice())
}

/// `s` without the white space at both ends.
pub fn trimmed(s: &[char]) -> (out: &[char])
    ensures
        out@ == trim(s@),
{
    let mut start: usize = 0;
    proof {
        assert(s@.skip(0) =~= s@);
    }
    while start < s.len() && s[start].is_whitespace()
        invariant
            start <= s.len(),
            trim_start(s@.skip(start as int)) == trim_start(s@),
        decreases s.len() - start,
    {
        proof {
            assert(s@.skip(start as int).drop_first() =~= s@.skip(start + 1));
        }
        start += 1;
    }
    let mut end: usize = s.len();
    proof {
        assert(s@.skip(start as int) =~= s@.subrange(start as int, end as int));
    }
    while end > start && s[end - 1].is_whitespace()
        invariant
            start <= end <= s.len(),
            trim_end(s@.subrange(start as int, end as int)) == trim(s@),
        decreases end,
    {
        proof {
            assert(s@.subrange(start as int, end as int).drop_last() =~= s@.subrange(
                start as int,
                end - 1,
            ));
        }
        end -= 1;
    }
    vstd::slice::slice_subrange(s, start, end)
}

/// Adds `more` to `out`, after `sep` where neither is empty.
fn join(out: &mut String, sep: &str, more: &str)
    ensures
        final(out)@ == joined(old(out)@, sep@, more@),
{
    if more.is_empty() {
        return ;
    }
    if !out.as_str().is_empty() {
        out.append(sep);
    }
    out.append(more);
}

/// What is said of a command, given the texts to show of what it wrote.
pub fn compose(signal: Option<i32>, code: Option<i32>, output: &str, errors: &str) -> (out: String)
    ensures
        out@ == composed(signal, code, output@, errors@),
{
    let mut out = String::new();
    match signal {
        Some(s) => {
            out.append("killed by signal ");
            out.append(decimal_of(s).as_str());
        },
        None => {},
    }
    let ghost killed = out@;
    match code {
        Some(c) => {
            let mut exited = String::new();
            exited.append("exit code ");
            exited.append(decimal_of(c).as_str());
            assert(exited@ =~= "exit code "@ + decimal(c as int));
            join(&mut out, ", ", exited.as_str());
        },
        None => {},
    }
    if errors.is_empty() {
        join(&mut out, ": ", output);
    } else {
        join(&mut out, ": ", errors);
    }
    proof {
        match signal {
            Some(s) => {
                assert(killed =~= "killed by signal "@ + decimal(s as int));
            },
            None => {},
        }
    }
    out
}

/// What is said of a command, given what it wrote as text.
pub fn describe(signal: Option<i32>, code: Option<i32>, output: &str, errors: &str) -> (out: String)
    ensures
        out@ == described(signal, code, output@, errors@),
{
    let output = chars_of(output);
    let output = string_of(trimmed(output.as_slice()));
    let errors = chars_of(errors);
    let errors = string_of(trimmed(errors.as_slice()));
    compose(signal, code, output.as_str(), errors.as_str())
}

/// What can be said of how something ended.
pub trait OutputExt {
    /// What `info` says.
    spec fn info_text(&self) -> Seq<char>;

    /// A line for a diagnostic.
    fn info(&self) -> (out: String)
        ensures
            out@ == self.info_text(),
    ;
}

impl OutputExt for CommandOutput {
    open spec fn info_text(&self) -> Seq<char> {
        summary(self.signal, self.code, self.stdout@, self.stderr@)
    }

    fn info(&self) -> (out: String) {
        let output = lossy(self.stdout.as_slice());
        let errors = lossy(self.stderr.as_slice());
        describe(self.signal, self.code, output.as_str(), errors.as_str())
    }
}

impl CommandOutput {
    /// Whether the command exited with the code 0.
    pub fn succeeded(&self) -> (b: bool)
        ensures
            b == (self.code == Some(0i32)),
    {
        match self.code {
            Some(c) => c == 0,
            None => false,
        }
    }

    /// The text of the failure of a command that was to do `action` on
    /// `repo`, unless it succeeded.
    pub fn failure(&self, action: &str, repo: &str) -> (text: Option<String>)
        ensures
            text.deep_view() == failure_text(self.code, action@, repo@, self.info_text()),
    {
        if self.succeeded() {
            return None;
        }
        let mut out = String::new();
        out.append(action);
        out.append(" (");
        out.append(repo);
        out.append("): ");
        out.append(self.info().as_str());
        assert(out@ =~= action@ + " ("@ + repo@ + "): "@ + self.info_text());
        Some(out)
    }
}

} // verus!
