use vstd::prelude::*;

use crate::text::chars_of;

verus! {

/// The first position at or after `i` that does not hold a space or tab.
pub open spec fn spec_skip_spaces(s: Seq<char>, i: int) -> int
    decreases s.len() - i,
{
    if 0 <= i < s.len() && (s[i] == ' ' || s[i] == '\t') {
        spec_skip_spaces(s, i + 1)
    } else {
        i
    }
}

/// The first position at or after `i` that holds a newline, or the end.
pub open spec fn spec_line_end(s: Seq<char>, i: int) -> int
    decreases s.len() - i,
{
    if 0 <= i < s.len() && s[i] != '\n' {
        spec_line_end(s, i + 1)
    } else {
        i
    }
}

/// The first position at or after `i` that does not hold a newline.
pub open spec fn spec_skip_new_lines(s: Seq<char>, i: int) -> int
    decreases s.len() - i,
{
    if 0 <= i < s.len() && s[i] == '\n' {
        spec_skip_new_lines(s, i + 1)
    } else {
        i
    }
}

/// A cursor over the characters of one source text, accumulating a parse
/// output.  Parsers only ever move it forward, except through an explicit
/// reset to an index they saved earlier.
pub struct Scanner<O> {
    chars: Vec<char>,
    index: usize,
    pub output: O,
}

impl<O> Scanner<O> {
    /// The characters being scanned.
    pub closed spec fn text(&self) -> Seq<char> {
        self.chars@
    }

    /// The position of the next character not yet consumed.
    pub closed spec fn at(&self) -> int {
        self.index as int
    }

    pub open spec fn wf(&self) -> bool {
        0 <= self.at() <= self.text().len()
    }

    /// The output accumulated so far.
    pub closed spec fn out(&self) -> O {
        self.output
    }

    pub fn new(source: &str, output: O) -> (s: Scanner<O>)
        ensures
            s.wf(),
            s.text() == source@,
            s.at() == 0,
            s.out() == output,
    {
        Scanner { chars: chars_of(source), index: 0, output }
    }

    pub fn index(&self) -> (i: usize)
        ensures
            i == self.at(),
    {
        self.index
    }

    /// Go back to a position saved earlier.
    pub fn reset(&mut self, index: usize)
        requires
            old(self).wf(),
            index <= old(self).text().len(),
        ensures
            final(self).wf(),
            final(self).text() == old(self).text(),
            final(self).at() == index,
            final(self).out() == old(self).out(),
    {
        self.index = index;
    }

    /// The next character, if any, without consuming it.
    pub fn peek(&self) -> (r: Option<char>)
        requires
            self.wf(),
        ensures
            match r {
                Some(c) => self.at() < self.text().len() && c == self.text()[self.at()],
                None => self.at() == self.text().len(),
            },
    {
        if self.index < self.chars.len() {
            Some(self.chars[self.index])
        } else {
            None
        }
    }

    /// Consume the next character when it is exactly the expected one.
    pub fn take(&mut self, c: char) -> (r: bool)
        requires
            old(self).wf(),
        ensures
            final(self).wf(),
            final(self).text() == old(self).text(),
            final(self).out() == old(self).out(),
            r == (old(self).at() < old(self).text().len() && old(self).text()[old(self).at()]
                == c),
            r ==> final(self).at() == old(self).at() + 1,
            !r ==> final(self).at() == old(self).at(),
    {
        if self.index < self.chars.len() && self.chars[self.index] == c {
            self.index += 1;
            true
        } else {
            false
        }
    }

    /// Consume one character, whatever it is.
    pub fn advance(&mut self)
        requires
            old(self).wf(),
            old(self).at() < old(self).text().len(),
        ensures
            final(self).wf(),
            final(self).text() == old(self).text(),
            final(self).out() == old(self).out(),
            final(self).at() == old(self).at() + 1,
    {
        if self.index < self.chars.len() {
            self.index += 1;
        }
    }

    pub fn skip_spaces(&mut self)
        requires
            old(self).wf(),
        ensures
            final(self).wf(),
            final(self).text() == old(self).text(),
            final(self).out() == old(self).out(),
            final(self).at() == spec_skip_spaces(old(self).text(), old(self).at()),
            final(self).at() >= old(self).at(),
    {
        while self.index < self.chars.len() && (self.chars[self.index] == ' '
            || self.chars[self.index] == '\t')
            invariant
                self.wf(),
                self.chars@ == old(self).chars@,
                self.out() == old(self).out(),
                self.index >= old(self).index,
                spec_skip_spaces(old(self).text(), old(self).at()) == spec_skip_spaces(
                    self.chars@,
                    self.index as int,
                ),
            decreases self.chars@.len() - self.index,
        {
            self.index += 1;
        }
    }

    /// Consume up to the end of the current line, returning what was read.
    pub fn take_line(&mut self) -> (r: Vec<char>)
        requires
            old(self).wf(),
        ensures
            final(self).wf(),
            final(self).text() == old(self).text(),
            final(self).out() == old(self).out(),
            final(self).at() == spec_line_end(old(self).text(), old(self).at()),
            r@ == old(self).text().subrange(old(self).at(), final(self).at()),
    {
        let mut r: Vec<char> = Vec::new();
        while self.index < self.chars.len() && self.chars[self.index] != '\n'
            invariant
                self.wf(),
                self.chars@ == old(self).chars@,
                self.out() == old(self).out(),
                old(self).index <= self.index,
                spec_line_end(old(self).text(), old(self).at()) == spec_line_end(
                    self.chars@,
                    self.index as int,
                ),
                r@ == old(self).text().subrange(old(self).at(), self.index as int),
            decreases self.chars@.len() - self.index,
        {
            r.push(self.chars[self.index]);
            proof {
                assert(r@ =~= old(self).text().subrange(old(self).at(), self.index + 1));
            }
            self.index += 1;
        }
        r
    }

    pub fn skip_new_lines(&mut self)
        requires
            old(self).wf(),
        ensures
            final(self).wf(),
            final(self).text() == old(self).text(),
            final(self).out() == old(self).out(),
            final(self).at() == spec_skip_new_lines(old(self).text(), old(self).at()),
            final(self).at() >= old(self).at(),
    {
        while self.index < self.chars.len() && self.chars[self.index] == '\n'
            invariant
                self.wf(),
                self.chars@ == old(self).chars@,
                self.out() == old(self).out(),
                self.index >= old(self).index,
                spec_skip_new_lines(old(self).text(), old(self).at()) == spec_skip_new_lines(
                    self.chars@,
                    self.index as int,
                ),
            decreases self.chars@.len() - self.index,
        {
            self.index += 1;
        }
    }

    /// Hand the accumulated output out, consuming the scanner.
    pub fn into_output(self) -> (o: O)
        ensures
            o == self.out(),
    {
        self.output
    }

    /// Exchange the accumulated output for another value.
    pub fn replace_output(&mut self, o: O) -> (r: O)
        ensures
            r == old(self).out(),
            final(self).out() == o,
            final(self).text() == old(self).text(),
            final(self).at() == old(self).at(),
            final(self).wf() == old(self).wf(),
    {
        let mut o = o;
        core::mem::swap(&mut self.output, &mut o);
        o
    }

    /// What is left to scan.
    pub fn remaining(&self) -> (r: Vec<char>)
        requires
            self.wf(),
        ensures
            r@ == self.text().subrange(self.at(), self.text().len() as int),
    {
        let mut r: Vec<char> = Vec::new();
        let mut i: usize = self.index;
        while i < self.chars.len()
            invariant
                self.wf(),
                self.index <= i <= self.chars@.len(),
                r@ == self.text().subrange(self.at(), i as int),
            decreases self.chars@.len() - i,
        {
            r.push(self.chars[i]);
            proof {
                assert(r@ =~= self.text().subrange(self.at(), i + 1));
            }
            i += 1;
        }
        r
    }
}

} // verus!
