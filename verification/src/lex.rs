//! Position of the parser in its input, kept for error messages.

use crate::text::{char_width, decimal, push_decimal, push_str, utf8_width};
use vstd::prelude::*;

verus! {

/// Byte offset, line and column of the next unread character. Lines and
/// columns count from one; a column is a number of bytes.
#[derive(Clone, Copy, Debug)]
pub struct Lex {
    pub off: usize,
    pub row: usize,
    pub col: usize,
}

/// `a + b`, or the largest machine number where the sum is beyond it.
pub open spec fn sat_add(a: usize, b: int) -> usize {
    if a + b > usize::MAX {
        usize::MAX
    } else {
        (a + b) as usize
    }
}

/// The position after the character `c`, which stood at position `l`: a
/// line feed starts a new line, any other character moves the column on by
/// its width in bytes.
pub open spec fn lex_step(l: Lex, c: char) -> Lex {
    if c == '\n' {
        Lex { off: sat_add(l.off, 1), row: sat_add(l.row, 1), col: 1 }
    } else {
        Lex {
            off: sat_add(l.off, utf8_width(c) as int),
            row: l.row,
            col: sat_add(l.col, utf8_width(c) as int),
        }
    }
}

/// The position after the characters `s`, the first of which stood at `l`.
pub open spec fn lex_after(l: Lex, s: Seq<char>) -> Lex
    decreases s.len(),
{
    if s.len() == 0 {
        l
    } else {
        lex_step(lex_after(l, s.drop_last()), s.last())
    }
}

fn add_sat(a: usize, b: usize) -> (r: usize)
    ensures
        r == sat_add(a, b as int),
{
    if a > usize::MAX - b {
        usize::MAX
    } else {
        a + b
    }
}

impl Lex {
    /// Moves the position over one character.
    pub fn step(&mut self, c: char)
        ensures
            *final(self) == lex_step(*old(self), c),
    {
        if c == '\n' {
            self.off = add_sat(self.off, 1);
            self.row = add_sat(self.row, 1);
            self.col = 1;
        } else {
            let w = char_width(c);
            self.off = add_sat(self.off, w);
            self.col = add_sat(self.col, w);
        }
    }

    /// Moves the position over the characters `text[from..to]`.
    pub(crate) fn advance(&mut self, text: &Vec<char>, from: usize, to: usize)
        requires
            from <= to <= text.len(),
        ensures
            *final(self) == lex_after(*old(self), text@.subrange(from as int, to as int)),
    {
        let mut i: usize = from;
        while i < to
            invariant
                from <= i <= to <= text.len(),
                *self == lex_after(*old(self), text@.subrange(from as int, i as int)),
            decreases to - i,
        {
            proof {
                assert(text@.subrange(from as int, i + 1).drop_last() =~= text@.subrange(
                    from as int,
                    i as int,
                ));
            }
            self.step(text[i]);
            i = i + 1;
        }
    }

    /// The position with the given offset, line and column.
    pub fn new(off: usize, row: usize, col: usize) -> (r: Lex)
        ensures
            r.off == off,
            r.row == row,
            r.col == col,
    {
        Lex { off, row, col }
    }

    /// Moves offset and column forward by `i` bytes; the line stays.
    pub fn incr_col(&mut self, i: usize)
        requires
            old(self).off + i <= usize::MAX,
            old(self).col + i <= usize::MAX,
        ensures
            final(self).off == old(self).off + i,
            final(self).col == old(self).col + i,
            final(self).row == old(self).row,
    {
        self.off = self.off + i;
        self.col = self.col + i;
    }

    /// What `format` returns, as a sequence of characters.
    pub open spec fn spec_format(&self, prefix: Seq<char>) -> Seq<char> {
        prefix + " at offset:"@ + decimal(self.off as nat) + " line:"@ + decimal(self.row as nat)
            + " col:"@ + decimal(self.col as nat)
    }

    /// `prefix`, followed by the position in the form
    /// ` at offset:O line:L col:C`.
    pub fn format(&self, prefix: &str) -> (r: String)
        ensures
            r@ == self.spec_format(prefix@),
    {
        let mut out = String::new();
        push_str(&mut out, prefix);
        push_str(&mut out, " at offset:");
        push_decimal(&mut out, self.off as u128);
        push_str(&mut out, " line:");
        push_decimal(&mut out, self.row as u128);
        push_str(&mut out, " col:");
        push_decimal(&mut out, self.col as u128);
        assert(out@ =~= self.spec_format(prefix@));
        out
    }
}

} // verus!
