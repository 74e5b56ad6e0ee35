//! A piece of text whose characters can be read by their place.

use vstd::prelude::*;
use vstd::string::*;

verus! {

/// A string slice with its length in characters. Text that is all ASCII is read in
/// constant time.
pub struct Text<'a> {
    s: &'a str,
    len: usize,
    ascii: bool,
}

impl<'a> View for Text<'a> {
    type V = Seq<char>;

    closed spec fn view(&self) -> Seq<char> {
        self.s@
    }
}

impl<'a> Text<'a> {
    pub closed spec fn wf(&self) -> bool {
        &&& self.len == self.s@.len()
        &&& self.ascii == self.s.is_ascii()
    }

    pub fn new(s: &'a str) -> (r: Self)
        ensures
            r.wf(),
            r@ == s@,
    {
        Text { s, len: s.unicode_len(), ascii: s.is_ascii() }
    }

    /// The length of a text fits a machine word.
    pub proof fn lemma_fits(&self)
        requires
            self.wf(),
        ensures
            self@.len() <= usize::MAX,
    {
    }

    /// The number of characters.
    pub fn len(&self) -> (r: usize)
        requires
            self.wf(),
        ensures
            r == self@.len(),
    {
        self.len
    }

    /// The character at place `i`.
    pub fn at(&self, i: usize) -> (c: char)
        requires
            self.wf(),
            i < self@.len(),
        ensures
            c == self@[i as int],
    {
        if self.ascii {
            let b = self.s.get_ascii(i);
            proof {
                assert(self.s@[i as int] as u32 <= 127);
            }
            b as char
        } else {
            self.s.get_char(i)
        }
    }

    /// The character at place `i`, if the text is that long.
    pub fn peek(&self, i: usize) -> (r: Option<char>)
        requires
            self.wf(),
        ensures
            r == if i < self@.len() {
                Some(self@[i as int])
            } else {
                None
            },
            self@.len() <= usize::MAX,
    {
        if i < self.len {
            Some(self.at(i))
        } else {
            None
        }
    }

    /// The text from place `from` up to place `to`.
    pub fn slice(&self, from: usize, to: usize) -> (r: &'a str)
        requires
            self.wf(),
            from <= to <= self@.len(),
        ensures
            r@ == self@.subrange(from as int, to as int),
    {
        if self.ascii {
            self.s.substring_ascii(from, to)
        } else {
            self.s.substring_char(from, to)
        }
    }

    /// The text from place `i` on.
    pub fn tail(&self, i: usize) -> (r: &'a str)
        requires
            self.wf(),
            i <= self@.len(),
        ensures
            r@ == self@.skip(i as int),
    {
        if self.ascii {
            self.s.substring_ascii(i, self.len)
        } else {
            self.s.substring_char(i, self.len)
        }
    }
}

} // verus!
