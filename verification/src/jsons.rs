//! Cutting a stream of characters into the texts of its documents.
//!
//! The documents of a stream follow one another, with or without white
//! space between them. A document ends where its outermost bracket or brace
//! closes, where its string closes, at white space outside of any bracket,
//! or where the stream ends. The framer is fed one character at a time and
//! hands out the text of a document as soon as it is complete; reading the
//! characters is the caller's part.

use crate::error::Error;
use crate::json::Json;
use crate::parse::parse;
use crate::text::{char_is_space, chars_of, is_space, push_char};
use vstd::prelude::*;

verus! {

/// The state between two characters of a stream.
pub struct Framer {
    /// The text of the document that is being read.
    pub quant: String,
    /// The closing brackets that are still owed, innermost last.
    pub markers: Vec<char>,
    /// Whether the last character lies inside a string.
    pub in_string: bool,
    /// Whether the last character was a backslash inside a string.
    pub escape: bool,
}

/// The state of a framer as plain data.
pub struct FramerView {
    pub quant: Seq<char>,
    pub markers: Seq<char>,
    pub in_string: bool,
    pub escape: bool,
}

impl View for Framer {
    type V = FramerView;

    open spec fn view(&self) -> FramerView {
        FramerView {
            quant: self.quant@,
            markers: self.markers@,
            in_string: self.in_string,
            escape: self.escape,
        }
    }
}

/// The state in which nothing has been read.
pub open spec fn idle() -> FramerView {
    FramerView { quant: Seq::empty(), markers: Seq::empty(), in_string: false, escape: false }
}

/// The markers after the closing bracket `ch`: the innermost markers are
/// dropped up to and with the first that is `ch`, all of them if none is.
pub open spec fn closed(markers: Seq<char>, ch: char) -> Seq<char>
    decreases markers.len(),
{
    if markers.len() == 0 {
        markers
    } else if markers.last() == ch {
        markers.drop_last()
    } else {
        closed(markers.drop_last(), ch)
    }
}

/// The state after the character `ch`, and the text of the document that
/// `ch` completes, if it completes one.
pub open spec fn fed(s: FramerView, ch: char) -> (FramerView, Option<Seq<char>>) {
    if s.in_string {
        let quant = s.quant.push(ch);
        if s.escape {
            (FramerView { quant, escape: false, ..s }, None)
        } else if ch == '\\' {
            (FramerView { quant, escape: true, ..s }, None)
        } else if ch == '"' {
            if s.markers.len() == 0 {
                (idle(), Some(quant))
            } else {
                (FramerView { quant, in_string: false, ..s }, None)
            }
        } else {
            (FramerView { quant, ..s }, None)
        }
    } else if s.quant.len() == 0 && is_space(ch) {
        (s, None)
    } else {
        let quant = s.quant.push(ch);
        if ch == '"' {
            (FramerView { quant, in_string: true, ..s }, None)
        } else {
            let markers = if ch == '{' {
                s.markers.push('}')
            } else if ch == '[' {
                s.markers.push(']')
            } else if ch == '}' || ch == ']' {
                closed(s.markers, ch)
            } else {
                s.markers
            };
            if markers.len() == 0 && (is_space(ch) || ch == '}' || ch == ']') {
                (idle(), Some(quant))
            } else {
                (FramerView { quant, markers, ..s }, None)
            }
        }
    }
}

/// The text that is left when the stream ends, if any.
pub open spec fn flushed(s: FramerView) -> Option<Seq<char>> {
    if s.quant.len() == 0 {
        None
    } else {
        Some(s.quant)
    }
}

/// The state after the characters `text[..n]`, and the documents that they
/// complete.
pub open spec fn fed_all(text: Seq<char>, n: int) -> (FramerView, Seq<Seq<char>>)
    decreases n,
{
    if n <= 0 || n > text.len() {
        (idle(), Seq::empty())
    } else {
        let (s, docs) = fed_all(text, n - 1);
        let (next, doc) = fed(s, text[n - 1]);
        match doc {
            Some(d) => (next, docs.push(d)),
            None => (next, docs),
        }
    }
}

/// The texts of the documents of a stream that is wholly at hand.
pub open spec fn documents(text: Seq<char>) -> Seq<Seq<char>> {
    let (s, docs) = fed_all(text, text.len() as int);
    match flushed(s) {
        Some(d) => docs.push(d),
        None => docs,
    }
}

/// The texts of a vector of strings.
pub open spec fn docs_view(v: Seq<String>) -> Seq<Seq<char>> {
    Seq::new(v.len(), |i: int| v[i]@)
}

fn close(markers: &mut Vec<char>, ch: char)
    ensures
        final(markers)@ == closed(old(markers)@, ch),
{
    loop
        invariant
            closed(old(markers)@, ch) == closed(markers@, ch),
        decreases markers.len(),
    {
        match markers.pop() {
            Some(m) => {
                if m == ch {
                    return ;
                }
            },
            None => {
                return ;
            },
        }
    }
}

impl Framer {
    /// A framer that has read nothing.
    pub fn new() -> (r: Framer)
        ensures
            r@ == idle(),
    {
        Framer { quant: String::new(), markers: Vec::new(), in_string: false, escape: false }
    }

    fn take(&mut self) -> (r: String)
        ensures
            r@ == old(self)@.quant,
            final(self)@ == idle(),
    {
        let mut out = String::new();
        core::mem::swap(&mut out, &mut self.quant);
        self.markers.clear();
        self.in_string = false;
        self.escape = false;
        out
    }

    /// Takes the next character of the stream. Returns the text of the
    /// document that the character completes, if it completes one.
    pub fn feed(&mut self, ch: char) -> (r: Option<String>)
        ensures
            final(self)@ == fed(old(self)@, ch).0,
            match fed(old(self)@, ch).1 {
                Some(d) => r is Some && r->0@ == d,
                None => r is None,
            },
    {
        if self.in_string {
            push_char(&mut self.quant, ch);
            if self.escape {
                self.escape = false;
                None
            } else if ch == '\\' {
                self.escape = true;
                None
            } else if ch == '"' {
                if self.markers.len() == 0 {
                    Some(self.take())
                } else {
                    self.in_string = false;
                    None
                }
            } else {
                None
            }
        } else if self.quant.as_str().is_empty() && char_is_space(ch) {
            None
        } else {
            push_char(&mut self.quant, ch);
            if ch == '"' {
                self.in_string = true;
                None
            } else {
                if ch == '{' {
                    self.markers.push('}');
                } else if ch == '[' {
                    self.markers.push(']');
                } else if ch == '}' || ch == ']' {
                    close(&mut self.markers, ch);
                }
                if self.markers.len() == 0 && (char_is_space(ch) || ch == '}' || ch == ']') {
                    Some(self.take())
                } else {
                    None
                }
            }
        }
    }

    /// Ends the stream. Returns the text that was left, if any.
    pub fn finish(&mut self) -> (r: Option<String>)
        ensures
            final(self)@ == idle(),
            match flushed(old(self)@) {
                Some(d) => r is Some && r->0@ == d,
                None => r is None,
            },
    {
        if self.quant.as_str().is_empty() {
            let _ = self.take();
            None
        } else {
            Some(self.take())
        }
    }
}

/// The texts of the documents of a stream that is wholly at hand.
pub fn split_documents(text: &str) -> (r: Vec<String>)
    ensures
        docs_view(r@) == documents(text@),
{
    let chars = chars_of(text);
    let mut framer = Framer::new();
    let mut out: Vec<String> = Vec::new();
    let mut i: usize = 0;
    assert(docs_view(out@) =~= Seq::<Seq<char>>::empty());
    while i < chars.len()
        invariant
            i <= chars.len(),
            chars@ == text@,
            framer@ == fed_all(chars@, i as int).0,
            docs_view(out@) == fed_all(chars@, i as int).1,
        decreases chars.len() - i,
    {
        let ghost before = docs_view(out@);
        match framer.feed(chars[i]) {
            Some(d) => {
                let ghost dv = d@;
                out.push(d);
                assert(docs_view(out@) =~= before.push(dv));
            },
            None => {},
        }
        i = i + 1;
    }
    let ghost before = docs_view(out@);
    match framer.finish() {
        Some(d) => {
            let ghost dv = d@;
            out.push(d);
            assert(docs_view(out@) =~= before.push(dv));
        },
        None => {},
    }
    out
}

/// The value that a document of a stream gives: what its text parses to,
/// or the failure of the parse as a value.
pub fn document_value(text: &str) -> (r: Json)
    ensures
        match crate::parse::spec_parse(text@) {
            Ok(v) => r@ == v,
            Err(k) => r@ is Error && r@->Error_0.kind == k,
        },
{
    match parse(text) {
        Ok(v) => v,
        Err(e) => Json::__Error(e),
    }
}

} // verus!
