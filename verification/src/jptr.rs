//! JSON Pointer: fragments of a path, their escaping, and the split of a
//! path into fragments.
//!
//! In a fragment `~0` stands for `~` and `~1` for `/`; a backslash takes the
//! character after it literally.

use crate::text::{chars_of, push_char, push_str};
use vstd::prelude::*;
use vstd::std_specs::iter::IteratorSpec;

verus! {

/// How a character of a fragment is written in a path.
pub open spec fn quoted_char(c: char) -> Seq<char> {
    if c == '"' || c == '\\' || (c as u32) <= 0x1f {
        seq!['\\', c]
    } else if c == '~' {
        seq!['~', '0']
    } else if c == '/' {
        seq!['~', '1']
    } else {
        seq![c]
    }
}

/// A fragment as it is written in a path.
pub open spec fn quoted(s: Seq<char>) -> Seq<char>
    decreases s.len(),
{
    if s.len() == 0 {
        Seq::empty()
    } else {
        quoted_char(s[0]) + quoted(s.drop_first())
    }
}

/// The fragment that a piece of a path stands for, or the character that
/// follows a tilde without being `0` or `1`. A backslash or a tilde at the
/// very end stands for nothing.
pub open spec fn unquoted(s: Seq<char>) -> Result<Seq<char>, char>
    decreases s.len(),
{
    if s.len() == 0 {
        Ok(Seq::empty())
    } else if s[0] == '\\' {
        if s.len() == 1 {
            Ok(Seq::empty())
        } else {
            match unquoted(s.skip(2)) {
                Ok(rest) => Ok(seq![s[1]] + rest),
                Err(c) => Err(c),
            }
        }
    } else if s[0] == '~' {
        if s.len() == 1 {
            Ok(Seq::empty())
        } else if s[1] == '0' || s[1] == '1' {
            match unquoted(s.skip(2)) {
                Ok(rest) => Ok(
                    seq![if s[1] == '0' {
                        '~'
                    } else {
                        '/'
                    }] + rest,
                ),
                Err(c) => Err(c),
            }
        } else {
            Err(s[1])
        }
    } else {
        match unquoted(s.skip(1)) {
            Ok(rest) => Ok(seq![s[0]] + rest),
            Err(c) => Err(c),
        }
    }
}

/// The message for a tilde followed by `c`.
pub open spec fn tilde_message(c: char) -> Seq<char> {
    "jptr: invalid tilde escape "@.push(c)
}

/// Unquoting undoes quoting, for every fragment.
pub proof fn unquote_undoes_quote(f: Seq<char>)
    ensures
        unquoted(quoted(f)) == Ok::<Seq<char>, char>(f),
    decreases f.len(),
{
    if f.len() == 0 {
        assert(f =~= Seq::<char>::empty());
    } else {
        let c = f[0];
        let tail = quoted(f.drop_first());
        let q = quoted(f);
        unquote_undoes_quote(f.drop_first());
        assert(q == quoted_char(c) + tail);
        assert(q[0] == quoted_char(c)[0]);
        if quoted_char(c).len() == 2 {
            assert(q[1] == quoted_char(c)[1]);
            assert(q.skip(2) =~= tail);
        } else {
            assert(q.skip(1) =~= tail);
        }
        assert(seq![c] + f.drop_first() =~= f);
    }
}

/// Writes a fragment as it stands in a path: a backslash before a quote, a
/// backslash and a control character, `~0` for a tilde and `~1` for a slash.
pub fn quote(fragment: &str) -> (r: String)
    ensures
        r@ == quoted(fragment@),
{
    broadcast use vstd::string::group_string_axioms;

    let mut out = String::new();
    let mut it = fragment.chars();
    let mut more = true;
    while more
        invariant
            it.obeys_prophetic_iter_laws(),
            quoted(fragment@) == out@ + quoted(it.remaining()),
            it.decrease() is Some,
            !more ==> it.remaining().len() == 0,
        decreases
            if more {
                1 + it.decrease()->0
            } else {
                0
            },
    {
        let ghost rest = it.remaining();
        let ghost before = out@;
        match it.next() {
            Some(c) => {
                if c == '"' || c == '\\' || (c as u32) <= 0x1f {
                    push_char(&mut out, '\\');
                    push_char(&mut out, c);
                } else if c == '~' {
                    push_char(&mut out, '~');
                    push_char(&mut out, '0');
                } else if c == '/' {
                    push_char(&mut out, '~');
                    push_char(&mut out, '1');
                } else {
                    push_char(&mut out, c);
                }
                assert(out@ =~= before + quoted_char(c));
                assert(before + quoted(rest) =~= out@ + quoted(rest.drop_first()));
            },
            None => {
                more = false;
            },
        }
    }
    assert(out@ =~= quoted(fragment@));
    out
}

/// Reads a fragment back from the way it stands in a path. Fails where a
/// tilde is followed by something other than `0` or `1`.
pub fn unquote(fragment: &str) -> (r: Result<String, String>)
    ensures
        match unquoted(fragment@) {
            Ok(f) => r is Ok && r->Ok_0@ == f,
            Err(c) => r is Err && r->Err_0@ == tilde_message(c),
        },
{
    let text = chars_of(fragment);
    let mut out = String::new();
    let mut i: usize = 0;
    proof {
        assert(text@.skip(0) =~= text@);
        match unquoted(text@) {
            Ok(rest) => {
                assert(out@ + rest =~= rest);
            },
            Err(_) => {},
        }
    }
    while i < text.len()
        invariant
            i <= text.len(),
            text@ == fragment@,
            match unquoted(text@.skip(i as int)) {
                Ok(rest) => unquoted(text@) == Ok::<Seq<char>, char>(out@ + rest),
                Err(c) => unquoted(text@) == Err::<Seq<char>, char>(c),
            },
        decreases text.len() - i,
    {
        let ghost tail = text@.skip(i as int);
        let ghost before = out@;
        let c = text[i];
        assert(tail[0] == c);
        if c == '\\' || c == '~' {
            if text.len() - i == 1 {
                assert(before + Seq::<char>::empty() =~= before);
                return Ok(out);
            }
            let d = text[i + 1];
            assert(tail[1] == d);
            assert(tail.skip(2) =~= text@.skip(i + 2));
            let plain = if c == '\\' {
                d
            } else if d == '0' {
                '~'
            } else if d == '1' {
                '/'
            } else {
                let mut msg = String::new();
                push_str(&mut msg, "jptr: invalid tilde escape ");
                push_char(&mut msg, d);
                assert(msg@ =~= tilde_message(d));
                return Err(msg);
            };
            push_char(&mut out, plain);
            proof {
                match unquoted(text@.skip(i + 2)) {
                    Ok(rest) => {
                        assert(before + (seq![plain] + rest) =~= out@ + rest);
                    },
                    Err(_) => {},
                }
            }
            i = i + 2;
        } else {
            push_char(&mut out, c);
            proof {
                assert(tail.skip(1) =~= text@.skip(i + 1));
                match unquoted(text@.skip(i + 1)) {
                    Ok(rest) => {
                        assert(before + (seq![c] + rest) =~= out@ + rest);
                    },
                    Err(_) => {},
                }
            }
            i = i + 1;
        }
    }
    proof {
        assert(text@.skip(i as int) =~= Seq::<char>::empty());
        assert(out@ + Seq::<char>::empty() =~= out@);
        assert(text@.skip(0) =~= text@);
    }
    Ok(out)
}

/// The fragments of the path `s[i..]`, `frags` and the start `frag` of the
/// next one having been read before: a slash ends a fragment, the escapes are undone.
/// The last fragment is returned apart from those before it.
pub open spec fn split_from(s: Seq<char>, i: int, frags: Seq<Seq<char>>, frag: Seq<char>) -> Result<
    (Seq<Seq<char>>, Seq<char>),
    char,
>
    decreases s.len() - i,
{
    if !(0 <= i < s.len()) {
        Ok((frags, frag))
    } else if s[i] == '\\' {
        if i + 1 < s.len() {
            split_from(s, i + 2, frags, frag.push(s[i + 1]))
        } else {
            Ok((frags, frag))
        }
    } else if s[i] == '~' {
        if !(i + 1 < s.len()) {
            Ok((frags, frag))
        } else if s[i + 1] == '0' {
            split_from(s, i + 2, frags, frag.push('~'))
        } else if s[i + 1] == '1' {
            split_from(s, i + 2, frags, frag.push('/'))
        } else {
            Err(s[i + 1])
        }
    } else if s[i] == '/' {
        split_from(s, i + 1, frags.push(frag), Seq::empty())
    } else {
        split_from(s, i + 1, frags, frag.push(s[i]))
    }
}

/// The fragments of a path that has lost its leading slash.
pub open spec fn split(s: Seq<char>) -> Result<(Seq<Seq<char>>, Seq<char>), char> {
    split_from(s, 0, Seq::empty(), Seq::empty())
}

/// The texts of a vector of strings.
pub open spec fn frags_view(v: Seq<String>) -> Seq<Seq<char>> {
    Seq::new(v.len(), |i: int| v[i]@)
}

/// Splits a path, which has lost its leading slash, into the fragments
/// before the last and the last one.
pub fn fragments(path: &str) -> (r: Result<(Vec<String>, String), String>)
    ensures
        match split(path@) {
            Ok((frags, last)) => r is Ok && frags_view(r->Ok_0.0@) == frags && r->Ok_0.1@ == last,
            Err(c) => r is Err && r->Err_0@ == tilde_message(c),
        },
{
    let text = chars_of(path);
    let mut frags: Vec<String> = Vec::new();
    let mut frag = String::new();
    let mut i: usize = 0;
    assert(frags_view(frags@) =~= Seq::<Seq<char>>::empty());
    while i < text.len()
        invariant
            i <= text.len(),
            text@ == path@,
            split(text@) == split_from(text@, i as int, frags_view(frags@), frag@),
        decreases text.len() - i,
    {
        let c = text[i];
        if c == '\\' || c == '~' {
            if text.len() - i == 1 {
                return Ok((frags, frag));
            }
            let d = text[i + 1];
            let plain = if c == '\\' {
                d
            } else if d == '0' {
                '~'
            } else if d == '1' {
                '/'
            } else {
                let mut msg = String::new();
                push_str(&mut msg, "jptr: invalid tilde escape ");
                push_char(&mut msg, d);
                assert(msg@ =~= tilde_message(d));
                return Err(msg);
            };
            push_char(&mut frag, plain);
            i = i + 2;
        } else if c == '/' {
            let ghost before = frags_view(frags@);
            let ghost f = frag@;
            frags.push(frag);
            frag = String::new();
            assert(frags_view(frags@) =~= before.push(f));
            i = i + 1;
        } else {
            push_char(&mut frag, c);
            i = i + 1;
        }
    }
    Ok((frags, frag))
}

/// The path without its leading slash. Fails where the path does not start
/// with one.
pub fn fix_prefix(path: &str) -> (r: Result<&str, String>)
    ensures
        match r {
            Ok(rest) => path@.len() > 0 && path@[0] == '/' && rest@ == path@.skip(1),
            Err(e) => (path@.len() == 0 || path@[0] != '/') && e@
                == "jptr: pointer should start with forward solidus"@,
        },
{
    let n = path.unicode_len();
    if n > 0 && path.get_char(0) == '/' {
        let rest = path.substring_char(1, n);
        assert(rest@ =~= path@.skip(1));
        Ok(rest)
    } else {
        Err("jptr: pointer should start with forward solidus".to_owned())
    }
}

} // verus!
