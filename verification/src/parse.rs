//! Parser for the Atom feed documents the remote search service
//! returns.
//!
//! The grammar is defined by spec functions that walk the character
//! sequence position by position; the executable parser is proved to
//! return exactly what the spec functions denote. The schema is the one
//! the normalizer needs: a root element holding `entry` elements, each
//! of which must carry a `title`, a `summary`, an `id` and at least one
//! `author` with a `name`. Unknown child elements are skipped, with
//! their close tags checked against the open ones. Text content decodes
//! the five predefined entities and numeric character references;
//! comments are passed over and CDATA sections are read literally. A
//! leading byte-order mark and a prolog of processing instructions,
//! comments and document-type declarations may precede the root
//! element.

use vstd::prelude::*;

use crate::feed::{author_names, entries_view, entry_view, Author, Entry, EntryV};
use crate::scan::{
    cdata_end_from, chars_to_string, comment_end_from, decl_end_from, e_cdata_end, e_comment_end,
    e_decl_end, e_find_lt, e_name_end, e_pi_end, e_skip_ws, e_tag_end, eq_range_lit,
    eq_range_range, find_lt_from, lemma_cdata_end_from, lemma_comment_end_from,
    lemma_decl_end_from, lemma_find_lt_from, lemma_name_end_from, lemma_pi_end_from,
    lemma_skip_ws_from, lemma_tag_end_from, name_end_from, pi_end_from, skip_ws_from, tag_end_from,
};

verus! {

/// An open tag `<name ...>` at position `p`: its name, the position
/// just after the closing `>`, and whether it is self-closing.
pub open spec fn open_tag_at(s: Seq<char>, p: int) -> Option<(Seq<char>, int, bool)> {
    if !(0 <= p && p + 1 < s.len() && s[p] == '<') {
        None
    } else {
        let ne = name_end_from(s, p + 1);
        if ne == p + 1 {
            None
        } else {
            match tag_end_from(s, ne, None, false) {
                Some((j, sc)) => Some((s.subrange(p + 1, ne), j, sc)),
                None => None,
            }
        }
    }
}

pub proof fn lemma_open_tag_at(s: Seq<char>, p: int)
    requires
        0 <= p <= s.len(),
    ensures
        match open_tag_at(s, p) {
            Some((nm, j, sc)) => p + 3 <= j <= s.len(),
            None => true,
        },
{
    if 0 <= p && p + 1 < s.len() && s[p] == '<' {
        lemma_name_end_from(s, p + 1);
        let ne = name_end_from(s, p + 1);
        if ne != p + 1 {
            lemma_tag_end_from(s, ne, None, false);
        }
    }
}

/// A close tag `</name ...>` at position `p`: its name and the position
/// just after the closing `>`.
pub open spec fn close_tag_parse(s: Seq<char>, p: int) -> Option<(Seq<char>, int)> {
    if !(0 <= p && p + 1 < s.len() && s[p] == '<' && s[p + 1] == '/') {
        None
    } else {
        let ne = name_end_from(s, p + 2);
        if ne == p + 2 {
            None
        } else {
            let w = skip_ws_from(s, ne);
            if w < s.len() && s[w] == '>' {
                Some((s.subrange(p + 2, ne), w + 1))
            } else {
                None
            }
        }
    }
}

pub proof fn lemma_close_tag_parse(s: Seq<char>, p: int)
    requires
        0 <= p <= s.len(),
    ensures
        match close_tag_parse(s, p) {
            Some((nm, j)) => p + 4 <= j <= s.len(),
            None => true,
        },
{
    if 0 <= p && p + 1 < s.len() && s[p] == '<' && s[p + 1] == '/' {
        lemma_name_end_from(s, p + 2);
        let ne = name_end_from(s, p + 2);
        if ne != p + 2 {
            lemma_skip_ws_from(s, ne);
        }
    }
}

/// A close tag at `p` whose name must be `nm`.
pub open spec fn close_tag_end(s: Seq<char>, p: int, nm: Seq<char>) -> Option<int> {
    match close_tag_parse(s, p) {
        Some((n, j)) => if n == nm {
            Some(j)
        } else {
            None
        },
        None => None,
    }
}

/// Whether a comment `<!--` opens at `t`.
pub open spec fn is_comment_at(s: Seq<char>, t: int) -> bool {
    t >= 0 && t + 3 < s.len() && s[t] == '<' && s[t + 1] == '!' && s[t + 2] == '-' && s[t + 3]
        == '-'
}

/// Whether a CDATA section `<![CDATA[` opens at `t`.
pub open spec fn is_cdata_at(s: Seq<char>, t: int) -> bool {
    t >= 0 && t + 8 < s.len() && s[t] == '<' && s[t + 1] == '!' && s[t + 2] == '[' && s[t + 3]
        == 'C' && s[t + 4] == 'D' && s[t + 5] == 'A' && s[t + 6] == 'T' && s[t + 7] == 'A' && s[t
        + 8] == '['
}

fn e_is_comment_at(cs: &Vec<char>, t: usize) -> (b: bool)
    requires
        t <= cs.len(),
    ensures
        b == is_comment_at(cs@, t as int),
{
    t < cs.len() && cs.len() - t > 3 && cs[t] == '<' && cs[t + 1] == '!' && cs[t + 2] == '-'
        && cs[t + 3] == '-'
}

fn e_is_cdata_at(cs: &Vec<char>, t: usize) -> (b: bool)
    requires
        t <= cs.len(),
    ensures
        b == is_cdata_at(cs@, t as int),
{
    t < cs.len() && cs.len() - t > 8 && cs[t] == '<' && cs[t + 1] == '!' && cs[t + 2] == '['
        && cs[t + 3] == 'C' && cs[t + 4] == 'D' && cs[t + 5] == 'A' && cs[t + 6] == 'T' && cs[t
        + 7] == 'A' && cs[t + 8] == '['
}

/// The content of a text-only element whose open tag has been consumed:
/// text runs are decoded onto `acc`, comments are skipped, CDATA
/// sections are kept literally, and the matching close tag named `nm`
/// ends the element. Child elements inside such a field are malformed.
pub open spec fn text_content(s: Seq<char>, i: int, nm: Seq<char>, acc: Seq<char>) -> Option<
    (Seq<char>, int),
>
    decreases s.len() - i
        when 0 <= i <= s.len()
{
    let t = find_lt_from(s, i);
    proof {
        lemma_find_lt_from(s, i);
    }
    match decode_run(s, i, t, acc) {
        None => None,
        Some(acc2) => {
            if t + 1 >= s.len() {
                None
            } else if s[t + 1] == '/' {
                match close_tag_end(s, t, nm) {
                    Some(k) => Some((acc2, k)),
                    None => None,
                }
            } else if is_comment_at(s, t) {
                match comment_end_from(s, t + 4) {
                    Some(k) => {
                        proof {
                            lemma_comment_end_from(s, t + 4);
                        }
                        text_content(s, k, nm, acc2)
                    },
                    None => None,
                }
            } else if is_cdata_at(s, t) {
                match cdata_end_from(s, t + 9) {
                    Some((p, k)) => {
                        proof {
                            lemma_cdata_end_from(s, t + 9);
                        }
                        text_content(s, k, nm, acc2 + s.subrange(t + 9, p))
                    },
                    None => None,
                }
            } else {
                None
            }
        },
    }
}

pub proof fn lemma_text_content(s: Seq<char>, i: int, nm: Seq<char>, acc: Seq<char>)
    requires
        0 <= i <= s.len(),
    ensures
        match text_content(s, i, nm, acc) {
            Some((txt, k)) => i < k <= s.len(),
            None => true,
        },
    decreases s.len() - i,
{
    let t = find_lt_from(s, i);
    lemma_find_lt_from(s, i);
    match decode_run(s, i, t, acc) {
        None => {},
        Some(acc2) => {
            if t + 1 >= s.len() {
            } else if s[t + 1] == '/' {
                lemma_close_tag_parse(s, t);
            } else if is_comment_at(s, t) {
                lemma_comment_end_from(s, t + 4);
                match comment_end_from(s, t + 4) {
                    Some(k) => {
                        lemma_text_content(s, k, nm, acc2);
                    },
                    None => {},
                }
            } else if is_cdata_at(s, t) {
                lemma_cdata_end_from(s, t + 9);
                match cdata_end_from(s, t + 9) {
                    Some((p, k)) => {
                        lemma_text_content(s, k, nm, acc2 + s.subrange(t + 9, p));
                    },
                    None => {},
                }
            }
        },
    }
}

/// Position of the first `;` in `[i, to)`, ending a character
/// reference.
pub open spec fn ref_name_end(s: Seq<char>, i: int, to: int) -> Option<int>
    decreases to - i
        when 0 <= i <= to <= s.len()
{
    if i >= to {
        None
    } else if s[i] == ';' {
        Some(i)
    } else {
        ref_name_end(s, i + 1, to)
    }
}

pub proof fn lemma_ref_name_end(s: Seq<char>, i: int, to: int)
    requires
        0 <= i <= to <= s.len(),
    ensures
        match ref_name_end(s, i, to) {
            Some(p) => i <= p < to,
            None => true,
        },
    decreases to - i,
{
    if i >= to {
    } else if s[i] == ';' {
    } else {
        lemma_ref_name_end(s, i + 1, to);
    }
}

pub open spec fn dec_digit(c: char) -> Option<nat> {
    if 48 <= c as u32 && c as u32 <= 57 {
        Some((c as u32 - 48) as nat)
    } else {
        None
    }
}

pub open spec fn hex_digit(c: char) -> Option<nat> {
    if 48 <= c as u32 && c as u32 <= 57 {
        Some((c as u32 - 48) as nat)
    } else if 97 <= c as u32 && c as u32 <= 102 {
        Some((c as u32 - 87) as nat)
    } else if 65 <= c as u32 && c as u32 <= 70 {
        Some((c as u32 - 55) as nat)
    } else {
        None
    }
}

/// Value of the decimal digits `s[i..to)` on top of `acc`; fails on a
/// non-digit or once the value exceeds the highest code point.
pub open spec fn dec_val(s: Seq<char>, i: int, to: int, acc: nat) -> Option<nat>
    decreases to - i
        when 0 <= i <= to <= s.len()
{
    if acc > 0x10FFFF {
        None
    } else if i >= to {
        Some(acc)
    } else {
        match dec_digit(s[i]) {
            Some(d) => dec_val(s, i + 1, to, acc * 10 + d),
            None => None,
        }
    }
}

/// Value of the hexadecimal digits `s[i..to)` on top of `acc`.
pub open spec fn hex_val(s: Seq<char>, i: int, to: int, acc: nat) -> Option<nat>
    decreases to - i
        when 0 <= i <= to <= s.len()
{
    if acc > 0x10FFFF {
        None
    } else if i >= to {
        Some(acc)
    } else {
        match hex_digit(s[i]) {
            Some(d) => hex_val(s, i + 1, to, acc * 16 + d),
            None => None,
        }
    }
}

/// The character with code `code`, if that is a Unicode scalar value.
pub open spec fn code_to_char(code: nat) -> Option<char> {
    if code <= 0xD7FF || (0xE000 <= code && code <= 0x10FFFF) {
        Some(code as char)
    } else {
        None
    }
}

/// The character a reference `&s[f..t);` stands for: one of the five
/// predefined entities, or a decimal or hexadecimal numeric reference.
pub open spec fn decode_ref(s: Seq<char>, f: int, t: int) -> Option<char> {
    if !(0 <= f <= t <= s.len()) {
        None
    } else {
        let nm = s.subrange(f, t);
        if nm == "amp"@ {
            Some('&')
        } else if nm == "lt"@ {
            Some('<')
        } else if nm == "gt"@ {
            Some('>')
        } else if nm == "quot"@ {
            Some('"')
        } else if nm == "apos"@ {
            Some('\'')
        } else if t > f + 1 && s[f] == '#' {
            if s[f + 1] == 'x' || s[f + 1] == 'X' {
                if t > f + 2 {
                    match hex_val(s, f + 2, t, 0) {
                        Some(code) => code_to_char(code),
                        None => None,
                    }
                } else {
                    None
                }
            } else {
                match dec_val(s, f + 1, t, 0) {
                    Some(code) => code_to_char(code),
                    None => None,
                }
            }
        } else {
            None
        }
    }
}

/// One raw text run `s[i..to)` decoded onto `acc`: ordinary characters
/// are kept, character references are replaced by the characters they
/// stand for, and an invalid or unterminated reference fails.
pub open spec fn decode_run(s: Seq<char>, i: int, to: int, acc: Seq<char>) -> Option<Seq<char>>
    decreases to - i
        when 0 <= i <= to <= s.len()
{
    if i >= to {
        Some(acc)
    } else if s[i] != '&' {
        decode_run(s, i + 1, to, acc.push(s[i]))
    } else {
        match ref_name_end(s, i + 1, to) {
            None => None,
            Some(p) => {
                proof {
                    lemma_ref_name_end(s, i + 1, to);
                }
                match decode_ref(s, i + 1, p) {
                    Some(c) => decode_run(s, p + 1, to, acc.push(c)),
                    None => None,
                }
            },
        }
    }
}

/// Relies on `char::from_u32`: `Some` exactly when the code is a
/// Unicode scalar value (at most 0x10FFFF and not a surrogate), and
/// then the character with that code.
#[verifier::external_body]
fn u32_to_char(code: u32) -> (r: Option<char>)
    ensures
        r == code_to_char(code as nat),
{
    char::from_u32(code)
}

fn e_ref_name_end(cs: &Vec<char>, i: usize, to: usize) -> (r: Option<usize>)
    requires
        i <= to <= cs.len(),
    ensures
        match (r, ref_name_end(cs@, i as int, to as int)) {
            (Some(p), Some(ps)) => p as int == ps && i <= p < to,
            (None, None) => true,
            _ => false,
        },
{
    let mut j: usize = i;
    while j < to
        invariant
            i <= j <= to <= cs.len(),
            ref_name_end(cs@, i as int, to as int) == ref_name_end(cs@, j as int, to as int),
        decreases to - j,
    {
        if cs[j] == ';' {
            proof {
                lemma_ref_name_end(cs@, i as int, to as int);
            }
            return Some(j);
        }
        j = j + 1;
    }
    None
}

fn e_dec_val(cs: &Vec<char>, i: usize, t: usize) -> (r: Option<u32>)
    requires
        i <= t <= cs.len(),
    ensures
        match (r, dec_val(cs@, i as int, t as int, 0)) {
            (Some(v), Some(vs)) => v as nat == vs,
            (None, None) => true,
            _ => false,
        },
{
    let mut j: usize = i;
    let mut acc: u32 = 0;
    while j < t
        invariant
            i <= j <= t <= cs.len(),
            dec_val(cs@, i as int, t as int, 0) == dec_val(cs@, j as int, t as int, acc as nat),
        decreases t - j,
    {
        if acc > 0x10FFFF {
            return None;
        }
        let u = cs[j] as u32;
        if 48 <= u && u <= 57 {
            acc = acc * 10 + (u - 48);
        } else {
            return None;
        }
        j = j + 1;
    }
    if acc > 0x10FFFF {
        return None;
    }
    Some(acc)
}

fn e_hex_val(cs: &Vec<char>, i: usize, t: usize) -> (r: Option<u32>)
    requires
        i <= t <= cs.len(),
    ensures
        match (r, hex_val(cs@, i as int, t as int, 0)) {
            (Some(v), Some(vs)) => v as nat == vs,
            (None, None) => true,
            _ => false,
        },
{
    let mut j: usize = i;
    let mut acc: u32 = 0;
    while j < t
        invariant
            i <= j <= t <= cs.len(),
            hex_val(cs@, i as int, t as int, 0) == hex_val(cs@, j as int, t as int, acc as nat),
        decreases t - j,
    {
        if acc > 0x10FFFF {
            return None;
        }
        let u = cs[j] as u32;
        if 48 <= u && u <= 57 {
            acc = acc * 16 + (u - 48);
        } else if 97 <= u && u <= 102 {
            acc = acc * 16 + (u - 87);
        } else if 65 <= u && u <= 70 {
            acc = acc * 16 + (u - 55);
        } else {
            return None;
        }
        j = j + 1;
    }
    if acc > 0x10FFFF {
        return None;
    }
    Some(acc)
}

fn e_decode_ref(cs: &Vec<char>, f: usize, t: usize) -> (r: Option<char>)
    requires
        f <= t <= cs.len(),
    ensures
        r == decode_ref(cs@, f as int, t as int),
{
    if eq_range_lit(cs, f, t, "amp") {
        return Some('&');
    }
    if eq_range_lit(cs, f, t, "lt") {
        return Some('<');
    }
    if eq_range_lit(cs, f, t, "gt") {
        return Some('>');
    }
    if eq_range_lit(cs, f, t, "quot") {
        return Some('"');
    }
    if eq_range_lit(cs, f, t, "apos") {
        return Some('\'');
    }
    if f < t && t - f >= 2 && cs[f] == '#' {
        if cs[f + 1] == 'x' || cs[f + 1] == 'X' {
            if t - f >= 3 {
                match e_hex_val(cs, f + 2, t) {
                    Some(code) => u32_to_char(code),
                    None => None,
                }
            } else {
                None
            }
        } else {
            match e_dec_val(cs, f + 1, t) {
                Some(code) => u32_to_char(code),
                None => None,
            }
        }
    } else {
        None
    }
}

fn e_decode_run(cs: &Vec<char>, i: usize, to: usize, acc: &mut Vec<char>) -> (ok: bool)
    requires
        i <= to <= cs.len(),
    ensures
        match decode_run(cs@, i as int, to as int, old(acc)@) {
            Some(rs) => ok && final(acc)@ == rs,
            None => !ok,
        },
{
    let mut j: usize = i;
    while j < to
        invariant
            i <= j <= to <= cs.len(),
            decode_run(cs@, i as int, to as int, old(acc)@) == decode_run(
                cs@,
                j as int,
                to as int,
                acc@,
            ),
        decreases to - j,
    {
        let c = cs[j];
        if c != '&' {
            acc.push(c);
            j = j + 1;
        } else {
            match e_ref_name_end(cs, j + 1, to) {
                None => {
                    return false;
                },
                Some(p) => {
                    match e_decode_ref(cs, j + 1, p) {
                        Some(ch) => {
                            acc.push(ch);
                            j = p + 1;
                        },
                        None => {
                            return false;
                        },
                    }
                },
            }
        }
    }
    true
}

/// Skips the rest of an ignored element whose open tag has already
/// been consumed: `stack` holds the names of the open elements,
/// outermost first. Every close tag must name the innermost open
/// element; comments and CDATA sections inside are passed over.
/// Returns the position just after the close tag of the outermost one.
pub open spec fn skip_content_from(s: Seq<char>, i: int, stack: Seq<Seq<char>>) -> Option<int>
    decreases s.len() - i
        when 0 <= i <= s.len()
{
    let t = find_lt_from(s, i);
    proof {
        lemma_find_lt_from(s, i);
        lemma_close_tag_parse(s, t);
        lemma_open_tag_at(s, t);
    }
    if t + 1 >= s.len() {
        None
    } else if s[t + 1] == '/' {
        match close_tag_parse(s, t) {
            Some((nm, j)) => {
                if stack.len() >= 1 && nm == stack.last() {
                    if stack.len() == 1 {
                        Some(j)
                    } else {
                        skip_content_from(s, j, stack.drop_last())
                    }
                } else {
                    None
                }
            },
            None => None,
        }
    } else if is_comment_at(s, t) {
        match comment_end_from(s, t + 4) {
            Some(k) => {
                proof {
                    lemma_comment_end_from(s, t + 4);
                }
                skip_content_from(s, k, stack)
            },
            None => None,
        }
    } else if is_cdata_at(s, t) {
        match cdata_end_from(s, t + 9) {
            Some((p, k)) => {
                proof {
                    lemma_cdata_end_from(s, t + 9);
                }
                skip_content_from(s, k, stack)
            },
            None => None,
        }
    } else {
        match open_tag_at(s, t) {
            Some((nm, j, sc)) => {
                if sc {
                    skip_content_from(s, j, stack)
                } else {
                    skip_content_from(s, j, stack.push(nm))
                }
            },
            None => None,
        }
    }
}

pub proof fn lemma_skip_content_from(s: Seq<char>, i: int, stack: Seq<Seq<char>>)
    requires
        0 <= i <= s.len(),
    ensures
        match skip_content_from(s, i, stack) {
            Some(j) => i < j <= s.len(),
            None => true,
        },
    decreases s.len() - i,
{
    let t = find_lt_from(s, i);
    lemma_find_lt_from(s, i);
    lemma_close_tag_parse(s, t);
    lemma_open_tag_at(s, t);
    if t + 1 >= s.len() {
    } else if s[t + 1] == '/' {
        match close_tag_parse(s, t) {
            Some((nm, j)) => {
                if stack.len() >= 1 && nm == stack.last() && stack.len() != 1 {
                    lemma_skip_content_from(s, j, stack.drop_last());
                }
            },
            None => {},
        }
    } else if is_comment_at(s, t) {
        lemma_comment_end_from(s, t + 4);
        match comment_end_from(s, t + 4) {
            Some(k) => {
                lemma_skip_content_from(s, k, stack);
            },
            None => {},
        }
    } else if is_cdata_at(s, t) {
        lemma_cdata_end_from(s, t + 9);
        match cdata_end_from(s, t + 9) {
            Some((p, k)) => {
                lemma_skip_content_from(s, k, stack);
            },
            None => {},
        }
    } else {
        match open_tag_at(s, t) {
            Some((nm, j, sc)) => {
                if sc {
                    lemma_skip_content_from(s, j, stack);
                } else {
                    lemma_skip_content_from(s, j, stack.push(nm));
                }
            },
            None => {},
        }
    }
}

/// The content of an `author` element, from position `i` to its close
/// tag. `found` carries the `name` text seen so far; exactly one `name`
/// child must be present. Returns the author's name and the position
/// after `</author>`.
pub open spec fn p_author_content(s: Seq<char>, i: int, found: Option<Seq<char>>) -> Option<
    (Seq<char>, int),
>
    decreases s.len() - i
        when 0 <= i <= s.len()
{
    let t = find_lt_from(s, i);
    proof {
        lemma_find_lt_from(s, i);
        lemma_open_tag_at(s, t);
    }
    if t + 1 >= s.len() {
        None
    } else if s[t + 1] == '/' {
        match close_tag_end(s, t, "author"@) {
            Some(j) => match found {
                Some(nm) => Some((nm, j)),
                None => None,
            },
            None => None,
        }
    } else if is_comment_at(s, t) {
        match comment_end_from(s, t + 4) {
            Some(k) => {
                proof {
                    lemma_comment_end_from(s, t + 4);
                }
                p_author_content(s, k, found)
            },
            None => None,
        }
    } else if is_cdata_at(s, t) {
        match cdata_end_from(s, t + 9) {
            Some((cp, k)) => {
                proof {
                    lemma_cdata_end_from(s, t + 9);
                }
                p_author_content(s, k, found)
            },
            None => None,
        }
    } else {
        match open_tag_at(s, t) {
            None => None,
            Some((cn, j, sc)) => {
                if cn == "name"@ {
                    if found is Some {
                        None
                    } else if sc {
                        p_author_content(s, j, Some(Seq::empty()))
                    } else {
                        match text_content(s, j, cn, Seq::empty()) {
                            Some((txt, k)) => {
                                proof {
                                    lemma_text_content(s, j, cn, Seq::empty());
                                }
                                p_author_content(s, k, Some(txt))
                            },
                            None => None,
                        }
                    }
                } else {
                    if sc {
                        p_author_content(s, j, found)
                    } else {
                        match skip_content_from(s, j, seq![cn]) {
                            Some(k) => {
                                proof {
                                    lemma_skip_content_from(s, j, seq![cn]);
                                }
                                p_author_content(s, k, found)
                            },
                            None => None,
                        }
                    }
                }
            },
        }
    }
}

pub proof fn lemma_p_author_content(s: Seq<char>, i: int, found: Option<Seq<char>>)
    requires
        0 <= i <= s.len(),
    ensures
        match p_author_content(s, i, found) {
            Some((nm, j)) => i < j <= s.len(),
            None => true,
        },
    decreases s.len() - i,
{
    let t = find_lt_from(s, i);
    lemma_find_lt_from(s, i);
    lemma_open_tag_at(s, t);
    lemma_close_tag_parse(s, t);
    if t + 1 >= s.len() {
    } else if s[t + 1] == '/' {
    } else if is_comment_at(s, t) {
        lemma_comment_end_from(s, t + 4);
        match comment_end_from(s, t + 4) {
            Some(k) => {
                lemma_p_author_content(s, k, found);
            },
            None => {},
        }
    } else if is_cdata_at(s, t) {
        lemma_cdata_end_from(s, t + 9);
        match cdata_end_from(s, t + 9) {
            Some((cp, k)) => {
                lemma_p_author_content(s, k, found);
            },
            None => {},
        }
    } else {
        match open_tag_at(s, t) {
            None => {},
            Some((cn, j, sc)) => {
                if cn == "name"@ {
                    if found is Some {
                    } else if sc {
                        lemma_p_author_content(s, j, Some(Seq::empty()));
                    } else {
                        lemma_text_content(s, j, cn, Seq::empty());
                        match text_content(s, j, cn, Seq::empty()) {
                            Some((txt, k)) => {
                                lemma_p_author_content(s, k, Some(txt));
                            },
                            None => {},
                        }
                    }
                } else {
                    if sc {
                        lemma_p_author_content(s, j, found);
                    } else {
                        lemma_skip_content_from(s, j, seq![cn]);
                        match skip_content_from(s, j, seq![cn]) {
                            Some(k) => {
                                lemma_p_author_content(s, k, found);
                            },
                            None => {},
                        }
                    }
                }
            },
        }
    }
}

/// The fields of an entry collected while its children are parsed.
pub ghost struct EntryAcc {
    pub title: Option<Seq<char>>,
    pub summary: Option<Seq<char>>,
    pub id: Option<Seq<char>>,
    pub authors: Seq<Seq<char>>,
}

pub open spec fn empty_entry_acc() -> EntryAcc {
    EntryAcc { title: None, summary: None, id: None, authors: Seq::empty() }
}

/// The content of an `entry` element, from position `i` to its close
/// tag. Each of `title`, `summary` and `id` must appear exactly once;
/// at least one `author` must appear; unknown children are skipped.
pub open spec fn p_entry_content(s: Seq<char>, i: int, acc: EntryAcc) -> Option<(EntryV, int)>
    decreases s.len() - i
        when 0 <= i <= s.len()
{
    let t = find_lt_from(s, i);
    proof {
        lemma_find_lt_from(s, i);
        lemma_open_tag_at(s, t);
    }
    if t + 1 >= s.len() {
        None
    } else if s[t + 1] == '/' {
        match close_tag_end(s, t, "entry"@) {
            Some(j) => match (acc.title, acc.summary, acc.id) {
                (Some(ti), Some(su), Some(id)) => {
                    if acc.authors.len() >= 1 {
                        Some((EntryV { title: ti, summary: su, id: id, authors: acc.authors }, j))
                    } else {
                        None
                    }
                },
                _ => None,
            },
            None => None,
        }
    } else if is_comment_at(s, t) {
        match comment_end_from(s, t + 4) {
            Some(k) => {
                proof {
                    lemma_comment_end_from(s, t + 4);
                }
                p_entry_content(s, k, acc)
            },
            None => None,
        }
    } else if is_cdata_at(s, t) {
        match cdata_end_from(s, t + 9) {
            Some((cp, k)) => {
                proof {
                    lemma_cdata_end_from(s, t + 9);
                }
                p_entry_content(s, k, acc)
            },
            None => None,
        }
    } else {
        match open_tag_at(s, t) {
            None => None,
            Some((cn, j, sc)) => {
                if cn == "title"@ {
                    if acc.title is Some {
                        None
                    } else if sc {
                        p_entry_content(
                            s,
                            j,
                            EntryAcc {
                                title: Some(Seq::empty()),
                                summary: acc.summary,
                                id: acc.id,
                                authors: acc.authors,
                            },
                        )
                    } else {
                        match text_content(s, j, cn, Seq::empty()) {
                            Some((txt, k)) => {
                                proof {
                                    lemma_text_content(s, j, cn, Seq::empty());
                                }
                                p_entry_content(
                                    s,
                                    k,
                                    EntryAcc {
                                        title: Some(txt),
                                        summary: acc.summary,
                                        id: acc.id,
                                        authors: acc.authors,
                                    },
                                )
                            },
                            None => None,
                        }
                    }
                } else if cn == "summary"@ {
                    if acc.summary is Some {
                        None
                    } else if sc {
                        p_entry_content(
                            s,
                            j,
                            EntryAcc {
                                title: acc.title,
                                summary: Some(Seq::empty()),
                                id: acc.id,
                                authors: acc.authors,
                            },
                        )
                    } else {
                        match text_content(s, j, cn, Seq::empty()) {
                            Some((txt, k)) => {
                                proof {
                                    lemma_text_content(s, j, cn, Seq::empty());
                                }
                                p_entry_content(
                                    s,
                                    k,
                                    EntryAcc {
                                        title: acc.title,
                                        summary: Some(txt),
                                        id: acc.id,
                                        authors: acc.authors,
                                    },
                                )
                            },
                            None => None,
                        }
                    }
                } else if cn == "id"@ {
                    if acc.id is Some {
                        None
                    } else if sc {
                        p_entry_content(
                            s,
                            j,
                            EntryAcc {
                                title: acc.title,
                                summary: acc.summary,
                                id: Some(Seq::empty()),
                                authors: acc.authors,
                            },
                        )
                    } else {
                        match text_content(s, j, cn, Seq::empty()) {
                            Some((txt, k)) => {
                                proof {
                                    lemma_text_content(s, j, cn, Seq::empty());
                                }
                                p_entry_content(
                                    s,
                                    k,
                                    EntryAcc {
                                        title: acc.title,
                                        summary: acc.summary,
                                        id: Some(txt),
                                        authors: acc.authors,
                                    },
                                )
                            },
                            None => None,
                        }
                    }
                } else if cn == "author"@ {
                    if sc {
                        None
                    } else {
                        match p_author_content(s, j, None) {
                            Some((an, k)) => {
                                proof {
                                    lemma_p_author_content(s, j, None);
                                }
                                p_entry_content(
                                    s,
                                    k,
                                    EntryAcc {
                                        title: acc.title,
                                        summary: acc.summary,
                                        id: acc.id,
                                        authors: acc.authors.push(an),
                                    },
                                )
                            },
                            None => None,
                        }
                    }
                } else {
                    if sc {
                        p_entry_content(s, j, acc)
                    } else {
                        match skip_content_from(s, j, seq![cn]) {
                            Some(k) => {
                                proof {
                                    lemma_skip_content_from(s, j, seq![cn]);
                                }
                                p_entry_content(s, k, acc)
                            },
                            None => None,
                        }
                    }
                }
            },
        }
    }
}

pub proof fn lemma_p_entry_content(s: Seq<char>, i: int, acc: EntryAcc)
    requires
        0 <= i <= s.len(),
    ensures
        match p_entry_content(s, i, acc) {
            Some((e, j)) => i < j <= s.len(),
            None => true,
        },
    decreases s.len() - i,
{
    let t = find_lt_from(s, i);
    lemma_find_lt_from(s, i);
    lemma_open_tag_at(s, t);
    lemma_close_tag_parse(s, t);
    if t + 1 >= s.len() {
    } else if s[t + 1] == '/' {
    } else if is_comment_at(s, t) {
        lemma_comment_end_from(s, t + 4);
        match comment_end_from(s, t + 4) {
            Some(k) => {
                lemma_p_entry_content(s, k, acc);
            },
            None => {},
        }
    } else if is_cdata_at(s, t) {
        lemma_cdata_end_from(s, t + 9);
        match cdata_end_from(s, t + 9) {
            Some((cp, k)) => {
                lemma_p_entry_content(s, k, acc);
            },
            None => {},
        }
    } else {
        match open_tag_at(s, t) {
            None => {},
            Some((cn, j, sc)) => {
                lemma_text_content(s, j, cn, Seq::empty());
                lemma_skip_content_from(s, j, seq![cn]);
                lemma_p_author_content(s, j, None);
                if cn == "title"@ {
                    if acc.title is Some {
                    } else if sc {
                        lemma_p_entry_content(
                            s,
                            j,
                            EntryAcc {
                                title: Some(Seq::empty()),
                                summary: acc.summary,
                                id: acc.id,
                                authors: acc.authors,
                            },
                        );
                    } else {
                        match text_content(s, j, cn, Seq::empty()) {
                            Some((txt, k)) => {
                                lemma_p_entry_content(
                                    s,
                                    k,
                                    EntryAcc {
                                        title: Some(txt),
                                        summary: acc.summary,
                                        id: acc.id,
                                        authors: acc.authors,
                                    },
                                );
                            },
                            None => {},
                        }
                    }
                } else if cn == "summary"@ {
                    if acc.summary is Some {
                    } else if sc {
                        lemma_p_entry_content(
                            s,
                            j,
                            EntryAcc {
                                title: acc.title,
                                summary: Some(Seq::empty()),
                                id: acc.id,
                                authors: acc.authors,
                            },
                        );
                    } else {
                        match text_content(s, j, cn, Seq::empty()) {
                            Some((txt, k)) => {
                                lemma_p_entry_content(
                                    s,
                                    k,
                                    EntryAcc {
                                        title: acc.title,
                                        summary: Some(txt),
                                        id: acc.id,
                                        authors: acc.authors,
                                    },
                                );
                            },
                            None => {},
                        }
                    }
                } else if cn == "id"@ {
                    if acc.id is Some {
                    } else if sc {
                        lemma_p_entry_content(
                            s,
                            j,
                            EntryAcc {
                                title: acc.title,
                                summary: acc.summary,
                                id: Some(Seq::empty()),
                                authors: acc.authors,
                            },
                        );
                    } else {
                        match text_content(s, j, cn, Seq::empty()) {
                            Some((txt, k)) => {
                                lemma_p_entry_content(
                                    s,
                                    k,
                                    EntryAcc {
                                        title: acc.title,
                                        summary: acc.summary,
                                        id: Some(txt),
                                        authors: acc.authors,
                                    },
                                );
                            },
                            None => {},
                        }
                    }
                } else if cn == "author"@ {
                    if sc {
                    } else {
                        match p_author_content(s, j, None) {
                            Some((an, k)) => {
                                lemma_p_entry_content(
                                    s,
                                    k,
                                    EntryAcc {
                                        title: acc.title,
                                        summary: acc.summary,
                                        id: acc.id,
                                        authors: acc.authors.push(an),
                                    },
                                );
                            },
                            None => {},
                        }
                    }
                } else {
                    if sc {
                        lemma_p_entry_content(s, j, acc);
                    } else {
                        match skip_content_from(s, j, seq![cn]) {
                            Some(k) => {
                                lemma_p_entry_content(s, k, acc);
                            },
                            None => {},
                        }
                    }
                }
            },
        }
    }
}

/// The content of the root element, from position `i` to the close tag
/// whose name is `root`. Collects the `entry` children in document
/// order and skips everything else.
pub open spec fn p_feed_content(
    s: Seq<char>,
    i: int,
    root: Seq<char>,
    acc: Seq<EntryV>,
) -> Option<(Seq<EntryV>, int)>
    decreases s.len() - i
        when 0 <= i <= s.len()
{
    let t = find_lt_from(s, i);
    proof {
        lemma_find_lt_from(s, i);
        lemma_open_tag_at(s, t);
    }
    if t + 1 >= s.len() {
        None
    } else if s[t + 1] == '/' {
        match close_tag_end(s, t, root) {
            Some(j) => Some((acc, j)),
            None => None,
        }
    } else if is_comment_at(s, t) {
        match comment_end_from(s, t + 4) {
            Some(k) => {
                proof {
                    lemma_comment_end_from(s, t + 4);
                }
                p_feed_content(s, k, root, acc)
            },
            None => None,
        }
    } else if is_cdata_at(s, t) {
        match cdata_end_from(s, t + 9) {
            Some((cp, k)) => {
                proof {
                    lemma_cdata_end_from(s, t + 9);
                }
                p_feed_content(s, k, root, acc)
            },
            None => None,
        }
    } else {
        match open_tag_at(s, t) {
            None => None,
            Some((cn, j, sc)) => {
                if cn == "entry"@ {
                    if sc {
                        None
                    } else {
                        match p_entry_content(s, j, empty_entry_acc()) {
                            Some((e, k)) => {
                                proof {
                                    lemma_p_entry_content(s, j, empty_entry_acc());
                                }
                                p_feed_content(s, k, root, acc.push(e))
                            },
                            None => None,
                        }
                    }
                } else {
                    if sc {
                        p_feed_content(s, j, root, acc)
                    } else {
                        match skip_content_from(s, j, seq![cn]) {
                            Some(k) => {
                                proof {
                                    lemma_skip_content_from(s, j, seq![cn]);
                                }
                                p_feed_content(s, k, root, acc)
                            },
                            None => None,
                        }
                    }
                }
            },
        }
    }
}

/// The markup allowed outside the root element: whitespace,
/// processing instructions, comments and document-type declarations.
/// Returns the position of the first character past them.
pub open spec fn p_misc(s: Seq<char>, i: int) -> Option<int>
    decreases s.len() - i
        when 0 <= i <= s.len()
{
    let w = skip_ws_from(s, i);
    proof {
        lemma_skip_ws_from(s, i);
    }
    if w + 1 < s.len() && s[w] == '<' && s[w + 1] == '?' {
        match pi_end_from(s, w + 2) {
            Some(j) => {
                proof {
                    lemma_pi_end_from(s, w + 2);
                }
                p_misc(s, j)
            },
            None => None,
        }
    } else if is_comment_at(s, w) {
        match comment_end_from(s, w + 4) {
            Some(j) => {
                proof {
                    lemma_comment_end_from(s, w + 4);
                }
                p_misc(s, j)
            },
            None => None,
        }
    } else if w + 1 < s.len() && s[w] == '<' && s[w + 1] == '!' {
        match decl_end_from(s, w + 2, 0) {
            Some(j) => {
                proof {
                    lemma_decl_end_from(s, w + 2, 0);
                }
                p_misc(s, j)
            },
            None => None,
        }
    } else {
        Some(w)
    }
}

pub proof fn lemma_p_misc(s: Seq<char>, i: int)
    requires
        0 <= i <= s.len(),
    ensures
        match p_misc(s, i) {
            Some(j) => i <= j <= s.len(),
            None => true,
        },
    decreases s.len() - i,
{
    let w = skip_ws_from(s, i);
    lemma_skip_ws_from(s, i);
    if w + 1 < s.len() && s[w] == '<' && s[w + 1] == '?' {
        lemma_pi_end_from(s, w + 2);
        match pi_end_from(s, w + 2) {
            Some(j) => {
                lemma_p_misc(s, j);
            },
            None => {},
        }
    } else if is_comment_at(s, w) {
        lemma_comment_end_from(s, w + 4);
        match comment_end_from(s, w + 4) {
            Some(j) => {
                lemma_p_misc(s, j);
            },
            None => {},
        }
    } else if w + 1 < s.len() && s[w] == '<' && s[w + 1] == '!' {
        lemma_decl_end_from(s, w + 2, 0);
        match decl_end_from(s, w + 2, 0) {
            Some(j) => {
                lemma_p_misc(s, j);
            },
            None => {},
        }
    }
}

/// A whole feed document: optional prologs, one root element whose
/// `entry` children are the result, and trailing whitespace only.
/// A whole feed document may begin with a byte-order mark.
pub open spec fn bom_skip(s: Seq<char>) -> int {
    if s.len() > 0 && s[0] == '\u{FEFF}' {
        1
    } else {
        0
    }
}

pub open spec fn parse_doc(s: Seq<char>) -> Option<Seq<EntryV>> {
    match p_misc(s, bom_skip(s)) {
        None => None,
        Some(w) => match open_tag_at(s, w) {
            None => None,
            Some((rn, j, sc)) => {
                if sc {
                    if p_misc(s, j) == Some(s.len() as int) {
                        Some(Seq::empty())
                    } else {
                        None
                    }
                } else {
                    match p_feed_content(s, j, rn, Seq::empty()) {
                        None => None,
                        Some((es, k)) => {
                            if p_misc(s, k) == Some(s.len() as int) {
                                Some(es)
                            } else {
                                None
                            }
                        },
                    }
                }
            },
        },
    }
}

/// An open tag located by the executable parser: the name's character
/// range, the position after `>`, and the self-closing flag.
pub struct OpenTag {
    pub nf: usize,
    pub nt: usize,
    pub next: usize,
    pub sc: bool,
}

pub open spec fn opt_str_view(o: Option<String>) -> Option<Seq<char>> {
    match o {
        Option::None => Option::None,
        Option::Some(x) => Option::Some(x@),
    }
}

pub open spec fn acc_view(
    ti: Option<String>,
    su: Option<String>,
    idv: Option<String>,
    aus: Seq<Author>,
) -> EntryAcc {
    EntryAcc {
        title: opt_str_view(ti),
        summary: opt_str_view(su),
        id: opt_str_view(idv),
        authors: author_names(aus),
    }
}

fn e_open_tag(cs: &Vec<char>, p: usize) -> (r: Option<OpenTag>)
    requires
        p <= cs.len(),
    ensures
        match (r, open_tag_at(cs@, p as int)) {
            (Some(o), Some((nm, j, sc))) => {
                &&& o.nf <= o.nt <= cs.len()
                &&& nm == cs@.subrange(o.nf as int, o.nt as int)
                &&& o.next as int == j
                &&& o.sc == sc
                &&& p < o.next <= cs.len()
            },
            (None, None) => true,
            _ => false,
        },
{
    if p >= cs.len() {
        return None;
    }
    if cs[p] != '<' {
        return None;
    }
    if p + 1 >= cs.len() {
        return None;
    }
    let ne = e_name_end(cs, p + 1);
    if ne == p + 1 {
        return None;
    }
    proof {
        lemma_open_tag_at(cs@, p as int);
    }
    match e_tag_end(cs, ne) {
        Some((j, sc)) => Some(OpenTag { nf: p + 1, nt: ne, next: j, sc }),
        None => None,
    }
}

fn e_close_tag_parse(cs: &Vec<char>, p: usize) -> (r: Option<(usize, usize, usize)>)
    requires
        p <= cs.len(),
    ensures
        match (r, close_tag_parse(cs@, p as int)) {
            (Some((nf, nt, nx)), Some((nm, j))) => {
                &&& nf <= nt <= cs.len()
                &&& nm == cs@.subrange(nf as int, nt as int)
                &&& nx as int == j
                &&& p < nx <= cs.len()
            },
            (None, None) => true,
            _ => false,
        },
{
    if p >= cs.len() {
        return None;
    }
    if cs[p] != '<' {
        return None;
    }
    if p + 1 >= cs.len() {
        return None;
    }
    if cs[p + 1] != '/' {
        return None;
    }
    let ne = e_name_end(cs, p + 2);
    if ne == p + 2 {
        return None;
    }
    let w = e_skip_ws(cs, ne);
    if w < cs.len() && cs[w] == '>' {
        Some((p + 2, ne, w + 1))
    } else {
        None
    }
}

fn e_text_content(cs: &Vec<char>, i: usize, nf: usize, nt: usize) -> (r: Option<(String, usize)>)
    requires
        i <= cs.len(),
        nf <= nt <= cs.len(),
    ensures
        match (
            r,
            text_content(cs@, i as int, cs@.subrange(nf as int, nt as int), Seq::<char>::empty()),
        ) {
            (Some((txt, k)), Some((ts, ks))) => txt@ == ts && k as int == ks && i < k <= cs.len(),
            (None, None) => true,
            _ => false,
        },
{
    let ghost nm = cs@.subrange(nf as int, nt as int);
    let mut acc: Vec<char> = Vec::new();
    let mut j: usize = i;
    loop
        invariant
            i <= j <= cs.len(),
            nf <= nt <= cs.len(),
            nm == cs@.subrange(nf as int, nt as int),
            text_content(cs@, i as int, nm, Seq::<char>::empty()) == text_content(
                cs@,
                j as int,
                nm,
                acc@,
            ),
        decreases cs.len() - j,
    {
        let t = e_find_lt(cs, j);
        if !e_decode_run(cs, j, t, &mut acc) {
            return None;
        }
        if t == cs.len() {
            return None;
        }
        if t + 1 >= cs.len() {
            return None;
        }
        if cs[t + 1] == '/' {
            match e_close_tag_parse(cs, t) {
                Some((cnf, cnt, k)) => {
                    if eq_range_range(cs, cnf, cnt, nf, nt) {
                        let txt = chars_to_string(&acc, 0, acc.len());
                        proof {
                            assert(acc@.subrange(0, acc@.len() as int) =~= acc@);
                        }
                        return Some((txt, k));
                    } else {
                        return None;
                    }
                },
                None => {
                    return None;
                },
            }
        } else if e_is_comment_at(cs, t) {
            match e_comment_end(cs, t + 4) {
                Some(k) => {
                    j = k;
                },
                None => {
                    return None;
                },
            }
        } else if e_is_cdata_at(cs, t) {
            match e_cdata_end(cs, t + 9) {
                Some((p, k)) => {
                    let ghost acc1 = acc@;
                    let mut x: usize = t + 9;
                    while x < p
                        invariant
                            t + 9 <= x <= p <= cs.len(),
                            acc@ == acc1 + cs@.subrange(t + 9, x as int),
                        decreases p - x,
                    {
                        acc.push(cs[x]);
                        proof {
                            assert(acc@ =~= acc1 + cs@.subrange(t + 9, x + 1));
                        }
                        x = x + 1;
                    }
                    j = k;
                },
                None => {
                    return None;
                },
            }
        } else {
            return None;
        }
    }
}

/// The names on the executable skip stack, each held as a character
/// range of the document.
pub open spec fn ranges_view(s: Seq<char>, v: Seq<(usize, usize)>) -> Seq<Seq<char>> {
    Seq::new(v.len(), |k: int| s.subrange(v[k].0 as int, v[k].1 as int))
}

fn e_skip_content(cs: &Vec<char>, i: usize, stack: &mut Vec<(usize, usize)>) -> (r: Option<usize>)
    requires
        i <= cs.len(),
        forall|k: int|
            0 <= k < old(stack)@.len() ==> (#[trigger] old(stack)@[k]).0 <= old(stack)@[k].1
                <= cs.len(),
    ensures
        match (r, skip_content_from(cs@, i as int, ranges_view(cs@, old(stack)@))) {
            (Some(j), Some(js)) => j as int == js && i < j <= cs.len(),
            (None, None) => true,
            _ => false,
        },
    decreases cs.len() - i,
{
    let t = e_find_lt(cs, i);
    if t == cs.len() {
        return None;
    }
    if t + 1 >= cs.len() {
        return None;
    }
    if cs[t + 1] == '/' {
        match e_close_tag_parse(cs, t) {
            Some((cnf, cnt, j)) => {
                if stack.len() >= 1 {
                    let (tf, tt) = stack[stack.len() - 1];
                    if eq_range_range(cs, cnf, cnt, tf, tt) {
                        if stack.len() == 1 {
                            Some(j)
                        } else {
                            stack.pop();
                            proof {
                                assert(ranges_view(cs@, stack@) =~= ranges_view(
                                    cs@,
                                    old(stack)@,
                                ).drop_last());
                            }
                            e_skip_content(cs, j, stack)
                        }
                    } else {
                        None
                    }
                } else {
                    None
                }
            },
            None => None,
        }
    } else if e_is_comment_at(cs, t) {
        match e_comment_end(cs, t + 4) {
            Some(k) => e_skip_content(cs, k, stack),
            None => None,
        }
    } else if e_is_cdata_at(cs, t) {
        match e_cdata_end(cs, t + 9) {
            Some((p, k)) => e_skip_content(cs, k, stack),
            None => None,
        }
    } else {
        match e_open_tag(cs, t) {
            Some(o) => {
                if o.sc {
                    e_skip_content(cs, o.next, stack)
                } else {
                    stack.push((o.nf, o.nt));
                    proof {
                        assert(ranges_view(cs@, stack@) =~= ranges_view(cs@, old(stack)@).push(
                            cs@.subrange(o.nf as int, o.nt as int),
                        ));
                    }
                    e_skip_content(cs, o.next, stack)
                }
            },
            None => None,
        }
    }
}

fn e_author_content(cs: &Vec<char>, i: usize, found: Option<String>) -> (r: Option<(String, usize)>)
    requires
        i <= cs.len(),
    ensures
        match (r, p_author_content(cs@, i as int, opt_str_view(found))) {
            (Some((nm, j)), Some((nms, js))) => nm@ == nms && j as int == js && i < j <= cs.len(),
            (None, None) => true,
            _ => false,
        },
    decreases cs.len() - i,
{
    let t = e_find_lt(cs, i);
    if t == cs.len() {
        return None;
    }
    if t + 1 >= cs.len() {
        return None;
    }
    if cs[t + 1] == '/' {
        match e_close_tag_parse(cs, t) {
            Some((cnf, cnt, j)) => {
                if eq_range_lit(cs, cnf, cnt, "author") {
                    match found {
                        Some(nm) => Some((nm, j)),
                        None => None,
                    }
                } else {
                    None
                }
            },
            None => None,
        }
    } else if e_is_comment_at(cs, t) {
        match e_comment_end(cs, t + 4) {
            Some(k) => e_author_content(cs, k, found),
            None => None,
        }
    } else if e_is_cdata_at(cs, t) {
        match e_cdata_end(cs, t + 9) {
            Some((cp, k)) => e_author_content(cs, k, found),
            None => None,
        }
    } else {
        match e_open_tag(cs, t) {
            None => None,
            Some(o) => {
                if eq_range_lit(cs, o.nf, o.nt, "name") {
                    if found.is_some() {
                        None
                    } else if o.sc {
                        e_author_content(cs, o.next, Some(String::new()))
                    } else {
                        match e_text_content(cs, o.next, o.nf, o.nt) {
                            Some((txt, k)) => e_author_content(cs, k, Some(txt)),
                            None => None,
                        }
                    }
                } else {
                    if o.sc {
                        e_author_content(cs, o.next, found)
                    } else {
                        let mut st: Vec<(usize, usize)> = Vec::new();
                        st.push((o.nf, o.nt));
                        proof {
                            assert(ranges_view(cs@, st@) =~= seq![
                                cs@.subrange(o.nf as int, o.nt as int),
                            ]);
                        }
                        match e_skip_content(cs, o.next, &mut st) {
                            Some(k) => e_author_content(cs, k, found),
                            None => None,
                        }
                    }
                }
            },
        }
    }
}

fn e_entry_content(
    cs: &Vec<char>,
    i: usize,
    ti: Option<String>,
    su: Option<String>,
    idv: Option<String>,
    aus: Vec<Author>,
) -> (r: Option<(Entry, usize)>)
    requires
        i <= cs.len(),
    ensures
        match (r, p_entry_content(cs@, i as int, acc_view(ti, su, idv, aus@))) {
            (Some((e, j)), Some((ev, js))) => entry_view(e) == ev && j as int == js && i < j
                <= cs.len(),
            (None, None) => true,
            _ => false,
        },
    decreases cs.len() - i,
{
    let t = e_find_lt(cs, i);
    if t == cs.len() {
        return None;
    }
    if t + 1 >= cs.len() {
        return None;
    }
    if cs[t + 1] == '/' {
        match e_close_tag_parse(cs, t) {
            Some((cnf, cnt, j)) => {
                if eq_range_lit(cs, cnf, cnt, "entry") {
                    match (ti, su, idv) {
                        (Some(t0), Some(s0), Some(i0)) => {
                            if aus.len() >= 1 {
                                let e = Entry { title: t0, summary: s0, id: i0, author: aus };
                                Some((e, j))
                            } else {
                                None
                            }
                        },
                        _ => None,
                    }
                } else {
                    None
                }
            },
            None => None,
        }
    } else if e_is_comment_at(cs, t) {
        match e_comment_end(cs, t + 4) {
            Some(k) => e_entry_content(cs, k, ti, su, idv, aus),
            None => None,
        }
    } else if e_is_cdata_at(cs, t) {
        match e_cdata_end(cs, t + 9) {
            Some((cp, k)) => e_entry_content(cs, k, ti, su, idv, aus),
            None => None,
        }
    } else {
        match e_open_tag(cs, t) {
            None => None,
            Some(o) => {
                if eq_range_lit(cs, o.nf, o.nt, "title") {
                    if ti.is_some() {
                        None
                    } else if o.sc {
                        e_entry_content(cs, o.next, Some(String::new()), su, idv, aus)
                    } else {
                        match e_text_content(cs, o.next, o.nf, o.nt) {
                            Some((txt, k)) => e_entry_content(cs, k, Some(txt), su, idv, aus),
                            None => None,
                        }
                    }
                } else if eq_range_lit(cs, o.nf, o.nt, "summary") {
                    if su.is_some() {
                        None
                    } else if o.sc {
                        e_entry_content(cs, o.next, ti, Some(String::new()), idv, aus)
                    } else {
                        match e_text_content(cs, o.next, o.nf, o.nt) {
                            Some((txt, k)) => e_entry_content(cs, k, ti, Some(txt), idv, aus),
                            None => None,
                        }
                    }
                } else if eq_range_lit(cs, o.nf, o.nt, "id") {
                    if idv.is_some() {
                        None
                    } else if o.sc {
                        e_entry_content(cs, o.next, ti, su, Some(String::new()), aus)
                    } else {
                        match e_text_content(cs, o.next, o.nf, o.nt) {
                            Some((txt, k)) => e_entry_content(cs, k, ti, su, Some(txt), aus),
                            None => None,
                        }
                    }
                } else if eq_range_lit(cs, o.nf, o.nt, "author") {
                    if o.sc {
                        None
                    } else {
                        match e_author_content(cs, o.next, None) {
                            Some((an, k)) => {
                                let ghost old_aus = aus@;
                                let mut aus2 = aus;
                                aus2.push(Author { name: an });
                                proof {
                                    assert(author_names(aus2@) =~= author_names(old_aus).push(
                                        an@,
                                    ));
                                }
                                e_entry_content(cs, k, ti, su, idv, aus2)
                            },
                            None => None,
                        }
                    }
                } else {
                    if o.sc {
                        e_entry_content(cs, o.next, ti, su, idv, aus)
                    } else {
                        let mut st: Vec<(usize, usize)> = Vec::new();
                        st.push((o.nf, o.nt));
                        proof {
                            assert(ranges_view(cs@, st@) =~= seq![
                                cs@.subrange(o.nf as int, o.nt as int),
                            ]);
                        }
                        match e_skip_content(cs, o.next, &mut st) {
                            Some(k) => e_entry_content(cs, k, ti, su, idv, aus),
                            None => None,
                        }
                    }
                }
            },
        }
    }
}

fn e_feed_content(cs: &Vec<char>, i: usize, rnf: usize, rnt: usize, acc: Vec<Entry>) -> (r: Option<
    (Vec<Entry>, usize),
>)
    requires
        i <= cs.len(),
        rnf <= rnt <= cs.len(),
    ensures
        match (
            r,
            p_feed_content(
                cs@,
                i as int,
                cs@.subrange(rnf as int, rnt as int),
                entries_view(acc@),
            ),
        ) {
            (Some((es, j)), Some((ess, js))) => entries_view(es@) == ess && j as int == js && i < j
                <= cs.len(),
            (None, None) => true,
            _ => false,
        },
    decreases cs.len() - i,
{
    let t = e_find_lt(cs, i);
    if t == cs.len() {
        return None;
    }
    if t + 1 >= cs.len() {
        return None;
    }
    if cs[t + 1] == '/' {
        match e_close_tag_parse(cs, t) {
            Some((cnf, cnt, j)) => {
                if eq_range_range(cs, cnf, cnt, rnf, rnt) {
                    Some((acc, j))
                } else {
                    None
                }
            },
            None => None,
        }
    } else if e_is_comment_at(cs, t) {
        match e_comment_end(cs, t + 4) {
            Some(k) => e_feed_content(cs, k, rnf, rnt, acc),
            None => None,
        }
    } else if e_is_cdata_at(cs, t) {
        match e_cdata_end(cs, t + 9) {
            Some((cp, k)) => e_feed_content(cs, k, rnf, rnt, acc),
            None => None,
        }
    } else {
        match e_open_tag(cs, t) {
            None => None,
            Some(o) => {
                if eq_range_lit(cs, o.nf, o.nt, "entry") {
                    if o.sc {
                        None
                    } else {
                        proof {
                            assert(acc_view(
                                None::<String>,
                                None::<String>,
                                None::<String>,
                                Seq::<Author>::empty(),
                            ).authors =~= empty_entry_acc().authors);
                        }
                        match e_entry_content(cs, o.next, None, None, None, Vec::new()) {
                            Some((e, k)) => {
                                let ghost old_acc = acc@;
                                let mut acc2 = acc;
                                acc2.push(e);
                                proof {
                                    assert(entries_view(acc2@) =~= entries_view(old_acc).push(
                                        entry_view(e),
                                    ));
                                }
                                e_feed_content(cs, k, rnf, rnt, acc2)
                            },
                            None => None,
                        }
                    }
                } else {
                    if o.sc {
                        e_feed_content(cs, o.next, rnf, rnt, acc)
                    } else {
                        let mut st: Vec<(usize, usize)> = Vec::new();
                        st.push((o.nf, o.nt));
                        proof {
                            assert(ranges_view(cs@, st@) =~= seq![
                                cs@.subrange(o.nf as int, o.nt as int),
                            ]);
                        }
                        match e_skip_content(cs, o.next, &mut st) {
                            Some(k) => e_feed_content(cs, k, rnf, rnt, acc),
                            None => None,
                        }
                    }
                }
            },
        }
    }
}

fn e_misc(cs: &Vec<char>, i: usize) -> (r: Option<usize>)
    requires
        i <= cs.len(),
    ensures
        match (r, p_misc(cs@, i as int)) {
            (Some(j), Some(js)) => j as int == js && i <= j <= cs.len(),
            (None, None) => true,
            _ => false,
        },
    decreases cs.len() - i,
{
    let w = e_skip_ws(cs, i);
    if w < cs.len() && w + 1 < cs.len() && cs[w] == '<' && cs[w + 1] == '?' {
        match e_pi_end(cs, w + 2) {
            Some(j) => e_misc(cs, j),
            None => None,
        }
    } else if e_is_comment_at(cs, w) {
        match e_comment_end(cs, w + 4) {
            Some(j) => e_misc(cs, j),
            None => None,
        }
    } else if w < cs.len() && w + 1 < cs.len() && cs[w] == '<' && cs[w + 1] == '!' {
        match e_decl_end(cs, w + 2) {
            Some(j) => e_misc(cs, j),
            None => None,
        }
    } else {
        Some(w)
    }
}

/// Parses a whole feed document held in `cs`: returns its entries in
/// document order, or `None` when the document does not parse.
pub fn e_parse_doc(cs: &Vec<char>) -> (r: Option<Vec<Entry>>)
    ensures
        match (r, parse_doc(cs@)) {
            (Some(es), Some(ess)) => entries_view(es@) == ess,
            (None, None) => true,
            _ => false,
        },
{
    let start: usize = if cs.len() > 0 && cs[0] == '\u{FEFF}' {
        1
    } else {
        0
    };
    match e_misc(cs, start) {
        None => None,
        Some(w) => match e_open_tag(cs, w) {
            None => None,
            Some(o) => {
                if o.sc {
                    match e_misc(cs, o.next) {
                        None => {
                            return None;
                        },
                        Some(z) => {
                            if z == cs.len() {
                                let es: Vec<Entry> = Vec::new();
                                proof {
                                    assert(entries_view(es@) =~= Seq::<EntryV>::empty());
                                }
                                Some(es)
                            } else {
                                None
                            }
                        },
                    }
                } else {
                    proof {
                        assert(entries_view(Seq::<Entry>::empty()) =~= Seq::<EntryV>::empty());
                    }
                    match e_feed_content(cs, o.next, o.nf, o.nt, Vec::new()) {
                        None => None,
                        Some((es, k)) => {
                            match e_misc(cs, k) {
                                None => None,
                                Some(z) => {
                                    if z == cs.len() {
                                        Some(es)
                                    } else {
                                        None
                                    }
                                },
                            }
                        },
                    }
                }
            },
        },
    }
}

} // verus!
