//! Character-level scanners over a feed document.
//!
//! Each scanner exists twice: a spec function that defines, by recursion
//! over the character sequence, where the scan ends, and an executable
//! loop proved to land on exactly that position.

use vstd::prelude::*;

verus! {

/// Whitespace as the markup grammar uses it between tokens.
pub open spec fn is_ws(c: char) -> bool {
    c == ' ' || c == '\n' || c == '\t' || c == '\r'
}

/// Whitespace as text trimming removes it: the Unicode `White_Space`
/// characters, the set `str::trim` strips.
pub open spec fn is_trim_ws(c: char) -> bool {
    ||| (9 <= c as u32 && c as u32 <= 13)  // tab, line feed, vertical tab, form feed, carriage return
    ||| c == ' '
    ||| c as u32 == 0x85  // next line
    ||| c as u32 == 0xA0  // no-break space
    ||| c as u32 == 0x1680  // ogham space mark
    ||| (0x2000 <= c as u32 && c as u32 <= 0x200A)  // en quad .. hair space
    ||| c as u32 == 0x2028  // line separator
    ||| c as u32 == 0x2029  // paragraph separator
    ||| c as u32 == 0x202F  // narrow no-break space
    ||| c as u32 == 0x205F  // medium mathematical space
    ||| c as u32 == 0x3000  // ideographic space
}

pub fn is_trim_ws_c(c: char) -> (b: bool)
    ensures
        b == is_trim_ws(c),
{
    let u = c as u32;
    (9 <= u && u <= 13) || u == 0x20 || u == 0x85 || u == 0xA0 || u == 0x1680 || (0x2000 <= u && u
        <= 0x200A) || u == 0x2028 || u == 0x2029 || u == 0x202F || u == 0x205F || u == 0x3000
}

/// Characters that may appear in an element name.
pub open spec fn is_name_char(c: char) -> bool {
    (97 <= c as u32 && c as u32 <= 122)  // a-z
    || (65 <= c as u32 && c as u32 <= 90)  // A-Z
    || (48 <= c as u32 && c as u32 <= 57)  // 0-9
    || c == '_' || c == '-' || c == '.' || c == ':'
}

pub fn is_ws_c(c: char) -> (b: bool)
    ensures
        b == is_ws(c),
{
    c == ' ' || c == '\n' || c == '\t' || c == '\r'
}

pub fn is_name_char_c(c: char) -> (b: bool)
    ensures
        b == is_name_char(c),
{
    let u = c as u32;
    (97 <= u && u <= 122) || (65 <= u && u <= 90) || (48 <= u && u <= 57) || c == '_' || c == '-'
        || c == '.' || c == ':'
}

/// Position of the first non-whitespace character at or after `i`.
pub open spec fn skip_ws_from(s: Seq<char>, i: int) -> int
    decreases s.len() - i
        when 0 <= i <= s.len()
{
    if i < s.len() && is_ws(s[i]) {
        skip_ws_from(s, i + 1)
    } else {
        i
    }
}

pub proof fn lemma_skip_ws_from(s: Seq<char>, i: int)
    requires
        0 <= i <= s.len(),
    ensures
        i <= skip_ws_from(s, i) <= s.len(),
        forall|k: int| i <= k < skip_ws_from(s, i) ==> is_ws(s[k]),
        skip_ws_from(s, i) < s.len() ==> !is_ws(s[skip_ws_from(s, i)]),
    decreases s.len() - i,
{
    if i < s.len() && is_ws(s[i]) {
        lemma_skip_ws_from(s, i + 1);
    }
}

/// Position of the first `<` at or after `i`.
pub open spec fn find_lt_from(s: Seq<char>, i: int) -> int
    decreases s.len() - i
        when 0 <= i <= s.len()
{
    if i < s.len() && s[i] != '<' {
        find_lt_from(s, i + 1)
    } else {
        i
    }
}

pub proof fn lemma_find_lt_from(s: Seq<char>, i: int)
    requires
        0 <= i <= s.len(),
    ensures
        i <= find_lt_from(s, i) <= s.len(),
        find_lt_from(s, i) < s.len() ==> s[find_lt_from(s, i)] == '<',
    decreases s.len() - i,
{
    if i < s.len() && s[i] != '<' {
        lemma_find_lt_from(s, i + 1);
    }
}

/// Position of the first character at or after `i` that cannot be part of
/// an element name.
pub open spec fn name_end_from(s: Seq<char>, i: int) -> int
    decreases s.len() - i
        when 0 <= i <= s.len()
{
    if i < s.len() && is_name_char(s[i]) {
        name_end_from(s, i + 1)
    } else {
        i
    }
}

pub proof fn lemma_name_end_from(s: Seq<char>, i: int)
    requires
        0 <= i <= s.len(),
    ensures
        i <= name_end_from(s, i) <= s.len(),
    decreases s.len() - i,
{
    if i < s.len() && is_name_char(s[i]) {
        lemma_name_end_from(s, i + 1);
    }
}

/// Scans the remainder of a tag, from just after its name to just past
/// its closing `>`. Quoted attribute values may contain `>` without
/// ending the tag; `q` is the pending quote character, and `prev_slash`
/// records whether the previous character (outside quotes) was `/`, which
/// marks a self-closing tag. Returns the position after `>` and the
/// self-closing flag, or `None` when the tag never ends.
pub open spec fn tag_end_from(s: Seq<char>, i: int, q: Option<char>, prev_slash: bool) -> Option<
    (int, bool),
>
    decreases s.len() - i
        when 0 <= i <= s.len()
{
    if i >= s.len() {
        None
    } else {
        let c = s[i];
        match q {
            Some(qc) => tag_end_from(
                s,
                i + 1,
                if c == qc {
                    None
                } else {
                    Some(qc)
                },
                false,
            ),
            None => {
                if c == '>' {
                    Some((i + 1, prev_slash))
                } else if c == '"' || c == '\'' {
                    tag_end_from(s, i + 1, Some(c), false)
                } else {
                    tag_end_from(s, i + 1, None, c == '/')
                }
            },
        }
    }
}

pub proof fn lemma_tag_end_from(s: Seq<char>, i: int, q: Option<char>, prev_slash: bool)
    requires
        0 <= i <= s.len(),
    ensures
        match tag_end_from(s, i, q, prev_slash) {
            Some((j, sc)) => i < j <= s.len(),
            None => true,
        },
    decreases s.len() - i,
{
    if i < s.len() {
        let c = s[i];
        match q {
            Some(qc) => {
                lemma_tag_end_from(
                    s,
                    i + 1,
                    if c == qc {
                        None
                    } else {
                        Some(qc)
                    },
                    false,
                );
            },
            None => {
                if c == '>' {
                } else if c == '"' || c == '\'' {
                    lemma_tag_end_from(s, i + 1, Some(c), false);
                } else {
                    lemma_tag_end_from(s, i + 1, None, c == '/');
                }
            },
        }
    }
}

/// Position just after the first `?>` at or after `i`, closing a
/// processing-instruction prolog such as an XML declaration.
pub open spec fn pi_end_from(s: Seq<char>, i: int) -> Option<int>
    decreases s.len() - i
        when 0 <= i <= s.len()
{
    if i + 1 >= s.len() {
        None
    } else if s[i] == '?' && s[i + 1] == '>' {
        Some(i + 2)
    } else {
        pi_end_from(s, i + 1)
    }
}

pub proof fn lemma_pi_end_from(s: Seq<char>, i: int)
    requires
        0 <= i <= s.len(),
    ensures
        match pi_end_from(s, i) {
            Some(j) => i + 2 <= j <= s.len(),
            None => true,
        },
    decreases s.len() - i,
{
    if i + 1 >= s.len() {
    } else if s[i] == '?' && s[i + 1] == '>' {
    } else {
        lemma_pi_end_from(s, i + 1);
    }
}

pub fn e_skip_ws(cs: &Vec<char>, i: usize) -> (r: usize)
    requires
        i <= cs.len(),
    ensures
        r as int == skip_ws_from(cs@, i as int),
        i <= r <= cs.len(),
{
    let mut j: usize = i;
    while j < cs.len() && is_ws_c(cs[j])
        invariant
            i <= j <= cs.len(),
            skip_ws_from(cs@, i as int) == skip_ws_from(cs@, j as int),
        decreases cs.len() - j,
    {
        j = j + 1;
    }
    proof {
        lemma_skip_ws_from(cs@, i as int);
    }
    j
}

pub fn e_find_lt(cs: &Vec<char>, i: usize) -> (r: usize)
    requires
        i <= cs.len(),
    ensures
        r as int == find_lt_from(cs@, i as int),
        i <= r <= cs.len(),
{
    let mut j: usize = i;
    while j < cs.len() && cs[j] != '<'
        invariant
            i <= j <= cs.len(),
            find_lt_from(cs@, i as int) == find_lt_from(cs@, j as int),
        decreases cs.len() - j,
    {
        j = j + 1;
    }
    proof {
        lemma_find_lt_from(cs@, i as int);
    }
    j
}

pub fn e_name_end(cs: &Vec<char>, i: usize) -> (r: usize)
    requires
        i <= cs.len(),
    ensures
        r as int == name_end_from(cs@, i as int),
        i <= r <= cs.len(),
{
    let mut j: usize = i;
    while j < cs.len() && is_name_char_c(cs[j])
        invariant
            i <= j <= cs.len(),
            name_end_from(cs@, i as int) == name_end_from(cs@, j as int),
        decreases cs.len() - j,
    {
        j = j + 1;
    }
    proof {
        lemma_name_end_from(cs@, i as int);
    }
    j
}

pub fn e_tag_end(cs: &Vec<char>, i: usize) -> (r: Option<(usize, bool)>)
    requires
        i <= cs.len(),
    ensures
        match (r, tag_end_from(cs@, i as int, None::<char>, false)) {
            (Some((j, sc)), Some((js, scs))) => j as int == js && sc == scs && i < j <= cs.len(),
            (None, None) => true,
            _ => false,
        },
{
    let mut j: usize = i;
    let mut q: Option<char> = None;
    let mut ps: bool = false;
    while j < cs.len()
        invariant
            i <= j <= cs.len(),
            tag_end_from(cs@, i as int, None::<char>, false) == tag_end_from(cs@, j as int, q, ps),
        decreases cs.len() - j,
    {
        let c = cs[j];
        match q {
            Some(qc) => {
                if c == qc {
                    q = None;
                } else {
                    q = Some(qc);
                }
                ps = false;
            },
            None => {
                if c == '>' {
                    proof {
                        lemma_tag_end_from(cs@, i as int, None::<char>, false);
                    }
                    return Some((j + 1, ps));
                } else if c == '"' || c == '\'' {
                    q = Some(c);
                    ps = false;
                } else {
                    ps = c == '/';
                }
            },
        }
        j = j + 1;
    }
    None
}

pub fn e_pi_end(cs: &Vec<char>, i: usize) -> (r: Option<usize>)
    requires
        i <= cs.len(),
    ensures
        match (r, pi_end_from(cs@, i as int)) {
            (Some(j), Some(js)) => j as int == js && i + 2 <= j <= cs.len(),
            (None, None) => true,
            _ => false,
        },
{
    let mut j: usize = i;
    while j < cs.len() && j + 1 < cs.len()
        invariant
            i <= j <= cs.len(),
            pi_end_from(cs@, i as int) == pi_end_from(cs@, j as int),
        decreases cs.len() - j,
    {
        if cs[j] == '?' && cs[j + 1] == '>' {
            proof {
                lemma_pi_end_from(cs@, i as int);
            }
            return Some(j + 2);
        }
        j = j + 1;
    }
    None
}

/// Position of the first character at or after `i` that trimming keeps.
pub open spec fn skip_tws_from(s: Seq<char>, i: int) -> int
    decreases s.len() - i
        when 0 <= i <= s.len()
{
    if i < s.len() && is_trim_ws(s[i]) {
        skip_tws_from(s, i + 1)
    } else {
        i
    }
}

pub proof fn lemma_skip_tws_from(s: Seq<char>, i: int)
    requires
        0 <= i <= s.len(),
    ensures
        i <= skip_tws_from(s, i) <= s.len(),
        forall|k: int| i <= k < skip_tws_from(s, i) ==> is_trim_ws(s[k]),
        skip_tws_from(s, i) < s.len() ==> !is_trim_ws(s[skip_tws_from(s, i)]),
    decreases s.len() - i,
{
    if i < s.len() && is_trim_ws(s[i]) {
        lemma_skip_tws_from(s, i + 1);
    }
}

/// Position reached from `j` by stepping left over trailing whitespace.
pub open spec fn rstrip_from(s: Seq<char>, j: int) -> int
    decreases j
        when 0 <= j <= s.len()
{
    if j > 0 && is_trim_ws(s[j - 1]) {
        rstrip_from(s, j - 1)
    } else {
        j
    }
}

pub proof fn lemma_rstrip_from(s: Seq<char>, j: int)
    requires
        0 <= j <= s.len(),
    ensures
        0 <= rstrip_from(s, j) <= j,
        forall|k: int| rstrip_from(s, j) <= k < j ==> is_trim_ws(s[k]),
        rstrip_from(s, j) > 0 ==> !is_trim_ws(s[rstrip_from(s, j) - 1]),
    decreases j,
{
    if j > 0 && is_trim_ws(s[j - 1]) {
        lemma_rstrip_from(s, j - 1);
    }
}

/// The text with leading and trailing whitespace removed and the
/// interior kept verbatim.
pub open spec fn trim_spec(s: Seq<char>) -> Seq<char> {
    let a = skip_tws_from(s, 0);
    if a == s.len() {
        Seq::empty()
    } else {
        s.subrange(a, rstrip_from(s, s.len() as int))
    }
}

/// Trimming removes exactly the leading and trailing whitespace: the
/// result is the contiguous interior `s[a..b]`, everything outside it is
/// whitespace, and a nonempty result neither starts nor ends with
/// whitespace.
pub proof fn lemma_trim_spec(s: Seq<char>)
    ensures
        ({
            let a = skip_tws_from(s, 0);
            let b = if a == s.len() {
                a
            } else {
                rstrip_from(s, s.len() as int)
            };
            &&& 0 <= a <= b <= s.len()
            &&& forall|k: int| 0 <= k < a ==> is_trim_ws(s[k])
            &&& forall|k: int| b <= k < s.len() ==> is_trim_ws(s[k])
            &&& trim_spec(s) == s.subrange(a, b)
            &&& (trim_spec(s).len() > 0 ==> !is_trim_ws(trim_spec(s)[0]) && !is_trim_ws(
                trim_spec(s)[trim_spec(s).len() - 1],
            ))
        }),
{
    let a = skip_tws_from(s, 0);
    lemma_skip_tws_from(s, 0);
    if a == s.len() {
        assert(trim_spec(s) =~= s.subrange(a, a));
    } else {
        let b = rstrip_from(s, s.len() as int);
        lemma_rstrip_from(s, s.len() as int);
        if b <= a {
            assert(is_trim_ws(s[a]));
            assert(false);
        }
    }
}

pub fn trim_str(s: &str) -> (r: String)
    ensures
        r@ == trim_spec(s@),
{
    let n = s.unicode_len();
    let mut a: usize = 0;
    while a < n && is_trim_ws_c(s.get_char(a))
        invariant
            n == s@.len(),
            a <= n,
            skip_tws_from(s@, 0) == skip_tws_from(s@, a as int),
        decreases n - a,
    {
        a = a + 1;
    }
    proof {
        lemma_skip_tws_from(s@, 0);
    }
    if a == n {
        let r = String::new();
        proof {
            assert(r@ =~= trim_spec(s@));
        }
        return r;
    }
    let mut b: usize = n;
    while b > a && is_trim_ws_c(s.get_char(b - 1))
        invariant
            a < n == s@.len(),
            a < b <= n,
            !is_trim_ws(s@[a as int]),
            rstrip_from(s@, n as int) == rstrip_from(s@, b as int),
        decreases b,
    {
        b = b - 1;
    }
    proof {
        lemma_rstrip_from(s@, n as int);
    }
    let mid = s.substring_char(a, b);
    String::from_str(mid)
}

/// Position just after the first `-->` at or after `i`, closing a
/// comment whose `<!--` has already been consumed.
pub open spec fn comment_end_from(s: Seq<char>, i: int) -> Option<int>
    decreases s.len() - i
        when 0 <= i <= s.len()
{
    if i + 2 >= s.len() {
        None
    } else if s[i] == '-' && s[i + 1] == '-' && s[i + 2] == '>' {
        Some(i + 3)
    } else {
        comment_end_from(s, i + 1)
    }
}

pub proof fn lemma_comment_end_from(s: Seq<char>, i: int)
    requires
        0 <= i <= s.len(),
    ensures
        match comment_end_from(s, i) {
            Some(j) => i + 3 <= j <= s.len(),
            None => true,
        },
    decreases s.len() - i,
{
    if i + 2 >= s.len() {
    } else if s[i] == '-' && s[i + 1] == '-' && s[i + 2] == '>' {
    } else {
        lemma_comment_end_from(s, i + 1);
    }
}

/// The first `]]>` at or after `i`, closing a CDATA section whose
/// `<![CDATA[` has already been consumed: the position where the
/// literal content ends and the position after the `]]>`.
pub open spec fn cdata_end_from(s: Seq<char>, i: int) -> Option<(int, int)>
    decreases s.len() - i
        when 0 <= i <= s.len()
{
    if i + 2 >= s.len() {
        None
    } else if s[i] == ']' && s[i + 1] == ']' && s[i + 2] == '>' {
        Some((i, i + 3))
    } else {
        cdata_end_from(s, i + 1)
    }
}

pub proof fn lemma_cdata_end_from(s: Seq<char>, i: int)
    requires
        0 <= i <= s.len(),
    ensures
        match cdata_end_from(s, i) {
            Some((p, j)) => i <= p && p + 3 == j <= s.len(),
            None => true,
        },
    decreases s.len() - i,
{
    if i + 2 >= s.len() {
    } else if s[i] == ']' && s[i + 1] == ']' && s[i + 2] == '>' {
    } else {
        lemma_cdata_end_from(s, i + 1);
    }
}

/// Position just after the `>` that closes a declaration such as a
/// DOCTYPE, whose `<!` has already been consumed; a bracketed internal
/// subset may hold `>` of its own, so `[` and `]` nesting is tracked.
pub open spec fn decl_end_from(s: Seq<char>, i: int, depth: nat) -> Option<int>
    decreases s.len() - i
        when 0 <= i <= s.len()
{
    if i >= s.len() {
        None
    } else if s[i] == '[' {
        decl_end_from(s, i + 1, depth + 1)
    } else if s[i] == ']' {
        if depth > 0 {
            decl_end_from(s, i + 1, (depth - 1) as nat)
        } else {
            None
        }
    } else if s[i] == '>' && depth == 0 {
        Some(i + 1)
    } else {
        decl_end_from(s, i + 1, depth)
    }
}

pub proof fn lemma_decl_end_from(s: Seq<char>, i: int, depth: nat)
    requires
        0 <= i <= s.len(),
    ensures
        match decl_end_from(s, i, depth) {
            Some(j) => i < j <= s.len(),
            None => true,
        },
    decreases s.len() - i,
{
    if i >= s.len() {
    } else if s[i] == '[' {
        lemma_decl_end_from(s, i + 1, depth + 1);
    } else if s[i] == ']' {
        if depth > 0 {
            lemma_decl_end_from(s, i + 1, (depth - 1) as nat);
        }
    } else if s[i] == '>' && depth == 0 {
    } else {
        lemma_decl_end_from(s, i + 1, depth);
    }
}

pub fn e_comment_end(cs: &Vec<char>, i: usize) -> (r: Option<usize>)
    requires
        i <= cs.len(),
    ensures
        match (r, comment_end_from(cs@, i as int)) {
            (Some(j), Some(js)) => j as int == js && i + 3 <= j <= cs.len(),
            (None, None) => true,
            _ => false,
        },
{
    let mut j: usize = i;
    while cs.len() >= 3 && j < cs.len() - 2
        invariant
            i <= j <= cs.len(),
            comment_end_from(cs@, i as int) == comment_end_from(cs@, j as int),
        decreases cs.len() - j,
    {
        if cs[j] == '-' && cs[j + 1] == '-' && cs[j + 2] == '>' {
            proof {
                lemma_comment_end_from(cs@, i as int);
            }
            return Some(j + 3);
        }
        j = j + 1;
    }
    None
}

pub fn e_cdata_end(cs: &Vec<char>, i: usize) -> (r: Option<(usize, usize)>)
    requires
        i <= cs.len(),
    ensures
        match (r, cdata_end_from(cs@, i as int)) {
            (Some((p, j)), Some((ps, js))) => p as int == ps && j as int == js && i <= p && p + 3
                == j <= cs.len(),
            (None, None) => true,
            _ => false,
        },
{
    let mut j: usize = i;
    while cs.len() >= 3 && j < cs.len() - 2
        invariant
            i <= j <= cs.len(),
            cdata_end_from(cs@, i as int) == cdata_end_from(cs@, j as int),
        decreases cs.len() - j,
    {
        if cs[j] == ']' && cs[j + 1] == ']' && cs[j + 2] == '>' {
            proof {
                lemma_cdata_end_from(cs@, i as int);
            }
            return Some((j, j + 3));
        }
        j = j + 1;
    }
    None
}

pub fn e_decl_end(cs: &Vec<char>, i: usize) -> (r: Option<usize>)
    requires
        i <= cs.len(),
    ensures
        match (r, decl_end_from(cs@, i as int, 0)) {
            (Some(j), Some(js)) => j as int == js && i < j <= cs.len(),
            (None, None) => true,
            _ => false,
        },
{
    let mut j: usize = i;
    let mut depth: usize = 0;
    while j < cs.len()
        invariant
            i <= j <= cs.len(),
            depth <= j,
            decl_end_from(cs@, i as int, 0) == decl_end_from(cs@, j as int, depth as nat),
        decreases cs.len() - j,
    {
        let c = cs[j];
        if c == '[' {
            depth = depth + 1;
        } else if c == ']' {
            if depth > 0 {
                depth = depth - 1;
            } else {
                return None;
            }
        } else if c == '>' && depth == 0 {
            proof {
                lemma_decl_end_from(cs@, i as int, 0);
            }
            return Some(j + 1);
        }
        j = j + 1;
    }
    None
}

/// Relies on `String::from_iter` (via `Iterator::collect` on a char
/// slice): the returned string holds exactly the characters of
/// `cs[from..to]`, in order.
#[verifier::external_body]
pub fn chars_to_string(cs: &Vec<char>, from: usize, to: usize) -> (r: String)
    requires
        from <= to <= cs.len(),
    ensures
        r@ == cs@.subrange(from as int, to as int),
{
    cs[from..to].iter().collect()
}

pub fn str_to_chars(s: &str) -> (r: Vec<char>)
    ensures
        r@ == s@,
{
    let n = s.unicode_len();
    let mut r: Vec<char> = Vec::new();
    let mut i: usize = 0;
    while i < n
        invariant
            n == s@.len(),
            i <= n,
            r@ == s@.subrange(0, i as int),
        decreases n - i,
    {
        r.push(s.get_char(i));
        proof {
            assert(r@ =~= s@.subrange(0, i + 1));
        }
        i = i + 1;
    }
    proof {
        assert(s@.subrange(0, n as int) =~= s@);
    }
    r
}

/// True exactly when `cs[f1..t1]` and `cs[f2..t2]` hold the same characters.
pub fn eq_range_range(cs: &Vec<char>, f1: usize, t1: usize, f2: usize, t2: usize) -> (b: bool)
    requires
        f1 <= t1 <= cs.len(),
        f2 <= t2 <= cs.len(),
    ensures
        b == (cs@.subrange(f1 as int, t1 as int) == cs@.subrange(f2 as int, t2 as int)),
{
    if t1 - f1 != t2 - f2 {
        proof {
            assert(cs@.subrange(f1 as int, t1 as int).len() != cs@.subrange(
                f2 as int,
                t2 as int,
            ).len());
        }
        return false;
    }
    let n = t1 - f1;
    let mut k: usize = 0;
    while k < n
        invariant
            f1 + n == t1 <= cs.len(),
            f2 + n == t2 <= cs.len(),
            k <= n,
            forall|m: int| 0 <= m < k ==> cs@[f1 + m] == #[trigger] cs@[f2 + m],
        decreases n - k,
    {
        if cs[f1 + k] != cs[f2 + k] {
            proof {
                assert(cs@.subrange(f1 as int, t1 as int)[k as int] != cs@.subrange(
                    f2 as int,
                    t2 as int,
                )[k as int]);
            }
            return false;
        }
        k = k + 1;
    }
    proof {
        assert forall|m: int| 0 <= m < n implies cs@.subrange(f1 as int, t1 as int)[m]
            == cs@.subrange(f2 as int, t2 as int)[m] by {
            assert(cs@[f1 + m] == cs@[f2 + m]);
        }
        assert(cs@.subrange(f1 as int, t1 as int) =~= cs@.subrange(f2 as int, t2 as int));
    }
    true
}

/// True exactly when `cs[from..to]` holds the characters of `lit`.
pub fn eq_range_lit(cs: &Vec<char>, from: usize, to: usize, lit: &str) -> (b: bool)
    requires
        from <= to <= cs.len(),
    ensures
        b == (cs@.subrange(from as int, to as int) == lit@),
{
    let n = lit.unicode_len();
    if to - from != n {
        proof {
            assert(cs@.subrange(from as int, to as int).len() != lit@.len());
        }
        return false;
    }
    let mut k: usize = 0;
    while k < n
        invariant
            n == lit@.len(),
            from + n == to <= cs.len(),
            k <= n,
            forall|m: int| 0 <= m < k ==> cs@[from + m] == lit@[m],
        decreases n - k,
    {
        if cs[from + k] != lit.get_char(k) {
            proof {
                assert(cs@.subrange(from as int, to as int)[k as int] != lit@[k as int]);
            }
            return false;
        }
        k = k + 1;
    }
    proof {
        assert(cs@.subrange(from as int, to as int) =~= lit@);
    }
    true
}

} // verus!
