//! Turning stored rich text into plain text: tags are removed, a fixed set of
//! entities is decoded, whitespace is collapsed and the ends are trimmed.

use vstd::prelude::*;
use crate::chars::{from_chars, is_space, is_whitespace, push_all, replace_all, replaced, to_chars};

verus! {

/// Whether position `i` of `s` lies inside a tag: some `<` before it has not been
/// closed by a `>` yet. Tags do not nest, and one that is never closed runs to the
/// end of the text.
pub open spec fn inside_tag(s: Seq<char>, i: int) -> bool {
    exists|j: int| 0 <= j < i && s[j] == '<' && forall|k: int| j < k < i ==> s[k] != '>'
}

/// Whether the character at position `i` survives tag removal: it is no angle
/// bracket and stands outside every tag.
pub open spec fn outside_tags(s: Seq<char>, i: int) -> bool {
    s[i] != '<' && s[i] != '>' && !inside_tag(s, i)
}

/// The characters among the first `n` of `s` that survive tag removal.
pub open spec fn strip_tags_upto(s: Seq<char>, n: int) -> Seq<char>
    decreases n,
{
    if n <= 0 {
        Seq::empty()
    } else if outside_tags(s, n - 1) {
        strip_tags_upto(s, n - 1).push(s[n - 1])
    } else {
        strip_tags_upto(s, n - 1)
    }
}

/// `s` without its tags.
pub open spec fn strip_tags(s: Seq<char>) -> Seq<char> {
    strip_tags_upto(s, s.len() as int)
}

/// How being inside a tag moves on by one character.
pub proof fn lemma_inside_tag_step(s: Seq<char>, i: int)
    requires
        0 <= i < s.len(),
    ensures
        inside_tag(s, i + 1) == (s[i] == '<' || (s[i] != '>' && inside_tag(s, i))),
{
    if s[i] == '<' {
        assert(0 <= i < i + 1 && s[i] == '<' && forall|k: int| i < k < i + 1 ==> s[k] != '>');
    } else if s[i] != '>' && inside_tag(s, i) {
        let j = choose|j: int| 0 <= j < i && s[j] == '<' && forall|k: int| j < k < i ==> s[k] != '>';
        assert(0 <= j < i + 1 && s[j] == '<' && forall|k: int| j < k < i + 1 ==> s[k] != '>');
    }
    if inside_tag(s, i + 1) {
        let j = choose|j: int|
            0 <= j < i + 1 && s[j] == '<' && forall|k: int| j < k < i + 1 ==> s[k] != '>';
        if j < i {
            assert(0 <= j < i && s[j] == '<' && forall|k: int| j < k < i ==> s[k] != '>');
        }
    }
}

/// Removes every tag: all characters from a `<` up to the next `>`, both included.
pub fn remove_tags(text: &Vec<char>) -> (out: Vec<char>)
    ensures
        out@ == strip_tags(text@),
{
    let mut out: Vec<char> = Vec::new();
    let mut in_tag = false;
    let mut i: usize = 0;
    while i < text.len()
        invariant
            i <= text.len(),
            in_tag == inside_tag(text@, i as int),
            out@ == strip_tags_upto(text@, i as int),
        decreases text.len() - i,
    {
        let c = text[i];
        proof {
            lemma_inside_tag_step(text@, i as int);
        }
        if c == '<' {
            in_tag = true;
        } else if c == '>' {
            in_tag = false;
        } else if !in_tag {
            out.push(c);
        }
        i += 1;
    }
    out
}

/// `s` with `&nbsp;` decoded, and then `&amp;`. After this step the text holds a
/// `&nbsp;` or an `&amp;` only where an `&amp;` stood before it: `&amp;nbsp;`
/// has become `&nbsp;`, `&amp;amp;` has become `&amp;`.
pub open spec fn decode_ampersands(s: Seq<char>) -> Seq<char> {
    replaced(replaced(s, "&nbsp;"@, " "@), "&amp;"@, "&"@)
}

/// `s` with the known entities decoded, one kind after the other over the whole
/// text: first `&nbsp;`, then `&amp;`, `&lt;`, `&gt;`, `&quot;`, `&#39;` and
/// `&apos;`. An `&` that comes out of `&amp;` can so complete a later entity
/// (`&amp;lt;` gives `<`), but never an earlier one (`&amp;nbsp;` gives `&nbsp;`).
pub open spec fn decode_entities(s: Seq<char>) -> Seq<char> {
    let s = decode_ampersands(s);
    let s = replaced(s, "&lt;"@, "<"@);
    let s = replaced(s, "&gt;"@, ">"@);
    let s = replaced(s, "&quot;"@, "\""@);
    let s = replaced(s, "&#39;"@, "'"@);
    replaced(s, "&apos;"@, "'"@)
}

/// Decodes the known entities.
pub fn decode(text: &Vec<char>) -> (out: Vec<char>)
    ensures
        out@ == decode_entities(text@),
{
    let out = replace_all(text, &to_chars("&nbsp;"), &to_chars(" "));
    let out = replace_all(&out, &to_chars("&amp;"), &to_chars("&"));
    let out = replace_all(&out, &to_chars("&lt;"), &to_chars("<"));
    let out = replace_all(&out, &to_chars("&gt;"), &to_chars(">"));
    let out = replace_all(&out, &to_chars("&quot;"), &to_chars("\""));
    let out = replace_all(&out, &to_chars("&#39;"), &to_chars("'"));
    replace_all(&out, &to_chars("&apos;"), &to_chars("'"))
}

/// Whether `c` is whitespace that runs are made of: any whitespace but a line
/// feed, which always stays as it is, so that paragraph breaks stay visible.
pub open spec fn collapsible(c: char) -> bool {
    is_whitespace(c) && c != '\n'
}

/// The first `n` characters of `s` with every run of collapsible whitespace
/// replaced by one space.
pub open spec fn collapse_upto(s: Seq<char>, n: int) -> Seq<char>
    decreases n,
{
    if n <= 0 {
        Seq::empty()
    } else if !collapsible(s[n - 1]) {
        collapse_upto(s, n - 1).push(s[n - 1])
    } else if n >= 2 && collapsible(s[n - 2]) {
        collapse_upto(s, n - 1)
    } else {
        collapse_upto(s, n - 1).push(' ')
    }
}

/// `s` with every run of collapsible whitespace replaced by one space.
pub open spec fn collapse_whitespace(s: Seq<char>) -> Seq<char> {
    collapse_upto(s, s.len() as int)
}

/// Replaces every run of collapsible whitespace by one space.
pub fn collapse(text: &Vec<char>) -> (out: Vec<char>)
    ensures
        out@ == collapse_whitespace(text@),
{
    let mut out: Vec<char> = Vec::new();
    let mut in_run = false;
    let mut i: usize = 0;
    while i < text.len()
        invariant
            i <= text.len(),
            in_run == (i > 0 && collapsible(text@[i - 1])),
            out@ == collapse_upto(text@, i as int),
        decreases text.len() - i,
    {
        let c = text[i];
        if is_space(c) && c != '\n' {
            if !in_run {
                out.push(' ');
            }
            in_run = true;
        } else {
            out.push(c);
            in_run = false;
        }
        i += 1;
    }
    out
}

/// `s` without the whitespace at its start.
pub open spec fn trim_start(s: Seq<char>) -> Seq<char>
    decreases s.len(),
{
    if s.len() > 0 && is_whitespace(s[0]) {
        trim_start(s.skip(1))
    } else {
        s
    }
}

/// `s` without the whitespace at its end.
pub open spec fn trim_end(s: Seq<char>) -> Seq<char>
    decreases s.len(),
{
    if s.len() > 0 && is_whitespace(s.last()) {
        trim_end(s.drop_last())
    } else {
        s
    }
}

/// `s` without the whitespace at either end.
pub open spec fn trimmed(s: Seq<char>) -> Seq<char> {
    trim_end(trim_start(s))
}

/// Where the leading whitespace ends, `trim_start` cuts.
pub proof fn lemma_trim_start_at(s: Seq<char>, a: int)
    requires
        0 <= a <= s.len(),
        forall|i: int| 0 <= i < a ==> is_whitespace(s[i]),
        a < s.len() ==> !is_whitespace(s[a]),
    ensures
        trim_start(s) == s.skip(a),
    decreases a,
{
    if a == 0 {
        assert(s.skip(0) == s);
    } else {
        let t = s.skip(1);
        assert forall|i: int| 0 <= i < a - 1 implies is_whitespace(t[i]) by {
            assert(t[i] == s[i + 1]);
        }
        lemma_trim_start_at(t, a - 1);
        assert(t.skip(a - 1) == s.skip(a));
    }
}

/// Where the trailing whitespace begins, `trim_end` cuts.
pub proof fn lemma_trim_end_at(s: Seq<char>, b: int)
    requires
        0 <= b <= s.len(),
        forall|i: int| b <= i < s.len() ==> is_whitespace(s[i]),
        b > 0 ==> !is_whitespace(s[b - 1]),
    ensures
        trim_end(s) == s.take(b),
    decreases s.len() - b,
{
    if b == s.len() {
        assert(s.take(b) == s);
    } else {
        let t = s.drop_last();
        lemma_trim_end_at(t, b);
        assert(t.take(b) == s.take(b));
    }
}

/// Removes the whitespace at either end.
pub fn trim(text: &Vec<char>) -> (out: Vec<char>)
    ensures
        out@ == trimmed(text@),
{
    let mut a: usize = 0;
    while a < text.len() && is_space(text[a])
        invariant
            a <= text.len(),
            forall|i: int| 0 <= i < a ==> is_whitespace(text@[i]),
        decreases text.len() - a,
    {
        a += 1;
    }
    let mut b: usize = text.len();
    while b > a && is_space(text[b - 1])
        invariant
            a <= b <= text.len(),
            forall|i: int| b <= i < text.len() ==> is_whitespace(text@[i]),
        decreases b,
    {
        b -= 1;
    }
    let mut out: Vec<char> = Vec::new();
    let mut i: usize = a;
    while i < b
        invariant
            a <= i <= b <= text.len(),
            out@ == text@.subrange(a as int, i as int),
        decreases b - i,
    {
        out.push(text[i]);
        proof {
            assert(text@.subrange(a as int, i + 1) == text@.subrange(a as int, i as int).push(
                text@[i as int],
            ));
        }
        i += 1;
    }
    proof {
        let s = text@;
        let t = s.skip(a as int);
        lemma_trim_start_at(s, a as int);
        assert forall|i: int| b - a <= i < t.len() implies is_whitespace(t[i]) by {
            assert(t[i] == s[i + a]);
        }
        if b > a {
            assert(t[b - a - 1] == s[b - 1]);
        }
        lemma_trim_end_at(t, b - a);
        assert(t.take(b - a) == s.subrange(a as int, b as int));
    }
    out
}

/// The plain text of `markup`: tags removed, entities decoded, whitespace runs
/// collapsed, both ends trimmed, in this order.
pub open spec fn normalized(markup: Seq<char>) -> Seq<char> {
    trimmed(collapse_whitespace(decode_entities(strip_tags(markup))))
}

/// The plain text of stored markup, for display. Line feeds are kept as they are,
/// so paragraph breaks stay visible; every other run of whitespace becomes one
/// space. Malformed markup is no error: a tag that is never closed swallows the rest.
pub fn strip_html(html: &str) -> (plain: String)
    ensures
        plain@ == normalized(html@),
{
    let text = to_chars(html);
    let text = remove_tags(&text);
    let text = decode(&text);
    let text = collapse(&text);
    let text = trim(&text);
    from_chars(&text)
}

/// `s` cut to at most `max_len` characters: unchanged if it is that short, else
/// its first `max_len - 3` characters (none if `max_len < 3`) and `...`.
pub open spec fn truncated(s: Seq<char>, max_len: nat) -> Seq<char> {
    if s.len() <= max_len {
        s
    } else if max_len < 3 {
        "..."@
    } else {
        s.take(max_len - 3) + "..."@
    }
}

/// Cuts `s` to `max_len` characters, marking the cut with `...`. Lengths count
/// characters, not bytes.
pub fn truncate(s: &str, max_len: usize) -> (out: String)
    ensures
        out@ == truncated(s@, max_len as nat),
{
    let text = to_chars(s);
    if text.len() <= max_len {
        return from_chars(&text);
    }
    let keep: usize = if max_len < 3 { 0 } else { max_len - 3 };
    let mut out: Vec<char> = Vec::new();
    let mut i: usize = 0;
    while i < keep
        invariant
            i <= keep <= text.len(),
            out@ == text@.take(i as int),
        decreases keep - i,
    {
        out.push(text[i]);
        proof {
            assert(text@.take(i + 1) == text@.take(i as int).push(text@[i as int]));
        }
        i += 1;
    }
    push_all(&mut out, &to_chars("..."));
    proof {
        assert(text@.take(0) + "..."@ == "..."@);
    }
    from_chars(&out)
}

} // verus!
