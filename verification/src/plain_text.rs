//! What holds of the plain text that `normalize` gives: which characters and
//! which entities can still stand in it.

use vstd::prelude::*;
use crate::chars::{has_substring, is_whitespace, occurs_at, replaced};
use crate::normalize::{
    collapse_upto, collapse_whitespace, collapsible, decode_ampersands, decode_entities,
    normalized, outside_tags, strip_tags, strip_tags_upto, trim_end, trim_start, trimmed,
};

verus! {

/// What stands in a text behind its first character stands in the text, one
/// place further on.
proof fn lemma_occurs_in_tail(s: Seq<char>, j: int, p: int, q: Seq<char>)
    requires
        0 <= j <= s.len(),
        occurs_at(s.skip(j), p, q),
    ensures
        occurs_at(s, p + j, q),
{
    assert(s.subrange(p + j, p + j + q.len()) =~= s.skip(j).subrange(p, p + q.len()));
}

/// Where a replacement puts in one character, a start of the result without that
/// character is a start of the text as it was.
proof fn lemma_clean_prefix(t: Seq<char>, from: Seq<char>, c: char, w: Seq<char>)
    requires
        from.len() > 0,
        occurs_at(replaced(t, from, seq![c]), 0, w),
        !w.contains(c),
    ensures
        occurs_at(t, 0, w),
    decreases w.len(),
{
    let r = replaced(t, from, seq![c]);
    if w.len() == 0 {
        assert(t.subrange(0, 0) =~= w);
    } else {
        assert(r.subrange(0, w.len() as int)[0] == r[0]);
        assert(t.len() > 0);
        if occurs_at(t, 0, from) {
            assert(r[0] == c);
            assert(w[0] == c);
            assert(w.contains(c));
        } else {
            let rest = replaced(t.skip(1), from, seq![c]);
            let tail = w.skip(1);
            assert(r == seq![t[0]] + rest);
            assert(rest.subrange(0, tail.len() as int) =~= tail) by {
                assert forall|i: int| 0 <= i < tail.len() implies rest[i] == tail[i] by {
                    assert(r.subrange(0, w.len() as int)[i + 1] == r[i + 1]);
                }
            }
            assert(!tail.contains(c)) by {
                if tail.contains(c) {
                    let i = choose|i: int| 0 <= i < tail.len() && tail[i] == c;
                    assert(w[i + 1] == c);
                }
            }
            lemma_clean_prefix(t.skip(1), from, c, tail);
            assert(t.subrange(0, w.len() as int) =~= w) by {
                assert forall|i: int| 0 <= i < w.len() implies t[i] == w[i] by {
                    if i == 0 {
                        assert(w[0] == r[0]);
                    } else {
                        assert(t.skip(1).subrange(0, tail.len() as int)[i - 1] == tail[i - 1]);
                    }
                }
            }
        }
    }
}

/// The result of a replacement is one character followed by the result for the
/// rest of the text; what stands in it behind that character stands in the
/// result for the rest.
proof fn lemma_replaced_step(s: Seq<char>, from: Seq<char>, c: char, k: int, q: Seq<char>) -> (j:
    int)
    requires
        from.len() > 0,
        s.len() > 0,
        k > 0,
        occurs_at(replaced(s, from, seq![c]), k, q),
    ensures
        1 <= j <= s.len(),
        occurs_at(replaced(s.skip(j), from, seq![c]), k - 1, q),
{
    let r = replaced(s, from, seq![c]);
    let j: int = if occurs_at(s, 0, from) {
        from.len() as int
    } else {
        1
    };
    let rest = replaced(s.skip(j), from, seq![c]);
    assert(r.len() == rest.len() + 1);
    assert(rest.subrange(k - 1, k - 1 + q.len()) =~= r.subrange(k, k + q.len()));
    j
}

/// After a pattern has been replaced by a character that is not in it, the
/// pattern stands nowhere in the result.
proof fn lemma_pattern_gone_at(s: Seq<char>, from: Seq<char>, c: char, k: int)
    requires
        from.len() > 0,
        !from.contains(c),
    ensures
        !occurs_at(replaced(s, from, seq![c]), k, from),
    decreases s.len(),
{
    let r = replaced(s, from, seq![c]);
    if occurs_at(r, k, from) {
        assert(s.len() > 0);
        if k == 0 {
            lemma_clean_prefix(s, from, c, from);
            assert(r[0] == c);
            assert(r.subrange(0, from.len() as int)[0] == r[0]);
            assert(from[0] == c);
            assert(from.contains(c));
        } else {
            let j = lemma_replaced_step(s, from, c, k, from);
            lemma_pattern_gone_at(s.skip(j), from, c, k - 1);
        }
    }
}

/// After a pattern has been replaced by a character that is not in it, the
/// pattern stands nowhere in the result.
pub proof fn lemma_pattern_gone(s: Seq<char>, from: Seq<char>, c: char)
    requires
        from.len() > 0,
        !from.contains(c),
    ensures
        !has_substring(replaced(s, from, seq![c]), from),
{
    assert forall|k: int| !occurs_at(replaced(s, from, seq![c]), k, from) by {
        lemma_pattern_gone_at(s, from, c, k);
    }
}

/// A replacement by one character brings in no text without that character.
proof fn lemma_nothing_new_at(s: Seq<char>, from: Seq<char>, c: char, q: Seq<char>, k: int)
    requires
        from.len() > 0,
        !q.contains(c),
        !has_substring(s, q),
    ensures
        !occurs_at(replaced(s, from, seq![c]), k, q),
    decreases s.len(),
{
    let r = replaced(s, from, seq![c]);
    if occurs_at(r, k, q) {
        if s.len() == 0 {
            assert(occurs_at(s, k, q));
        } else if k == 0 {
            lemma_clean_prefix(s, from, c, q);
        } else {
            let j = lemma_replaced_step(s, from, c, k, q);
            assert forall|p: int| !occurs_at(s.skip(j), p, q) by {
                if occurs_at(s.skip(j), p, q) {
                    lemma_occurs_in_tail(s, j, p, q);
                }
            }
            lemma_nothing_new_at(s.skip(j), from, c, q, k - 1);
        }
    }
}

/// A replacement by one character brings in no text without that character: what
/// did not stand in the text before does not stand in it afterwards.
pub proof fn lemma_nothing_new(s: Seq<char>, from: Seq<char>, c: char, q: Seq<char>)
    requires
        from.len() > 0,
        !q.contains(c),
        !has_substring(s, q),
    ensures
        !has_substring(replaced(s, from, seq![c]), q),
{
    assert forall|k: int| !occurs_at(replaced(s, from, seq![c]), k, q) by {
        lemma_nothing_new_at(s, from, c, q, k);
    }
}

/// Where the pattern does not stand in the text, replacing it changes nothing.
pub proof fn lemma_replaced_unchanged(s: Seq<char>, from: Seq<char>, to: Seq<char>)
    requires
        !has_substring(s, from),
    ensures
        replaced(s, from, to) == s,
    decreases s.len(),
{
    if from.len() > 0 && s.len() > 0 {
        assert(!occurs_at(s, 0, from));
        assert forall|p: int| !occurs_at(s.skip(1), p, from) by {
            if occurs_at(s.skip(1), p, from) {
                lemma_occurs_in_tail(s, 1, p, from);
            }
        }
        lemma_replaced_unchanged(s.skip(1), from, to);
        assert(seq![s[0]] + s.skip(1) =~= s);
    }
}

/// Whether no character of `q` is whitespace.
pub open spec fn has_no_whitespace(q: Seq<char>) -> bool {
    forall|i: int| 0 <= i < q.len() ==> !is_whitespace(#[trigger] q[i])
}

/// Behind a collapsible character the collapsed text ends with a space.
proof fn lemma_collapse_run_end(s: Seq<char>, n: int)
    requires
        1 <= n <= s.len(),
        collapsible(s[n - 1]),
    ensures
        collapse_upto(s, n).len() > 0,
        collapse_upto(s, n).last() == ' ',
    decreases n,
{
    if n >= 2 && collapsible(s[n - 2]) {
        lemma_collapse_run_end(s, n - 1);
    }
}

/// Collapsing makes the text no longer, and one character more of the text makes
/// the collapsed text at most one character longer.
proof fn lemma_collapse_len(s: Seq<char>, n: int)
    requires
        0 <= n <= s.len(),
    ensures
        collapse_upto(s, n).len() <= n,
    decreases n,
{
    if n > 0 {
        lemma_collapse_len(s, n - 1);
    }
}

/// A text without whitespace at the end of the collapsed text stands at the end
/// of the text as it was.
proof fn lemma_collapse_suffix(s: Seq<char>, n: int, q: Seq<char>)
    requires
        0 <= n <= s.len(),
        has_no_whitespace(q),
        occurs_at(
            collapse_upto(s, n),
            collapse_upto(s, n).len() - q.len(),
            q,
        ),
    ensures
        occurs_at(s, n - q.len(), q),
    decreases q.len(),
{
    let out = collapse_upto(s, n);
    lemma_collapse_len(s, n);
    if q.len() == 0 {
        assert(s.subrange(n, n) =~= q);
    } else {
        assert(n >= 1);
        assert(out.subrange(out.len() - q.len(), out.len() as int)[q.len() - 1] == out.last());
        assert(q.last() == out.last());
        assert(!is_whitespace(q[q.len() - 1]));
        if collapsible(s[n - 1]) {
            lemma_collapse_run_end(s, n);
            assert(is_whitespace(' '));
        } else {
            let before = collapse_upto(s, n - 1);
            let init = q.drop_last();
            assert(out == before.push(s[n - 1]));
            assert(before.subrange(before.len() - init.len(), before.len() as int) =~= init) by {
                assert forall|i: int| 0 <= i < init.len() implies before[before.len() - init.len()
                    + i] == init[i] by {
                    assert(out.subrange(out.len() - q.len(), out.len() as int)[i] == q[i]);
                }
            }
            lemma_collapse_suffix(s, n - 1, init);
            assert(s.subrange(n - q.len(), n) =~= q) by {
                assert forall|i: int| 0 <= i < q.len() implies s[n - q.len() + i] == q[i] by {
                    if i < q.len() - 1 {
                        assert(s.subrange(n - 1 - init.len(), n - 1)[i] == init[i]);
                    }
                }
            }
        }
    }
}

/// Collapsing whitespace brings in no text without whitespace.
proof fn lemma_collapse_nothing_new_at(
    s: Seq<char>,
    n: int,
    q: Seq<char>,
    k: int,
)
    requires
        0 <= n <= s.len(),
        q.len() > 0,
        has_no_whitespace(q),
        !has_substring(s, q),
    ensures
        !occurs_at(collapse_upto(s, n), k, q),
    decreases n,
{
    let out = collapse_upto(s, n);
    if occurs_at(out, k, q) {
        assert(n > 0);
        let before = collapse_upto(s, n - 1);
        if k + q.len() <= before.len() {
            assert(before.subrange(k, k + q.len()) =~= out.subrange(k, k + q.len()));
            lemma_collapse_nothing_new_at(s, n - 1, q, k);
        } else {
            assert(k + q.len() == out.len());
            lemma_collapse_suffix(s, n, q);
        }
    }
}

/// Collapsing whitespace brings in no text without whitespace: what did not
/// stand in the text before does not stand in it afterwards.
pub proof fn lemma_collapse_nothing_new(s: Seq<char>, q: Seq<char>)
    requires
        q.len() > 0,
        has_no_whitespace(q),
        !has_substring(s, q),
    ensures
        !has_substring(collapse_whitespace(s), q),
{
    assert forall|k: int| !occurs_at(collapse_whitespace(s), k, q) by {
        lemma_collapse_nothing_new_at(s, s.len() as int, q, k);
    }
}

/// Trimming brings in nothing.
pub proof fn lemma_trim_nothing_new(s: Seq<char>, q: Seq<char>)
    requires
        !has_substring(s, q),
    ensures
        !has_substring(trim_start(s), q),
        !has_substring(trim_end(s), q),
    decreases s.len(),
{
    if s.len() > 0 && is_whitespace(s[0]) {
        assert forall|p: int| !occurs_at(s.skip(1), p, q) by {
            if occurs_at(s.skip(1), p, q) {
                lemma_occurs_in_tail(s, 1, p, q);
            }
        }
        lemma_trim_nothing_new(s.skip(1), q);
    }
    if s.len() > 0 && is_whitespace(s.last()) {
        assert forall|p: int| !occurs_at(s.drop_last(), p, q) by {
            if occurs_at(s.drop_last(), p, q) {
                assert(s.subrange(p, p + q.len()) =~= s.drop_last().subrange(p, p + q.len()));
                assert(occurs_at(s, p, q));
            }
        }
        lemma_trim_nothing_new(s.drop_last(), q);
    }
}

/// A text holds a character exactly if it holds the text of that one character.
pub proof fn lemma_char_as_text(s: Seq<char>, c: char)
    ensures
        s.contains(c) <==> has_substring(s, seq![c]),
{
    if s.contains(c) {
        let i = choose|i: int| 0 <= i < s.len() && s[i] == c;
        assert(s.subrange(i, i + 1) =~= seq![c]);
        assert(occurs_at(s, i, seq![c]));
    }
    if has_substring(s, seq![c]) {
        let p = choose|p: int| occurs_at(s, p, seq![c]);
        assert(s.subrange(p, p + 1)[0] == s[p]);
    }
}

/// Without its tags a text holds no angle bracket.
pub proof fn lemma_strip_tags_no_brackets(s: Seq<char>, n: int)
    requires
        0 <= n <= s.len(),
    ensures
        !strip_tags_upto(s, n).contains('<'),
        !strip_tags_upto(s, n).contains('>'),
    decreases n,
{
    if n > 0 {
        lemma_strip_tags_no_brackets(s, n - 1);
        let before = strip_tags_upto(s, n - 1);
        if outside_tags(s, n - 1) {
            let out = before.push(s[n - 1]);
            assert forall|i: int| 0 <= i < out.len() implies out[i] != '<' && out[i] != '>' by {
                if i < before.len() {
                    assert(before.contains(before[i]));
                }
            }
        }
    }
}

/// The steps of `normalize` behind the decoding of `&nbsp;` and `&amp;` bring in
/// no text that is free of whitespace and of the characters `<`, `>`, `"` and
/// `'`, which are all that these steps put in.
proof fn lemma_later_steps_nothing_new(text: Seq<char>, q: Seq<char>)
    requires
        q.len() > 0,
        has_no_whitespace(q),
        !q.contains('<'),
        !q.contains('>'),
        !q.contains('"'),
        !q.contains('\''),
        !has_substring(decode_ampersands(text), q),
    ensures
        !has_substring(
            trimmed(collapse_whitespace(decode_entities(text))),
            q,
        ),
{
    reveal_strlit("&lt;");
    reveal_strlit("&gt;");
    reveal_strlit("&quot;");
    reveal_strlit("&#39;");
    reveal_strlit("&apos;");
    reveal_strlit("<");
    reveal_strlit(">");
    reveal_strlit("\"");
    reveal_strlit("'");
    assert("<"@ =~= seq!['<']);
    assert(">"@ =~= seq!['>']);
    assert("\""@ =~= seq!['"']);
    assert("'"@ =~= seq!['\'']);
    let s2 = decode_ampersands(text);
    let s3 = replaced(s2, "&lt;"@, "<"@);
    lemma_nothing_new(s2, "&lt;"@, '<', q);
    let s4 = replaced(s3, "&gt;"@, ">"@);
    lemma_nothing_new(s3, "&gt;"@, '>', q);
    let s5 = replaced(s4, "&quot;"@, "\""@);
    lemma_nothing_new(s4, "&quot;"@, '"', q);
    let s6 = replaced(s5, "&#39;"@, "'"@);
    lemma_nothing_new(s5, "&#39;"@, '\'', q);
    let s7 = replaced(s6, "&apos;"@, "'"@);
    lemma_nothing_new(s6, "&apos;"@, '\'', q);
    assert(s7 == decode_entities(text));
    lemma_collapse_nothing_new(s7, q);
    let c = collapse_whitespace(s7);
    lemma_trim_nothing_new(c, q);
    lemma_trim_nothing_new(trim_start(c), q);
}

/// Whatever the markup, its plain text holds none of the entities `&lt;`, `&gt;`,
/// `&quot;`, `&#39;` and `&apos;`: each has been decoded, and nothing that is
/// decoded after it can make it anew.
pub proof fn lemma_no_entity_left(markup: Seq<char>)
    ensures
        !has_substring(normalized(markup), "&lt;"@),
        !has_substring(normalized(markup), "&gt;"@),
        !has_substring(normalized(markup), "&quot;"@),
        !has_substring(normalized(markup), "&#39;"@),
        !has_substring(normalized(markup), "&apos;"@),
{
    reveal_strlit("&lt;");
    reveal_strlit("&gt;");
    reveal_strlit("&quot;");
    reveal_strlit("&#39;");
    reveal_strlit("&apos;");
    reveal_strlit("<");
    reveal_strlit(">");
    reveal_strlit("\"");
    reveal_strlit("'");
    assert("<"@ =~= seq!['<']);
    assert(">"@ =~= seq!['>']);
    assert("\""@ =~= seq!['"']);
    assert("'"@ =~= seq!['\'']);
    let lt = "&lt;"@;
    let gt = "&gt;"@;
    let quot = "&quot;"@;
    let num = "&#39;"@;
    let apos = "&apos;"@;
    assert(has_no_whitespace(lt) && has_no_whitespace(gt) && has_no_whitespace(quot)
        && has_no_whitespace(num) && has_no_whitespace(apos));
    let s2 = decode_ampersands(strip_tags(markup));
    let s3 = replaced(s2, lt, "<"@);
    let s4 = replaced(s3, gt, ">"@);
    let s5 = replaced(s4, quot, "\""@);
    let s6 = replaced(s5, num, "'"@);
    let s7 = replaced(s6, apos, "'"@);
    assert(s7 == decode_entities(strip_tags(markup)));
    // `&lt;` goes in the third step and stays away
    lemma_pattern_gone(s2, lt, '<');
    lemma_nothing_new(s3, gt, '>', lt);
    lemma_nothing_new(s4, quot, '"', lt);
    lemma_nothing_new(s5, num, '\'', lt);
    lemma_nothing_new(s6, apos, '\'', lt);
    // `&gt;` goes in the fourth
    lemma_pattern_gone(s3, gt, '>');
    lemma_nothing_new(s4, quot, '"', gt);
    lemma_nothing_new(s5, num, '\'', gt);
    lemma_nothing_new(s6, apos, '\'', gt);
    // `&quot;` in the fifth
    lemma_pattern_gone(s4, quot, '"');
    lemma_nothing_new(s5, num, '\'', quot);
    lemma_nothing_new(s6, apos, '\'', quot);
    // `&#39;` in the sixth
    lemma_pattern_gone(s5, num, '\'');
    lemma_nothing_new(s6, apos, '\'', num);
    // `&apos;` in the last
    lemma_pattern_gone(s6, apos, '\'');
    let c = collapse_whitespace(s7);
    lemma_collapse_nothing_new(s7, lt);
    lemma_collapse_nothing_new(s7, gt);
    lemma_collapse_nothing_new(s7, quot);
    lemma_collapse_nothing_new(s7, num);
    lemma_collapse_nothing_new(s7, apos);
    lemma_trim_nothing_new(c, lt);
    lemma_trim_nothing_new(trim_start(c), lt);
    lemma_trim_nothing_new(c, gt);
    lemma_trim_nothing_new(trim_start(c), gt);
    lemma_trim_nothing_new(c, quot);
    lemma_trim_nothing_new(trim_start(c), quot);
    lemma_trim_nothing_new(c, num);
    lemma_trim_nothing_new(trim_start(c), num);
    lemma_trim_nothing_new(c, apos);
    lemma_trim_nothing_new(trim_start(c), apos);
}

/// Whether `p` and `q` differ at place `i` of `q` when `q` is laid on `p` from
/// place `a` of `p` on.
pub open spec fn differ_at(p: Seq<char>, a: int, q: Seq<char>, i: int) -> bool {
    0 <= i < q.len() && a + i < p.len() && p[a + i] != q[i]
}

/// Whether `q` cannot stand on `p` from place `a` of `p` on: the two differ
/// somewhere.
pub open spec fn clashes(p: Seq<char>, a: int, q: Seq<char>) -> bool {
    exists|i: int| #[trigger] differ_at(p, a, q, i)
}

/// Whether an occurrence of `p` and one of `q` can never share a place in a
/// text: wherever one is laid on the other, the two differ.
pub open spec fn apart(p: Seq<char>, q: Seq<char>) -> bool {
    &&& forall|a: int| 0 <= a < p.len() ==> #[trigger] clashes(p, a, q)
    &&& forall|b: int| 0 < b < q.len() ==> #[trigger] clashes(q, b, p)
}

/// Two different texts that begin with `&` and hold no other `&` are apart.
proof fn lemma_entities_apart(p: Seq<char>, q: Seq<char>, i: int)
    requires
        p.len() > 0,
        q.len() > 0,
        p[0] == '&',
        q[0] == '&',
        forall|k: int| 0 < k < p.len() ==> p[k] != '&',
        forall|k: int| 0 < k < q.len() ==> q[k] != '&',
        differ_at(p, 0, q, i),
    ensures
        apart(p, q),
{
    assert forall|a: int| 0 <= a < p.len() implies #[trigger] clashes(p, a, q) by {
        if a > 0 {
            assert(differ_at(p, a, q, 0));
        }
    }
    assert forall|b: int| 0 < b < q.len() implies #[trigger] clashes(q, b, p) by {
        assert(differ_at(q, b, p, 0));
    }
}

/// A text of one character is apart from every text without that character.
proof fn lemma_char_apart(p: Seq<char>, x: char)
    requires
        !p.contains(x),
    ensures
        apart(p, seq![x]),
{
    assert forall|a: int| 0 <= a < p.len() implies #[trigger] clashes(p, a, seq![x]) by {
        if p[a] == x {
            assert(p.contains(x));
        }
        assert(differ_at(p, a, seq![x], 0));
    }
}

/// A start of the text in which the pattern begins nowhere is a start of the
/// result of the replacement.
proof fn lemma_prefix_stays(t: Seq<char>, from: Seq<char>, c: char, w: Seq<char>)
    requires
        from.len() > 0,
        occurs_at(t, 0, w),
        forall|b: int| 0 <= b < w.len() ==> !occurs_at(t, b, from),
    ensures
        occurs_at(replaced(t, from, seq![c]), 0, w),
    decreases w.len(),
{
    let r = replaced(t, from, seq![c]);
    if w.len() == 0 {
        assert(r.subrange(0, 0) =~= w);
    } else {
        let rest = replaced(t.skip(1), from, seq![c]);
        let tail = w.skip(1);
        assert(r == seq![t[0]] + rest);
        assert(t.skip(1).subrange(0, tail.len() as int) =~= tail) by {
            assert forall|i: int| 0 <= i < tail.len() implies t.skip(1)[i] == tail[i] by {
                assert(t.subrange(0, w.len() as int)[i + 1] == w[i + 1]);
            }
        }
        assert forall|b: int| 0 <= b < tail.len() implies !occurs_at(t.skip(1), b, from) by {
            if occurs_at(t.skip(1), b, from) {
                lemma_occurs_in_tail(t, 1, b, from);
            }
        }
        lemma_prefix_stays(t.skip(1), from, c, tail);
        assert(r.subrange(0, w.len() as int) =~= w) by {
            assert forall|i: int| 0 <= i < w.len() implies r[i] == w[i] by {
                if i == 0 {
                    assert(t.subrange(0, w.len() as int)[0] == w[0]);
                } else {
                    assert(rest.subrange(0, tail.len() as int)[i - 1] == tail[i - 1]);
                }
            }
        }
    }
}

/// What stands in the result for the rest of a text stands in the result for the
/// text.
proof fn lemma_found_behind(s: Seq<char>, from: Seq<char>, c: char, j: int, q: Seq<char>)
    requires
        from.len() > 0,
        s.len() > 0,
        j == (if occurs_at(s, 0, from) {
            from.len() as int
        } else {
            1
        }),
        has_substring(replaced(s.skip(j), from, seq![c]), q),
    ensures
        has_substring(replaced(s, from, seq![c]), q),
{
    let r = replaced(s, from, seq![c]);
    let rest = replaced(s.skip(j), from, seq![c]);
    let k = choose|k: int| occurs_at(rest, k, q);
    assert(r.len() == rest.len() + 1);
    assert(r.subrange(k + 1, k + 1 + q.len()) =~= rest.subrange(k, k + q.len()));
    assert(occurs_at(r, k + 1, q));
}

/// A replacement leaves standing what is apart from its pattern.
pub proof fn lemma_apart_stays(s: Seq<char>, from: Seq<char>, c: char, q: Seq<char>, p: int)
    requires
        from.len() > 0,
        apart(from, q),
        occurs_at(s, p, q),
        q.len() > 0,
    ensures
        has_substring(replaced(s, from, seq![c]), q),
    decreases s.len(),
{
    if occurs_at(s, 0, from) {
        if p < from.len() {
            assert(clashes(from, p, q));
            let i = choose|i: int| #[trigger] differ_at(from, p, q, i);
            assert(s.subrange(0, from.len() as int)[p + i] == from[p + i]);
            assert(s.subrange(p, p + q.len())[i] == q[i]);
        } else {
            let j = from.len() as int;
            assert(s.skip(j).subrange(p - j, p - j + q.len()) =~= s.subrange(p, p + q.len()));
            lemma_apart_stays(s.skip(j), from, c, q, p - j);
            lemma_found_behind(s, from, c, j, q);
        }
    } else if p >= 1 {
        assert(s.skip(1).subrange(p - 1, p - 1 + q.len()) =~= s.subrange(p, p + q.len()));
        lemma_apart_stays(s.skip(1), from, c, q, p - 1);
        lemma_found_behind(s, from, c, 1, q);
    } else {
        assert forall|b: int| 0 <= b < q.len() implies !occurs_at(s, b, from) by {
            if b > 0 && occurs_at(s, b, from) {
                assert(clashes(q, b, from));
                let i = choose|i: int| #[trigger] differ_at(q, b, from, i);
                assert(s.subrange(0, q.len() as int)[b + i] == q[b + i]);
                assert(s.subrange(b, b + from.len())[i] == from[i]);
            }
        }
        lemma_prefix_stays(s, from, c, q);
    }
}

/// Where the pattern stands in the text, the result of the replacement holds the
/// character that replaces it.
pub proof fn lemma_replacement_shows(s: Seq<char>, from: Seq<char>, c: char, p: int)
    requires
        from.len() > 0,
        occurs_at(s, p, from),
    ensures
        replaced(s, from, seq![c]).contains(c),
    decreases s.len(),
{
    let r = replaced(s, from, seq![c]);
    if occurs_at(s, 0, from) {
        assert(r[0] == c);
    } else {
        let rest = replaced(s.skip(1), from, seq![c]);
        assert(s.skip(1).subrange(p - 1, p - 1 + from.len()) =~= s.subrange(p, p + from.len()));
        lemma_replacement_shows(s.skip(1), from, c, p - 1);
        let k = choose|k: int| 0 <= k < rest.len() && rest[k] == c;
        assert(r[k + 1] == c);
    }
}

/// The collapsed text grows with the text: what has been collapsed stays as it
/// is when more of the text is taken.
proof fn lemma_collapse_grows(s: Seq<char>, n: int, m: int)
    requires
        0 <= n <= m <= s.len(),
    ensures
        collapse_upto(s, n).len() <= collapse_upto(s, m).len(),
        collapse_upto(s, m).subrange(
            0,
            collapse_upto(s, n).len() as int,
        ) == collapse_upto(s, n),
    decreases m - n,
{
    let small = collapse_upto(s, n);
    if n == m {
        assert(small.subrange(0, small.len() as int) =~= small);
    } else {
        lemma_collapse_grows(s, n, m - 1);
        let mid = collapse_upto(s, m - 1);
        let big = collapse_upto(s, m);
        assert(big.subrange(0, small.len() as int) =~= mid.subrange(0, small.len() as int));
    }
}

/// A text without whitespace at the end of the text stands at the end of the
/// collapsed text.
proof fn lemma_collapse_keeps_suffix(s: Seq<char>, n: int, q: Seq<char>)
    requires
        0 <= n <= s.len(),
        has_no_whitespace(q),
        occurs_at(s, n - q.len(), q),
    ensures
        occurs_at(
            collapse_upto(s, n),
            collapse_upto(s, n).len() - q.len(),
            q,
        ),
    decreases q.len(),
{
    let out = collapse_upto(s, n);
    if q.len() == 0 {
        assert(out.subrange(out.len() as int, out.len() as int) =~= q);
    } else {
        let init = q.drop_last();
        assert(s.subrange(n - q.len(), n)[q.len() - 1] == s[n - 1]);
        assert(!is_whitespace(q[q.len() - 1]));
        assert(s.subrange(n - 1 - init.len(), n - 1) =~= init) by {
            assert forall|i: int| 0 <= i < init.len() implies s[n - 1 - init.len() + i]
                == init[i] by {
                assert(s.subrange(n - q.len(), n)[i] == q[i]);
            }
        }
        lemma_collapse_keeps_suffix(s, n - 1, init);
        let before = collapse_upto(s, n - 1);
        assert(out == before.push(s[n - 1]));
        assert(out.subrange(out.len() - q.len(), out.len() as int) =~= q) by {
            assert forall|i: int| 0 <= i < q.len() implies out[out.len() - q.len() + i]
                == q[i] by {
                if i < q.len() - 1 {
                    assert(before.subrange(before.len() - init.len(), before.len() as int)[i]
                        == init[i]);
                }
            }
        }
    }
}

/// Collapsing whitespace leaves standing every text without whitespace.
pub proof fn lemma_collapse_keeps(s: Seq<char>, q: Seq<char>)
    requires
        has_no_whitespace(q),
        has_substring(s, q),
    ensures
        has_substring(collapse_whitespace(s), q),
{
    let p = choose|p: int| occurs_at(s, p, q);
    let n = p + q.len();
    lemma_collapse_keeps_suffix(s, n, q);
    lemma_collapse_grows(s, n, s.len() as int);
    let part = collapse_upto(s, n);
    let all = collapse_whitespace(s);
    let k = part.len() - q.len();
    assert(all.subrange(k, k + q.len()) =~= part.subrange(k, k + q.len())) by {
        assert forall|j: int| k <= j < k + q.len() implies all[j] == part[j] by {
            assert(all.subrange(0, part.len() as int)[j] == part[j]);
        }
    }
    assert(occurs_at(all, k, q));
}

/// Trimming leaves standing every text that neither begins nor ends with
/// whitespace.
pub proof fn lemma_trim_keeps(s: Seq<char>, q: Seq<char>, p: int)
    requires
        q.len() > 0,
        !is_whitespace(q[0]),
        !is_whitespace(q.last()),
        occurs_at(s, p, q),
    ensures
        has_substring(trim_start(s), q),
        has_substring(trim_end(s), q),
    decreases s.len(),
{
    assert(s.subrange(p, p + q.len())[0] == s[p]);
    assert(s.subrange(p, p + q.len())[q.len() - 1] == s[p + q.len() - 1]);
    if is_whitespace(s[0]) {
        assert(s.skip(1).subrange(p - 1, p - 1 + q.len()) =~= s.subrange(p, p + q.len()));
        lemma_trim_keeps(s.skip(1), q, p - 1);
    }
    if is_whitespace(s.last()) {
        assert(s.drop_last().subrange(p, p + q.len()) =~= s.subrange(p, p + q.len()));
        lemma_trim_keeps(s.drop_last(), q, p);
    }
}

/// What the steps of `normalize` behind the decoding of `&nbsp;` and `&amp;`
/// leave standing: every text without whitespace that is apart from the five
/// entities decoded in these steps.
proof fn lemma_later_steps_keep(text: Seq<char>, q: Seq<char>)
    requires
        q.len() > 0,
        has_no_whitespace(q),
        apart("&lt;"@, q),
        apart("&gt;"@, q),
        apart("&quot;"@, q),
        apart("&#39;"@, q),
        apart("&apos;"@, q),
        has_substring(decode_ampersands(text), q),
    ensures
        has_substring(trimmed(collapse_whitespace(decode_entities(text))), q),
{
    reveal_strlit("&lt;");
    reveal_strlit("&gt;");
    reveal_strlit("&quot;");
    reveal_strlit("&#39;");
    reveal_strlit("&apos;");
    reveal_strlit("<");
    reveal_strlit(">");
    reveal_strlit("\"");
    reveal_strlit("'");
    assert("<"@ =~= seq!['<']);
    assert(">"@ =~= seq!['>']);
    assert("\""@ =~= seq!['"']);
    assert("'"@ =~= seq!['\'']);
    let s2 = decode_ampersands(text);
    let s3 = replaced(s2, "&lt;"@, "<"@);
    lemma_apart_stays(s2, "&lt;"@, '<', q, choose|p: int| occurs_at(s2, p, q));
    lemma_later_steps_keep_from_gt(s3, q);
}

/// The same from the decoding of `&gt;` on.
proof fn lemma_later_steps_keep_from_gt(s3: Seq<char>, q: Seq<char>)
    requires
        q.len() > 0,
        has_no_whitespace(q),
        apart("&gt;"@, q),
        apart("&quot;"@, q),
        apart("&#39;"@, q),
        apart("&apos;"@, q),
        has_substring(s3, q),
    ensures
        ({
            let s4 = replaced(s3, "&gt;"@, ">"@);
            let s5 = replaced(s4, "&quot;"@, "\""@);
            let s6 = replaced(s5, "&#39;"@, "'"@);
            let s7 = replaced(s6, "&apos;"@, "'"@);
            has_substring(trimmed(collapse_whitespace(s7)), q)
        }),
{
    reveal_strlit("&gt;");
    reveal_strlit(">");
    assert(">"@ =~= seq!['>']);
    let s4 = replaced(s3, "&gt;"@, ">"@);
    lemma_apart_stays(s3, "&gt;"@, '>', q, choose|p: int| occurs_at(s3, p, q));
    lemma_later_steps_keep_from_quot(s4, q);
}

/// The same from the decoding of `&quot;` on.
proof fn lemma_later_steps_keep_from_quot(s4: Seq<char>, q: Seq<char>)
    requires
        q.len() > 0,
        has_no_whitespace(q),
        apart("&quot;"@, q),
        apart("&#39;"@, q),
        apart("&apos;"@, q),
        has_substring(s4, q),
    ensures
        ({
            let s5 = replaced(s4, "&quot;"@, "\""@);
            let s6 = replaced(s5, "&#39;"@, "'"@);
            let s7 = replaced(s6, "&apos;"@, "'"@);
            has_substring(trimmed(collapse_whitespace(s7)), q)
        }),
{
    reveal_strlit("&quot;");
    reveal_strlit("&#39;");
    reveal_strlit("&apos;");
    reveal_strlit("\"");
    reveal_strlit("'");
    assert("\""@ =~= seq!['"']);
    assert("'"@ =~= seq!['\'']);
    let s5 = replaced(s4, "&quot;"@, "\""@);
    lemma_apart_stays(s4, "&quot;"@, '"', q, choose|p: int| occurs_at(s4, p, q));
    let s6 = replaced(s5, "&#39;"@, "'"@);
    lemma_apart_stays(s5, "&#39;"@, '\'', q, choose|p: int| occurs_at(s5, p, q));
    let s7 = replaced(s6, "&apos;"@, "'"@);
    lemma_apart_stays(s6, "&apos;"@, '\'', q, choose|p: int| occurs_at(s6, p, q));
    lemma_collapse_keeps(s7, q);
    let c = collapse_whitespace(s7);
    assert(!is_whitespace(q[0]) && !is_whitespace(q[q.len() - 1]));
    lemma_trim_keeps(c, q, choose|p: int| occurs_at(c, p, q));
    let t = trim_start(c);
    lemma_trim_keeps(t, q, choose|p: int| occurs_at(t, p, q));
}

/// The plain text holds a `&nbsp;` or an `&amp;` exactly where the markup escaped
/// its `&`: the plain text holds one exactly if the text without its tags holds
/// one once `&nbsp;` and `&amp;` have been decoded. (`&amp;nbsp;` is markup whose
/// plain text is `&nbsp;`.)
pub proof fn lemma_ampersand_entities_left(markup: Seq<char>)
    ensures
        has_substring(normalized(markup), "&nbsp;"@) <==> has_substring(
            decode_ampersands(strip_tags(markup)),
            "&nbsp;"@,
        ),
        has_substring(normalized(markup), "&amp;"@) <==> has_substring(
            decode_ampersands(strip_tags(markup)),
            "&amp;"@,
        ),
{
    reveal_strlit("&nbsp;");
    reveal_strlit("&amp;");
    reveal_strlit("&lt;");
    reveal_strlit("&gt;");
    reveal_strlit("&quot;");
    reveal_strlit("&#39;");
    reveal_strlit("&apos;");
    let nbsp = "&nbsp;"@;
    let amp = "&amp;"@;
    let text = strip_tags(markup);
    assert(has_no_whitespace(nbsp) && has_no_whitespace(amp));
    if !has_substring(decode_ampersands(text), nbsp) {
        lemma_later_steps_nothing_new(text, nbsp);
    } else {
        lemma_entities_apart("&lt;"@, nbsp, 1);
        lemma_entities_apart("&gt;"@, nbsp, 1);
        lemma_entities_apart("&quot;"@, nbsp, 1);
        lemma_entities_apart("&#39;"@, nbsp, 1);
        lemma_entities_apart("&apos;"@, nbsp, 1);
        lemma_later_steps_keep(text, nbsp);
    }
    if !has_substring(decode_ampersands(text), amp) {
        lemma_later_steps_nothing_new(text, amp);
    } else {
        lemma_entities_apart("&lt;"@, amp, 1);
        lemma_entities_apart("&gt;"@, amp, 1);
        lemma_entities_apart("&quot;"@, amp, 1);
        lemma_entities_apart("&#39;"@, amp, 1);
        lemma_entities_apart("&apos;"@, amp, 2);
        lemma_later_steps_keep(text, amp);
    }
}

/// The plain text holds an angle bracket exactly where the markup wrote one as an
/// entity: it holds a `<` exactly if the text without its tags holds a `&lt;`
/// once `&nbsp;` and `&amp;` have been decoded, and likewise for `>` and `&gt;`.
/// (`&lt;` is markup whose plain text is `<`; so is `&amp;lt;`.)
pub proof fn lemma_brackets_left(markup: Seq<char>)
    ensures
        normalized(markup).contains('<') <==> has_substring(
            decode_ampersands(strip_tags(markup)),
            "&lt;"@,
        ),
        normalized(markup).contains('>') <==> has_substring(
            decode_ampersands(strip_tags(markup)),
            "&gt;"@,
        ),
{
    reveal_strlit("&nbsp;");
    reveal_strlit("&amp;");
    reveal_strlit("&lt;");
    reveal_strlit("&gt;");
    reveal_strlit("&quot;");
    reveal_strlit("&#39;");
    reveal_strlit("&apos;");
    reveal_strlit(" ");
    reveal_strlit("&");
    reveal_strlit("<");
    reveal_strlit(">");
    reveal_strlit("\"");
    reveal_strlit("'");
    assert(" "@ =~= seq![' ']);
    assert("&"@ =~= seq!['&']);
    assert("<"@ =~= seq!['<']);
    assert(">"@ =~= seq!['>']);
    assert("\""@ =~= seq!['"']);
    assert("'"@ =~= seq!['\'']);
    let open = seq!['<'];
    let close = seq!['>'];
    let s0 = strip_tags(markup);
    lemma_strip_tags_no_brackets(markup, markup.len() as int);
    lemma_char_as_text(s0, '<');
    lemma_char_as_text(s0, '>');
    let s1 = replaced(s0, "&nbsp;"@, " "@);
    lemma_nothing_new(s0, "&nbsp;"@, ' ', open);
    lemma_nothing_new(s0, "&nbsp;"@, ' ', close);
    let s2 = replaced(s1, "&amp;"@, "&"@);
    lemma_nothing_new(s1, "&amp;"@, '&', open);
    lemma_nothing_new(s1, "&amp;"@, '&', close);
    assert(s2 == decode_ampersands(s0));
    let s3 = replaced(s2, "&lt;"@, "<"@);
    let s4 = replaced(s3, "&gt;"@, ">"@);
    let s5 = replaced(s4, "&quot;"@, "\""@);
    let s6 = replaced(s5, "&#39;"@, "'"@);
    let s7 = replaced(s6, "&apos;"@, "'"@);
    assert(s7 == decode_entities(s0));
    let c = collapse_whitespace(s7);
    let plain = normalized(markup);
    assert(has_no_whitespace(open) && has_no_whitespace(close));
    lemma_char_as_text(plain, '<');
    lemma_char_as_text(plain, '>');
    if !has_substring(s2, "&lt;"@) {
        lemma_replaced_unchanged(s2, "&lt;"@, "<"@);
        lemma_nothing_new(s3, "&gt;"@, '>', open);
        lemma_nothing_new(s4, "&quot;"@, '"', open);
        lemma_nothing_new(s5, "&#39;"@, '\'', open);
        lemma_nothing_new(s6, "&apos;"@, '\'', open);
        lemma_collapse_nothing_new(s7, open);
        lemma_trim_nothing_new(c, open);
        lemma_trim_nothing_new(trim_start(c), open);
    } else {
        lemma_replacement_shows(s2, "&lt;"@, '<', choose|p: int| occurs_at(s2, p, "&lt;"@));
        lemma_char_as_text(s3, '<');
        lemma_char_apart("&gt;"@, '<');
        lemma_char_apart("&quot;"@, '<');
        lemma_char_apart("&#39;"@, '<');
        lemma_char_apart("&apos;"@, '<');
        lemma_later_steps_keep_from_gt(s3, open);
    }
    if !has_substring(s2, "&gt;"@) {
        lemma_nothing_new(s2, "&lt;"@, '<', close);
        lemma_nothing_new(s2, "&lt;"@, '<', "&gt;"@);
        lemma_replaced_unchanged(s3, "&gt;"@, ">"@);
        lemma_nothing_new(s4, "&quot;"@, '"', close);
        lemma_nothing_new(s5, "&#39;"@, '\'', close);
        lemma_nothing_new(s6, "&apos;"@, '\'', close);
        lemma_collapse_nothing_new(s7, close);
        lemma_trim_nothing_new(c, close);
        lemma_trim_nothing_new(trim_start(c), close);
    } else {
        lemma_entities_apart("&lt;"@, "&gt;"@, 1);
        lemma_apart_stays(s2, "&lt;"@, '<', "&gt;"@, choose|p: int| occurs_at(s2, p, "&gt;"@));
        lemma_replacement_shows(s3, "&gt;"@, '>', choose|p: int| occurs_at(s3, p, "&gt;"@));
        lemma_char_as_text(s4, '>');
        lemma_char_apart("&quot;"@, '>');
        lemma_char_apart("&#39;"@, '>');
        lemma_char_apart("&apos;"@, '>');
        lemma_later_steps_keep_from_quot(s4, close);
    }
}

} // verus!
