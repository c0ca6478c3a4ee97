//! Character sequences: the bridge between `str`/`String` and `Vec<char>`, and the
//! small searches the rest of the crate is built from.
//!
//! Every length and position in this crate counts characters (Unicode scalar
//! values), never bytes, so no operation can split a character.

use vstd::prelude::*;

verus! {

/// `String::push`: the character is appended, nothing else changes.
#[verifier::external_body]
fn push_char(s: &mut String, c: char)
    ensures
        final(s)@ == old(s)@.push(c),
{
    s.push(c);
}

/// The characters of `s`, in order.
pub fn to_chars(s: &str) -> (v: Vec<char>)
    ensures
        v@ == s@,
{
    let mut v: Vec<char> = Vec::new();
    for c in it: s.chars()
        invariant
            it.seq() == s@,
            v@ == it.seq().take(it.index() as int),
    {
        v.push(c);
    }
    v
}

/// The string made of the characters of `v`, in order.
pub fn from_chars(v: &Vec<char>) -> (s: String)
    ensures
        s@ == v@,
{
    let mut s = String::new();
    let mut i: usize = 0;
    while i < v.len()
        invariant
            i <= v.len(),
            s@ == v@.take(i as int),
        decreases v.len() - i,
    {
        push_char(&mut s, v[i]);
        i += 1;
    }
    s
}

/// Whether two strings hold the same characters.
pub fn same_text(a: &str, b: &str) -> (same: bool)
    ensures
        same == (a@ == b@),
{
    let x = to_chars(a);
    let y = to_chars(b);
    same_chars(&x, &y)
}

/// Whether two character vectors are equal.
pub fn same_chars(a: &Vec<char>, b: &Vec<char>) -> (same: bool)
    ensures
        same == (a@ == b@),
{
    if a.len() != b.len() {
        return false;
    }
    let mut i: usize = 0;
    while i < a.len()
        invariant
            i <= a.len(),
            a.len() == b.len(),
            a@.take(i as int) == b@.take(i as int),
        decreases a.len() - i,
    {
        if a[i] != b[i] {
            return false;
        }
        i += 1;
    }
    proof {
        assert(a@.take(a.len() as int) == a@);
        assert(b@.take(b.len() as int) == b@);
    }
    true
}

/// The characters that Unicode counts as white space.
pub open spec fn is_whitespace(c: char) -> bool {
    let u = c as u32;
    ||| 0x09 <= u <= 0x0D
    ||| u == 0x20
    ||| u == 0x85
    ||| u == 0xA0
    ||| u == 0x1680
    ||| 0x2000 <= u <= 0x200A
    ||| u == 0x2028
    ||| u == 0x2029
    ||| u == 0x202F
    ||| u == 0x205F
    ||| u == 0x3000
}

/// Whether `c` is a whitespace character.
pub fn is_space(c: char) -> (r: bool)
    ensures
        r == is_whitespace(c),
{
    let u: u32 = c as u32;
    (0x09 <= u && u <= 0x0D) || u == 0x20 || u == 0x85 || u == 0xA0 || u == 0x1680 || (0x2000 <= u
        && u <= 0x200A) || u == 0x2028 || u == 0x2029 || u == 0x202F || u == 0x205F || u == 0x3000
}

/// Whether `pat` occurs in `s` starting at position `at`.
pub open spec fn occurs_at(s: Seq<char>, at: int, pat: Seq<char>) -> bool {
    &&& 0 <= at
    &&& at + pat.len() <= s.len()
    &&& s.subrange(at, at + pat.len()) == pat
}

/// Whether `pat` occurs somewhere in `s`. The empty pattern occurs in every text.
pub open spec fn has_substring(s: Seq<char>, pat: Seq<char>) -> bool {
    exists|at: int| occurs_at(s, at, pat)
}

/// Whether `pat` occurs in `text` starting at position `at`.
pub fn matches_at(text: &Vec<char>, at: usize, pat: &Vec<char>) -> (r: bool)
    ensures
        r == occurs_at(text@, at as int, pat@),
{
    if at > text.len() || pat.len() > text.len() - at {
        return false;
    }
    let mut k: usize = 0;
    while k < pat.len()
        invariant
            k <= pat.len(),
            at + pat.len() <= text.len(),
            text@.subrange(at as int, at + k) == pat@.take(k as int),
        decreases pat.len() - k,
    {
        if text[at + k] != pat[k] {
            proof {
                let sub = text@.subrange(at as int, at + pat.len());
                assert(sub[k as int] == text@[at + k]);
            }
            return false;
        }
        proof {
            assert(text@.subrange(at as int, at + k + 1) == text@.subrange(at as int, at + k).push(
                text@[at + k],
            ));
            assert(pat@.take(k + 1) == pat@.take(k as int).push(pat@[k as int]));
        }
        k += 1;
    }
    proof {
        assert(pat@.take(pat.len() as int) == pat@);
    }
    true
}

/// Whether `pat` occurs somewhere in `text`.
pub fn contains(text: &Vec<char>, pat: &Vec<char>) -> (r: bool)
    ensures
        r == has_substring(text@, pat@),
{
    if pat.len() > text.len() {
        return false;
    }
    if pat.len() == 0 {
        assert(occurs_at(text@, 0, pat@)) by {
            assert(text@.subrange(0, 0) =~= pat@);
        }
        return true;
    }
    let last: usize = text.len() - pat.len();
    let mut at: usize = 0;
    while at <= last
        invariant
            at <= last + 1,
            last == text.len() - pat.len(),
            last < text.len(),
            forall|j: int| 0 <= j < at ==> !occurs_at(text@, j, pat@),
        decreases last + 1 - at,
    {
        if matches_at(text, at, pat) {
            return true;
        }
        at += 1;
    }
    false
}

/// Appends the characters of `more` to `out`.
pub fn push_all(out: &mut Vec<char>, more: &Vec<char>)
    ensures
        final(out)@ == old(out)@ + more@,
{
    let mut k: usize = 0;
    while k < more.len()
        invariant
            k <= more.len(),
            out@ == old(out)@ + more@.take(k as int),
        decreases more.len() - k,
    {
        out.push(more[k]);
        proof {
            assert(more@.take(k + 1) == more@.take(k as int).push(more@[k as int]));
        }
        k += 1;
    }
    proof {
        assert(more@.take(more.len() as int) == more@);
    }
}

/// `s` with every occurrence of `from` replaced by `to`. Occurrences are found from
/// left to right and do not overlap: after one is replaced, the search goes on
/// behind it. What was put in is not searched again. With an empty `from` nothing
/// is replaced.
pub open spec fn replaced(s: Seq<char>, from: Seq<char>, to: Seq<char>) -> Seq<char>
    decreases s.len(),
{
    if from.len() == 0 || s.len() == 0 {
        s
    } else if occurs_at(s, 0, from) {
        to + replaced(s.skip(from.len() as int), from, to)
    } else {
        seq![s[0]] + replaced(s.skip(1), from, to)
    }
}

/// Replaces every occurrence of `from` in `text` by `to`.
pub fn replace_all(text: &Vec<char>, from: &Vec<char>, to: &Vec<char>) -> (out: Vec<char>)
    ensures
        out@ == replaced(text@, from@, to@),
{
    let mut out: Vec<char> = Vec::new();
    if from.len() == 0 {
        push_all(&mut out, text);
        return out;
    }
    let mut i: usize = 0;
    proof {
        assert(text@.skip(0) == text@);
        assert(out@ + replaced(text@, from@, to@) == replaced(text@, from@, to@));
    }
    while i < text.len()
        invariant
            i <= text.len(),
            from.len() > 0,
            out@ + replaced(text@.skip(i as int), from@, to@) == replaced(text@, from@, to@),
        decreases text.len() - i,
    {
        let ghost rest = text@.skip(i as int);
        let ghost before = out@;
        proof {
            assert(rest.len() > 0);
            assert(rest[0] == text@[i as int]);
            if i + from@.len() <= text@.len() {
                assert(rest.subrange(0, from@.len() as int) =~= text@.subrange(
                    i as int,
                    i + from@.len(),
                ));
            }
            assert(occurs_at(rest, 0, from@) == occurs_at(text@, i as int, from@));
        }
        if matches_at(text, i, from) {
            push_all(&mut out, to);
            proof {
                assert(rest.skip(from@.len() as int) == text@.skip(i + from@.len()));
                assert(before + (to@ + replaced(rest.skip(from@.len() as int), from@, to@)) == (
                before + to@) + replaced(rest.skip(from@.len() as int), from@, to@));
            }
            i += from.len();
        } else {
            out.push(text[i]);
            proof {
                assert(rest.skip(1) == text@.skip(i + 1));
                assert(before + (seq![rest[0]] + replaced(rest.skip(1), from@, to@)) == before.push(
                    rest[0],
                ) + replaced(rest.skip(1), from@, to@));
            }
            i += 1;
        }
    }
    proof {
        assert(text@.skip(text.len() as int) == Seq::<char>::empty());
        assert(out@ + Seq::<char>::empty() == out@);
    }
    out
}

/// The texts held by a vector of character vectors.
pub open spec fn texts(parts: Seq<Vec<char>>) -> Seq<Seq<char>> {
    parts.map_values(|p: Vec<char>| p@)
}

/// The parts in order, with `sep` between each two neighbours.
pub open spec fn joined(parts: Seq<Seq<char>>, sep: Seq<char>) -> Seq<char>
    decreases parts.len(),
{
    if parts.len() == 0 {
        Seq::empty()
    } else if parts.len() == 1 {
        parts[0]
    } else {
        joined(parts.drop_last(), sep) + sep + parts.last()
    }
}

/// Joins the parts with `sep` between each two neighbours.
pub fn join(parts: &Vec<Vec<char>>, sep: &Vec<char>) -> (out: Vec<char>)
    ensures
        out@ == joined(texts(parts@), sep@),
{
    let mut out: Vec<char> = Vec::new();
    let mut k: usize = 0;
    while k < parts.len()
        invariant
            k <= parts.len(),
            out@ == joined(texts(parts@).take(k as int), sep@),
        decreases parts.len() - k,
    {
        let ghost done = texts(parts@).take(k as int);
        let ghost next = texts(parts@).take(k + 1);
        proof {
            assert(next.drop_last() == done);
            assert(next.last() == parts@[k as int]@);
        }
        if k > 0 {
            push_all(&mut out, sep);
        }
        push_all(&mut out, &parts[k]);
        proof {
            if k == 0 {
                assert(out@ == parts@[0]@);
                assert(next[0] == parts@[0]@);
            }
        }
        k += 1;
    }
    proof {
        assert(texts(parts@).take(parts.len() as int) == texts(parts@));
    }
    out
}

/// The elements of `parts`, last first.
pub fn reversed(parts: Vec<Vec<char>>) -> (out: Vec<Vec<char>>)
    ensures
        out@ == parts@.reverse(),
{
    let mut parts = parts;
    let ghost all = parts@;
    let mut out: Vec<Vec<char>> = Vec::new();
    while parts.len() > 0
        invariant
            parts@ == all.take(parts.len() as int),
            parts.len() <= all.len(),
            out@ == all.skip(parts.len() as int).reverse(),
        decreases parts.len(),
    {
        let ghost before = parts.len();
        let last = parts.pop();
        match last {
            Some(p) => {
                out.push(p);
                proof {
                    assert(p == all[before - 1]);
                    assert(out@ =~= all.skip(before - 1).reverse());
                    assert(parts@ =~= all.take(before - 1));
                }
            },
            None => {},
        }
    }
    proof {
        assert(all.skip(0) == all);
    }
    out
}

/// How many characters stand before the first whitespace of `s`.
pub open spec fn word_len(s: Seq<char>) -> nat
    decreases s.len(),
{
    if s.len() > 0 && !is_whitespace(s[0]) {
        1 + word_len(s.skip(1))
    } else {
        0
    }
}

/// The words of `s`: its maximal runs of characters that are not whitespace.
pub open spec fn words(s: Seq<char>) -> Seq<Seq<char>>
    decreases s.len(),
    via words_decreases
{
    if s.len() == 0 {
        Seq::empty()
    } else if is_whitespace(s[0]) {
        words(s.skip(1))
    } else {
        seq![s.take(word_len(s) as int)] + words(s.skip(word_len(s) as int))
    }
}

#[via_fn]
proof fn words_decreases(s: Seq<char>) {
    lemma_word_len_bound(s);
}

/// A word never runs past the end of the text.
pub proof fn lemma_word_len_bound(s: Seq<char>)
    ensures
        word_len(s) <= s.len(),
    decreases s.len(),
{
    if s.len() > 0 && !is_whitespace(s[0]) {
        lemma_word_len_bound(s.skip(1));
    }
}

/// Where the first whitespace stands, the first word ends.
pub proof fn lemma_word_len_at(s: Seq<char>, k: int)
    requires
        0 <= k <= s.len(),
        forall|i: int| 0 <= i < k ==> !is_whitespace(s[i]),
        k < s.len() ==> is_whitespace(s[k]),
    ensures
        word_len(s) == k,
    decreases k,
{
    if k > 0 {
        let t = s.skip(1);
        assert forall|i: int| 0 <= i < k - 1 implies !is_whitespace(t[i]) by {
            assert(t[i] == s[i + 1]);
        }
        lemma_word_len_at(t, k - 1);
    }
}

/// A text has no words exactly if it holds nothing but whitespace.
pub proof fn lemma_no_words(s: Seq<char>)
    ensures
        words(s).len() == 0 <==> forall|i: int| 0 <= i < s.len() ==> is_whitespace(s[i]),
    decreases s.len(),
{
    if s.len() > 0 {
        if is_whitespace(s[0]) {
            let t = s.skip(1);
            lemma_no_words(t);
            if words(s).len() == 0 {
                assert forall|i: int| 0 <= i < s.len() implies is_whitespace(s[i]) by {
                    if i > 0 {
                        assert(t[i - 1] == s[i]);
                    }
                }
            } else {
                let i = choose|i: int| 0 <= i < t.len() && !is_whitespace(t[i]);
                assert(s[i + 1] == t[i]);
            }
        }
    }
}

/// Splits `text` at whitespace into its words.
pub fn split_words(text: &Vec<char>) -> (out: Vec<Vec<char>>)
    ensures
        texts(out@) == words(text@),
{
    let mut out: Vec<Vec<char>> = Vec::new();
    let mut i: usize = 0;
    proof {
        assert(text@.skip(0) == text@);
        assert(texts(out@) + words(text@) == words(text@));
    }
    while i < text.len()
        invariant
            i <= text.len(),
            texts(out@) + words(text@.skip(i as int)) == words(text@),
        decreases text.len() - i,
    {
        let ghost rest = text@.skip(i as int);
        let ghost before = texts(out@);
        if is_space(text[i]) {
            proof {
                assert(rest[0] == text@[i as int]);
                assert(rest.skip(1) == text@.skip(i + 1));
            }
            i += 1;
        } else {
            let mut word: Vec<char> = Vec::new();
            let mut j: usize = i;
            while j < text.len() && !is_space(text[j])
                invariant
                    i <= j <= text.len(),
                    word@ == text@.subrange(i as int, j as int),
                    forall|k: int| i <= k < j ==> !is_whitespace(text@[k]),
                decreases text.len() - j,
            {
                word.push(text[j]);
                proof {
                    assert(text@.subrange(i as int, j + 1) == text@.subrange(
                        i as int,
                        j as int,
                    ).push(text@[j as int]));
                }
                j += 1;
            }
            proof {
                assert(rest[0] == text@[i as int]);
                assert forall|k: int| 0 <= k < j - i implies !is_whitespace(rest[k]) by {
                    assert(rest[k] == text@[i + k]);
                }
                if j < text.len() {
                    assert(rest[j - i] == text@[j as int]);
                }
                lemma_word_len_at(rest, j - i);
                assert(rest.take(j - i) == word@);
                assert(rest.skip(j - i) == text@.skip(j as int));
            }
            out.push(word);
            proof {
                assert(texts(out@) == before.push(word@));
                let tail = words(text@.skip(j as int));
                assert(before + (seq![word@] + tail) == before.push(word@) + tail);
            }
            i = j;
        }
    }
    proof {
        assert(text@.skip(text.len() as int) == Seq::<char>::empty());
        assert(texts(out@) + Seq::<Seq<char>>::empty() == texts(out@));
    }
    out
}

/// `s` without the characters equal to `c`.
pub open spec fn without_char(s: Seq<char>, c: char) -> Seq<char>
    decreases s.len(),
{
    if s.len() == 0 {
        Seq::empty()
    } else if s.last() == c {
        without_char(s.drop_last(), c)
    } else {
        without_char(s.drop_last(), c).push(s.last())
    }
}

/// Removes every `c` from `text`.
pub fn remove_char(text: &Vec<char>, c: char) -> (out: Vec<char>)
    ensures
        out@ == without_char(text@, c),
{
    let mut out: Vec<char> = Vec::new();
    let mut i: usize = 0;
    while i < text.len()
        invariant
            i <= text.len(),
            out@ == without_char(text@.take(i as int), c),
        decreases text.len() - i,
    {
        proof {
            assert(text@.take(i + 1).drop_last() == text@.take(i as int));
        }
        if text[i] != c {
            out.push(text[i]);
        }
        i += 1;
    }
    proof {
        assert(text@.take(text.len() as int) == text@);
    }
    out
}

/// The character of a decimal digit.
pub open spec fn digit_char(d: nat) -> char {
    (0x30 + d) as u8 as char
}

/// The decimal numeral of `n`, without leading zeros.
pub open spec fn decimal_text(n: nat) -> Seq<char>
    decreases n,
{
    if n < 10 {
        seq![digit_char(n)]
    } else {
        decimal_text(n / 10).push(digit_char(n % 10))
    }
}

/// Writes `n` as a decimal numeral.
pub fn decimal(n: usize) -> (out: Vec<char>)
    ensures
        out@ == decimal_text(n as nat),
{
    let mut low: Vec<char> = Vec::new();
    let mut rest: usize = n;
    // `low` holds the digits below `rest`, lowest first
    while rest >= 10
        invariant
            decimal_text(n as nat) == decimal_text(rest as nat) + low@.reverse(),
        decreases rest,
    {
        let d: u8 = (rest % 10) as u8;
        let ghost before = low@;
        low.push((0x30u8 + d) as char);
        proof {
            assert(low@.reverse() == seq![digit_char((rest % 10) as nat)] + before.reverse());
            assert(decimal_text(rest as nat) == decimal_text((rest / 10) as nat).push(
                digit_char((rest % 10) as nat),
            ));
            assert(decimal_text((rest / 10) as nat).push(digit_char((rest % 10) as nat))
                + before.reverse() == decimal_text((rest / 10) as nat) + (seq![
                digit_char((rest % 10) as nat),
            ] + before.reverse()));
        }
        rest = rest / 10;
    }
    let mut out: Vec<char> = Vec::new();
    out.push((0x30u8 + rest as u8) as char);
    let ghost digits = low@;
    while low.len() > 0
        invariant
            low.len() <= digits.len(),
            low@ == digits.take(low.len() as int),
            out@ == seq![digit_char(rest as nat)] + digits.skip(low.len() as int).reverse(),
        decreases low.len(),
    {
        let ghost len = low.len();
        match low.pop() {
            Some(c) => {
                out.push(c);
                proof {
                    assert(c == digits[len - 1]);
                    assert(digits.skip(len - 1).reverse() == digits.skip(len as int).reverse().push(
                        c,
                    ));
                    assert(low@ == digits.take(len - 1));
                }
            },
            None => {},
        }
    }
    proof {
        assert(digits.skip(0) == digits);
    }
    out
}

/// The lower-case form of a text as `str::to_lowercase` gives it: the `Lowercase`
/// mapping of the Unicode character database, which may change the number of
/// characters and does not depend on any locale.
pub uninterp spec fn lowercase(s: Seq<char>) -> Seq<char>;

/// `str::to_lowercase`: the text in lower case. Nothing but the text decides the
/// result.
#[verifier::external_body]
pub(crate) fn to_lower(s: &str) -> (lower: String)
    ensures
        lower@ == lowercase(s@),
{
    s.to_lowercase()
}

} // verus!
