use irisnotes::normalize::{strip_html, truncate};

#[test]
fn strip_html_decodes_and_collapses() {
    assert_eq!(strip_html("<p>A&nbsp;&nbsp;B</p>"), "A B");
}

#[test]
fn strip_html_of_plain_text_is_the_text() {
    assert_eq!(strip_html("just words"), "just words");
}

#[test]
fn strip_html_of_nothing_is_nothing() {
    assert_eq!(strip_html(""), "");
    assert_eq!(strip_html("<br>"), "");
    assert_eq!(strip_html("   \n  "), "");
}

#[test]
fn unterminated_tag_swallows_the_rest() {
    assert_eq!(strip_html("before <b unfinished and more"), "before");
    assert_eq!(strip_html("a < b"), "a");
}

#[test]
fn closing_bracket_alone_is_dropped() {
    assert_eq!(strip_html("a > b"), "a b");
    assert_eq!(strip_html("x<a<b>y"), "xy");
}

#[test]
fn every_known_entity_is_decoded() {
    assert_eq!(strip_html("x&nbsp;y"), "x y");
    assert_eq!(strip_html("x&amp;y"), "x&y");
    assert_eq!(strip_html("x&lt;y"), "x<y");
    assert_eq!(strip_html("x&gt;y"), "x>y");
    assert_eq!(strip_html("x&quot;y"), "x\"y");
    assert_eq!(strip_html("x&#39;y"), "x'y");
    assert_eq!(strip_html("x&apos;y"), "x'y");
}

#[test]
fn unknown_entity_stays() {
    assert_eq!(strip_html("x&copy;y"), "x&copy;y");
    assert_eq!(strip_html("fish &amp chips"), "fish &amp chips");
}

#[test]
fn entities_are_decoded_one_kind_after_the_other() {
    // `&amp;` comes before `&lt;`, so the `&` it leaves completes a `&lt;`.
    assert_eq!(strip_html("&amp;lt;"), "<");
    // `&nbsp;` has been decoded before, so this one stays.
    assert_eq!(strip_html("&amp;nbsp;"), "&nbsp;");
    assert_eq!(strip_html("&amp;amp;"), "&amp;");
}

#[test]
fn decoded_brackets_are_no_tags() {
    assert_eq!(strip_html("&lt;b&gt;bold&lt;/b&gt;"), "<b>bold</b>");
}

#[test]
fn runs_of_whitespace_become_one_space() {
    assert_eq!(strip_html("a   b"), "a b");
    assert_eq!(strip_html("a\t\tb"), "a b");
    assert_eq!(strip_html("a \t b"), "a b");
    assert_eq!(strip_html("a\u{3000}\u{a0}b"), "a b");
}

#[test]
fn line_feeds_are_kept() {
    assert_eq!(strip_html("a\nb"), "a\nb");
    assert_eq!(strip_html("a\n\nb"), "a\n\nb");
    assert_eq!(strip_html("a  \n  b"), "a \n b");
    assert_eq!(strip_html("<p>one</p>\n<p>two</p>"), "one\ntwo");
}

#[test]
fn ends_are_trimmed_of_all_whitespace() {
    assert_eq!(strip_html("  a b  "), "a b");
    assert_eq!(strip_html("\n\na\n\n"), "a");
    assert_eq!(strip_html("<div> </div>text<div>\n</div>"), "text");
}

#[test]
fn output_of_markup_has_no_brackets() {
    let inputs = [
        "<p>Hello <b>world</b></p>",
        "<<>>",
        "a<b>c</b>d<e",
        "<ul><li>x</li><li>y</li></ul>",
        "no markup at all",
    ];
    for input in inputs {
        let out = strip_html(input);
        assert!(!out.contains('<'), "{input}");
        assert!(!out.contains('>'), "{input}");
    }
}

#[test]
fn output_has_no_entity_left_when_no_ampersand_was_escaped() {
    let inputs = ["a&nbsp;b&lt;c&gt;d&quot;e&#39;f&apos;g", "&nbsp;&nbsp;&nbsp;", "&lt;&lt;&gt;&gt;"];
    for input in inputs {
        let out = strip_html(input);
        for entity in ["&nbsp;", "&amp;", "&lt;", "&gt;", "&quot;", "&#39;", "&apos;"] {
            assert!(!out.contains(entity), "{input}");
        }
    }
}

#[test]
fn truncate_cuts_long_text() {
    assert_eq!(truncate("abcdefghij", 5), "ab...");
}

#[test]
fn truncate_keeps_short_text() {
    assert_eq!(truncate("ab", 5), "ab");
}

#[test]
fn truncate_keeps_text_of_exactly_the_length() {
    assert_eq!(truncate("abcde", 5), "abcde");
    assert_eq!(truncate("abcdef", 5), "ab...");
}

#[test]
fn truncate_below_three_keeps_nothing() {
    assert_eq!(truncate("abcdef", 2), "...");
    assert_eq!(truncate("abcdef", 0), "...");
    assert_eq!(truncate("abcdef", 3), "...");
    assert_eq!(truncate("abcdef", 4), "a...");
    assert_eq!(truncate("", 0), "");
}

#[test]
fn truncate_counts_characters() {
    assert_eq!(truncate("äöüß", 4), "äöüß");
    assert_eq!(truncate("äöüßé", 4), "ä...");
}
