//! The rules of the command line: which note a title stands for, what each
//! command shows, and the search in two tiers. Reading the store and writing to
//! the terminal are the caller's part.

use vstd::prelude::*;
use crate::chars::{
    contains, decimal, decimal_text, from_chars, has_substring, is_whitespace, lemma_no_words,
    lowercase, push_all, replace_all, replaced, split_words, to_chars, to_lower, words,
};
use crate::hierarchy::{
    get_item_path, item_path, row_views, sorted_by_order, tree_rows, tree_view,
};
use crate::item::{live_items, views, without_deleted, Item, ItemKind, ItemView};
use crate::normalize::{normalized, strip_html, truncate, truncated};
use crate::search::{
    candidates_in_range, hit_views, index_candidates, index_matches, is_searchable, searchable,
    text_or_empty, title_holds, title_matches, Candidate, FtsHit, HitView,
};

verus! {

/// The arguments of the program.
#[derive(Debug)]
pub struct Cli {
    /// The id of a note to open in the window.
    pub open_note: Option<String>,
    pub command: Option<Commands>,
}

/// The commands of the command line.
#[derive(Debug)]
pub enum Commands {
    /// List all notes.
    List {
        /// Show the whole text of each note, not its first line.
        full: bool,
    },
    /// Search notes by content or title.
    Search { query: String },
    /// Open a note by title in the window.
    Open {
        /// The title, in any case of letters.
        title: String,
        /// Which of several notes with this title, counted from 1.
        number: Option<usize>,
    },
    /// Open a note by id in the window.
    Id { id: String },
    /// Show all items as a tree.
    Tree,
    /// Show the content of a note.
    Show {
        /// The title, in any case of letters.
        title: String,
        /// Which of several notes with this title, counted from 1.
        number: Option<usize>,
        /// Show the stored markup as it is.
        raw: bool,
    },
}

/// Whether the arguments ask for a command of the command line. With a note to
/// open, or without a command, the window is started instead.
pub fn runs_command(cli: &Cli) -> (r: bool)
    ensures
        r == (cli.open_note is None && cli.command is Some),
{
    cli.open_note.is_none() && cli.command.is_some()
}

/// Which of the candidates for a title is meant.
#[derive(Clone, Copy, Debug, PartialEq, Eq, Structural)]
pub enum Selection {
    /// There is no candidate.
    NotFound,
    /// The candidate at this position.
    Chosen(usize),
    /// There are several candidates and no number says which: the caller shows
    /// them all and asks for a number.
    Ambiguous,
    /// There are several candidates and the number names none of them.
    InvalidNumber,
}

/// Which of `count` candidates the number picks. A single candidate is taken
/// whatever the number; among several, the number counts from 1.
pub open spec fn selected(count: usize, number: Option<usize>) -> Selection {
    if count == 0 {
        Selection::NotFound
    } else if count == 1 {
        Selection::Chosen(0)
    } else {
        match number {
            None => Selection::Ambiguous,
            Some(n) => if 1 <= n <= count {
                Selection::Chosen((n - 1) as usize)
            } else {
                Selection::InvalidNumber
            },
        }
    }
}

/// Picks one of the notes found for a title.
pub fn select_note(notes: &Vec<Item>, number: Option<usize>) -> (choice: Selection)
    ensures
        choice == selected(notes.len(), number),
        choice matches Selection::Chosen(i) ==> i < notes.len(),
{
    if notes.len() == 0 {
        return Selection::NotFound;
    }
    if notes.len() == 1 {
        return Selection::Chosen(0);
    }
    match number {
        Some(n) => {
            if n > 0 && n <= notes.len() {
                Selection::Chosen(n - 1)
            } else {
                Selection::InvalidNumber
            }
        },
        None => Selection::Ambiguous,
    }
}

/// The status with which a command ends after a selection: 0 if a note was
/// chosen, 1 if not.
pub fn exit_status(choice: Selection) -> (status: i32)
    ensures
        status == (if choice is Chosen { 0i32 } else { 1i32 }),
{
    match choice {
        Selection::Chosen(_) => 0,
        _ => 1,
    }
}

/// What is said of a number that names none of `count` candidates.
pub open spec fn invalid_number_text(number: usize, count: usize) -> Seq<char> {
    "Invalid number "@ + decimal_text(number as nat) + ". Use 1-"@ + decimal_text(count as nat)
}

/// What is said of a number that names none of `count` candidates.
pub fn invalid_number_message(number: usize, count: usize) -> (message: String)
    ensures
        message@ == invalid_number_text(number, count),
{
    let mut out = to_chars("Invalid number ");
    push_all(&mut out, &decimal(number));
    push_all(&mut out, &to_chars(". Use 1-"));
    push_all(&mut out, &decimal(count));
    from_chars(&out)
}

/// The line that shows the candidate at position `i` for choosing.
pub open spec fn candidate_line(item: ItemView, i: int) -> Seq<char> {
    "  "@ + decimal_text((i + 1) as nat) + ". "@ + item.title + " (ID: "@ + item.id + ")"@
}

/// The lines that show all candidates for choosing, numbered from 1.
pub fn candidate_lines(notes: &Vec<Item>) -> (lines: Vec<String>)
    ensures
        lines@.len() == notes@.len(),
        forall|i: int|
            0 <= i < notes@.len() ==> (#[trigger] lines@[i])@ == candidate_line(notes@[i]@, i),
{
    let mut lines: Vec<String> = Vec::new();
    let mut i: usize = 0;
    while i < notes.len()
        invariant
            i <= notes.len(),
            lines@.len() == i,
            forall|k: int| 0 <= k < i ==> (#[trigger] lines@[k])@ == candidate_line(notes@[k]@, k),
        decreases notes.len() - i,
    {
        let mut out = to_chars("  ");
        push_all(&mut out, &decimal(i + 1));
        push_all(&mut out, &to_chars(". "));
        push_all(&mut out, &to_chars(notes[i].title.as_str()));
        push_all(&mut out, &to_chars(" (ID: "));
        push_all(&mut out, &to_chars(notes[i].id.as_str()));
        push_all(&mut out, &to_chars(")"));
        lines.push(from_chars(&out));
        i += 1;
    }
    lines
}

/// How many characters of a note the lists show.
pub const LIST_PREVIEW_CHARS: usize = 60;

/// How many results the search of the command line gives at most.
pub const SEARCH_LIMIT: usize = 10;

/// `s` on one line: every line feed replaced by a space.
pub open spec fn on_one_line(s: Seq<char>) -> Seq<char> {
    replaced(s, "\n"@, " "@)
}

/// What a list shows of a note: all of its plain text, or its start on one line.
pub open spec fn list_preview(content: Seq<char>, full: bool) -> Seq<char> {
    let plain = normalized(content);
    if full {
        plain
    } else {
        truncated(on_one_line(plain), LIST_PREVIEW_CHARS as nat)
    }
}

/// What a list shows of a note with the given content.
pub fn preview(content: &str, full: bool) -> (text: String)
    ensures
        text@ == list_preview(content@, full),
{
    let plain = strip_html(content);
    if full {
        plain
    } else {
        let line = replace_all(&to_chars(plain.as_str()), &to_chars("\n"), &to_chars(" "));
        truncate(from_chars(&line).as_str(), LIST_PREVIEW_CHARS)
    }
}

/// The raw content of an item, empty where it has none.
pub fn content_of(item: &Item) -> (text: String)
    ensures
        text@ == text_or_empty(item@.content),
{
    match &item.content {
        Some(c) => c.clone(),
        None => String::new(),
    }
}

/// A line of a list of notes.
#[derive(Clone, Debug)]
pub struct NoteLine {
    /// The title of the note, or its path where the list shows paths.
    pub heading: String,
    pub preview: String,
}

/// The lines for the notes among the first `n` items, in table order. Books and
/// sections are left out.
pub open spec fn note_list_upto(items: Seq<ItemView>, full: bool, n: int) -> Seq<
    (Seq<char>, Seq<char>),
>
    decreases n,
{
    if n <= 0 {
        Seq::empty()
    } else if items[n - 1].kind == ItemKind::Note {
        note_list_upto(items, full, n - 1).push(
            (items[n - 1].title, list_preview(text_or_empty(items[n - 1].content), full)),
        )
    } else {
        note_list_upto(items, full, n - 1)
    }
}

/// Lines as the contracts see them.
pub open spec fn line_views(lines: Seq<NoteLine>) -> Seq<(Seq<char>, Seq<char>)> {
    lines.map_values(|l: NoteLine| (l.heading@, l.preview@))
}

/// The list of all notes: for each note its title and its preview.
pub fn note_list(items: &Vec<Item>, full: bool) -> (lines: Vec<NoteLine>)
    ensures
        line_views(lines@) == note_list_upto(views(items@), full, items@.len() as int),
{
    let ghost table = views(items@);
    let mut lines: Vec<NoteLine> = Vec::new();
    let mut i: usize = 0;
    while i < items.len()
        invariant
            i <= items.len(),
            table == views(items@),
            line_views(lines@) == note_list_upto(table, full, i as int),
        decreases items.len() - i,
    {
        assert(table[i as int] == items@[i as int]@);
        if items[i].kind == ItemKind::Note {
            let ghost before = line_views(lines@);
            let line = NoteLine {
                heading: items[i].title.clone(),
                preview: preview(content_of(&items[i]).as_str(), full),
            };
            lines.push(line);
            proof {
                assert(line_views(lines@) == before.push((line.heading@, line.preview@)));
            }
        }
        i += 1;
    }
    lines
}

/// Whether the content of `item`, in lower case, holds `query_lower`.
pub open spec fn content_holds(item: ItemView, query_lower: Seq<char>) -> bool {
    has_substring(lowercase(text_or_empty(item.content)), query_lower)
}

/// The positions among the first `n` items of the notes whose title or content
/// holds the query in any case of letters, in table order.
pub open spec fn substring_matches_upto(items: Seq<ItemView>, query_lower: Seq<char>, n: int)
    -> Seq<int>
    decreases n,
{
    if n <= 0 {
        Seq::empty()
    } else if searchable(items[n - 1]) && (title_holds(items[n - 1], query_lower) || content_holds(
        items[n - 1],
        query_lower,
    )) {
        substring_matches_upto(items, query_lower, n - 1).push(n - 1)
    } else {
        substring_matches_upto(items, query_lower, n - 1)
    }
}

/// The second tier of the search: the notes that hold the query as a substring.
pub open spec fn substring_matches(items: Seq<ItemView>, query: Seq<char>) -> Seq<int> {
    substring_matches_upto(items, lowercase(query), items.len() as int)
}

/// The first tier of the search: the notes that the index found, best first.
/// An index that failed found nothing.
pub open spec fn ranked_matches(items: Seq<ItemView>, primary: Option<Seq<HitView>>) -> Seq<int> {
    match primary {
        Some(hits) => index_matches(items, hits).map_values(|c: Candidate| c.index as int),
        None => Seq::empty(),
    }
}

/// What the search of the command line returns. A query without words finds
/// nothing. Else the first tier decides if it found anything; only if it failed or
/// found nothing, the second tier is used. At most `SEARCH_LIMIT` notes are
/// returned.
pub open spec fn two_tier_results(
    items: Seq<ItemView>,
    primary: Option<Seq<HitView>>,
    query: Seq<char>,
) -> Seq<int> {
    if words(query).len() == 0 {
        Seq::empty()
    } else {
        let first = ranked_matches(items, primary);
        let chosen = if first.len() > 0 {
            first
        } else {
            substring_matches(items, query)
        };
        if chosen.len() <= SEARCH_LIMIT {
            chosen
        } else {
            chosen.take(SEARCH_LIMIT as int)
        }
    }
}

/// What the caller knows of the first tier.
pub open spec fn primary_view(primary: Option<&Vec<FtsHit>>) -> Option<Seq<HitView>> {
    match primary {
        Some(hits) => Some(hit_views(hits@)),
        None => None,
    }
}

/// Positions as the contracts count them.
pub open spec fn positions(v: Seq<usize>) -> Seq<int> {
    v.map_values(|x: usize| x as int)
}

/// The second tier: scans the table for notes whose title or content holds the
/// query in any case of letters.
pub fn substring_scan(items: &Vec<Item>, query: &str) -> (found: Vec<usize>)
    ensures
        positions(found@) == substring_matches(views(items@), query@),
        forall|k: int| 0 <= k < found.len() ==> found@[k] < items.len(),
{
    let ghost table = views(items@);
    let query_lower = to_chars(to_lower(query).as_str());
    let mut found: Vec<usize> = Vec::new();
    let mut i: usize = 0;
    while i < items.len()
        invariant
            i <= items.len(),
            table == views(items@),
            query_lower@ == lowercase(query@),
            positions(found@) == substring_matches_upto(table, query_lower@, i as int),
            forall|k: int| 0 <= k < found.len() ==> found@[k] < items.len(),
        decreases items.len() - i,
    {
        assert(table[i as int] == items@[i as int]@);
        if is_searchable(&items[i]) && (title_matches(&items[i], &query_lower) || content_matches(
            &items[i],
            &query_lower,
        )) {
            let ghost before = positions(found@);
            found.push(i);
            proof {
                assert(positions(found@) == before.push(i as int));
            }
        }
        i += 1;
    }
    found
}

/// Whether the content of `item`, in lower case, holds `query_lower`.
pub fn content_matches(item: &Item, query_lower: &Vec<char>) -> (r: bool)
    ensures
        r == content_holds(item@, query_lower@),
{
    let lower = to_lower(content_of(item).as_str());
    contains(&to_chars(lower.as_str()), query_lower)
}

/// Searches the notes of `items` for `query` in two tiers. `primary` is what the
/// full-text index gave for the query, best first, or `None` if asking it failed.
/// The result holds the positions of the notes found, in the order to show them.
pub fn search_notes(items: &Vec<Item>, primary: Option<&Vec<FtsHit>>, query: &str) -> (found: Vec<
    usize,
>)
    ensures
        positions(found@) == two_tier_results(views(items@), primary_view(primary), query@),
        forall|k: int| 0 <= k < found.len() ==> found@[k] < items.len(),
{
    let mut found: Vec<usize> = Vec::new();
    if split_words(&to_chars(query)).len() == 0 {
        assert(positions(found@) == Seq::<int>::empty());
        return found;
    }
    let ghost table = views(items@);
    let mut chosen: Vec<usize> = Vec::new();
    match primary {
        Some(hits) => {
            let ranked = index_candidates(items, hits);
            let mut k: usize = 0;
            while k < ranked.len()
                invariant
                    k <= ranked.len(),
                    positions(chosen@) == ranked@.take(k as int).map_values(
                        |c: Candidate| c.index as int,
                    ),
                    forall|j: int| 0 <= j < chosen.len() ==> chosen@[j] < items.len(),
                    candidates_in_range(ranked@, items@.len(), hits@.len()),
                decreases ranked.len() - k,
            {
                let ghost before = positions(chosen@);
                chosen.push(ranked[k].index);
                proof {
                    assert(positions(chosen@) == before.push(ranked@[k as int].index as int));
                    assert(ranked@.take(k + 1) == ranked@.take(k as int).push(ranked@[k as int]));
                }
                k += 1;
            }
            proof {
                assert(ranked@.take(ranked.len() as int) == ranked@);
            }
        },
        None => {
            assert(positions(chosen@) == Seq::<int>::empty());
        },
    }
    assert(positions(chosen@) == ranked_matches(table, primary_view(primary)));
    if chosen.len() == 0 {
        chosen = substring_scan(items, query);
    }
    let shown: usize = if chosen.len() <= SEARCH_LIMIT {
        chosen.len()
    } else {
        SEARCH_LIMIT
    };
    let mut k: usize = 0;
    while k < shown
        invariant
            k <= shown <= chosen.len(),
            positions(found@) == positions(chosen@).take(k as int),
            forall|j: int| 0 <= j < chosen.len() ==> chosen@[j] < items.len(),
            forall|j: int| 0 <= j < found.len() ==> found@[j] < items.len(),
        decreases shown - k,
    {
        let ghost before = positions(found@);
        found.push(chosen[k]);
        proof {
            assert(positions(found@) == before.push(chosen@[k as int] as int));
            assert(positions(chosen@).take(k + 1) == positions(chosen@).take(k as int).push(
                chosen@[k as int] as int,
            ));
        }
        k += 1;
    }
    proof {
        if chosen.len() <= SEARCH_LIMIT {
            assert(positions(chosen@).take(shown as int) == positions(chosen@));
        }
    }
    found
}

/// The heading of a search report: how many notes were found, or that none was.
pub open spec fn search_heading_text(count: usize, query: Seq<char>) -> Seq<char> {
    if count == 0 {
        "No notes found matching '"@ + query + "'"@
    } else if count == 1 {
        "Found 1 result:"@
    } else {
        "Found "@ + decimal_text(count as nat) + " results:"@
    }
}

/// The heading of a search report.
pub fn search_heading(count: usize, query: &str) -> (heading: String)
    ensures
        heading@ == search_heading_text(count, query@),
{
    if count == 0 {
        let mut out = to_chars("No notes found matching '");
        push_all(&mut out, &to_chars(query));
        push_all(&mut out, &to_chars("'"));
        from_chars(&out)
    } else if count == 1 {
        "Found 1 result:".to_owned()
    } else {
        let mut out = to_chars("Found ");
        push_all(&mut out, &decimal(count));
        push_all(&mut out, &to_chars(" results:"));
        from_chars(&out)
    }
}

/// The lines of a search report: for each note found, its path and the start of
/// its text on one line.
pub fn search_report(items: &Vec<Item>, found: &Vec<usize>) -> (lines: Vec<NoteLine>)
    requires
        forall|k: int| 0 <= k < found.len() ==> found@[k] < items.len(),
    ensures
        lines@.len() == found@.len(),
        forall|k: int|
            0 <= k < found@.len() ==> {
                let note = views(items@)[found@[k] as int];
                &&& (#[trigger] lines@[k]).heading@ == item_path(views(items@), note.id)
                &&& lines@[k].preview@ == list_preview(text_or_empty(note.content), false)
            },
{
    let ghost table = views(items@);
    let mut lines: Vec<NoteLine> = Vec::new();
    let mut k: usize = 0;
    while k < found.len()
        invariant
            k <= found.len(),
            table == views(items@),
            forall|j: int| 0 <= j < found.len() ==> found@[j] < items.len(),
            lines@.len() == k,
            forall|j: int|
                0 <= j < k ==> {
                    let note = table[found@[j] as int];
                    &&& (#[trigger] lines@[j]).heading@ == item_path(table, note.id)
                    &&& lines@[j].preview@ == list_preview(text_or_empty(note.content), false)
                },
        decreases found.len() - k,
    {
        let note = &items[found[k]];
        assert(table[found@[k as int] as int] == note@);
        lines.push(
            NoteLine {
                heading: get_item_path(items, note.id.as_str()),
                preview: preview(content_of(note).as_str(), false),
            },
        );
        k += 1;
    }
    lines
}

/// The sign that the tree shows before an item.
pub open spec fn icon(kind: ItemKind) -> char {
    match kind {
        ItemKind::Book => '\u{1F4DA}',
        ItemKind::Section => '\u{1F4C1}',
        ItemKind::Note => '\u{1F4DD}',
    }
}

/// Two spaces for each level of depth.
pub open spec fn indent(depth: nat) -> Seq<char>
    decreases depth,
{
    if depth == 0 {
        Seq::empty()
    } else {
        indent((depth - 1) as nat) + "  "@
    }
}

/// The line of the tree for an item at a depth: indentation, sign, title.
pub open spec fn tree_line(item: ItemView, depth: nat) -> Seq<char> {
    indent(depth) + seq![icon(item.kind), ' '] + item.title
}

/// The line of the tree for an item at a depth.
pub fn format_tree_line(item: &Item, depth: usize) -> (line: String)
    ensures
        line@ == tree_line(item@, depth as nat),
{
    let mut out: Vec<char> = Vec::new();
    let mut d: usize = 0;
    let two = to_chars("  ");
    while d < depth
        invariant
            d <= depth,
            two@ == "  "@,
            out@ == indent(d as nat),
        decreases depth - d,
    {
        push_all(&mut out, &two);
        d += 1;
    }
    let sign = match item.kind {
        ItemKind::Book => '\u{1F4DA}',
        ItemKind::Section => '\u{1F4C1}',
        ItemKind::Note => '\u{1F4DD}',
    };
    out.push(sign);
    out.push(' ');
    proof {
        assert(out@ == indent(depth as nat) + seq![icon(item@.kind), ' ']);
    }
    push_all(&mut out, &to_chars(item.title.as_str()));
    from_chars(&out)
}

/// The tree of all items that have not been deleted, one line for each: roots
/// first, each followed by all that lies below it, siblings in table order.
pub fn tree_lines(items: &Vec<Item>) -> (lines: Vec<String>)
    ensures
        ({
            let live = without_deleted(views(items@));
            let rows = tree_view(live);
            &&& lines@.len() == rows.len()
            &&& forall|k: int|
                0 <= k < rows.len() ==> (#[trigger] lines@[k])@ == tree_line(
                    live[rows[k].0],
                    rows[k].1,
                )
        }),
{
    let live = live_items(items);
    let rows = tree_rows(&live);
    let ghost table = views(live@);
    let ghost view = tree_view(table);
    let mut lines: Vec<String> = Vec::new();
    let mut k: usize = 0;
    while k < rows.len()
        invariant
            k <= rows.len(),
            table == views(live@),
            view == row_views(rows@),
            forall|j: int| 0 <= j < rows.len() ==> (#[trigger] rows@[j]).index < live.len(),
            lines@.len() == k,
            forall|j: int|
                0 <= j < k ==> (#[trigger] lines@[j])@ == tree_line(table[view[j].0], view[j].1),
        decreases rows.len() - k,
    {
        let row = rows[k];
        assert(view[k as int] == (row.index as int, row.depth as nat));
        assert(table[row.index as int] == live@[row.index as int]@);
        lines.push(format_tree_line(&live[row.index], row.depth));
        k += 1;
    }
    lines
}

/// What the `show` command prints of a note: its stored markup as it is, or its
/// plain text.
pub fn shown_content(note: &Item, raw: bool) -> (text: String)
    ensures
        text@ == (if raw {
            text_or_empty(note@.content)
        } else {
            normalized(text_or_empty(note@.content))
        }),
{
    if raw {
        content_of(note)
    } else {
        strip_html(content_of(note).as_str())
    }
}

/// The argument that tells the window which note to open.
pub fn open_note_argument(note_id: &str) -> (arg: String)
    ensures
        arg@ == "--open-note="@ + note_id@,
{
    let mut out = to_chars("--open-note=");
    push_all(&mut out, &to_chars(note_id));
    from_chars(&out)
}

/// A query of nothing but whitespace finds nothing, whatever the table and the
/// index hold.
pub proof fn lemma_blank_query_finds_nothing(
    items: Seq<ItemView>,
    primary: Option<Seq<HitView>>,
    query: Seq<char>,
)
    requires
        forall|i: int| 0 <= i < query.len() ==> is_whitespace(query[i]),
    ensures
        two_tier_results(items, primary, query) == Seq::<int>::empty(),
{
    lemma_no_words(query);
}

/// What the first tier found is the result, up to the limit, whenever it found
/// anything: the second tier then has no say.
pub proof fn lemma_first_tier_wins(
    items: Seq<ItemView>,
    hits: Seq<HitView>,
    query: Seq<char>,
)
    requires
        words(query).len() > 0,
        ranked_matches(items, Some(hits)).len() > 0,
    ensures
        ({
            let first = ranked_matches(items, Some(hits));
            two_tier_results(items, Some(hits), query) == (if first.len() <= SEARCH_LIMIT {
                first
            } else {
                first.take(SEARCH_LIMIT as int)
            })
        }),
{
}

/// What the second tier holds, and in which order: exactly the positions of the
/// searchable notes whose title or content holds the query, each once, in table
/// order.
pub proof fn lemma_substring_matches(
    items: Seq<ItemView>,
    query_lower: Seq<char>,
    n: int,
    i: int,
    a: int,
    b: int,
)
    requires
        n <= items.len(),
    ensures
        substring_matches_upto(items, query_lower, n).contains(i) <==> 0 <= i < n && searchable(
            items[i],
        ) && (title_holds(items[i], query_lower) || content_holds(items[i], query_lower)),
        0 <= a < substring_matches_upto(items, query_lower, n).len() ==> 0
            <= substring_matches_upto(items, query_lower, n)[a] < n,
        0 <= a < b < substring_matches_upto(items, query_lower, n).len()
            ==> substring_matches_upto(items, query_lower, n)[a] < substring_matches_upto(
            items,
            query_lower,
            n,
        )[b],
    decreases n,
{
    if n > 0 {
        lemma_substring_matches(items, query_lower, n - 1, i, a, b);
        lemma_substring_matches(items, query_lower, n - 1, i, a, a);
        let before = substring_matches_upto(items, query_lower, n - 1);
        if searchable(items[n - 1]) && (title_holds(items[n - 1], query_lower) || content_holds(
            items[n - 1],
            query_lower,
        )) {
            assert(before.push(n - 1)[before.len() as int] == n - 1);
            assert forall|k: int| 0 <= k < before.len() implies before.push(n - 1)[k]
                == before[k] by {}
        }
    }
}

/// In a table sorted by `sort_order`, the second tier gives its notes in that
/// order.
pub proof fn lemma_substring_matches_sorted(
    items: Seq<ItemView>,
    query: Seq<char>,
    a: int,
    b: int,
)
    requires
        sorted_by_order(items),
        0 <= a <= b < substring_matches(items, query).len(),
    ensures
        items[substring_matches(items, query)[a]].sort_order <= items[substring_matches(
            items,
            query,
        )[b]].sort_order,
{
    let n = items.len() as int;
    lemma_substring_matches(items, lowercase(query), n, 0, a, b);
    lemma_substring_matches(items, lowercase(query), n, 0, b, b);
}

/// A search depends on nothing but the table, what the index gave and the query:
/// two searches with the same of each find the same notes in the same order.
pub proof fn lemma_search_repeatable(
    first: Seq<usize>,
    second: Seq<usize>,
    items: Seq<ItemView>,
    primary: Option<Seq<HitView>>,
    query: Seq<char>,
)
    requires
        positions(first) == two_tier_results(items, primary, query),
        positions(second) == two_tier_results(items, primary, query),
    ensures
        first == second,
{
    assert(first.len() == positions(first).len());
    assert(second.len() == positions(second).len());
    assert forall|k: int| 0 <= k < first.len() implies first[k] == second[k] by {
        assert(positions(first)[k] == first[k] as int);
        assert(positions(second)[k] == second[k] as int);
    }
    assert(first =~= second);
}

/// An index that failed counts as one that found nothing.
pub proof fn lemma_failed_index_falls_back(items: Seq<ItemView>, query: Seq<char>)
    ensures
        two_tier_results(items, None, query) == two_tier_results(
            items,
            Some(Seq::<HitView>::empty()),
            query,
        ),
{
    assert(index_matches(items, Seq::<HitView>::empty()).map_values(
        |c: Candidate| c.index as int,
    ) =~= Seq::<int>::empty());
}

} // verus!
