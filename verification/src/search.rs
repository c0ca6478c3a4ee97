//! Ranked search over a snapshot of the item table. The full-text index ranks its
//! own hits; this module joins them with the table, adds the notes that lie in a
//! container whose title matches, and describes each result for display.

use vstd::prelude::*;
use vstd::string::*;
use crate::chars::{
    contains, from_chars, has_substring, is_whitespace, join, joined, lemma_no_words, lowercase,
    remove_char, split_words, texts, to_chars, to_lower, without_char, words,
};
use crate::hierarchy::{parent_of, parent_position};
use crate::item::{find_item, lemma_lookup_first, lookup, text_of, views, Item, ItemKind, ItemView};
use crate::normalize::{normalized, truncate, truncated};

verus! {

/// How many results a search gives at most.
pub const RESULT_LIMIT: usize = 15;

/// How many characters of a note a result shows.
pub const PREVIEW_CHARS: usize = 80;

/// The average length of a word, markup included, by which words are estimated.
pub const CHARS_PER_WORD: usize = 6;

/// Why a note is among the results.
#[derive(Clone, Copy, Debug, PartialEq, Eq, Structural)]
pub enum MatchType {
    /// The query occurs in the note's title.
    Title,
    /// The index matched the note, and the query does not occur in its title.
    Content,
    /// The note lies in a book or section whose title holds the query.
    Parent,
}

impl MatchType {
    /// The name of the match type as results carry it.
    pub open spec fn label_text(self) -> Seq<char> {
        match self {
            MatchType::Title => "title"@,
            MatchType::Content => "content"@,
            MatchType::Parent => "parent"@,
        }
    }

    /// The name of the match type as results carry it.
    pub fn label(&self) -> (name: String)
        ensures
            name@ == self.label_text(),
    {
        match self {
            MatchType::Title => "title".to_owned(),
            MatchType::Content => "content".to_owned(),
            MatchType::Parent => "parent".to_owned(),
        }
    }
}

/// A row of the full-text index that matched the query: the item and the excerpt
/// that the index cut out around the match. The index hands its rows over best
/// first.
#[derive(Clone, Debug)]
pub struct FtsHit {
    pub item_id: String,
    pub snippet: String,
}

/// A hit as the contracts see it.
pub struct HitView {
    pub item_id: Seq<char>,
    pub snippet: Seq<char>,
}

impl View for FtsHit {
    type V = HitView;

    open spec fn view(&self) -> HitView {
        HitView { item_id: self.item_id@, snippet: self.snippet@ }
    }
}

/// The hits as the contracts see them.
pub open spec fn hit_views(hits: Seq<FtsHit>) -> Seq<HitView> {
    hits.map_values(|h: FtsHit| h@)
}

/// One result of a search.
#[derive(Clone, Debug)]
pub struct SearchResult {
    pub id: String,
    pub title: String,
    /// The excerpt of the index; empty for a result that the index did not find.
    pub snippet: String,
    /// The start of the note as plain text.
    pub content_preview: String,
    /// The title of the book the note lies in, if it lies in one.
    pub book_name: Option<String>,
    /// The title of the section the note lies in, if it lies in one.
    pub section_name: Option<String>,
    pub match_type: MatchType,
    /// An estimate of the number of words in the note.
    pub word_count: usize,
}

/// A result as the contracts see it.
pub struct ResultView {
    pub id: Seq<char>,
    pub title: Seq<char>,
    pub snippet: Seq<char>,
    pub content_preview: Seq<char>,
    pub book_name: Option<Seq<char>>,
    pub section_name: Option<Seq<char>>,
    pub match_type: MatchType,
    pub word_count: nat,
}

impl View for SearchResult {
    type V = ResultView;

    open spec fn view(&self) -> ResultView {
        ResultView {
            id: self.id@,
            title: self.title@,
            snippet: self.snippet@,
            content_preview: self.content_preview@,
            book_name: text_of(self.book_name),
            section_name: text_of(self.section_name),
            match_type: self.match_type,
            word_count: self.word_count as nat,
        }
    }
}

/// The results as the contracts see them.
pub open spec fn result_views(results: Seq<SearchResult>) -> Seq<ResultView> {
    results.map_values(|r: SearchResult| r@)
}

/// A word of the query as the index is asked for it: without its double quotes,
/// and with `*` behind it, so that it matches every word that begins with it.
pub open spec fn prefix_term(word: Seq<char>) -> Seq<char> {
    without_char(word, '"').push('*')
}

/// The query for the full-text index: the words of the input as prefix terms, with
/// one space between them.
pub open spec fn fts_query_of(query: Seq<char>) -> Seq<char> {
    joined(words(query).map_values(|w: Seq<char>| prefix_term(w)), " "@)
}

/// Builds the query for the full-text index, or `None` for an input without any
/// word: then there is nothing to ask the index for, and the search is empty.
pub fn fts_query(query: &str) -> (q: Option<String>)
    ensures
        words(query@).len() == 0 ==> q is None,
        words(query@).len() > 0 ==> q is Some && q->0@ == fts_query_of(query@),
{
    let text = to_chars(query);
    let tokens = split_words(&text);
    if tokens.len() == 0 {
        return None;
    }
    let mut terms: Vec<Vec<char>> = Vec::new();
    let mut k: usize = 0;
    while k < tokens.len()
        invariant
            k <= tokens.len(),
            texts(tokens@) == words(query@),
            texts(terms@) == words(query@).take(k as int).map_values(
                |w: Seq<char>| prefix_term(w),
            ),
        decreases tokens.len() - k,
    {
        let ghost before = texts(terms@);
        let mut term = remove_char(&tokens[k], '"');
        term.push('*');
        terms.push(term);
        proof {
            let all = words(query@);
            assert(all[k as int] == tokens@[k as int]@);
            assert(texts(terms@) == before.push(prefix_term(all[k as int])));
            assert(all.take(k + 1).map_values(|w: Seq<char>| prefix_term(w)) == all.take(
                k as int,
            ).map_values(|w: Seq<char>| prefix_term(w)).push(prefix_term(all[k as int])));
        }
        k += 1;
    }
    proof {
        assert(words(query@).take(tokens.len() as int) == words(query@));
    }
    Some(from_chars(&join(&terms, &to_chars(" "))))
}

/// The preview of a note: its plain text cut to `PREVIEW_CHARS` characters, the
/// mark of the cut included, or `Empty note` where there is no text.
pub open spec fn preview_of(raw: Seq<char>) -> Seq<char> {
    let plain = normalized(raw);
    if plain.len() == 0 {
        "Empty note"@
    } else {
        truncated(plain, PREVIEW_CHARS as nat)
    }
}

/// The plain text of stored markup as results show it: the same as everywhere
/// else, line feeds kept.
pub fn strip_html(html: &str) -> (plain: String)
    ensures
        plain@ == normalized(html@),
{
    crate::normalize::strip_html(html)
}

/// The preview of a note with the content `raw`.
pub fn content_preview(raw: &str) -> (preview: String)
    ensures
        preview@ == preview_of(raw@),
{
    let plain = strip_html(raw);
    if plain.as_str().unicode_len() == 0 {
        "Empty note".to_owned()
    } else {
        truncate(plain.as_str(), PREVIEW_CHARS)
    }
}

/// The names of the book and of the section a note lies in, from its parent and
/// its parent's parent. Below a section, the section is the parent and the book is
/// the parent's parent; below a book there is no section; anywhere else neither.
pub open spec fn container_names(parent: Option<ItemView>, grandparent: Option<ItemView>) -> (
    Option<Seq<char>>,
    Option<Seq<char>>,
) {
    match parent {
        None => (None, None),
        Some(p) => match p.kind {
            ItemKind::Section => (
                match grandparent {
                    Some(g) => Some(g.title),
                    None => None,
                },
                Some(p.title),
            ),
            ItemKind::Book => (Some(p.title), None),
            ItemKind::Note => (None, None),
        },
    }
}

/// Why a result is there. A result that came in through its container is a parent
/// match whatever its title says; of the others, the title is looked at first, so
/// a note that the index matched on its content is still a title match if the
/// query occurs in its title.
pub open spec fn match_type_of(from_parent: bool, title_lower: Seq<char>, query_lower: Seq<char>)
    -> MatchType {
    if from_parent {
        MatchType::Parent
    } else if has_substring(title_lower, query_lower) {
        MatchType::Title
    } else {
        MatchType::Content
    }
}

/// Classifies a result from the lower-case forms of its title and of the query.
pub fn classify(from_parent: bool, title_lower: &str, query_lower: &str) -> (kind: MatchType)
    ensures
        kind == match_type_of(from_parent, title_lower@, query_lower@),
{
    if from_parent {
        MatchType::Parent
    } else if contains(&to_chars(title_lower), &to_chars(query_lower)) {
        MatchType::Title
    } else {
        MatchType::Content
    }
}

/// The estimated number of words in a text of `chars` characters.
pub open spec fn estimated_words(chars: nat) -> nat {
    chars / (CHARS_PER_WORD as nat)
}

/// Estimates the number of words in the raw content of a note.
pub fn word_count(raw: &str) -> (count: usize)
    ensures
        count == estimated_words(raw@.len()),
{
    raw.unicode_len() / CHARS_PER_WORD
}

/// Whether an item can be a result: only notes are searched, and none that has
/// been deleted.
pub open spec fn searchable(item: ItemView) -> bool {
    item.kind == ItemKind::Note && item.deleted_at is None
}

/// Whether an item can be a result.
pub fn is_searchable(item: &Item) -> (r: bool)
    ensures
        r == searchable(item@),
{
    item.kind == ItemKind::Note && item.deleted_at.is_none()
}

/// A note picked for the results: where it stands in the table, and the hit of the
/// index that brought it in, if one did.
#[derive(Clone, Copy, Debug, PartialEq, Eq, Structural)]
pub struct Candidate {
    pub index: usize,
    pub hit: Option<usize>,
}

/// The notes that the first `n` hits of the index name, in the order of the hits.
/// A hit for an id that the table lacks, or for an item that is not searchable,
/// brings in nothing.
pub open spec fn index_matches_upto(items: Seq<ItemView>, hits: Seq<HitView>, n: int) -> Seq<
    Candidate,
>
    decreases n,
{
    if n <= 0 {
        Seq::empty()
    } else {
        let before = index_matches_upto(items, hits, n - 1);
        match lookup(items, hits[n - 1].item_id) {
            Some(i) => if searchable(items[i]) {
                before.push(Candidate { index: i as usize, hit: Some((n - 1) as usize) })
            } else {
                before
            },
            None => before,
        }
    }
}

/// The notes that the index found, best first.
pub open spec fn index_matches(items: Seq<ItemView>, hits: Seq<HitView>) -> Seq<Candidate> {
    index_matches_upto(items, hits, hits.len() as int)
}

/// Whether one of the picked notes has the id `id`.
pub open spec fn picked(items: Seq<ItemView>, chosen: Seq<Candidate>, id: Seq<char>) -> bool {
    exists|c: int| 0 <= c < chosen.len() && items[(#[trigger] chosen[c]).index as int].id == id
}

/// Whether the title of `item`, in lower case, holds `query_lower`.
pub open spec fn title_holds(item: ItemView, query_lower: Seq<char>) -> bool {
    has_substring(lowercase(item.title), query_lower)
}

/// Whether the note at position `i` lies in a container whose title matches: its
/// parent is a book or a section with a matching title, or its parent's parent is
/// a book with a matching title.
pub open spec fn container_matches(items: Seq<ItemView>, i: int, query_lower: Seq<char>) -> bool {
    match parent_of(items, i) {
        None => false,
        Some(p) => {
            ||| (items[p].kind == ItemKind::Book || items[p].kind == ItemKind::Section)
                && title_holds(items[p], query_lower)
            ||| match parent_of(items, p) {
                None => false,
                Some(g) => items[g].kind == ItemKind::Book && title_holds(items[g], query_lower),
            }
        },
    }
}

/// The notes among the first `n` items that come in through their container, in
/// table order: searchable notes that the index did not find and whose container
/// matches.
pub open spec fn container_matches_upto(
    items: Seq<ItemView>,
    found: Seq<Candidate>,
    query_lower: Seq<char>,
    n: int,
) -> Seq<Candidate>
    decreases n,
{
    if n <= 0 {
        Seq::empty()
    } else {
        let before = container_matches_upto(items, found, query_lower, n - 1);
        if searchable(items[n - 1]) && !picked(items, found, items[n - 1].id) && container_matches(
            items,
            n - 1,
            query_lower,
        ) {
            before.push(Candidate { index: (n - 1) as usize, hit: None })
        } else {
            before
        }
    }
}

/// All notes picked for a query, in the order of the results: first what the index
/// found, best first, then what came in through a container, in table order.
pub open spec fn candidates(items: Seq<ItemView>, hits: Seq<HitView>, query_lower: Seq<char>)
    -> Seq<Candidate> {
    let found = index_matches(items, hits);
    found + container_matches_upto(items, found, query_lower, items.len() as int)
}

/// The item at a position, if there is a position.
pub open spec fn item_at(items: Seq<ItemView>, at: Option<int>) -> Option<ItemView> {
    match at {
        Some(i) => Some(items[i]),
        None => None,
    }
}

/// The text of an optional text, empty where there is none.
pub open spec fn text_or_empty(t: Option<Seq<char>>) -> Seq<char> {
    match t {
        Some(s) => s,
        None => Seq::empty(),
    }
}

/// The result that describes a picked note.
pub open spec fn result_of(
    items: Seq<ItemView>,
    hits: Seq<HitView>,
    c: Candidate,
    query_lower: Seq<char>,
) -> ResultView {
    let note = items[c.index as int];
    let parent = parent_of(items, c.index as int);
    let grandparent = match parent {
        Some(p) => parent_of(items, p),
        None => None,
    };
    let names = container_names(item_at(items, parent), item_at(items, grandparent));
    ResultView {
        id: note.id,
        title: note.title,
        snippet: match c.hit {
            Some(h) => hits[h as int].snippet,
            None => Seq::empty(),
        },
        content_preview: preview_of(text_or_empty(note.content)),
        book_name: names.0,
        section_name: names.1,
        match_type: match_type_of(c.hit is None, lowercase(note.title), query_lower),
        word_count: estimated_words(text_or_empty(note.content).len()),
    }
}

/// What a search returns: nothing for a query without words; else the results for
/// the picked notes, in their order, `RESULT_LIMIT` of them at most.
pub open spec fn search_results(items: Seq<ItemView>, hits: Seq<HitView>, query: Seq<char>)
    -> Seq<ResultView> {
    if words(query).len() == 0 {
        Seq::empty()
    } else {
        let all = candidates(items, hits, lowercase(query));
        let shown = if all.len() <= RESULT_LIMIT {
            all
        } else {
            all.take(RESULT_LIMIT as int)
        };
        shown.map_values(|c: Candidate| result_of(items, hits, c, lowercase(query)))
    }
}

/// Whether the candidates all point into the table and at hits that exist.
pub open spec fn candidates_in_range(chosen: Seq<Candidate>, items: nat, hits: nat) -> bool {
    forall|c: int|
        0 <= c < chosen.len() ==> (#[trigger] chosen[c]).index < items && (chosen[c].hit is Some
            ==> chosen[c].hit->0 < hits)
}

/// The notes that the index found, best first.
pub fn index_candidates(items: &Vec<Item>, hits: &Vec<FtsHit>) -> (found: Vec<Candidate>)
    ensures
        found@ == index_matches(views(items@), hit_views(hits@)),
        candidates_in_range(found@, items@.len(), hits@.len()),
{
    let ghost table = views(items@);
    let ghost rows = hit_views(hits@);
    let mut found: Vec<Candidate> = Vec::new();
    let mut k: usize = 0;
    while k < hits.len()
        invariant
            k <= hits.len(),
            table == views(items@),
            rows == hit_views(hits@),
            found@ == index_matches_upto(table, rows, k as int),
            candidates_in_range(found@, items@.len(), hits@.len()),
        decreases hits.len() - k,
    {
        assert(rows[k as int] == hits@[k as int]@);
        match find_item(items, &hits[k].item_id) {
            Some(i) => {
                proof {
                    lemma_lookup_first(table, rows[k as int].item_id, i as int);
                    assert(table[i as int] == items@[i as int]@);
                }
                if is_searchable(&items[i]) {
                    found.push(Candidate { index: i, hit: Some(k) });
                }
            },
            None => {},
        }
        k += 1;
    }
    found
}

/// Whether one of the picked notes has the id `id`.
pub fn is_picked(items: &Vec<Item>, chosen: &Vec<Candidate>, id: &String) -> (r: bool)
    requires
        forall|c: int| 0 <= c < chosen.len() ==> (#[trigger] chosen@[c]).index < items.len(),
    ensures
        r == picked(views(items@), chosen@, id@),
{
    let ghost table = views(items@);
    let mut c: usize = 0;
    while c < chosen.len()
        invariant
            c <= chosen.len(),
            table == views(items@),
            forall|d: int| 0 <= d < chosen.len() ==> (#[trigger] chosen@[d]).index < items.len(),
            forall|d: int| 0 <= d < c ==> table[(#[trigger] chosen@[d]).index as int].id != id@,
        decreases chosen.len() - c,
    {
        let at = chosen[c].index;
        assert(table[at as int] == items@[at as int]@);
        if items[at].id == *id {
            return true;
        }
        c += 1;
    }
    false
}

/// Whether the title of `item`, in lower case, holds `query_lower`.
pub fn title_matches(item: &Item, query_lower: &Vec<char>) -> (r: bool)
    ensures
        r == title_holds(item@, query_lower@),
{
    let lower = to_lower(item.title.as_str());
    contains(&to_chars(lower.as_str()), query_lower)
}

/// Whether the note at position `i` lies in a container whose title matches.
pub fn in_matching_container(items: &Vec<Item>, i: usize, query_lower: &Vec<char>) -> (r: bool)
    requires
        i < items.len(),
    ensures
        r == container_matches(views(items@), i as int, query_lower@),
{
    let ghost table = views(items@);
    match parent_position(items, i) {
        None => false,
        Some(p) => {
            assert(table[p as int] == items@[p as int]@);
            let parent = &items[p];
            if (parent.kind == ItemKind::Book || parent.kind == ItemKind::Section)
                && title_matches(parent, query_lower) {
                return true;
            }
            match parent_position(items, p) {
                None => false,
                Some(g) => {
                    assert(table[g as int] == items@[g as int]@);
                    items[g].kind == ItemKind::Book && title_matches(&items[g], query_lower)
                },
            }
        },
    }
}

/// The notes that come in through their container, in table order.
pub fn container_candidates(items: &Vec<Item>, found: &Vec<Candidate>, query_lower: &Vec<char>)
    -> (more: Vec<Candidate>)
    requires
        forall|c: int| 0 <= c < found.len() ==> (#[trigger] found@[c]).index < items.len(),
    ensures
        more@ == container_matches_upto(
            views(items@),
            found@,
            query_lower@,
            items@.len() as int,
        ),
        candidates_in_range(more@, items@.len(), 0),
{
    let ghost table = views(items@);
    let mut more: Vec<Candidate> = Vec::new();
    let mut i: usize = 0;
    while i < items.len()
        invariant
            i <= items.len(),
            table == views(items@),
            forall|c: int| 0 <= c < found.len() ==> (#[trigger] found@[c]).index < items.len(),
            more@ == container_matches_upto(table, found@, query_lower@, i as int),
            candidates_in_range(more@, items@.len(), 0),
        decreases items.len() - i,
    {
        assert(table[i as int] == items@[i as int]@);
        if is_searchable(&items[i]) && !is_picked(items, found, &items[i].id)
            && in_matching_container(items, i, query_lower) {
            more.push(Candidate { index: i, hit: None });
        }
        i += 1;
    }
    more
}

/// The names of the book and of the section that the note at position `i` lies in.
fn names_for(items: &Vec<Item>, i: usize) -> (names: (Option<String>, Option<String>))
    requires
        i < items.len(),
    ensures
        ({
            let table = views(items@);
            let parent = parent_of(table, i as int);
            let grandparent = match parent {
                Some(p) => parent_of(table, p),
                None => None,
            };
            (text_of(names.0), text_of(names.1)) == container_names(
                item_at(table, parent),
                item_at(table, grandparent),
            )
        }),
{
    let ghost table = views(items@);
    match parent_position(items, i) {
        None => (None, None),
        Some(p) => {
            assert(table[p as int] == items@[p as int]@);
            let parent = &items[p];
            match parent.kind {
                ItemKind::Section => {
                    let book = match parent_position(items, p) {
                        Some(g) => {
                            assert(table[g as int] == items@[g as int]@);
                            Some(items[g].title.clone())
                        },
                        None => None,
                    };
                    (book, Some(parent.title.clone()))
                },
                ItemKind::Book => (Some(parent.title.clone()), None),
                ItemKind::Note => (None, None),
            }
        },
    }
}

/// Describes a picked note.
fn make_result(items: &Vec<Item>, hits: &Vec<FtsHit>, c: Candidate, query_lower: &Vec<char>) -> (r:
    SearchResult)
    requires
        c.index < items.len(),
        c.hit is Some ==> c.hit->0 < hits.len(),
    ensures
        r@ == result_of(views(items@), hit_views(hits@), c, query_lower@),
{
    let ghost table = views(items@);
    let note = &items[c.index];
    assert(table[c.index as int] == note@);
    let snippet = match c.hit {
        Some(h) => {
            assert(hit_views(hits@)[h as int] == hits@[h as int]@);
            hits[h].snippet.clone()
        },
        None => String::new(),
    };
    let empty = String::new();
    let raw: &str = match &note.content {
        Some(text) => text.as_str(),
        None => empty.as_str(),
    };
    let names = names_for(items, c.index);
    let match_type = if c.hit.is_none() {
        MatchType::Parent
    } else if title_matches(note, query_lower) {
        MatchType::Title
    } else {
        MatchType::Content
    };
    SearchResult {
        id: note.id.clone(),
        title: note.title.clone(),
        snippet,
        content_preview: content_preview(raw),
        book_name: names.0,
        section_name: names.1,
        match_type,
        word_count: word_count(raw),
    }
}

/// Searches the notes of `items` for `query`. `hits` are the rows that the
/// full-text index gave for `fts_query(query)`, best first. The results are the
/// notes that the index found, in its order, and behind them the notes in a book
/// or section whose title holds the query in any case of letters, in table order.
/// A note that the index found is not added a second time, and no more than
/// `RESULT_LIMIT` results are returned. A query without words finds nothing.
pub fn search_notes(items: &Vec<Item>, hits: &Vec<FtsHit>, query: &str) -> (results: Vec<
    SearchResult,
>)
    ensures
        result_views(results@) == search_results(views(items@), hit_views(hits@), query@),
{
    let mut results: Vec<SearchResult> = Vec::new();
    if split_words(&to_chars(query)).len() == 0 {
        assert(result_views(results@) == Seq::<ResultView>::empty());
        return results;
    }
    let ghost table = views(items@);
    let ghost rows = hit_views(hits@);
    let query_lower = to_chars(to_lower(query).as_str());
    let mut all = index_candidates(items, hits);
    let more = container_candidates(items, &all, &query_lower);
    let ghost found = all@;
    let mut m: usize = 0;
    while m < more.len()
        invariant
            m <= more.len(),
            all@ == found + more@.take(m as int),
            candidates_in_range(found, items@.len(), hits@.len()),
            candidates_in_range(more@, items@.len(), 0),
            candidates_in_range(all@, items@.len(), hits@.len()),
        decreases more.len() - m,
    {
        all.push(more[m]);
        proof {
            assert(more@.take(m + 1) == more@.take(m as int).push(more@[m as int]));
        }
        m += 1;
    }
    proof {
        assert(more@.take(more.len() as int) == more@);
        assert(all@ == candidates(table, rows, query_lower@));
    }
    let shown: usize = if all.len() <= RESULT_LIMIT {
        all.len()
    } else {
        RESULT_LIMIT
    };
    let mut k: usize = 0;
    while k < shown
        invariant
            k <= shown <= all.len(),
            table == views(items@),
            rows == hit_views(hits@),
            candidates_in_range(all@, items@.len(), hits@.len()),
            result_views(results@) == all@.take(k as int).map_values(
                |c: Candidate| result_of(table, rows, c, query_lower@),
            ),
        decreases shown - k,
    {
        let ghost before = result_views(results@);
        let r = make_result(items, hits, all[k], &query_lower);
        results.push(r);
        proof {
            assert(result_views(results@) == before.push(r@));
            assert(all@.take(k + 1) == all@.take(k as int).push(all@[k as int]));
        }
        k += 1;
    }
    proof {
        if all.len() <= RESULT_LIMIT {
            assert(all@.take(shown as int) == all@);
        }
    }
    results
}

/// What comes in through the containers, and in which order: exactly the
/// positions of the searchable notes that the index did not find and whose
/// container matches, each once, in table order.
pub proof fn lemma_container_matches(
    items: Seq<ItemView>,
    found: Seq<Candidate>,
    query_lower: Seq<char>,
    n: int,
    i: int,
    a: int,
    b: int,
)
    requires
        n <= items.len() <= usize::MAX,
    ensures
        (exists|k: int|
            0 <= k < container_matches_upto(items, found, query_lower, n).len() && (
            #[trigger] container_matches_upto(items, found, query_lower, n)[k]).index == i) <==> 0
            <= i < n && searchable(items[i]) && !picked(items, found, items[i].id)
            && container_matches(items, i, query_lower),
        0 <= a < container_matches_upto(items, found, query_lower, n).len() ==> {
            &&& container_matches_upto(items, found, query_lower, n)[a].index < n
            &&& container_matches_upto(items, found, query_lower, n)[a].hit is None
        },
        0 <= a < b < container_matches_upto(items, found, query_lower, n).len()
            ==> container_matches_upto(items, found, query_lower, n)[a].index
            < container_matches_upto(items, found, query_lower, n)[b].index,
    decreases n,
{
    if n > 0 {
        lemma_container_matches(items, found, query_lower, n - 1, i, a, b);
        lemma_container_matches(items, found, query_lower, n - 1, i, a, a);
        let before = container_matches_upto(items, found, query_lower, n - 1);
        let now = container_matches_upto(items, found, query_lower, n);
        if searchable(items[n - 1]) && !picked(items, found, items[n - 1].id) && container_matches(
            items,
            n - 1,
            query_lower,
        ) {
            let added = Candidate { index: (n - 1) as usize, hit: None };
            assert(now == before.push(added));
            assert(now[before.len() as int] == added);
            assert forall|k: int| 0 <= k < before.len() implies now[k] == before[k] by {}
            if exists|k: int| 0 <= k < before.len() && (#[trigger] before[k]).index == i {
                let k = choose|k: int| 0 <= k < before.len() && (#[trigger] before[k]).index == i;
                assert(now[k].index == i);
            }
            if exists|k: int| 0 <= k < now.len() && (#[trigger] now[k]).index == i {
                let k = choose|k: int| 0 <= k < now.len() && (#[trigger] now[k]).index == i;
                if k < before.len() {
                    assert(before[k].index == i);
                }
            }
        }
    }
}

/// No note is among the results twice for having been found twice over: a note
/// that came in through its container has an id that no note found by the index
/// has, and stands at another place in the table than every other such note.
pub proof fn lemma_no_note_twice(
    items: Seq<ItemView>,
    hits: Seq<HitView>,
    query_lower: Seq<char>,
    a: int,
    b: int,
)
    requires
        items.len() <= usize::MAX,
        hits.len() <= usize::MAX,
        0 <= a < b < candidates(items, hits, query_lower).len(),
        candidates(items, hits, query_lower)[b].hit is None,
    ensures
        candidates(items, hits, query_lower)[a].index != candidates(
            items,
            hits,
            query_lower,
        )[b].index,
        candidates(items, hits, query_lower)[a].hit is Some ==> items[candidates(
            items,
            hits,
            query_lower,
        )[a].index as int].id != items[candidates(items, hits, query_lower)[b].index as int].id,
{
    let n = items.len() as int;
    let found = index_matches(items, hits);
    let more = container_matches_upto(items, found, query_lower, n);
    let all = candidates(items, hits, query_lower);
    lemma_index_matches(items, hits, hits.len() as int, a);
    if b < found.len() {
        lemma_index_matches(items, hits, hits.len() as int, b);
    } else {
        let at = all[b].index as int;
        lemma_container_matches(items, found, query_lower, n, at, b - found.len(), b - found.len());
        assert(more[b - found.len()].index == at);
        assert(!picked(items, found, items[at].id));
        if a < found.len() {
            assert(all[a] == found[a]);
            assert(items[found[a].index as int].id != items[at].id);
        } else {
            lemma_container_matches(
                items,
                found,
                query_lower,
                n,
                at,
                a - found.len(),
                b - found.len(),
            );
        }
    }
}

/// Every note that the index found came in by a hit.
pub proof fn lemma_index_matches(items: Seq<ItemView>, hits: Seq<HitView>, n: int, a: int)
    requires
        n <= hits.len() <= usize::MAX,
        items.len() <= usize::MAX,
    ensures
        0 <= a < index_matches_upto(items, hits, n).len() ==> {
            let c = index_matches_upto(items, hits, n)[a];
            &&& c.hit is Some
            &&& 0 <= c.hit->0 < n
            &&& lookup(items, hits[c.hit->0 as int].item_id) == Some(c.index as int)
            &&& searchable(items[c.index as int])
        },
    decreases n,
{
    if n > 0 {
        lemma_index_matches(items, hits, n - 1, a);
        match lookup(items, hits[n - 1].item_id) {
            Some(i) => {
                lemma_lookup_first(items, hits[n - 1].item_id, i);
            },
            None => {},
        }
    }
}

/// A query of nothing but whitespace finds nothing, whatever the table and the
/// index hold.
pub proof fn lemma_blank_query_finds_nothing(
    items: Seq<ItemView>,
    hits: Seq<HitView>,
    query: Seq<char>,
)
    requires
        forall|i: int| 0 <= i < query.len() ==> is_whitespace(query[i]),
    ensures
        search_results(items, hits, query) == Seq::<ResultView>::empty(),
{
    lemma_no_words(query);
}

/// A search depends on nothing but the table, the hits and the query: two
/// searches with the same of each give the same results in the same order.
pub proof fn lemma_search_repeatable(
    first: Seq<SearchResult>,
    second: Seq<SearchResult>,
    items: Seq<Item>,
    hits: Seq<FtsHit>,
    query: Seq<char>,
)
    requires
        result_views(first) == search_results(views(items), hit_views(hits), query),
        result_views(second) == search_results(views(items), hit_views(hits), query),
    ensures
        result_views(first) == result_views(second),
{
}

} // verus!
