//! Feeds: what their pages advertise, title normalization, and size extraction.

use vstd::prelude::*;

use crate::binary64::{finite_value, multiply_whole, parse_finite, whole_multiple};
use crate::html::{
    records, select_links, select_records, selected_links, selected_records, Record, RecordView,
    PAGE_LIMIT, SELECTOR_LIMIT,
};
use crate::links::{join_url, joined_url, LINK_LIMIT};
use crate::models::{candidates, CandidateView, ReleaseCandidate};
use crate::number::{parse_u64, u64_value};
use crate::table::{
    first_of_each, kept_names_are_those_of_candidates, lists, merge_candidates, merged,
    nothing_is_left_out_of_a_list, the_first_candidate_of_each_name_is_kept, unique_candidates,
};
use crate::text::{
    begins_with, chars_of, contains, find_from, holds_part, is_letter_or_number, is_run, join,
    joined, lemma_joined_lowered, lemma_joined_two, lemma_runs_are_runs, lemma_runs_from_the_front,
    lemma_runs_of_a_gap, lemma_runs_of_joined, lemma_runs_of_lowered, lemma_runs_of_two,
    lemma_trimmed_is_shorter, lower_chars, lowered, occurs_at, parts_stand_within_texts, runs,
    same_as, slice_of, space, split_runs, split_words, string_of, strings, texts, trim_chars,
    trimmed, words, CharClass, Trim,
};

verus! {

// ---------------------------------------------------------------------------
// Names
// ---------------------------------------------------------------------------

/// A name with its letters and numbers kept and everything between them made one space.
pub open spec fn normalised(name: Seq<char>) -> Seq<char> {
    joined(runs(name, CharClass::Alphanumeric), space())
}

/// Normalizes a title: letters and numbers stay, every stretch of anything else between them
/// becomes one space.
pub fn normalise_name(name: &str) -> (output: String)
    ensures
        output@ == normalised(name@),
{
    let chars = chars_of(name);
    let parts = split_runs(&chars, CharClass::Alphanumeric);
    let whole = join(&parts);
    string_of(&whole)
}

/// The words of a normalized name are the stretches of letters and numbers of the name.
pub proof fn lemma_words_of_normalised(name: Seq<char>)
    ensures
        words(normalised(name)) == runs(name, CharClass::Alphanumeric),
{
    let parts = runs(name, CharClass::Alphanumeric);
    lemma_runs_are_runs(name, CharClass::Alphanumeric);
    assert forall|i: int| 0 <= i < parts.len() implies is_run(
        #[trigger] parts[i],
        CharClass::Visible,
    ) by {
        let part = parts[i];
        assert(is_run(part, CharClass::Alphanumeric));
        assert forall|j: int| 0 <= j < part.len() implies CharClass::Visible.holds(
            #[trigger] part[j],
        ) by {
            assert(CharClass::Alphanumeric.holds(part[j]));
        }
    }
    lemma_runs_of_joined(parts, CharClass::Visible);
}

/// Normalizing twice is normalizing once.
pub proof fn normalising_is_idempotent(name: Seq<char>)
    ensures
        normalised(normalised(name)) == normalised(name),
{
    lemma_runs_are_runs(name, CharClass::Alphanumeric);
    lemma_runs_of_joined(runs(name, CharClass::Alphanumeric), CharClass::Alphanumeric);
}

/// A name that is put together of two, with anything but a letter or a number between them, is
/// normalized as the two are, with a space between them where neither comes to nothing.
pub proof fn names_are_normalised_part_by_part(left: Seq<char>, separator: char, right: Seq<char>)
    requires
        !is_letter_or_number(separator),
    ensures
        normalised(left.push(separator) + right) == if normalised(left).len() == 0 {
            normalised(right)
        } else if normalised(right).len() == 0 {
            normalised(left)
        } else {
            normalised(left) + space() + normalised(right)
        },
{
    let class = CharClass::Alphanumeric;
    let before = runs(left, class);
    let after = runs(right, class);
    lemma_runs_of_two(left, separator, right, class);
    lemma_runs_are_runs(left, class);
    lemma_runs_are_runs(right, class);
    lemma_joined_runs_are_normal(before);
    lemma_joined_runs_are_normal(after);
    if before.len() == 0 {
        assert(before + after =~= after);
    } else if after.len() == 0 {
        assert(before + after =~= before);
    } else {
        lemma_joined_two(before, after, space());
    }
}

/// Normalizing keeps capitals as they are: it can be done before or after they are made small.
pub proof fn normalising_keeps_capitals(name: Seq<char>)
    ensures
        normalised(lowered(name)) == lowered(normalised(name)),
{
    lemma_runs_of_lowered(name, CharClass::Alphanumeric);
    lemma_joined_lowered(runs(name, CharClass::Alphanumeric));
}

/// What a normalized name may look like: letters, numbers and single spaces, with no space at
/// either end.
pub open spec fn is_normal(name: Seq<char>) -> bool {
    &&& forall|i: int|
        0 <= i < name.len() ==> is_letter_or_number(#[trigger] name[i]) || name[i] == ' '
    &&& name.len() > 0 ==> name[0] != ' ' && name.last() != ' '
    &&& forall|i: int, j: int|
        0 <= i && j == i + 1 && j < name.len() ==> !(#[trigger] name[i] == ' '
            && #[trigger] name[j] == ' ')
}

proof fn lemma_joined_runs_are_normal(parts: Seq<Seq<char>>)
    requires
        forall|i: int|
            0 <= i < parts.len() ==> is_run(#[trigger] parts[i], CharClass::Alphanumeric),
    ensures
        is_normal(joined(parts, space())),
        parts.len() > 0 ==> joined(parts, space()).len() > 0,
    decreases parts.len(),
{
    if parts.len() == 1 {
        let part = parts[0];
        assert(is_run(part, CharClass::Alphanumeric));
        assert forall|i: int| 0 <= i < part.len() implies is_letter_or_number(#[trigger] part[i]) by {
            assert(CharClass::Alphanumeric.holds(part[i]));
        }
    } else if parts.len() > 1 {
        let front = parts.drop_last();
        let part = parts.last();
        assert forall|i: int| 0 <= i < front.len() implies is_run(
            #[trigger] front[i],
            CharClass::Alphanumeric,
        ) by {
            assert(front[i] == parts[i]);
        }
        lemma_joined_runs_are_normal(front);
        assert(is_run(part, CharClass::Alphanumeric));
        let head = joined(front, space());
        let whole = joined(parts, space());
        assert(whole == head + space() + part);
        assert forall|i: int| 0 <= i < part.len() implies is_letter_or_number(#[trigger] part[i]) by {
            assert(CharClass::Alphanumeric.holds(part[i]));
        }
        assert forall|i: int| 0 <= i < whole.len() implies is_letter_or_number(#[trigger] whole[i])
            || whole[i] == ' ' by {
            if i < head.len() {
                assert(whole[i] == head[i]);
            } else if i > head.len() {
                assert(whole[i] == part[i - head.len() - 1]);
            }
        }
        assert forall|i: int, j: int| 0 <= i && j == i + 1 && j < whole.len() implies !(
        #[trigger] whole[i] == ' ' && #[trigger] whole[j] == ' ') by {
            if j < head.len() {
                assert(whole[i] == head[i] && whole[j] == head[j]);
            } else if j == head.len() {
                assert(whole[i] == head.last());
            } else {
                assert(whole[j] == part[j - head.len() - 1]);
            }
        }
        assert(whole[0] == head[0]);
        assert(whole.last() == part.last());
    }
}

/// A normalized name holds nothing but letters, numbers and single spaces between them.
pub proof fn normalised_names_are_normal(name: Seq<char>)
    ensures
        is_normal(normalised(name)),
{
    lemma_runs_are_runs(name, CharClass::Alphanumeric);
    lemma_joined_runs_are_normal(runs(name, CharClass::Alphanumeric));
}

// ---------------------------------------------------------------------------
// Sizes and swarms
// ---------------------------------------------------------------------------

/// How many bytes a unit stands for.
pub open spec fn unit_bytes(unit: Seq<char>) -> Option<u64> {
    if unit == "b"@ {
        Some(1)
    } else if unit == "kb"@ {
        Some(1_000)
    } else if unit == "kib"@ {
        Some(1_024)
    } else if unit == "mb"@ {
        Some(1_000_000)
    } else if unit == "mib"@ {
        Some(1_048_576)
    } else if unit == "gb"@ {
        Some(1_000_000_000)
    } else if unit == "gib"@ {
        Some(1_073_741_824)
    } else if unit == "tb"@ {
        Some(1_000_000_000_000)
    } else if unit == "tib"@ {
        Some(1_099_511_627_776)
    } else {
        None
    }
}

fn bytes_of_unit(unit: &Vec<char>) -> (bytes: Option<u64>)
    ensures
        bytes == unit_bytes(unit@),
{
    if same_as(unit, "b") {
        Some(1)
    } else if same_as(unit, "kb") {
        Some(1_000)
    } else if same_as(unit, "kib") {
        Some(1_024)
    } else if same_as(unit, "mb") {
        Some(1_000_000)
    } else if same_as(unit, "mib") {
        Some(1_048_576)
    } else if same_as(unit, "gb") {
        Some(1_000_000_000)
    } else if same_as(unit, "gib") {
        Some(1_073_741_824)
    } else if same_as(unit, "tb") {
        Some(1_000_000_000_000)
    } else if same_as(unit, "tib") {
        Some(1_099_511_627_776)
    } else {
        None
    }
}

/// The size that two neighbouring words denote: a number and a unit.
pub open spec fn size_of_pair(number: Seq<char>, unit: Seq<char>) -> Option<u64> {
    match (
        finite_value(trimmed(number, Trim::ToNumber)),
        unit_bytes(lowered(trimmed(unit, Trim::ToUnit))),
    ) {
        (Some(value), Some(bytes)) if !value.negative() => Some(whole_multiple(value, bytes)),
        _ => None,
    }
}

/// The first pair of neighbouring words from `from` on that denotes a size: its place and the
/// size.
pub open spec fn first_size(list: Seq<Seq<char>>, from: int) -> Option<(int, u64)>
    decreases list.len() - from,
{
    if from < 0 || from + 1 >= list.len() {
        None
    } else {
        match size_of_pair(list[from], list[from + 1]) {
            Some(size) => Some((from, size)),
            None => first_size(list, from + 1),
        }
    }
}

/// The size that a text advertises.
pub open spec fn advertised_size(text: Seq<char>) -> Option<u64> {
    match first_size(words(text), 0) {
        Some((_, size)) => Some(size),
        None => None,
    }
}

fn read_pair(number: &Vec<char>, unit: &Vec<char>) -> (size: Option<u64>)
    ensures
        size == size_of_pair(number@, unit@),
{
    let unit = trim_chars(unit, Trim::ToUnit);
    let unit = lower_chars(&unit);
    let bytes: u64 = match bytes_of_unit(&unit) {
        Some(bytes) => bytes,
        None => {
            return None;
        },
    };
    let number = trim_chars(number, Trim::ToNumber);
    match parse_finite(&number) {
        Some(value) => {
            if value.bits >= 0x8000_0000_0000_0000 {
                return None;
            }
            Some(multiply_whole(value, bytes))
        },
        None => None,
    }
}

fn find_size(list: &Vec<Vec<char>>) -> (found: Option<(usize, u64)>)
    ensures
        match found {
            Some((place, size)) => first_size(texts(list@), 0) == Some((place as int, size))
                && place + 1 < list@.len(),
            None => first_size(texts(list@), 0) is None,
        },
{
    let mut i: usize = 0;
    while i < list.len() && i + 1 < list.len()
        invariant
            i <= list.len(),
            first_size(texts(list@), 0) == first_size(texts(list@), i as int),
        decreases list.len() - i,
    {
        match read_pair(&list[i], &list[i + 1]) {
            Some(size) => {
                return Some((i, size));
            },
            None => {},
        }
        i += 1;
    }
    None
}

/// The size that a text advertises: that of the first number which a unit of size follows.
pub fn torrent_size_bytes(text: &str) -> (size: Option<u64>)
    ensures
        size == advertised_size(text@),
{
    let list = split_words(text);
    match find_size(&list) {
        Some((_, size)) => Some(size),
        None => None,
    }
}

/// The seeders and leechers that a row advertises: its last two words, when both are numbers
/// and a size stands before them.
pub open spec fn advertised_swarm(text: Seq<char>) -> (Option<u64>, Option<u64>) {
    let list = words(text);
    match first_size(list, 0) {
        Some((place, _)) if place + 4 <= list.len() => match (
            u64_value(list[list.len() - 2]),
            u64_value(list[list.len() - 1]),
        ) {
            (Some(seeders), Some(leechers)) => (Some(seeders), Some(leechers)),
            _ => (None, None),
        },
        _ => (None, None),
    }
}

/// The seeders and leechers that a row advertises.
pub fn swarm_counts(text: &str) -> (swarm: (Option<u64>, Option<u64>))
    ensures
        swarm == advertised_swarm(text@),
{
    let list = split_words(text);
    match find_size(&list) {
        Some((place, _)) => {
            if list.len() - place < 4 {
                return (None, None);
            }
            let seeders: Option<u64> = parse_u64(&list[list.len() - 2]);
            let leechers: Option<u64> = parse_u64(&list[list.len() - 1]);
            match (seeders, leechers) {
                (Some(seeders), Some(leechers)) => (Some(seeders), Some(leechers)),
                _ => (None, None),
            }
        },
        None => (None, None),
    }
}

// ---------------------------------------------------------------------------
// Links
// ---------------------------------------------------------------------------

/// A magnet link.
pub open spec fn is_magnet(href: Seq<char>) -> bool {
    "magnet:"@.is_prefix_of(lowered(trimmed(href, Trim::Space)))
}

/// A link that leads to a torrent.
pub open spec fn leads_to_torrent(href: Seq<char>) -> bool {
    let plain = lowered(trimmed(href, Trim::Space));
    is_magnet(href) || contains(plain, ".torrent"@) || contains(plain, "/torrent/download"@)
}

/// Whether a link leads to a torrent.
pub fn is_torrent_link(href: &str) -> (found: bool)
    ensures
        found == leads_to_torrent(href@),
{
    let chars = chars_of(href);
    let plain = trim_chars(&chars, Trim::Space);
    let plain = lower_chars(&plain);
    begins_with(&plain, "magnet:") || holds_part(&plain, ".torrent") || holds_part(
        &plain,
        "/torrent/download",
    )
}

/// The address that a link on a page denotes, given what joining the page's address and the
/// link's target came to.
pub open spec fn chosen_url(href: Seq<char>, address: Option<Seq<char>>) -> Seq<char> {
    let plain = trimmed(href, Trim::Space);
    if is_magnet(href) {
        plain
    } else {
        match address {
            Some(address) => address,
            None => plain,
        }
    }
}

/// The address that a link on the page `source` denotes.
pub open spec fn resolved(source: Seq<char>, href: Seq<char>) -> Seq<char> {
    chosen_url(href, joined_url(source, trimmed(href, Trim::Space)))
}

/// The address that a link on the page `source` denotes: a magnet link stands for itself, any
/// other is joined to the page's address, or stands for itself where that cannot be done.
pub fn resolve_url(source: &str, href: &str) -> (url: String)
    requires
        source@.len() + href@.len() <= LINK_LIMIT,
    ensures
        url@ == resolved(source@, href@),
{
    let chars = chars_of(href);
    let plain = trim_chars(&chars, Trim::Space);
    let small = lower_chars(&plain);
    let plain = string_of(&plain);
    if begins_with(&small, "magnet:") {
        return plain;
    }
    proof {
        lemma_trimmed_is_shorter(href@, Trim::Space);
    }
    match join_url(source, plain.as_str()) {
        Some(address) => address,
        None => plain,
    }
}

// ---------------------------------------------------------------------------
// Rows
// ---------------------------------------------------------------------------

/// The text of an element: its text nodes, one space between two of them.
pub open spec fn text_of_nodes(nodes: Seq<Seq<char>>) -> Seq<char> {
    trimmed(joined(nodes, space()), Trim::Space)
}

/// The text of an element.
pub fn element_text(nodes: &Vec<String>) -> (text: String)
    ensures
        text@ == text_of_nodes(strings(nodes@)),
{
    let mut parts: Vec<Vec<char>> = Vec::new();
    let mut i: usize = 0;
    while i < nodes.len()
        invariant
            i <= nodes@.len(),
            texts(parts@) == strings(nodes@).take(i as int),
        decreases nodes@.len() - i,
    {
        let part = chars_of(nodes[i].as_str());
        let ghost before = texts(parts@);
        parts.push(part);
        assert(texts(parts@) =~= before.push(part@));
        assert(strings(nodes@).take(i + 1) =~= before.push(nodes@[i as int]@));
        i += 1;
    }
    assert(strings(nodes@).take(nodes@.len() as int) == strings(nodes@));
    let whole = join(&parts);
    let whole = trim_chars(&whole, Trim::Space);
    string_of(&whole)
}

/// The first of the links that leads to a torrent.
pub open spec fn first_torrent_link(links: Seq<Option<Seq<char>>>) -> Option<Seq<char>>
    decreases links.len(),
{
    if links.len() == 0 {
        None
    } else {
        match links[0] {
            Some(href) if leads_to_torrent(href) => Some(href),
            _ => first_torrent_link(links.drop_first()),
        }
    }
}

fn find_torrent_link(links: &Vec<Option<String>>) -> (found: Option<usize>)
    ensures
        match found {
            Some(i) => i < links@.len() && links@[i as int] is Some && first_torrent_link(
                crate::html::optionals(links@),
            ) == Some(links@[i as int]->0@),
            None => first_torrent_link(crate::html::optionals(links@)) is None,
        },
{
    let ghost all = crate::html::optionals(links@);
    let mut i: usize = 0;
    assert(all.skip(0) == all);
    while i < links.len()
        invariant
            i <= links@.len(),
            all == crate::html::optionals(links@),
            first_torrent_link(all) == first_torrent_link(all.skip(i as int)),
        decreases links@.len() - i,
    {
        assert(all.skip(i as int)[0] == all[i as int]);
        assert(all.skip(i as int).drop_first() == all.skip(i + 1));
        match &links[i] {
            Some(href) => {
                if is_torrent_link(href.as_str()) {
                    return Some(i);
                }
            },
            None => {},
        }
        i += 1;
    }
    assert(all.skip(i as int).len() == 0);
    None
}

/// The candidate made of a raw name, the links and the text nodes of an element.
pub open spec fn candidate_of(
    raw_name: Seq<char>,
    record: RecordView,
    source: Seq<char>,
) -> Option<CandidateView> {
    let text = text_of_nodes(record.texts);
    match first_torrent_link(record.links) {
        Some(href) if normalised(raw_name).len() > 0 => Some(
            CandidateView {
                name: normalised(raw_name),
                url: resolved(source, href),
                size_bytes: advertised_size(text),
                seeders: advertised_swarm(text).0,
                leechers: advertised_swarm(text).1,
            },
        ),
        _ => None,
    }
}

/// The candidate that a record of the page `source` advertises: it needs a title and a link to
/// a torrent.
pub open spec fn candidate_of_record(record: RecordView, source: Seq<char>) -> Option<
    CandidateView,
> {
    if record.titles.len() == 0 {
        None
    } else {
        candidate_of(text_of_nodes(record.titles[0]), record, source)
    }
}

/// Every link of the record can be resolved on the page `source`.
pub open spec fn can_resolve(record: RecordView, source: Seq<char>) -> bool {
    record.links_within((LINK_LIMIT - source.len()) as nat) && source.len() <= LINK_LIMIT
}

fn build_candidate(raw_name: &str, record: &Record, source: &str) -> (candidate: Option<
    ReleaseCandidate,
>)
    requires
        can_resolve(record@, source@),
    ensures
        match candidate {
            Some(found) => candidate_of(raw_name@, record@, source@) == Some(found@),
            None => candidate_of(raw_name@, record@, source@) is None,
        },
{
    let name = normalise_name(raw_name);
    if name.as_str().is_empty() {
        return None;
    }
    match find_torrent_link(&record.links) {
        None => None,
        Some(i) => {
            let url = match &record.links[i] {
                Some(href) => {
                    assert(record@.links[i as int] == Some(href@));
                    resolve_url(source, href.as_str())
                },
                None => {
                    return None;
                },
            };
            let text = element_text(&record.texts);
            let size_bytes: Option<u64> = torrent_size_bytes(text.as_str());
            let (seeders, leechers) = swarm_counts(text.as_str());
            Some(ReleaseCandidate { name, url, size_bytes, seeders, leechers })
        },
    }
}

/// The candidate that a record of a page advertises.
pub fn candidate_from_element(record: &Record, source: &str) -> (candidate: Option<
    ReleaseCandidate,
>)
    requires
        can_resolve(record@, source@),
    ensures
        match candidate {
            Some(found) => candidate_of_record(record@, source@) == Some(found@),
            None => candidate_of_record(record@, source@) is None,
        },
{
    if record.titles.len() == 0 {
        return None;
    }
    let raw_name = element_text(&record.titles[0]);
    assert(record@.titles[0] == strings(record.titles@[0]@));
    build_candidate(raw_name.as_str(), record, source)
}

/// The candidates that a list of records advertises, in their order.
pub open spec fn candidates_of_records(list: Seq<RecordView>, source: Seq<char>) -> Seq<
    CandidateView,
>
    decreases list.len(),
{
    if list.len() == 0 {
        seq![]
    } else {
        let front = candidates_of_records(list.drop_last(), source);
        match candidate_of_record(list.last(), source) {
            Some(candidate) => front.push(candidate),
            None => front,
        }
    }
}

/// The candidates that a list of records of the page `source` advertises.
pub fn candidates_from_records(list: &Vec<Record>, source: &str) -> (found: Vec<ReleaseCandidate>)
    requires
        forall|i: int| 0 <= i < list@.len() ==> can_resolve((#[trigger] list@[i])@, source@),
    ensures
        candidates(found@) == candidates_of_records(records(list@), source@),
{
    let mut found: Vec<ReleaseCandidate> = Vec::new();
    let mut i: usize = 0;
    while i < list.len()
        invariant
            i <= list@.len(),
            forall|i: int| 0 <= i < list@.len() ==> can_resolve((#[trigger] list@[i])@, source@),
            candidates(found@) == candidates_of_records(records(list@).take(i as int), source@),
        decreases list@.len() - i,
    {
        let ghost next = records(list@).take(i + 1);
        assert(next.drop_last() == records(list@).take(i as int));
        assert(next.last() == list@[i as int]@);
        let ghost before = candidates(found@);
        match candidate_from_element(&list[i], source) {
            Some(candidate) => {
                found.push(candidate);
                assert(candidates(found@) =~= before.push(candidate@));
            },
            None => {},
        }
        i += 1;
    }
    assert(records(list@).take(list@.len() as int) == records(list@));
    found
}

/// A candidate has a normalized name that is not empty, and a magnet link stands for itself.
pub proof fn candidates_have_normal_names(
    raw_name: Seq<char>,
    record: RecordView,
    source: Seq<char>,
)
    requires
        candidate_of(raw_name, record, source) is Some,
    ensures
        candidate_of(raw_name, record, source)->0.name.len() > 0,
        is_normal(candidate_of(raw_name, record, source)->0.name),
        first_torrent_link(record.links) is Some,
        is_magnet(first_torrent_link(record.links)->0) ==> candidate_of(
            raw_name,
            record,
            source,
        )->0.url == trimmed(first_torrent_link(record.links)->0, Trim::Space),
{
    normalised_names_are_normal(raw_name);
}

// ---------------------------------------------------------------------------
// Blocks of pages in the older layout
// ---------------------------------------------------------------------------

/// The word that begins a block.
pub const BLOCK_MARK: &'static str = "detName";

/// The first place from `from` on at which `part` stands in `s`.
pub open spec fn first_at(s: Seq<char>, part: Seq<char>, from: int) -> Option<int>
    decreases s.len() + 1 - from,
{
    if from < 0 || from > s.len() {
        None
    } else if occurs_at(s, part, from) {
        Some(from)
    } else {
        first_at(s, part, from + 1)
    }
}

/// `first_at` finds the first place, if there is one.
pub proof fn lemma_first_at(s: Seq<char>, part: Seq<char>, from: int)
    requires
        0 <= from,
    ensures
        match first_at(s, part, from) {
            Some(i) => from <= i && occurs_at(s, part, i) && forall|j: int|
                from <= j < i ==> !occurs_at(s, part, j),
            None => forall|j: int| from <= j ==> !occurs_at(s, part, j),
        },
    decreases s.len() + 1 - from,
{
    if from <= s.len() && !occurs_at(s, part, from) {
        lemma_first_at(s, part, from + 1);
    }
}

/// The end of the block that begins at `start`: the next mark, or the end of the page.
pub open spec fn block_end(page: Seq<char>, mark: Seq<char>, start: int) -> int {
    match first_at(page, mark, start + mark.len()) {
        Some(end) => end,
        None => page.len() as int,
    }
}

/// The blocks of a page from `cursor` on: each begins with the mark and ends before the next.
pub open spec fn blocks(page: Seq<char>, mark: Seq<char>, cursor: int) -> Seq<Seq<char>>
    decreases page.len() - cursor,
    when 0 <= cursor && mark.len() > 0
{
    proof {
        lemma_first_at(page, mark, cursor);
        if first_at(page, mark, cursor) is Some {
            lemma_first_at(page, mark, first_at(page, mark, cursor)->0 + mark.len());
        }
    }
    match first_at(page, mark, cursor) {
        None => seq![],
        Some(start) => {
            let end = block_end(page, mark, start);
            seq![page.subrange(start, end)] + blocks(page, mark, end)
        },
    }
}

/// Takes a page apart into its blocks.
pub fn split_blocks(page: &str) -> (list: Vec<Vec<char>>)
    ensures
        texts(list@) == blocks(page@, BLOCK_MARK@, 0),
{
    let page = chars_of(page);
    let mark = chars_of(BLOCK_MARK);
    proof {
        reveal_strlit("detName");
    }
    let mut list: Vec<Vec<char>> = Vec::new();
    let mut cursor: usize = 0;
    let mut more = true;
    while more
        invariant
            mark@.len() == 7,
            cursor <= page@.len(),
            more ==> blocks(page@, mark@, 0) == texts(list@) + blocks(page@, mark@, cursor as int),
            !more ==> blocks(page@, mark@, 0) == texts(list@),
        decreases
            page@.len() - cursor,
            if more {
                1int
            } else {
                0int
            },
    {
        proof {
            lemma_first_at(page@, mark@, cursor as int);
        }
        match find_from(&page, &mark, cursor) {
            None => {
                more = false;
                assert(blocks(page@, mark@, cursor as int) =~= seq![]);
                assert(blocks(page@, mark@, 0) =~= texts(list@));
            },
            Some(start) => {
                let ghost first = first_at(page@, mark@, cursor as int)->0;
                assert(first == start) by {
                    if first < start {
                        assert(!occurs_at(page@, mark@, first));
                    } else if start < first {
                        assert(!occurs_at(page@, mark@, start as int));
                    }
                }
                proof {
                    lemma_first_at(page@, mark@, start + mark@.len());
                }
                let len: usize = page.len();
                assert(start + mark@.len() <= len);
                let end: usize = match find_from(&page, &mark, start + mark.len()) {
                    Some(end) => end,
                    None => len,
                };
                let ghost last = block_end(page@, mark@, start as int);
                assert(last == end) by {
                    match first_at(page@, mark@, start + mark@.len()) {
                        Some(place) => {
                            if place < end {
                                assert(occurs_at(page@, mark@, place));
                            } else if end < place {
                                assert(!occurs_at(page@, mark@, end as int));
                            }
                        },
                        None => {},
                    }
                }
                let block = slice_of(&page, start, end);
                let ghost before = texts(list@);
                list.push(block);
                assert(texts(list@) =~= before.push(block@));
                assert(before + (seq![block@] + blocks(page@, mark@, end as int)) =~= before.push(
                    block@,
                ) + blocks(page@, mark@, end as int));
                cursor = end;
            },
        }
    }
    list
}

/// The candidate that a block advertises, given what was read out of it: its first link names
/// it.
pub open spec fn candidate_of_block(found: Option<RecordView>, source: Seq<char>) -> Option<
    CandidateView,
> {
    match found {
        Some(record) => candidate_of_record(record, source),
        None => None,
    }
}

/// The candidates that blocks advertise, in their order.
pub open spec fn candidates_of_blocks(list: Seq<Seq<char>>, source: Seq<char>) -> Seq<CandidateView>
    decreases list.len(),
{
    if list.len() == 0 {
        seq![]
    } else {
        let front = candidates_of_blocks(list.drop_last(), source);
        match candidate_of_block(selected_links(list.last(), LINKS@, TARGET@), source) {
            Some(candidate) => front.push(candidate),
            None => front,
        }
    }
}

/// Selects the links of a page.
pub const LINKS: &'static str = "a[href]";

/// The attribute that holds the target of a link.
pub const TARGET: &'static str = "href";

/// Selects the titles of a record.
pub const TITLES: &'static str = ".detName a, a.detLink, a[title^='Details for']";

proof fn lemma_selectors_are_short()
    ensures
        LINKS@.len() <= SELECTOR_LIMIT,
        TARGET@.len() <= SELECTOR_LIMIT,
        TITLES@.len() <= SELECTOR_LIMIT,
{
    reveal_strlit("a[href]");
    reveal_strlit("href");
    reveal_strlit(".detName a, a.detLink, a[title^='Details for']");
}

/// The candidates of a page in the older layout.
pub fn parse_legacy_blocks(page: &str, source: &str) -> (found: Vec<ReleaseCandidate>)
    requires
        page@.len() <= PAGE_LIMIT,
        source@.len() <= SOURCE_LIMIT,
    ensures
        candidates(found@) == candidates_of_blocks(blocks(page@, BLOCK_MARK@, 0), source@),
{
    let list = split_blocks(page);
    let ghost all = texts(list@);
    proof {
        reveal_strlit("detName");
        lemma_selectors_are_short();
        lemma_blocks_are_parts(page@, BLOCK_MARK@, 0);
    }
    let mut found: Vec<ReleaseCandidate> = Vec::new();
    let mut i: usize = 0;
    while i < list.len()
        invariant
            i <= list@.len(),
            page@.len() <= PAGE_LIMIT,
            source@.len() <= SOURCE_LIMIT,
            LINKS@.len() <= SELECTOR_LIMIT,
            TARGET@.len() <= SELECTOR_LIMIT,
            all == texts(list@),
            forall|j: int| 0 <= j < all.len() ==> (#[trigger] all[j]).len() <= page@.len(),
            candidates(found@) == candidates_of_blocks(all.take(i as int), source@),
        decreases list@.len() - i,
    {
        let ghost next = all.take(i + 1);
        assert(next.drop_last() == all.take(i as int));
        assert(next.last() == all[i as int]);
        let ghost before = candidates(found@);
        let block = string_of(&list[i]);
        match select_links(block.as_str(), LINKS, TARGET) {
            Some(record) => {
                match candidate_from_element(&record, source) {
                    Some(candidate) => {
                        found.push(candidate);
                        assert(candidates(found@) =~= before.push(candidate@));
                    },
                    None => {},
                }
            },
            None => {},
        }
        i += 1;
    }
    assert(all.take(list@.len() as int) == all);
    found
}

proof fn lemma_blocks_are_parts(page: Seq<char>, mark: Seq<char>, cursor: int)
    requires
        0 <= cursor <= page.len(),
        mark.len() > 0,
    ensures
        forall|j: int|
            0 <= j < blocks(page, mark, cursor).len() ==> (#[trigger] blocks(page, mark, cursor)[j]).len()
                <= page.len(),
    decreases page.len() - cursor,
{
    lemma_first_at(page, mark, cursor);
    match first_at(page, mark, cursor) {
        None => {},
        Some(start) => {
            lemma_first_at(page, mark, start + mark.len());
            let end = block_end(page, mark, start);
            lemma_blocks_are_parts(page, mark, end);
            let rest = blocks(page, mark, end);
            assert forall|j: int| 0 <= j < blocks(page, mark, cursor).len() implies (
            #[trigger] blocks(page, mark, cursor)[j]).len() <= page.len() by {
                if j > 0 {
                    assert(blocks(page, mark, cursor)[j] == rest[j - 1]);
                }
            }
        },
    }
}

// ---------------------------------------------------------------------------
// Pages
// ---------------------------------------------------------------------------

/// The candidates that records advertise, where any were read.
pub open spec fn candidates_where_read(found: Option<Seq<RecordView>>, source: Seq<char>) -> Seq<
    CandidateView,
> {
    match found {
        Some(list) => candidates_of_records(list, source),
        None => seq![],
    }
}

/// The candidates that the records of one kind on a page advertise.
pub open spec fn candidates_of_kind(page: Seq<char>, kind: Seq<char>, source: Seq<char>) -> Seq<
    CandidateView,
> {
    candidates_where_read(selected_records(page, kind, TITLES@, LINKS@, TARGET@), source)
}

/// All candidates of a page: table rows, then `.torrent`, then `.item` elements; where there
/// are none, the blocks of the older layout.
pub open spec fn candidates_of_page(page: Seq<char>, source: Seq<char>) -> Seq<CandidateView> {
    let found = candidates_of_kind(page, "tr"@, source) + candidates_of_kind(
        page,
        ".torrent"@,
        source,
    ) + candidates_of_kind(page, ".item"@, source);
    if found.len() > 0 {
        found
    } else {
        candidates_of_blocks(blocks(page, BLOCK_MARK@, 0), source)
    }
}

fn add_kind(
    found: &mut Vec<ReleaseCandidate>,
    page: &str,
    kind: &str,
    source: &str,
)
    requires
        page@.len() <= PAGE_LIMIT,
        source@.len() <= SOURCE_LIMIT,
        kind@.len() <= SELECTOR_LIMIT,
    ensures
        candidates(final(found)@) == candidates(old(found)@) + candidates_of_kind(
            page@,
            kind@,
            source@,
        ),
{
    let ghost before = candidates(found@);
    proof {
        lemma_selectors_are_short();
    }
    match select_records(page, kind, TITLES, LINKS, TARGET) {
        Some(list) => {
            let mut more = candidates_from_records(&list, source);
            let ghost added = candidates(more@);
            found.append(&mut more);
            assert(candidates(found@) =~= before + added);
        },
        None => {
            assert(before + seq![] =~= before);
        },
    }
}

/// The candidates of a page, one for each name, in the order of the names: of several with one
/// name the first.
pub fn parse_candidates(page: &str, source: &str) -> (unique: Vec<ReleaseCandidate>)
    requires
        page@.len() <= PAGE_LIMIT,
        source@.len() <= SOURCE_LIMIT,
    ensures
        lists(candidates(unique@), first_of_each(candidates_of_page(page@, source@))),
{
    let mut found: Vec<ReleaseCandidate> = Vec::new();
    assert(candidates(found@) =~= seq![]);
    proof {
        reveal_strlit("tr");
        reveal_strlit(".torrent");
        reveal_strlit(".item");
    }
    add_kind(&mut found, page, "tr", source);
    add_kind(&mut found, page, ".torrent", source);
    add_kind(&mut found, page, ".item", source);
    assert(seq![] + candidates_of_kind(page@, "tr"@, source@) =~= candidates_of_kind(
        page@,
        "tr"@,
        source@,
    ));
    if found.len() == 0 {
        found = parse_legacy_blocks(page, source);
    }
    unique_candidates(&found)
}

// ---------------------------------------------------------------------------
// Feeds
// ---------------------------------------------------------------------------

/// Feeds whose address holds more characters than this are not read, so that with any link of a
/// page it can be resolved.
pub const SOURCE_LIMIT: usize = 0x1fff_ffff;

/// The feeds that are scanned when none are named.
pub const DEFAULT_SOURCES: [&'static str; 2] = [
    "https://tpb.party/top/207",
    "https://tpb.party/browse/207/1/7/0",
];

/// The feeds to scan: those named, or the default ones.
pub fn effective_sources(sources: &[String]) -> (list: Vec<String>)
    ensures
        strings(list@) == if sources@.len() == 0 {
            seq!["https://tpb.party/top/207"@, "https://tpb.party/browse/207/1/7/0"@]
        } else {
            strings(sources@)
        },
{
    let mut list: Vec<String> = Vec::new();
    if sources.len() == 0 {
        list.push(DEFAULT_SOURCES[0].to_owned());
        list.push(DEFAULT_SOURCES[1].to_owned());
        assert(strings(list@) =~= seq![
            "https://tpb.party/top/207"@,
            "https://tpb.party/browse/207/1/7/0"@,
        ]);
        return list;
    }
    let mut i: usize = 0;
    while i < sources.len()
        invariant
            i <= sources@.len(),
            strings(list@) == strings(sources@).take(i as int),
        decreases sources@.len() - i,
    {
        let ghost before = strings(list@);
        list.push(sources[i].clone());
        assert(strings(list@) =~= before.push(sources@[i as int]@));
        assert(strings(sources@).take(i + 1) =~= before.push(sources@[i as int]@));
        i += 1;
    }
    assert(strings(sources@).take(sources@.len() as int) == strings(sources@));
    list
}

/// How many times a feed is asked for before it counts as failed.
pub const FETCH_ATTEMPTS: u64 = 3;

/// How many seconds to wait after a failed attempt to fetch a feed, the first being number one,
/// or nothing when it was the last.
pub fn wait_after_attempt(attempt: u64) -> (seconds: Option<u64>)
    ensures
        seconds == if attempt < FETCH_ATTEMPTS {
            Some(attempt)
        } else {
            None
        },
{
    if attempt < FETCH_ATTEMPTS {
        Some(attempt)
    } else {
        None
    }
}

/// No feed could be fetched, so a scan has nothing to go by.
#[derive(Debug)]
pub struct EveryFeedFailed;

/// What a scan of the feeds came to.
pub struct ScanReport {
    /// The candidates of all feeds, one for each name, in the order of the names.
    pub candidates: Vec<ReleaseCandidate>,
    /// How many candidates each feed had by itself, where it could be fetched.
    pub parsed: Vec<Option<usize>>,
}

/// The pages that came back, as far as they did.
pub open spec fn pages(list: Seq<Option<String>>) -> Seq<Option<Seq<char>>> {
    crate::html::optionals(list)
}

/// The candidates of the first `n` feeds: those of each page that came back, one for each name
/// and in their order, put to those of the feeds before it.
pub open spec fn found_in_feeds(
    sources: Seq<Seq<char>>,
    list: Seq<Option<Seq<char>>>,
    n: int,
) -> Map<Seq<char>, CandidateView>
    decreases n,
{
    if n <= 0 {
        Map::empty()
    } else {
        let before = found_in_feeds(sources, list, n - 1);
        match list[n - 1] {
            Some(page) => merged(
                before,
                listing(first_of_each(candidates_of_page(page, sources[n - 1]))),
            ),
            None => before,
        }
    }
}

/// The list of a table.
pub open spec fn listing(table: Map<Seq<char>, CandidateView>) -> Seq<CandidateView> {
    choose|list: Seq<CandidateView>| lists(list, table)
}

/// Puts the pages of the feeds together, in the order of the feeds. It fails when no feed could
/// be fetched at all.
pub fn scan_sources(sources: &Vec<String>, fetched: &Vec<Option<String>>) -> (report: Result<
    ScanReport,
    EveryFeedFailed,
>)
    requires
        sources@.len() == fetched@.len(),
        forall|i: int|
            0 <= i < fetched@.len() ==> (#[trigger] fetched@[i] is Some ==> fetched@[i]->0@.len()
                <= PAGE_LIMIT && sources@[i]@.len() <= SOURCE_LIMIT),
    ensures
        report is Err <==> forall|i: int|
            0 <= i < fetched@.len() ==> (#[trigger] fetched@[i]) is None,
        report is Ok ==> {
            &&& lists(
                candidates(report->Ok_0.candidates@),
                found_in_feeds(strings(sources@), pages(fetched@), fetched@.len() as int),
            )
            &&& report->Ok_0.parsed@.len() == fetched@.len()
            &&& forall|i: int|
                0 <= i < fetched@.len() ==> (#[trigger] report->Ok_0.parsed@[i] == match fetched@[i] {
                    Some(page) => Some(
                        listing(first_of_each(candidates_of_page(page@, sources@[i]@))).len() as usize,
                    ),
                    None => None,
                })
        },
{
    let mut items: Vec<ReleaseCandidate> = Vec::new();
    let mut parsed: Vec<Option<usize>> = Vec::new();
    let mut successful = false;
    let mut i: usize = 0;
    let ghost names = strings(sources@);
    let ghost list = pages(fetched@);
    assert(lists(candidates(items@), Map::empty()));
    while i < fetched.len()
        invariant
            i <= fetched@.len() == sources@.len(),
            forall|i: int|
                0 <= i < fetched@.len() ==> (#[trigger] fetched@[i] is Some
                    ==> fetched@[i]->0@.len() <= PAGE_LIMIT && sources@[i]@.len() <= SOURCE_LIMIT),
            names == strings(sources@),
            list == pages(fetched@),
            lists(candidates(items@), found_in_feeds(names, list, i as int)),
            parsed@.len() == i,
            forall|j: int|
                0 <= j < i ==> (#[trigger] parsed@[j] == match fetched@[j] {
                    Some(page) => Some(
                        listing(first_of_each(candidates_of_page(page@, sources@[j]@))).len() as usize,
                    ),
                    None => None,
                }),
            successful <==> exists|j: int| 0 <= j < i && (#[trigger] fetched@[j]) is Some,
        decreases fetched@.len() - i,
    {
        assert(list[i as int] == crate::models::optional(fetched@[i as int]));
        match &fetched[i] {
            Some(page) => {
                let found = parse_candidates(page.as_str(), sources[i].as_str());
                let ghost table = first_of_each(candidates_of_page(page@, sources@[i as int]@));
                proof {
                    assert(lists(candidates(found@), table));
                    crate::table::lemma_list_is_unique(candidates(found@), listing(table), table);
                }
                merge_candidates(&mut items, &found);
                parsed.push(Some(found.len()));
                successful = true;
                assert(fetched@[i as int] is Some);
            },
            None => {
                parsed.push(None);
            },
        }
        i += 1;
    }
    if !successful {
        return Err(EveryFeedFailed);
    }
    Ok(ScanReport { candidates: items, parsed })
}

// ---------------------------------------------------------------------------
// Laws
// ---------------------------------------------------------------------------

/// Normalizing takes a name apart at everything that is no letter or number and joins the
/// stretches by single spaces: what follows a gap up to the next one stands first, whole and as
/// it is, and behind it, after a space, what the rest comes to.
pub proof fn normalising_keeps_stretches_of_letters_and_numbers(
    gap: Seq<char>,
    part: Seq<char>,
    rest: Seq<char>,
)
    requires
        forall|i: int| 0 <= i < gap.len() ==> !is_letter_or_number(#[trigger] gap[i]),
        part.len() > 0,
        forall|i: int| 0 <= i < part.len() ==> is_letter_or_number(#[trigger] part[i]),
        rest.len() > 0 ==> !is_letter_or_number(rest[0]),
    ensures
        normalised(gap) == Seq::<char>::empty(),
        normalised(gap + part + rest) == if normalised(rest).len() == 0 {
            part
        } else {
            part + seq![' '] + normalised(rest)
        },
{
    let class = CharClass::Alphanumeric;
    assert forall|i: int| 0 <= i < gap.len() implies !class.holds(#[trigger] gap[i]) by {
        assert(!is_letter_or_number(gap[i]));
    }
    assert forall|i: int| 0 <= i < part.len() implies class.holds(#[trigger] part[i]) by {
        assert(is_letter_or_number(part[i]));
    }
    lemma_runs_of_a_gap(gap, class);
    lemma_runs_from_the_front(gap, part, rest, class);
    let behind = runs(rest, class);
    lemma_runs_are_runs(rest, class);
    lemma_joined_runs_are_normal(behind);
    assert(space() =~= seq![' ']);
    if behind.len() == 0 {
        assert(seq![part] + behind =~= seq![part]);
    } else {
        lemma_joined_two(seq![part], behind, space());
        assert(joined(seq![part], space()) == part);
    }
}

/// The units of size: bytes, and kilo-, mega-, giga- and terabytes as powers of a thousand, or of
/// 1024 where an `i` stands in the name. Nothing else is a unit.
pub proof fn units_are_powers_of_a_thousand_or_1024(unit: Seq<char>)
    ensures
        unit_bytes(unit) == (if unit == "b"@ {
            Some(1)
        } else if unit == "kb"@ {
            Some(1000)
        } else if unit == "mb"@ {
            Some((1000 * 1000) as u64)
        } else if unit == "gb"@ {
            Some((1000 * 1000 * 1000) as u64)
        } else if unit == "tb"@ {
            Some((1000 * 1000 * 1000 * 1000) as u64)
        } else if unit == "kib"@ {
            Some(1024)
        } else if unit == "mib"@ {
            Some((1024 * 1024) as u64)
        } else if unit == "gib"@ {
            Some((1024 * 1024 * 1024) as u64)
        } else if unit == "tib"@ {
            Some((1024 * 1024 * 1024 * 1024) as u64)
        } else {
            None
        }),
{
    reveal_strlit("b");
    reveal_strlit("kb");
    reveal_strlit("mb");
    reveal_strlit("gb");
    reveal_strlit("tb");
    reveal_strlit("kib");
    reveal_strlit("mib");
    reveal_strlit("gib");
    reveal_strlit("tib");
    assert("kb"@[0] == 'k' && "mb"@[0] == 'm' && "gb"@[0] == 'g' && "tb"@[0] == 't');
    assert("kib"@[0] == 'k' && "mib"@[0] == 'm' && "gib"@[0] == 'g' && "tib"@[0] == 't');
}

/// The words at `place` and behind it denote a size: a number that is not negative, with what is
/// no digit or point cut off at its ends, and a unit, in capitals or not, with what is no letter
/// or digit cut off at its ends.
pub open spec fn stands_for_size(text: Seq<char>, place: int) -> bool {
    let list = words(text);
    &&& 0 <= place
    &&& place + 1 < list.len()
    &&& finite_value(trimmed(list[place], Trim::ToNumber)) is Some
    &&& finite_value(trimmed(list[place], Trim::ToNumber))->0.bits < 0x8000_0000_0000_0000
    &&& unit_bytes(lowered(trimmed(list[place + 1], Trim::ToUnit))) is Some
}

proof fn lemma_first_size_is_found(text: Seq<char>, from: int, place: int)
    requires
        0 <= from <= place,
        stands_for_size(text, place),
        forall|i: int| from <= i < place ==> !#[trigger] stands_for_size(text, i),
    ensures
        first_size(words(text), from) == Some(
            (
                place,
                whole_multiple(
                    finite_value(trimmed(words(text)[place], Trim::ToNumber))->0,
                    unit_bytes(lowered(trimmed(words(text)[place + 1], Trim::ToUnit)))->0,
                ),
            ),
        ),
    decreases place - from,
{
    if from < place {
        assert(!stands_for_size(text, from));
        lemma_first_size_is_found(text, from + 1, place);
    }
}

proof fn lemma_no_size_is_found(text: Seq<char>, from: int)
    requires
        0 <= from,
        forall|i: int| from <= i ==> !#[trigger] stands_for_size(text, i),
    ensures
        first_size(words(text), from) is None,
    decreases words(text).len() - from,
{
    if from + 1 < words(text).len() {
        assert(!stands_for_size(text, from));
        lemma_no_size_is_found(text, from + 1);
    }
}

/// The size that a text advertises is that of the first words that denote one: the number times
/// the bytes of the unit. Behind it, with two words or more to come, the last two words are the
/// seeders and the leechers, where both are counts.
pub proof fn the_first_size_is_advertised(text: Seq<char>, place: int)
    requires
        stands_for_size(text, place),
        forall|i: int| 0 <= i < place ==> !#[trigger] stands_for_size(text, i),
    ensures
        advertised_size(text) == Some(
            whole_multiple(
                finite_value(trimmed(words(text)[place], Trim::ToNumber))->0,
                unit_bytes(lowered(trimmed(words(text)[place + 1], Trim::ToUnit)))->0,
            ),
        ),
        ({
            let list = words(text);
            let seeders = u64_value(list[list.len() - 2]);
            let leechers = u64_value(list[list.len() - 1]);
            advertised_swarm(text) == if place + 1 < list.len() - 2 && seeders is Some && leechers
                is Some {
                (seeders, leechers)
            } else {
                (None, None)
            }
        }),
{
    lemma_first_size_is_found(text, 0, place);
}

/// A text in which no words denote a size advertises none, nor a swarm.
pub proof fn without_a_size_nothing_is_advertised(text: Seq<char>)
    requires
        forall|i: int| 0 <= i ==> !#[trigger] stands_for_size(text, i),
    ensures
        advertised_size(text) is None,
        advertised_swarm(text) == (None::<u64>, None::<u64>),
{
    lemma_no_size_is_found(text, 0);
}

/// A link leads to a torrent exactly where, without white space at its ends and in small letters,
/// it begins with `magnet:`, or holds `.torrent` or `/torrent/download`.
pub proof fn torrent_links_are_told_by_their_text(href: Seq<char>)
    ensures
        ({
            let plain = lowered(trimmed(href, Trim::Space));
            &&& leads_to_torrent(href) <==> "magnet:"@.is_prefix_of(plain) || (exists|
                left: Seq<char>,
                right: Seq<char>,
            |
                plain == #[trigger] (left + ".torrent"@ + right)) || (exists|
                left: Seq<char>,
                right: Seq<char>,
            |
                plain == #[trigger] (left + "/torrent/download"@ + right))
            &&& is_magnet(href) <==> "magnet:"@.is_prefix_of(plain)
        }),
{
    let plain = lowered(trimmed(href, Trim::Space));
    parts_stand_within_texts(plain, ".torrent"@);
    parts_stand_within_texts(plain, "/torrent/download"@);
}

/// A magnet link stands for itself, without white space at its ends. Any other link stands for
/// what it denotes on the page, or for itself where it denotes nothing there.
pub proof fn magnets_stand_for_themselves(source: Seq<char>, href: Seq<char>)
    ensures
        ({
            let plain = trimmed(href, Trim::Space);
            resolved(source, href) == if "magnet:"@.is_prefix_of(lowered(plain)) {
                plain
            } else {
                match joined_url(source, plain) {
                    Some(address) => address,
                    None => plain,
                }
            }
        }),
{
}

proof fn lemma_first_torrent_link(links: Seq<Option<Seq<char>>>, place: int)
    requires
        0 <= place < links.len(),
        links[place] is Some,
        leads_to_torrent(links[place]->0),
        forall|i: int|
            0 <= i < place ==> !(#[trigger] links[i] is Some && leads_to_torrent(links[i]->0)),
    ensures
        first_torrent_link(links) == links[place],
    decreases place,
{
    if place > 0 {
        assert(!(links[0] is Some && leads_to_torrent(links[0]->0)));
        let rest = links.drop_first();
        assert forall|i: int| 0 <= i < place - 1 implies !(#[trigger] rest[i] is Some
            && leads_to_torrent(rest[i]->0)) by {
            assert(rest[i] == links[i + 1]);
        }
        lemma_first_torrent_link(rest, place - 1);
    }
}

/// A record with a title that has a letter or number, and with a link that leads to a torrent, is
/// a candidate: its name is the first title, normalized; its address is what the first such link
/// stands for; its size and swarm are those that its text advertises.
pub proof fn records_with_a_title_and_a_torrent_are_candidates(
    record: RecordView,
    source: Seq<char>,
    place: int,
)
    requires
        record.titles.len() > 0,
        normalised(trimmed(joined(record.titles[0], " "@), Trim::Space)).len() > 0,
        0 <= place < record.links.len(),
        record.links[place] is Some,
        leads_to_torrent(record.links[place]->0),
        forall|i: int|
            0 <= i < place ==> !(#[trigger] record.links[i] is Some && leads_to_torrent(
                record.links[i]->0,
            )),
    ensures
        ({
            let text = trimmed(joined(record.texts, " "@), Trim::Space);
            candidate_of_record(record, source) == Some(
                CandidateView {
                    name: normalised(trimmed(joined(record.titles[0], " "@), Trim::Space)),
                    url: resolved(source, record.links[place]->0),
                    size_bytes: advertised_size(text),
                    seeders: advertised_swarm(text).0,
                    leechers: advertised_swarm(text).1,
                },
            )
        }),
{
    reveal_strlit(" ");
    assert(space() =~= " "@);
    lemma_first_torrent_link(record.links, place);
}

/// A record without a title that has a letter or number, or without a link that leads to a
/// torrent, is no candidate.
pub proof fn records_without_title_or_torrent_are_no_candidates(
    record: RecordView,
    source: Seq<char>,
)
    requires
        candidate_of_record(record, source) is Some,
    ensures
        record.titles.len() > 0,
        normalised(trimmed(joined(record.titles[0], " "@), Trim::Space)).len() > 0,
        exists|i: int|
            0 <= i < record.links.len() && #[trigger] record.links[i] is Some && leads_to_torrent(
                record.links[i]->0,
            ),
{
    reveal_strlit(" ");
    assert(space() =~= " "@);
    lemma_some_torrent_link(record.links);
}

proof fn lemma_some_torrent_link(links: Seq<Option<Seq<char>>>)
    requires
        first_torrent_link(links) is Some,
    ensures
        exists|i: int|
            0 <= i < links.len() && #[trigger] links[i] is Some && leads_to_torrent(links[i]->0),
    decreases links.len(),
{
    if !(links[0] is Some && leads_to_torrent(links[0]->0)) {
        let rest = links.drop_first();
        lemma_some_torrent_link(rest);
        let i = choose|i: int|
            0 <= i < rest.len() && #[trigger] rest[i] is Some && leads_to_torrent(rest[i]->0);
        assert(links[i + 1] == rest[i]);
    } else {
        assert(links[0] is Some);
    }
}

/// The candidates of two lists of records are those of the first and then those of the second,
/// however many there are; those of a single record are the one that it is, or none.
pub proof fn records_are_read_one_by_one(
    left: Seq<RecordView>,
    right: Seq<RecordView>,
    one: RecordView,
    source: Seq<char>,
)
    ensures
        candidates_of_records(left + right, source) == candidates_of_records(left, source)
            + candidates_of_records(right, source),
        candidates_of_records(seq![one], source) == (match candidate_of_record(one, source) {
            Some(candidate) => seq![candidate],
            None => Seq::<CandidateView>::empty(),
        }),
    decreases right.len(),
{
    if right.len() == 0 {
        assert(left + right =~= left);
        assert(candidates_of_records(left, source) + candidates_of_records(right, source)
            =~= candidates_of_records(left, source));
    } else {
        records_are_read_one_by_one(left, right.drop_last(), one, source);
        assert((left + right).drop_last() =~= left + right.drop_last());
        assert((left + right).last() == right.last());
        assert(candidates_of_records(left + right, source) =~= candidates_of_records(left, source)
            + candidates_of_records(right, source));
    }
    reveal_with_fuel(candidates_of_records, 2);
    assert(seq![one].drop_last() =~= Seq::empty());
    assert(candidates_of_records(seq![one], source) =~= match candidate_of_record(one, source) {
        Some(candidate) => seq![candidate],
        None => Seq::<CandidateView>::empty(),
    });
}

/// Every record that is a candidate by itself is among the candidates of its list, however many
/// records there are, behind the candidates of the records before it.
pub proof fn every_record_is_read(list: Seq<RecordView>, source: Seq<char>, i: int)
    requires
        0 <= i < list.len(),
        candidate_of_record(list[i], source) is Some,
    ensures
        candidates_of_records(list, source).contains(candidate_of_record(list[i], source)->0),
        ({
            let before = candidates_of_records(list.take(i), source).len() as int;
            before < candidates_of_records(list, source).len() && candidates_of_records(
                list,
                source,
            )[before] == candidate_of_record(list[i], source)->0
        }),
{
    let left = list.take(i);
    let right = list.skip(i + 1);
    let one = seq![list[i]];
    assert(list =~= left + one + right);
    records_are_read_one_by_one(left + one, right, list[i], source);
    records_are_read_one_by_one(left, one, list[i], source);
    let all = candidates_of_records(left, source) + seq![candidate_of_record(list[i], source)->0]
        + candidates_of_records(right, source);
    assert(candidates_of_records(list, source) == all);
    assert(all[candidates_of_records(left, source).len() as int] == candidate_of_record(
        list[i],
        source,
    )->0);
}

/// The candidates of two lists of blocks are those of the first and then those of the second;
/// those of a single block are the one that its links make, or none.
pub proof fn blocks_are_read_one_by_one(
    left: Seq<Seq<char>>,
    right: Seq<Seq<char>>,
    one: Seq<char>,
    source: Seq<char>,
)
    ensures
        candidates_of_blocks(left + right, source) == candidates_of_blocks(left, source)
            + candidates_of_blocks(right, source),
        candidates_of_blocks(seq![one], source) == (match selected_links(
            one,
            "a[href]"@,
            "href"@,
        ) {
            Some(record) => match candidate_of_record(record, source) {
                Some(candidate) => seq![candidate],
                None => Seq::<CandidateView>::empty(),
            },
            None => Seq::<CandidateView>::empty(),
        }),
    decreases right.len(),
{
    if right.len() == 0 {
        assert(left + right =~= left);
        assert(candidates_of_blocks(left, source) + candidates_of_blocks(right, source)
            =~= candidates_of_blocks(left, source));
    } else {
        blocks_are_read_one_by_one(left, right.drop_last(), one, source);
        assert((left + right).drop_last() =~= left + right.drop_last());
        assert((left + right).last() == right.last());
        assert(candidates_of_blocks(left + right, source) =~= candidates_of_blocks(left, source)
            + candidates_of_blocks(right, source));
    }
    reveal_with_fuel(candidates_of_blocks, 2);
    assert(seq![one].drop_last() =~= Seq::empty());
    assert(candidates_of_blocks(seq![one], source).len() <= 1);
    assert(candidates_of_blocks(seq![one], source) =~= match selected_links(
        one,
        "a[href]"@,
        "href"@,
    ) {
        Some(record) => match candidate_of_record(record, source) {
            Some(candidate) => seq![candidate],
            None => Seq::<CandidateView>::empty(),
        },
        None => Seq::<CandidateView>::empty(),
    });
}

/// A page in the older layout is taken apart before each `detName`: from a mark on up to the next
/// one, or to the end of the page, is a block, whole and as it stands, and what precedes the
/// first mark is in none.
pub proof fn blocks_begin_with_their_marks(page: Seq<char>, cursor: int, start: int, end: int)
    requires
        0 <= cursor <= start,
        occurs_at(page, "detName"@, start),
        forall|i: int| cursor <= i < start ==> !#[trigger] occurs_at(page, "detName"@, i),
        start + 7 <= end <= page.len(),
        end == page.len() || occurs_at(page, "detName"@, end),
        forall|i: int| start + 7 <= i < end ==> !#[trigger] occurs_at(page, "detName"@, i),
    ensures
        blocks(page, BLOCK_MARK@, cursor) == seq![page.subrange(start, end)] + blocks(
            page,
            BLOCK_MARK@,
            end,
        ),
{
    reveal_strlit("detName");
    let mark = "detName"@;
    assert(mark.len() == 7);
    lemma_first_at(page, mark, cursor);
    assert(first_at(page, mark, cursor) == Some(start)) by {
        match first_at(page, mark, cursor) {
            Some(place) => {
                if place < start {
                    assert(!occurs_at(page, mark, place));
                } else if start < place {
                    assert(!occurs_at(page, mark, start));
                }
            },
            None => {
                assert(!occurs_at(page, mark, start));
            },
        }
    }
    lemma_first_at(page, mark, start + 7);
    assert(block_end(page, mark, start) == end) by {
        match first_at(page, mark, start + 7) {
            Some(place) => {
                if place < end {
                    assert(!occurs_at(page, mark, place));
                } else if end < place {
                    if end < page.len() {
                        assert(!occurs_at(page, mark, end));
                    }
                }
            },
            None => {
                if end < page.len() {
                    assert(!occurs_at(page, mark, end));
                }
            },
        }
    }
}

/// Without a further mark there is no further block.
pub proof fn pages_without_marks_have_no_blocks(page: Seq<char>, cursor: int)
    requires
        0 <= cursor,
        forall|i: int| cursor <= i ==> !#[trigger] occurs_at(page, "detName"@, i),
    ensures
        blocks(page, BLOCK_MARK@, cursor) == Seq::<Seq<char>>::empty(),
{
    reveal_strlit("detName");
    lemma_first_at(page, "detName"@, cursor);
}

/// A page is read for table rows, then for elements of the class `torrent`, then for those of the
/// class `item`, and every one that is a candidate is among those of the page.
pub proof fn pages_are_read_for_rows_torrents_and_items(
    page: Seq<char>,
    source: Seq<char>,
    kind: Seq<char>,
    list: Seq<RecordView>,
    i: int,
)
    requires
        kind == "tr"@ || kind == ".torrent"@ || kind == ".item"@,
        selected_records(
            page,
            kind,
            ".detName a, a.detLink, a[title^='Details for']"@,
            "a[href]"@,
            "href"@,
        ) == Some(list),
        0 <= i < list.len(),
        candidate_of_record(list[i], source) is Some,
    ensures
        candidates_of_page(page, source).contains(candidate_of_record(list[i], source)->0),
{
    every_record_is_read(list, source, i);
    let candidate = candidate_of_record(list[i], source)->0;
    let rows = candidates_of_kind(page, "tr"@, source);
    let torrents = candidates_of_kind(page, ".torrent"@, source);
    let items = candidates_of_kind(page, ".item"@, source);
    let all = rows + torrents + items;
    let own = candidates_of_kind(page, kind, source);
    assert(own == candidates_of_records(list, source));
    let k = choose|k: int| 0 <= k < own.len() && own[k] == candidate;
    if kind == "tr"@ {
        assert(all[k] == candidate);
    } else if kind == ".torrent"@ {
        assert(all[rows.len() + k] == candidate);
    } else {
        assert(all[rows.len() + torrents.len() + k] == candidate);
    }
    assert(all.len() > 0);
}

/// The older layout is read exactly where there is no candidate among the rows, torrents and
/// items.
pub proof fn the_older_layout_is_read_last(page: Seq<char>, source: Seq<char>)
    ensures
        ({
            let found = candidates_of_kind(page, "tr"@, source) + candidates_of_kind(
                page,
                ".torrent"@,
                source,
            ) + candidates_of_kind(page, ".item"@, source);
            candidates_of_page(page, source) == if found.len() > 0 {
                found
            } else {
                candidates_of_blocks(blocks(page, "detName"@, 0), source)
            }
        }),
{
}

/// The feeds are put together one after the other: a page that came back adds its candidates, one
/// for each name, and one that did not changes nothing.
pub proof fn feeds_are_put_together_in_their_order(
    sources: Seq<Seq<char>>,
    list: Seq<Option<Seq<char>>>,
    n: int,
)
    requires
        n >= 0,
    ensures
        found_in_feeds(sources, list, 0) == Map::<Seq<char>, CandidateView>::empty(),
        found_in_feeds(sources, list, n + 1) == (match list[n] {
            Some(page) => merged(
                found_in_feeds(sources, list, n),
                listing(first_of_each(candidates_of_page(page, sources[n]))),
            ),
            None => found_in_feeds(sources, list, n),
        }),
{
}

/// The feeds that are scanned by default, and how often one is asked for.
pub proof fn feeds_are_asked_for_three_times()
    ensures
        FETCH_ATTEMPTS == 3,
        DEFAULT_SOURCES@[0]@ == "https://tpb.party/top/207"@,
        DEFAULT_SOURCES@[1]@ == "https://tpb.party/browse/207/1/7/0"@,
        DEFAULT_SOURCES@.len() == 2,
{
}

/// Where feeds are named, these are scanned, all and in their order; and otherwise the two default
/// ones.
pub proof fn the_named_feeds_are_scanned_or_else_the_default_ones(
    sources: &[String],
    list: Vec<String>,
)
    requires
        call_ensures(effective_sources, (sources,), list),
    ensures
        sources@.len() > 0 ==> list@.len() == sources@.len() && forall|i: int|
            0 <= i < list@.len() ==> (#[trigger] list@[i])@ == sources@[i]@,
        sources@.len() == 0 ==> list@.len() == 2 && list@[0]@ == "https://tpb.party/top/207"@
            && list@[1]@ == "https://tpb.party/browse/207/1/7/0"@,
{
    assert(strings(list@).len() == list@.len());
    if sources@.len() > 0 {
        assert forall|i: int| 0 <= i < list@.len() implies (#[trigger] list@[i])@
            == sources@[i]@ by {
            assert(strings(list@)[i] == strings(sources@)[i]);
        }
    } else {
        assert(strings(list@)[0] == list@[0]@);
        assert(strings(list@)[1] == list@[1]@);
    }
}

/// After the first failed attempt at a feed there is a pause of a second, after the second one of
/// two seconds, and after the third none: the feed has failed.
pub proof fn pauses_grow_until_the_third_attempt(attempt: u64, seconds: Option<u64>)
    requires
        call_ensures(wait_after_attempt, (attempt,), seconds),
    ensures
        attempt < 3 ==> seconds == Some(attempt),
        attempt >= 3 ==> seconds is None,
{
}

/// Every record of a page that has a title with a letter or number and a link to a torrent is
/// among the candidates, however many records there are: the candidate has the name that the
/// first title makes.
pub proof fn no_record_of_a_page_is_dropped(
    list: &Vec<Record>,
    source: &str,
    found: Vec<ReleaseCandidate>,
    i: int,
)
    requires
        call_ensures(candidates_from_records, (list, source), found),
        0 <= i < list@.len(),
        candidate_of_record(list@[i]@, source@) is Some,
    ensures
        exists|k: int|
            0 <= k < found@.len() && (#[trigger] found@[k])@ == candidate_of_record(
                list@[i]@,
                source@,
            )->0,
        candidates(found@).contains(candidate_of_record(list@[i]@, source@)->0),
{
    every_record_is_read(records(list@), source@, i);
    let candidate = candidate_of_record(list@[i]@, source@)->0;
    let k = choose|k: int| 0 <= k < candidates(found@).len() && candidates(found@)[k] == candidate;
    assert(found@[k]@ == candidate);
}

/// A scan fails exactly where no page came back. Otherwise its candidates come in the order of
/// their names, and a count is reported for each feed whose page came back and for no other.
pub proof fn scans_fail_only_without_any_page(
    sources: &Vec<String>,
    fetched: &Vec<Option<String>>,
    report: Result<ScanReport, EveryFeedFailed>,
    i: int,
)
    requires
        call_ensures(scan_sources, (sources, fetched), report),
        0 <= i < fetched@.len(),
    ensures
        fetched@[i] is Some ==> report is Ok,
        report is Err ==> fetched@[i] is None,
        report is Ok ==> report->Ok_0.parsed@.len() == fetched@.len() && (
        report->Ok_0.parsed@[i] is Some <==> fetched@[i] is Some),
        report is Ok ==> exists|j: int| 0 <= j < fetched@.len() && (#[trigger] fetched@[j]) is Some,
{
    if report is Ok {
        assert(report->Ok_0.parsed@[i] is Some <==> fetched@[i] is Some);
    }
}

/// A scan lists the candidates of all feeds that came back, in the order of the code points of
/// their names.
pub proof fn scans_list_what_the_feeds_hold(
    sources: &Vec<String>,
    fetched: &Vec<Option<String>>,
    report: Result<ScanReport, EveryFeedFailed>,
    name: Seq<char>,
)
    requires
        call_ensures(scan_sources, (sources, fetched), report),
        report is Ok,
    ensures
        ({
            let table = found_in_feeds(
                strings(sources@),
                pages(fetched@),
                fetched@.len() as int,
            );
            table.contains_key(name) <==> exists|k: int|
                0 <= k < report->Ok_0.candidates@.len() && (#[trigger] report->Ok_0.candidates@[k])@
                    == table[name] && table[name].name == name
        }),
{
    let table = found_in_feeds(strings(sources@), pages(fetched@), fetched@.len() as int);
    let list = candidates(report->Ok_0.candidates@);
    if table.contains_key(name) {
        let k = choose|k: int| 0 <= k < list.len() && (#[trigger] list[k]).name == name;
        assert(report->Ok_0.candidates@[k]@ == list[k]);
    }
    if exists|k: int|
        0 <= k < report->Ok_0.candidates@.len() && (#[trigger] report->Ok_0.candidates@[k])@
            == table[name] && table[name].name == name {
        let k = choose|k: int|
            0 <= k < report->Ok_0.candidates@.len() && (#[trigger] report->Ok_0.candidates@[k])@
                == table[name] && table[name].name == name;
        assert(list[k] == report->Ok_0.candidates@[k]@);
    }
}

/// A normalized name is made of the stretches of letters and numbers, joined by single spaces.
pub proof fn names_are_normalised_to_their_stretches(name: &str, output: String)
    requires
        call_ensures(normalise_name, (name,), output),
    ensures
        output@ == joined(runs(name@, CharClass::Alphanumeric), seq![' ']),
        forall|c: char| #[trigger]
            CharClass::Alphanumeric.holds(c) <==> is_letter_or_number(c),
{
    assert(space() =~= seq![' ']);
}

/// A link counts as one to a torrent exactly where, without white space at its ends and in small
/// letters, it begins with `magnet:`, or holds `.torrent` or `/torrent/download`.
pub proof fn links_to_torrents_are_recognised(href: &str, found: bool)
    requires
        call_ensures(is_torrent_link, (href,), found),
    ensures
        ({
            let plain = lowered(trimmed(href@, Trim::Space));
            found <==> "magnet:"@.is_prefix_of(plain) || (exists|
                left: Seq<char>,
                right: Seq<char>,
            |
                plain == #[trigger] (left + ".torrent"@ + right)) || (exists|
                left: Seq<char>,
                right: Seq<char>,
            |
                plain == #[trigger] (left + "/torrent/download"@ + right))
        }),
{
    torrent_links_are_told_by_their_text(href@);
}

/// What a link stands for: itself where it is a magnet link, and else what joining it to the
/// address of the page gives, or itself where that gives nothing.
pub proof fn links_are_joined_to_their_page(source: &str, href: &str, url: String)
    requires
        call_ensures(resolve_url, (source, href), url),
    ensures
        ({
            let plain = trimmed(href@, Trim::Space);
            &&& "magnet:"@.is_prefix_of(lowered(plain)) ==> url@ == plain
            &&& !"magnet:"@.is_prefix_of(lowered(plain)) && joined_url(source@, plain) is Some
                ==> url@ == joined_url(source@, plain)->0
            &&& joined_url(source@, plain) is None ==> url@ == plain
        }),
{
    magnets_stand_for_themselves(source@, href@);
}

/// The size read from a text is that of the first words in it that denote one, and the seeders and
/// leechers are its last two words, where both are counts and stand behind the size.
pub proof fn sizes_and_swarms_are_read_from_the_text(
    text: &str,
    size: Option<u64>,
    swarm: (Option<u64>, Option<u64>),
    place: int,
)
    requires
        call_ensures(torrent_size_bytes, (text,), size),
        call_ensures(swarm_counts, (text,), swarm),
    ensures
        ({
            let list = words(text@);
            let first = stands_for_size(text@, place) && forall|i: int|
                0 <= i < place ==> !#[trigger] stands_for_size(text@, i);
            let seeders = u64_value(list[list.len() - 2]);
            let leechers = u64_value(list[list.len() - 1]);
            &&& first ==> size == Some(
                whole_multiple(
                    finite_value(trimmed(list[place], Trim::ToNumber))->0,
                    unit_bytes(lowered(trimmed(list[place + 1], Trim::ToUnit)))->0,
                ),
            )
            &&& first ==> swarm == if place + 1 < list.len() - 2 && seeders is Some && leechers
                is Some {
                (seeders, leechers)
            } else {
                (None, None)
            }
            &&& (forall|i: int| 0 <= i ==> !#[trigger] stands_for_size(text@, i)) ==> size is None
                && swarm.0 is None && swarm.1 is None
        }),
{
    if stands_for_size(text@, place) && forall|i: int|
        0 <= i < place ==> !#[trigger] stands_for_size(text@, i) {
        the_first_size_is_advertised(text@, place);
    }
    if forall|i: int| 0 <= i ==> !#[trigger] stands_for_size(text@, i) {
        without_a_size_nothing_is_advertised(text@);
    }
}

/// Of the candidates of a page that have one name the first is kept, and none of another name is
/// added.
pub proof fn pages_keep_the_first_candidate_of_each_name(
    page: &str,
    source: &str,
    unique: Vec<ReleaseCandidate>,
    at: int,
    k: int,
)
    requires
        call_ensures(parse_candidates, (page, source), unique),
    ensures
        ({
            let all = candidates_of_page(page@, source@);
            &&& 0 <= at < all.len() && (forall|i: int|
                0 <= i < at ==> (#[trigger] all[i]).name != all[at].name) ==> candidates(
                unique@,
            ).contains(all[at])
            &&& 0 <= k < unique@.len() ==> all.contains(unique@[k]@)
        }),
{
    let all = candidates_of_page(page@, source@);
    let table = first_of_each(all);
    if 0 <= at < all.len() && forall|i: int|
        0 <= i < at ==> (#[trigger] all[i]).name != all[at].name {
        the_first_candidate_of_each_name_is_kept(all, at);
        nothing_is_left_out_of_a_list(candidates(unique@), table, 0, all[at].name);
    }
    if 0 <= k < unique@.len() {
        nothing_is_left_out_of_a_list(candidates(unique@), table, k, unique@[k].name@);
        assert(candidates(unique@)[k] == unique@[k]@);
        let i = kept_names_are_those_of_candidates(all, unique@[k].name@);
        assert(all[i] == unique@[k]@);
    }
}

} // verus!
