//! Which of two variants of a movie is the better one.

use vstd::prelude::*;

use crate::models::{CandidateView, ReleaseCandidate};
use crate::order::{
    before, is_order, lemma_before_irreflexive, lemma_before_total, lemma_before_transitive,
    the_first_difference_orders,
};
use crate::text::{lower_chars, lowered, same_as, split_words, texts, words};

verus! {

/// The words of a release name in small letters.
pub open spec fn tags(name: Seq<char>) -> Seq<Seq<char>> {
    Seq::new(words(name).len(), |i: int| lowered(words(name)[i]))
}

/// One of the tags is `tag`.
pub open spec fn tagged(tags: Seq<Seq<char>>, tag: Seq<char>) -> bool {
    exists|i: int| 0 <= i < tags.len() && #[trigger] tags[i] == tag
}

/// The tag `first` is followed by the tag `second`.
pub open spec fn tagged_pair(tags: Seq<Seq<char>>, first: Seq<char>, second: Seq<char>) -> bool {
    exists|i: int|
        0 <= i && i + 1 < tags.len() && #[trigger] tags[i] == first && tags[i + 1] == second
}

/// Tagged as Dolby Vision.
pub open spec fn is_dolby_vision(tags: Seq<Seq<char>>) -> bool {
    tagged(tags, "dv"@) || tagged(tags, "dovi"@) || tagged_pair(tags, "dolby"@, "vision"@)
}

/// Tagged as HDR, in one of its static or dynamic forms.
pub open spec fn is_hdr(tags: Seq<Seq<char>>) -> bool {
    tagged(tags, "hdr"@) || tagged(tags, "hdr10"@) || tagged(tags, "hdr10p"@) || tagged(
        tags,
        "hdr10plus"@,
    )
}

/// How good the source is: REMUX, BluRay, WEB-DL, WEBRip, or none of them.
pub open spec fn source_tier(tags: Seq<Seq<char>>) -> u64 {
    if tagged(tags, "remux"@) {
        4
    } else if tagged(tags, "bluray"@) || tagged_pair(tags, "blu"@, "ray"@) {
        3
    } else if tagged(tags, "webdl"@) || tagged_pair(tags, "web"@, "dl"@) {
        2
    } else if tagged(tags, "webrip"@) || tagged_pair(tags, "web"@, "rip"@) {
        1
    } else {
        0
    }
}

/// How good the codec is: one of the newer generation, AVC, or none of them.
pub open spec fn codec_tier(tags: Seq<Seq<char>>) -> u64 {
    if tagged(tags, "hevc"@) || tagged(tags, "x265"@) || tagged(tags, "h265"@) || tagged_pair(
        tags,
        "h"@,
        "265"@,
    ) || tagged(tags, "av1"@) {
        2
    } else if tagged(tags, "avc"@) || tagged(tags, "x264"@) || tagged(tags, "h264"@)
        || tagged_pair(tags, "h"@, "264"@) {
        1
    } else {
        0
    }
}

/// A swarm that is known to have no seeders.
pub open spec fn is_dead(candidate: CandidateView) -> bool {
    candidate.seeders == Some(0u64)
}

/// A truth value as a number.
pub open spec fn one_if(truth: bool) -> u64 {
    if truth {
        1
    } else {
        0
    }
}

/// A count, or zero where it is unknown.
pub open spec fn known(count: Option<u64>) -> u64 {
    match count {
        Some(count) => count,
        None => 0,
    }
}

/// How good a candidate is, the most important point first: a swarm that is not known to be
/// dead, Dolby Vision, source, HDR, codec, seeders, leechers, size.
pub open spec fn quality(candidate: CandidateView) -> Seq<u64> {
    let tags = tags(candidate.name);
    seq![
        one_if(!is_dead(candidate)),
        one_if(is_dolby_vision(tags)),
        source_tier(tags),
        one_if(is_hdr(tags)),
        codec_tier(tags),
        known(candidate.seeders),
        known(candidate.leechers),
        known(candidate.size_bytes),
    ]
}

/// Numbers in their order.
pub open spec fn number_less() -> spec_fn(u64, u64) -> bool {
    |a: u64, b: u64| a < b
}

/// `left` is the better candidate.
pub open spec fn better(left: CandidateView, right: CandidateView) -> bool {
    before(quality(right), quality(left), number_less())
}

fn has_tag(list: &Vec<Vec<char>>, tag: &str) -> (found: bool)
    ensures
        found == tagged(texts(list@), tag@),
{
    let mut i: usize = 0;
    while i < list.len()
        invariant
            i <= list@.len(),
            forall|j: int| 0 <= j < i ==> #[trigger] texts(list@)[j] != tag@,
        decreases list@.len() - i,
    {
        if same_as(&list[i], tag) {
            assert(texts(list@)[i as int] == tag@);
            return true;
        }
        i += 1;
    }
    false
}

fn has_pair(list: &Vec<Vec<char>>, first: &str, second: &str) -> (found: bool)
    ensures
        found == tagged_pair(texts(list@), first@, second@),
{
    let mut i: usize = 0;
    while i < list.len() && i + 1 < list.len()
        invariant
            i <= list@.len(),
            forall|j: int|
                0 <= j < i && j + 1 < list@.len() ==> !(#[trigger] texts(list@)[j] == first@
                    && texts(list@)[j + 1] == second@),
        decreases list@.len() - i,
    {
        if same_as(&list[i], first) && same_as(&list[i + 1], second) {
            assert(texts(list@)[i as int] == first@ && texts(list@)[i + 1] == second@);
            return true;
        }
        i += 1;
    }
    false
}

fn tags_of(name: &str) -> (list: Vec<Vec<char>>)
    ensures
        texts(list@) == tags(name@),
{
    let parts = split_words(name);
    let mut list: Vec<Vec<char>> = Vec::new();
    let mut i: usize = 0;
    while i < parts.len()
        invariant
            i <= parts@.len(),
            texts(parts@) == words(name@),
            texts(list@) == tags(name@).take(i as int),
        decreases parts@.len() - i,
    {
        let ghost front = texts(list@);
        assert(words(name@)[i as int] == parts@[i as int]@);
        let small = lower_chars(&parts[i]);
        list.push(small);
        assert(texts(list@) =~= front.push(small@));
        assert(tags(name@).take(i + 1) =~= front.push(small@));
        i += 1;
    }
    assert(tags(name@).take(parts@.len() as int) =~= tags(name@));
    list
}

fn tier_of_source(list: &Vec<Vec<char>>) -> (tier: u64)
    ensures
        tier == source_tier(texts(list@)),
{
    if has_tag(list, "remux") {
        4
    } else if has_tag(list, "bluray") || has_pair(list, "blu", "ray") {
        3
    } else if has_tag(list, "webdl") || has_pair(list, "web", "dl") {
        2
    } else if has_tag(list, "webrip") || has_pair(list, "web", "rip") {
        1
    } else {
        0
    }
}

fn tier_of_codec(list: &Vec<Vec<char>>) -> (tier: u64)
    ensures
        tier == codec_tier(texts(list@)),
{
    if has_tag(list, "hevc") || has_tag(list, "x265") || has_tag(list, "h265") || has_pair(
        list,
        "h",
        "265",
    ) || has_tag(list, "av1") {
        2
    } else if has_tag(list, "avc") || has_tag(list, "x264") || has_tag(list, "h264") || has_pair(
        list,
        "h",
        "264",
    ) {
        1
    } else {
        0
    }
}

fn number_of(truth: bool) -> (number: u64)
    ensures
        number == one_if(truth),
{
    if truth {
        1
    } else {
        0
    }
}

fn count_of(count: Option<u64>) -> (number: u64)
    ensures
        number == known(count),
{
    match count {
        Some(count) => count,
        None => 0,
    }
}

/// How good a candidate is, the most important point first.
pub fn rank(candidate: &ReleaseCandidate) -> (points: Vec<u64>)
    ensures
        points@ == quality(candidate@),
{
    let list = tags_of(candidate.name.as_str());
    let dead = match candidate.seeders {
        Some(seeders) => seeders == 0,
        None => false,
    };
    let dolby_vision = has_tag(&list, "dv") || has_tag(&list, "dovi") || has_pair(
        &list,
        "dolby",
        "vision",
    );
    let hdr = has_tag(&list, "hdr") || has_tag(&list, "hdr10") || has_tag(&list, "hdr10p")
        || has_tag(&list, "hdr10plus");
    let mut points: Vec<u64> = Vec::new();
    points.push(number_of(!dead));
    points.push(number_of(dolby_vision));
    points.push(tier_of_source(&list));
    points.push(number_of(hdr));
    points.push(tier_of_codec(&list));
    points.push(count_of(candidate.seeders));
    points.push(count_of(candidate.leechers));
    points.push(count_of(candidate.size_bytes));
    assert(points@ =~= quality(candidate@));
    points
}

pub fn ranks_below(left: &Vec<u64>, right: &Vec<u64>) -> (less: bool)
    ensures
        less == before(left@, right@, number_less()),
{
    let mut i: usize = 0;
    assert(left@.skip(0) == left@);
    assert(right@.skip(0) == right@);
    loop
        invariant
            i <= left.len(),
            i <= right.len(),
            before(left@, right@, number_less()) == before(
                left@.skip(i as int),
                right@.skip(i as int),
                number_less(),
            ),
        decreases left.len() - i,
    {
        if i == right.len() {
            return false;
        }
        if i == left.len() {
            return true;
        }
        assert(left@.skip(i as int)[0] == left@[i as int]);
        assert(right@.skip(i as int)[0] == right@[i as int]);
        if left[i] < right[i] {
            return true;
        }
        if right[i] < left[i] {
            return false;
        }
        assert(left@.skip(i as int).drop_first() == left@.skip(i + 1));
        assert(right@.skip(i as int).drop_first() == right@.skip(i + 1));
        i += 1;
    }
}

proof fn lemma_first_difference(left: Seq<u64>, right: Seq<u64>, i: int)
    requires
        0 <= i < left.len() == right.len(),
        forall|j: int| 0 <= j < i ==> left[j] == right[j],
        left[i] < right[i],
    ensures
        before(left, right, number_less()),
    decreases i,
{
    if i > 0 {
        lemma_first_difference(left.drop_first(), right.drop_first(), i - 1);
    }
}

/// A swarm that is known to be dead never beats one that is not.
pub proof fn live_swarms_beat_dead_ones(live: CandidateView, dead: CandidateView)
    requires
        !is_dead(live),
        is_dead(dead),
    ensures
        better(live, dead),
        !better(dead, live),
{
    lemma_first_difference(quality(dead), quality(live), 0);
    assert(quality(live)[0] == 1);
    assert(quality(dead)[0] == 0);
}

/// Of two swarms that are alike in being dead or not, Dolby Vision beats everything else,
/// whatever the sources, codecs, swarms and sizes are.
pub proof fn dolby_vision_beats_the_rest(dolby: CandidateView, other: CandidateView)
    requires
        is_dead(dolby) == is_dead(other),
        is_dolby_vision(tags(dolby.name)),
        !is_dolby_vision(tags(other.name)),
    ensures
        better(dolby, other),
        !better(other, dolby),
{
    let left = quality(other);
    let right = quality(dolby);
    lemma_first_difference(left, right, 1);
    assert(right.drop_first()[0] == 1);
    assert(left.drop_first()[0] == 0);
    assert(before(right, left, number_less()) == before(
        right.drop_first(),
        left.drop_first(),
        number_less(),
    ));
}

/// The points of quality count in their order: where two candidates agree in all points before
/// one, that one decides.
pub proof fn the_first_difference_decides(left: CandidateView, right: CandidateView, point: int)
    requires
        0 <= point < 8,
        forall|i: int| 0 <= i < point ==> quality(left)[i] == quality(right)[i],
        quality(left)[point] > quality(right)[point],
    ensures
        better(left, right),
        !better(right, left),
{
    assert(quality(left).len() == 8 && quality(right).len() == 8);
    lemma_first_difference(quality(right), quality(left), point);
    if better(right, left) {
        better_is_an_order(left, right, left);
        better_is_an_order(left, left, left);
    }
}

/// Being better is a strict order: no candidate is better than itself, and of three the best is
/// better than the worst.
pub proof fn better_is_an_order(a: CandidateView, b: CandidateView, c: CandidateView)
    ensures
        !better(a, a),
        better(a, b) && better(b, c) ==> better(a, c),
        better(a, b) || better(b, a) || quality(a) == quality(b),
{
    assert(is_order(number_less()));
    lemma_before_irreflexive(quality(a), number_less());
    lemma_before_total(quality(a), quality(b), number_less());
    if better(a, b) && better(b, c) {
        lemma_before_transitive(quality(c), quality(b), quality(a), number_less());
    }
}

// ---------------------------------------------------------------------------
// What the points are given for
// ---------------------------------------------------------------------------

/// A word of a name is `tag`, up to ASCII case.
pub open spec fn has_word(name: Seq<char>, tag: Seq<char>) -> bool {
    exists|i: int| 0 <= i < words(name).len() && lowered(#[trigger] words(name)[i]) == tag
}

/// Two neighbouring words of a name are `first` and `second`, up to ASCII case.
pub open spec fn has_words(name: Seq<char>, first: Seq<char>, second: Seq<char>) -> bool {
    exists|i: int, j: int|
        0 <= i && j == i + 1 && j < words(name).len() && lowered(#[trigger] words(name)[i]) == first
            && lowered(#[trigger] words(name)[j]) == second
}

proof fn lemma_tagged(name: Seq<char>, tag: Seq<char>)
    ensures
        tagged(tags(name), tag) == has_word(name, tag),
{
    let list = tags(name);
    if tagged(list, tag) {
        let i = choose|i: int| 0 <= i < list.len() && #[trigger] list[i] == tag;
        assert(lowered(words(name)[i]) == tag);
    }
    if has_word(name, tag) {
        let i = choose|i: int|
            0 <= i < words(name).len() && lowered(#[trigger] words(name)[i]) == tag;
        assert(list[i] == tag);
    }
}

proof fn lemma_tagged_pair(name: Seq<char>, first: Seq<char>, second: Seq<char>)
    ensures
        tagged_pair(tags(name), first, second) == has_words(name, first, second),
{
    let list = tags(name);
    if tagged_pair(list, first, second) {
        let i = choose|i: int|
            0 <= i && i + 1 < list.len() && #[trigger] list[i] == first && list[i + 1] == second;
        assert(lowered(words(name)[i]) == first && lowered(words(name)[i + 1]) == second);
    }
    if has_words(name, first, second) {
        let (i, j) = choose|i: int, j: int|
            0 <= i && j == i + 1 && j < words(name).len() && lowered(#[trigger] words(name)[i])
                == first && lowered(#[trigger] words(name)[j]) == second;
        assert(list[i] == first && list[i + 1] == second);
    }
}

/// A candidate has eight points. The first is given unless its swarm is reported to have no
/// seeder; the last three are the numbers of seeders and leechers and the size, as far as they
/// are known.
pub proof fn swarms_and_sizes_count_as_reported(candidate: CandidateView)
    ensures
        quality(candidate).len() == 8,
        quality(candidate)[0] == (match candidate.seeders {
            Some(seeders) => if seeders == 0 {
                0u64
            } else {
                1
            },
            None => 1,
        }),
        quality(candidate)[5] == (match candidate.seeders {
            Some(seeders) => seeders,
            None => 0,
        }),
        quality(candidate)[6] == (match candidate.leechers {
            Some(leechers) => leechers,
            None => 0,
        }),
        quality(candidate)[7] == (match candidate.size_bytes {
            Some(size) => size,
            None => 0,
        }),
{
}

/// The second point is given exactly for the word `DV`, the word `DoVi`, or the word `Dolby`
/// directly followed by the word `Vision`, in capitals or not.
pub proof fn dolby_vision_is_told_by_its_words(candidate: CandidateView)
    ensures
        quality(candidate)[1] == if has_word(candidate.name, "dv"@) || has_word(
            candidate.name,
            "dovi"@,
        ) || has_words(candidate.name, "dolby"@, "vision"@) {
            1u64
        } else {
            0
        },
{
    lemma_tagged(candidate.name, "dv"@);
    lemma_tagged(candidate.name, "dovi"@);
    lemma_tagged_pair(candidate.name, "dolby"@, "vision"@);
}

/// The third point is four for the word `REMUX`, without it three for `BluRay` or `Blu Ray`,
/// without these two for `WEBDL` or `WEB DL`, without these one for `WEBRip` or `WEB Rip`, in
/// capitals or not, and zero without any of them.
pub proof fn sources_are_told_by_their_words(candidate: CandidateView)
    ensures
        ({
            let name = candidate.name;
            let point = quality(candidate)[2];
            let remux = has_word(name, "remux"@);
            let bluray = has_word(name, "bluray"@) || has_words(name, "blu"@, "ray"@);
            let download = has_word(name, "webdl"@) || has_words(name, "web"@, "dl"@);
            let rip = has_word(name, "webrip"@) || has_words(name, "web"@, "rip"@);
            &&& point <= 4
            &&& point == 4 <==> remux
            &&& point >= 3 <==> remux || bluray
            &&& point >= 2 <==> remux || bluray || download
            &&& point >= 1 <==> remux || bluray || download || rip
        }),
{
    lemma_tagged(candidate.name, "remux"@);
    lemma_tagged(candidate.name, "bluray"@);
    lemma_tagged_pair(candidate.name, "blu"@, "ray"@);
    lemma_tagged(candidate.name, "webdl"@);
    lemma_tagged_pair(candidate.name, "web"@, "dl"@);
    lemma_tagged(candidate.name, "webrip"@);
    lemma_tagged_pair(candidate.name, "web"@, "rip"@);
}

/// The fourth point is given exactly for one of the words `HDR`, `HDR10`, `HDR10P` and
/// `HDR10Plus`, in capitals or not.
pub proof fn hdr_is_told_by_its_words(candidate: CandidateView)
    ensures
        quality(candidate)[3] == if has_word(candidate.name, "hdr"@) || has_word(
            candidate.name,
            "hdr10"@,
        ) || has_word(candidate.name, "hdr10p"@) || has_word(candidate.name, "hdr10plus"@) {
            1u64
        } else {
            0
        },
{
    lemma_tagged(candidate.name, "hdr"@);
    lemma_tagged(candidate.name, "hdr10"@);
    lemma_tagged(candidate.name, "hdr10p"@);
    lemma_tagged(candidate.name, "hdr10plus"@);
}

/// The fifth point is two for the words `HEVC`, `x265`, `H265`, `H 265` and `AV1`, without them
/// one for `AVC`, `x264`, `H264` and `H 264`, in capitals or not, and zero without any of them.
pub proof fn codecs_are_told_by_their_words(candidate: CandidateView)
    ensures
        ({
            let name = candidate.name;
            let point = quality(candidate)[4];
            let newer = has_word(name, "hevc"@) || has_word(name, "x265"@) || has_word(
                name,
                "h265"@,
            ) || has_words(name, "h"@, "265"@) || has_word(name, "av1"@);
            let older = has_word(name, "avc"@) || has_word(name, "x264"@) || has_word(
                name,
                "h264"@,
            ) || has_words(name, "h"@, "264"@);
            &&& point <= 2
            &&& point == 2 <==> newer
            &&& point >= 1 <==> newer || older
        }),
{
    lemma_tagged(candidate.name, "hevc"@);
    lemma_tagged(candidate.name, "x265"@);
    lemma_tagged(candidate.name, "h265"@);
    lemma_tagged_pair(candidate.name, "h"@, "265"@);
    lemma_tagged(candidate.name, "av1"@);
    lemma_tagged(candidate.name, "avc"@);
    lemma_tagged(candidate.name, "x264"@);
    lemma_tagged(candidate.name, "h264"@);
    lemma_tagged_pair(candidate.name, "h"@, "264"@);
}

/// One candidate is better than another exactly where the first point in which they differ is
/// higher.
pub proof fn the_better_candidate_has_the_first_higher_point(
    left: CandidateView,
    right: CandidateView,
)
    ensures
        better(left, right) <==> exists|point: int|
            0 <= point < 8 && quality(left)[point] > #[trigger] quality(right)[point] && forall|
                i: int,
            |
                0 <= i < point ==> #[trigger] quality(left)[i] == quality(right)[i],
{
    let a = quality(left);
    let b = quality(right);
    assert(a.len() == 8 && b.len() == 8);
    if better(left, right) {
        the_first_difference_orders(b, a, number_less());
        let k = choose|k: int|
            0 <= k <= b.len() && k < a.len() && b.take(k) == #[trigger] a.take(k) && (k == b.len()
                || number_less()(b[k], a[k]));
        assert(a[k] > b[k]);
        assert forall|i: int| 0 <= i < k implies #[trigger] a[i] == b[i] by {
            assert(a.take(k)[i] == a[i] && b.take(k)[i] == b[i]);
        }
    }
    if exists|point: int|
        0 <= point < 8 && a[point] > #[trigger] b[point] && forall|i: int|
            0 <= i < point ==> #[trigger] a[i] == b[i] {
        let point = choose|point: int|
            0 <= point < 8 && a[point] > #[trigger] b[point] && forall|i: int|
                0 <= i < point ==> #[trigger] a[i] == b[i];
        the_first_difference_decides(left, right, point);
    }
}

/// The rank of a candidate has eight points; the second is one exactly where a word of the name is
/// `DV` or `DoVi`, or the word `Dolby` is directly followed by the word `Vision`, in capitals or
/// not, and zero otherwise.
pub proof fn ranks_tell_dolby_vision_by_its_words(candidate: &ReleaseCandidate, points: Vec<u64>)
    requires
        call_ensures(rank, (candidate,), points),
    ensures
        ({
            let list = words(candidate.name@);
            let named = exists|i: int|
                0 <= i < list.len() && (lowered(#[trigger] list[i]) == "dv"@ || lowered(list[i])
                    == "dovi"@ || (lowered(list[i]) == "dolby"@ && i + 1 < list.len() && lowered(
                    list[i + 1],
                ) == "vision"@));
            &&& points@.len() == 8
            &&& named ==> points@[1] == 1
            &&& !named ==> points@[1] == 0
        }),
{
    let name = candidate.name@;
    let list = words(name);
    dolby_vision_is_told_by_its_words(candidate@);
    if has_word(name, "dv"@) {
        let i = choose|i: int| 0 <= i < list.len() && lowered(#[trigger] list[i]) == "dv"@;
        assert(lowered(list[i]) == "dv"@);
    }
    if has_word(name, "dovi"@) {
        let i = choose|i: int| 0 <= i < list.len() && lowered(#[trigger] list[i]) == "dovi"@;
        assert(lowered(list[i]) == "dovi"@);
    }
    if has_words(name, "dolby"@, "vision"@) {
        let (i, j) = choose|i: int, j: int|
            0 <= i && j == i + 1 && j < list.len() && lowered(#[trigger] list[i]) == "dolby"@
                && lowered(#[trigger] list[j]) == "vision"@;
        assert(lowered(list[i]) == "dolby"@ && lowered(list[i + 1]) == "vision"@);
    }
}

/// Of two ranks of eight points the one is below the other exactly where it has the lower of the
/// first points in which they differ.
pub proof fn ranks_differ_by_their_first_different_point(
    left: &Vec<u64>,
    right: &Vec<u64>,
    less: bool,
    point: int,
)
    requires
        call_ensures(ranks_below, (left, right), less),
        0 <= point < left@.len() == right@.len(),
        left@.take(point) == right@.take(point),
        left@[point] != right@[point],
    ensures
        less <==> left@[point] < right@[point],
{
    the_first_difference_orders(left@, right@, number_less());
    if less {
        let k = choose|k: int|
            0 <= k <= left@.len() && k < right@.len() && left@.take(k) == #[trigger] right@.take(k)
                && (k == left@.len() || number_less()(left@[k], right@[k]));
        if k < point {
            assert(left@.take(point)[k] == left@[k] && right@.take(point)[k] == right@[k]);
        } else if k > point {
            assert(left@.take(k)[point] == left@[point] && right@.take(k)[point] == right@[point]);
        }
    } else if left@[point] < right@[point] {
        assert(number_less()(left@[point], right@[point]));
        assert(left@.take(point) == right@.take(point));
    }
}

} // verus!
