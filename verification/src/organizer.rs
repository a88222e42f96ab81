//! Completed downloads: which files are kept and what they are called in the library.

use vstd::prelude::*;
use vstd::utf8::{
    decode_utf8, encode_utf8, encode_utf8_decode_utf8, encode_utf8_valid_utf8, valid_utf8,
};

use crate::feed::{normalise_name, normalised, normalising_is_idempotent};
use crate::number::{decimal, lemma_decimal_round_trip, write_decimal};
use crate::paths::{
    decode, ending, extension, extension_of, lemma_path_order, lies_in, names, path_before,
    path_comes_before, stem_of, stem_text, text_of,
};
use crate::text::{
    append_text, chars_of, extend, is_run, joined, lemma_runs_are_runs, lowered, same,
    same_ignoring_case, slice_of, space, split_words, string_of, texts, words, CharClass,
};

verus! {

// ---------------------------------------------------------------------------
// Names
// ---------------------------------------------------------------------------

/// How many characters a file name may have.
pub const NAME_LIMIT: usize = 180;

/// The file name made of a title.
pub open spec fn file_name_of(name: Seq<char>) -> Seq<char> {
    let normal = normalised(name);
    if normal.len() == 0 {
        "untitled movie"@
    } else if normal.len() > NAME_LIMIT {
        normal.take(NAME_LIMIT as int)
    } else {
        normal
    }
}

/// The file name made of a title: letters, numbers and single spaces, not too many of them and
/// never none.
pub fn safe_file_name(name: &str) -> (safe: String)
    ensures
        safe@ == file_name_of(name@),
{
    let normal = normalise_name(name);
    if normal.as_str().is_empty() {
        return "untitled movie".to_owned();
    }
    let chars = chars_of(normal.as_str());
    if chars.len() > NAME_LIMIT {
        let front = slice_of(&chars, 0, NAME_LIMIT);
        assert(front@ == normalised(name@).take(NAME_LIMIT as int));
        string_of(&front)
    } else {
        normal
    }
}

/// A file name is never empty and never too long.
pub proof fn file_names_are_short_and_not_empty(name: Seq<char>)
    ensures
        0 < file_name_of(name).len() <= NAME_LIMIT,
{
    reveal_strlit("untitled movie");
}

/// The title of a completed download: made of the name of its directory, or of the torrent's
/// where that is no text.
pub open spec fn title_of(directory: Seq<u8>, torrent: Seq<char>) -> Seq<char> {
    match text_of(directory) {
        Some(text) => file_name_of(text),
        None => file_name_of(torrent),
    }
}

/// The title of a completed download.
pub fn job_title(directory: Vec<u8>, torrent: &str) -> (title: String)
    ensures
        title@ == title_of(directory@, torrent@),
{
    match decode(directory) {
        Some(text) => safe_file_name(text.as_str()),
        None => safe_file_name(torrent),
    }
}

// ---------------------------------------------------------------------------
// Directories
// ---------------------------------------------------------------------------

/// Two directories of which neither lies in the other.
pub open spec fn are_separate(left: Seq<Seq<u8>>, right: Seq<Seq<u8>>) -> bool {
    !left.is_prefix_of(right) && !right.is_prefix_of(left)
}

/// Whether the library lies apart from the managed downloads.
pub fn directories_are_separate(library: &Vec<Vec<u8>>, downloads: &Vec<Vec<u8>>) -> (separate:
    bool)
    ensures
        separate == are_separate(names(library@), names(downloads@)),
{
    !lies_in(library, downloads) && !lies_in(downloads, library)
}

/// A directory that lies directly in another.
pub open spec fn is_child(directory: Seq<Seq<u8>>, parent: Seq<Seq<u8>>) -> bool {
    directory.len() == parent.len() + 1 && parent.is_prefix_of(directory)
}

/// Whether a directory lies directly in the managed one.
pub fn managed_job_directory(directory: &Vec<Vec<u8>>, downloads: &Vec<Vec<u8>>) -> (managed: bool)
    ensures
        managed == is_child(names(directory@), names(downloads@)),
{
    directory.len() > downloads.len() && directory.len() - downloads.len() == 1 && lies_in(
        directory,
        downloads,
    )
}

/// A managed directory never is, holds or lies in the library.
pub proof fn managed_directories_are_apart_from_the_library(
    directory: Seq<Seq<u8>>,
    downloads: Seq<Seq<u8>>,
    library: Seq<Seq<u8>>,
)
    requires
        is_child(directory, downloads),
        are_separate(library, downloads),
    ensures
        are_separate(directory, library),
{
    assert(downloads =~= directory.take(downloads.len() as int));
    if directory.is_prefix_of(library) {
        assert(library.take(directory.len() as int) =~= directory);
        assert(downloads =~= library.take(downloads.len() as int));
    }
    if library.is_prefix_of(directory) {
        if library.len() <= downloads.len() {
            assert(library =~= directory.take(library.len() as int));
            assert(library =~= downloads.take(library.len() as int));
        } else {
            assert(library =~= directory.take(library.len() as int));
            assert(downloads =~= library.take(downloads.len() as int));
        }
    }
}

// ---------------------------------------------------------------------------
// Selection
// ---------------------------------------------------------------------------

/// What kind of file a name is that of.
#[derive(Clone, Copy, Debug, PartialEq, Eq, Structural)]
pub enum MediaKind {
    Movie,
    Subtitle,
    Other,
}

/// What kind of file an extension is that of.
pub open spec fn kind_of_extension(extension: Seq<char>) -> MediaKind {
    if extension == "mkv"@ || extension == "mp4"@ || extension == "avi"@ {
        MediaKind::Movie
    } else if extension == "srt"@ || extension == "ass"@ || extension == "ssa"@ || extension
        == "sub"@ || extension == "vtt"@ {
        MediaKind::Subtitle
    } else {
        MediaKind::Other
    }
}

/// Whether an extension is one of those expected, up to ASCII case.
pub fn is_extension(extension: &str, expected: &[&str]) -> (found: bool)
    ensures
        found == exists|i: int|
            0 <= i < expected@.len() && lowered(extension@) == lowered((#[trigger] expected@[i])@),
{
    let chars = chars_of(extension);
    let mut i: usize = 0;
    while i < expected.len()
        invariant
            i <= expected@.len(),
            chars@ == extension@,
            forall|j: int|
                0 <= j < i ==> lowered(extension@) != lowered((#[trigger] expected@[j])@),
        decreases expected@.len() - i,
    {
        let known = chars_of(expected[i]);
        if same_ignoring_case(&chars, &known) {
            assert(lowered(extension@) == lowered(expected@[i as int]@));
            return true;
        }
        i += 1;
    }
    false
}

proof fn lemma_lowered_twice(text: Seq<char>)
    ensures
        lowered(lowered(text)) == lowered(text),
{
    assert(lowered(lowered(text)) =~= lowered(text));
}

proof fn lemma_extension_is_lowered(name: Seq<u8>)
    ensures
        lowered(extension(name)) == extension(name),
{
    match ending(name) {
        Some(bytes) => match text_of(bytes) {
            Some(text) => lemma_lowered_twice(text),
            None => {
                assert(lowered(seq![]) =~= seq![]);
            },
        },
        None => {
            assert(lowered(seq![]) =~= seq![]);
        },
    }
}

/// What kind of file a name is that of.
pub fn media_kind(name: &Vec<u8>) -> (kind: MediaKind)
    ensures
        kind == kind_of_extension(extension(name@)),
{
    let found = extension_of(name);
    proof {
        lemma_extension_is_lowered(name@);
        reveal_strlit("mkv");
        reveal_strlit("mp4");
        reveal_strlit("avi");
        reveal_strlit("srt");
        reveal_strlit("ass");
        reveal_strlit("ssa");
        reveal_strlit("sub");
        reveal_strlit("vtt");
        assert(lowered("mkv"@) =~= "mkv"@);
        assert(lowered("mp4"@) =~= "mp4"@);
        assert(lowered("avi"@) =~= "avi"@);
        assert(lowered("srt"@) =~= "srt"@);
        assert(lowered("ass"@) =~= "ass"@);
        assert(lowered("ssa"@) =~= "ssa"@);
        assert(lowered("sub"@) =~= "sub"@);
        assert(lowered("vtt"@) =~= "vtt"@);
    }
    let videos = ["mkv", "mp4", "avi"];
    let subtitles = ["srt", "ass", "ssa", "sub", "vtt"];
    assert(videos@[0]@ == "mkv"@ && videos@[1]@ == "mp4"@ && videos@[2]@ == "avi"@);
    assert(subtitles@[0]@ == "srt"@ && subtitles@[1]@ == "ass"@ && subtitles@[2]@ == "ssa"@
        && subtitles@[3]@ == "sub"@ && subtitles@[4]@ == "vtt"@);
    if is_extension(found.as_str(), &videos) {
        MediaKind::Movie
    } else if is_extension(found.as_str(), &subtitles) {
        MediaKind::Subtitle
    } else {
        MediaKind::Other
    }
}

/// A file of a completed download: its path below the directory of the download, and its size.
#[derive(Debug)]
pub struct FoundFile {
    pub path: Vec<Vec<u8>>,
    pub size: u64,
}

/// What a [`FoundFile`] says.
#[verifier::ext_equal]
pub struct FileView {
    pub path: Seq<Seq<u8>>,
    pub size: u64,
}

impl View for FoundFile {
    type V = FileView;

    open spec fn view(&self) -> FileView {
        FileView { path: names(self.path@), size: self.size }
    }
}

/// Several files at once.
pub open spec fn files(list: Seq<FoundFile>) -> Seq<FileView> {
    Seq::new(list.len(), |i: int| list[i]@)
}

impl FileView {
    /// The last name of the path.
    pub open spec fn name(self) -> Seq<u8> {
        if self.path.len() == 0 {
            seq![]
        } else {
            self.path.last()
        }
    }

    pub open spec fn kind(self) -> MediaKind {
        kind_of_extension(extension(self.name()))
    }

    /// A movie that is large enough.
    pub open spec fn is_movie(self, minimum_size: u64) -> bool {
        self.kind() is Movie && self.size >= minimum_size
    }
}

impl FoundFile {
    /// The last name of the path.
    pub fn name(&self) -> (name: Vec<u8>)
        ensures
            name@ == self@.name(),
    {
        if self.path.len() == 0 {
            return Vec::new();
        }
        let last = &self.path[self.path.len() - 1];
        let mut name: Vec<u8> = Vec::new();
        let mut i: usize = 0;
        while i < last.len()
            invariant
                i <= last@.len(),
                name@ == last@.take(i as int),
            decreases last@.len() - i,
        {
            assert(last@.take(i + 1) == last@.take(i as int).push(last@[i as int]));
            name.push(last[i]);
            i += 1;
        }
        assert(last@.take(last@.len() as int) == last@);
        name
    }

    /// What kind of file it is.
    pub fn kind(&self) -> (kind: MediaKind)
        ensures
            kind == self@.kind(),
    {
        let name = self.name();
        media_kind(&name)
    }
}

/// The files of a download that are kept, by their places.
#[derive(Debug)]
pub struct MediaSelection {
    pub movie: usize,
    pub subtitles: Vec<usize>,
}

/// The file at `i` is the movie to keep: large enough, none larger, and the last one of that
/// size.
pub open spec fn is_main_movie(list: Seq<FileView>, minimum_size: u64, i: int) -> bool {
    &&& 0 <= i < list.len()
    &&& list[i].is_movie(minimum_size)
    &&& forall|j: int|
        0 <= j < list.len() && (#[trigger] list[j]).is_movie(minimum_size) ==> list[j].size
            <= list[i].size && (j > i ==> list[j].size < list[i].size)
}

/// No file is a movie that is large enough.
pub open spec fn lacks_movie(list: Seq<FileView>, minimum_size: u64) -> bool {
    forall|i: int| 0 <= i < list.len() ==> !(#[trigger] list[i]).is_movie(minimum_size)
}

/// The file at `i` comes before the one at `j`, by their paths.
pub open spec fn file_before(list: Seq<FileView>, i: int, j: int) -> bool {
    path_before(list[i].path, list[j].path) || (list[i].path == list[j].path && i < j)
}

/// The file at `i` is a subtitle.
pub open spec fn is_subtitle(list: Seq<FileView>, i: int) -> bool {
    0 <= i < list.len() && list[i].kind() is Subtitle
}

/// `order` holds the places of the subtitles among the first `n` files, in the order of their
/// paths.
pub open spec fn lists_subtitles(order: Seq<usize>, list: Seq<FileView>, n: int) -> bool {
    &&& forall|a: int, b: int|
        0 <= a < b < order.len() ==> file_before(
            list,
            #[trigger] order[a] as int,
            #[trigger] order[b] as int,
        )
    &&& forall|a: int|
        0 <= a < order.len() ==> (#[trigger] order[a]) < n && is_subtitle(list, order[a] as int)
    &&& forall|i: usize| i < n && #[trigger] is_subtitle(list, i as int) ==> order.contains(i)
}

/// The files of a download that are kept.
pub open spec fn is_selection(
    selection: MediaSelection,
    list: Seq<FileView>,
    minimum_size: u64,
) -> bool {
    is_main_movie(list, minimum_size, selection.movie as int) && lists_subtitles(
        selection.subtitles@,
        list,
        list.len() as int,
    )
}

proof fn lemma_file_order(list: Seq<FileView>, i: int, j: int, k: int)
    ensures
        !file_before(list, i, i),
        file_before(list, i, j) && file_before(list, j, k) ==> file_before(list, i, k),
        i != j ==> file_before(list, i, j) || file_before(list, j, i),
{
    lemma_path_order(list[i].path, list[j].path, list[k].path);
}

fn place_of_subtitle(order: &Vec<usize>, list: &Vec<FoundFile>, at: usize) -> (place: usize)
    requires
        at < list@.len(),
        lists_subtitles(order@, files(list@), at as int),
    ensures
        place <= order@.len(),
        forall|a: int|
            0 <= a < place ==> file_before(files(list@), #[trigger] order@[a] as int, at as int),
        forall|a: int|
            place <= a < order@.len() ==> file_before(
                files(list@),
                at as int,
                #[trigger] order@[a] as int,
            ),
{
    let ghost views = files(list@);
    let mut place: usize = 0;
    while place < order.len()
        invariant
            place <= order@.len(),
            at < list@.len(),
            views == files(list@),
            lists_subtitles(order@, views, at as int),
            forall|a: int|
                0 <= a < place ==> file_before(views, #[trigger] order@[a] as int, at as int),
        decreases order@.len() - place,
    {
        let other: usize = order[place];
        assert(other < at);
        assert(views[other as int] == list@[other as int]@);
        assert(views[at as int] == list@[at as int]@);
        if path_comes_before(&list[at].path, &list[other].path) {
            assert forall|a: int| place <= a < order@.len() implies file_before(
                views,
                at as int,
                #[trigger] order@[a] as int,
            ) by {
                lemma_file_order(views, at as int, other as int, order@[a] as int);
                assert(a > place ==> file_before(views, order@[place as int] as int, order@[a] as int));
            }
            return place;
        }
        proof {
            lemma_path_order(views[at as int].path, views[other as int].path, views[at as int].path);
        }
        place += 1;
    }
    place
}

proof fn lemma_subtitle_inserted(
    order: Seq<usize>,
    list: Seq<FileView>,
    at: usize,
    place: int,
)
    requires
        lists_subtitles(order, list, at as int),
        is_subtitle(list, at as int),
        0 <= place <= order.len(),
        forall|a: int| 0 <= a < place ==> file_before(list, #[trigger] order[a] as int, at as int),
        forall|a: int|
            place <= a < order.len() ==> file_before(list, at as int, #[trigger] order[a] as int),
    ensures
        lists_subtitles(order.insert(place, at), list, at + 1),
{
    let longer = order.insert(place, at);
    assert forall|a: int, b: int| 0 <= a < b < longer.len() implies file_before(
        list,
        #[trigger] longer[a] as int,
        #[trigger] longer[b] as int,
    ) by {
        let x = if a < place {
            a
        } else {
            a - 1
        };
        let y = if b < place {
            b
        } else {
            b - 1
        };
        if a == place {
            assert(longer[b] == order[y]);
        } else if b == place {
            assert(longer[a] == order[x]);
        } else {
            assert(longer[a] == order[x] && longer[b] == order[y]);
            assert(file_before(list, order[x] as int, order[y] as int));
        }
    }
    assert forall|a: int| 0 <= a < longer.len() implies (#[trigger] longer[a]) < at + 1
        && is_subtitle(list, longer[a] as int) by {
        if a != place {
            let x = if a < place {
                a
            } else {
                a - 1
            };
            assert(longer[a] == order[x]);
        }
    }
    assert forall|i: usize| i < at + 1 && #[trigger] is_subtitle(list, i as int) implies longer.contains(
        i,
    ) by {
        if i == at {
            assert(longer[place] == at);
        } else {
            assert(order.contains(i));
            let k = choose|k: int| 0 <= k < order.len() && order[k] == i;
            if k < place {
                assert(longer[k] == i);
            } else {
                assert(longer[k + 1] == i);
            }
        }
    }
}

/// The files of a download that are kept: the largest movie that is large enough, and all
/// subtitles in the order of their paths. Nothing is kept without such a movie.
pub fn select_media_files(list: &Vec<FoundFile>, minimum_size: u64) -> (selection: Option<
    MediaSelection,
>)
    ensures
        match selection {
            Some(selection) => is_selection(selection, files(list@), minimum_size),
            None => forall|i: int|
                0 <= i < list@.len() ==> !(#[trigger] files(list@)[i]).is_movie(minimum_size),
        },
        selection is None <==> lacks_movie(files(list@), minimum_size),
{
    let ghost views = files(list@);
    let mut movie: Option<usize> = None;
    let mut subtitles: Vec<usize> = Vec::new();
    let mut i: usize = 0;
    while i < list.len()
        invariant
            i <= list@.len(),
            views == files(list@),
            match movie {
                Some(m) => m < i && views[m as int].is_movie(minimum_size) && forall|j: int|
                    0 <= j < i && (#[trigger] views[j]).is_movie(minimum_size) ==> views[j].size
                        <= views[m as int].size && (j > m ==> views[j].size
                        < views[m as int].size),
                None => forall|j: int|
                    0 <= j < i ==> !(#[trigger] views[j]).is_movie(minimum_size),
            },
            lists_subtitles(subtitles@, views, i as int),
        decreases list@.len() - i,
    {
        assert(views[i as int] == list@[i as int]@);
        let ghost order = subtitles@;
        match list[i].kind() {
            MediaKind::Movie => {
                if list[i].size >= minimum_size {
                    let larger = match movie {
                        Some(m) => {
                            assert(views[m as int] == list@[m as int]@);
                            list[m].size <= list[i].size
                        },
                        None => true,
                    };
                    if larger {
                        movie = Some(i);
                    }
                }
            },
            MediaKind::Subtitle => {
                assert(is_subtitle(views, i as int));
                let place = place_of_subtitle(&subtitles, list, i);
                subtitles.insert(place, i);
                proof {
                    lemma_subtitle_inserted(order, views, i, place as int);
                }
            },
            MediaKind::Other => {},
        }
        assert(lists_subtitles(subtitles@, views, i + 1));
        i += 1;
    }
    match movie {
        Some(movie) => Some(MediaSelection { movie, subtitles }),
        None => None,
    }
}

/// There is one main movie at most.
pub proof fn the_main_movie_is_unique(
    list: Seq<FileView>,
    minimum_size: u64,
    i: int,
    j: int,
)
    requires
        is_main_movie(list, minimum_size, i),
        is_main_movie(list, minimum_size, j),
    ensures
        i == j,
{
}

// ---------------------------------------------------------------------------
// Names in the library
// ---------------------------------------------------------------------------

/// How many words two lists have in common at their start, up to ASCII case.
pub open spec fn common_words(left: Seq<Seq<char>>, right: Seq<Seq<char>>) -> nat
    decreases left.len(),
{
    if left.len() == 0 || right.len() == 0 || lowered(left[0]) != lowered(right[0]) {
        0
    } else {
        1 + common_words(left.drop_first(), right.drop_first())
    }
}

/// What a subtitle is called when its name tells nothing besides the title: by its number, the
/// first being number zero.
pub open spec fn numbered_label(index: nat) -> Seq<char> {
    if index == 0 {
        "subtitle"@
    } else {
        "subtitle "@ + decimal(index + 1)
    }
}

/// What tells a subtitle apart: the words of its stem behind those that it shares with the
/// title, or its number where there are none.
pub open spec fn label_of(stem: Seq<char>, title: Seq<char>, index: nat) -> Seq<char> {
    let list = words(normalised(stem));
    let label = joined(list.skip(common_words(list, words(title)) as int), space());
    if label.len() == 0 {
        numbered_label(index)
    } else {
        label
    }
}

fn words_behind(list: &Vec<Vec<char>>, start: usize) -> (whole: Vec<char>)
    requires
        start <= list@.len(),
    ensures
        whole@ == joined(texts(list@).skip(start as int), space()),
{
    let mut whole: Vec<char> = Vec::new();
    let mut i: usize = start;
    let ghost all = texts(list@);
    while i < list.len()
        invariant
            start <= i <= list@.len(),
            all == texts(list@),
            whole@ == joined(all.subrange(start as int, i as int), space()),
        decreases list@.len() - i,
    {
        let ghost front = whole@;
        let ghost next = all.subrange(start as int, i + 1);
        assert(next.drop_last() == all.subrange(start as int, i as int));
        assert(next.last() == list@[i as int]@);
        if i > start {
            whole.push(' ');
        }
        extend(&mut whole, &list[i]);
        if i > start {
            assert(whole@ =~= front + space() + next.last());
        } else {
            assert(whole@ =~= next[0]);
        }
        i += 1;
    }
    assert(all.subrange(start as int, list@.len() as int) =~= all.skip(start as int));
    whole
}

/// What tells a subtitle apart.
pub fn subtitle_label(stem: &str, title: &str, index: usize) -> (label: String)
    requires
        index < usize::MAX,
    ensures
        label@ == label_of(stem@, title@, index as nat),
{
    let normal = normalise_name(stem);
    let list = split_words(normal.as_str());
    let title_words = split_words(title);
    let ghost left = texts(list@);
    let ghost right = texts(title_words@);
    let mut count: usize = 0;
    assert(left.skip(0) == left);
    assert(right.skip(0) == right);
    while count < list.len() && count < title_words.len() && same_ignoring_case(
        &list[count],
        &title_words[count],
    )
        invariant
            count <= list@.len(),
            count <= title_words@.len(),
            left == texts(list@),
            right == texts(title_words@),
            common_words(left, right) == count + common_words(
                left.skip(count as int),
                right.skip(count as int),
            ),
        decreases list@.len() - count,
    {
        assert(left.skip(count as int)[0] == list@[count as int]@);
        assert(right.skip(count as int)[0] == title_words@[count as int]@);
        assert(left.skip(count as int).drop_first() == left.skip(count + 1));
        assert(right.skip(count as int).drop_first() == right.skip(count + 1));
        count += 1;
    }
    proof {
        if count < left.len() && count < right.len() {
            assert(left.skip(count as int)[0] == list@[count as int]@);
            assert(right.skip(count as int)[0] == title_words@[count as int]@);
        }
    }
    assert(common_words(left, right) == count);
    let label = words_behind(&list, count);
    if label.len() == 0 {
        if index == 0 {
            "subtitle".to_owned()
        } else {
            let mut whole = chars_of("subtitle ");
            let number = write_decimal(index as u64 + 1);
            extend(&mut whole, &number);
            string_of(&whole)
        }
    } else {
        string_of(&label)
    }
}

/// The file name of the movie in the library.
pub open spec fn movie_name(title: Seq<char>, extension: Seq<char>) -> Seq<char> {
    title + "."@ + extension
}

/// The file name of a subtitle in the library; from the second on, those with one label are
/// numbered.
pub open spec fn subtitle_name(
    title: Seq<char>,
    label: Seq<char>,
    extension: Seq<char>,
    suffix: nat,
) -> Seq<char> {
    title + "."@ + (if suffix == 1 {
        label
    } else {
        label + space() + decimal(suffix)
    }) + "."@ + extension
}

/// A file that is moved into the library: its place among the files, and its new name.
#[derive(Debug)]
pub struct FileMove {
    pub source: usize,
    pub destination: String,
}

/// What a move does.
pub struct MoveView {
    pub source: usize,
    pub destination: Seq<char>,
}

impl View for FileMove {
    type V = MoveView;

    open spec fn view(&self) -> MoveView {
        MoveView { source: self.source, destination: self.destination@ }
    }
}

/// Several moves at once.
pub open spec fn moves_of(list: Seq<FileMove>) -> Seq<MoveView> {
    Seq::new(list.len(), |i: int| list[i]@)
}

/// The new names, in the order of the moves.
pub open spec fn destinations(moves: Seq<MoveView>) -> Seq<Seq<char>> {
    Seq::new(moves.len(), |i: int| moves[i].destination)
}

/// The number is the first with which the name of a subtitle is not taken.
pub open spec fn is_first_free(
    taken: Seq<Seq<char>>,
    title: Seq<char>,
    label: Seq<char>,
    extension: Seq<char>,
    suffix: nat,
) -> bool {
    &&& suffix >= 1
    &&& !taken.contains(subtitle_name(title, label, extension, suffix))
    &&& forall|other: nat|
        1 <= other < suffix ==> taken.contains(
            #[trigger] subtitle_name(title, label, extension, other),
        )
}

/// The first number with which the name of a subtitle is not taken.
pub open spec fn first_free(
    taken: Seq<Seq<char>>,
    title: Seq<char>,
    label: Seq<char>,
    extension: Seq<char>,
) -> nat {
    choose|suffix: nat| is_first_free(taken, title, label, extension, suffix)
}

/// The move of the main movie and those of the first `n` subtitles, in that order. A subtitle
/// without an extension is left behind.
pub open spec fn planned_moves(
    list: Seq<FileView>,
    movie: usize,
    subtitles: Seq<usize>,
    title: Seq<char>,
    n: int,
) -> Seq<MoveView>
    decreases n,
{
    if n <= 0 {
        seq![
            MoveView {
                source: movie,
                destination: movie_name(title, extension(list[movie as int].name())),
            },
        ]
    } else {
        let front = planned_moves(list, movie, subtitles, title, n - 1);
        let name = list[subtitles[n - 1] as int].name();
        let label = label_of(stem_text(name), title, (n - 1) as nat);
        let suffix = first_free(destinations(front), title, label, extension(name));
        if extension(name).len() == 0 {
            front
        } else {
            front.push(
                MoveView {
                    source: subtitles[n - 1],
                    destination: subtitle_name(title, label, extension(name), suffix),
                },
            )
        }
    }
}

proof fn lemma_decimal_differs(a: nat, b: nat)
    requires
        decimal(a) == decimal(b),
    ensures
        a == b,
{
    lemma_decimal_round_trip(a);
    lemma_decimal_round_trip(b);
}

/// Names of one subtitle with different numbers differ.
proof fn lemma_suffixes_differ(
    title: Seq<char>,
    label: Seq<char>,
    extension: Seq<char>,
    a: nat,
    b: nat,
)
    requires
        subtitle_name(title, label, extension, a) == subtitle_name(title, label, extension, b),
    ensures
        a == b,
{
    let front = title + "."@;
    let back = "."@ + extension;
    let x = if a == 1 {
        label
    } else {
        label + space() + decimal(a)
    };
    let y = if b == 1 {
        label
    } else {
        label + space() + decimal(b)
    };
    let left = subtitle_name(title, label, extension, a);
    let right = subtitle_name(title, label, extension, b);
    assert(left =~= front + x + back);
    assert(right =~= front + y + back);
    assert(left.len() == front.len() + x.len() + back.len());
    assert(right.len() == front.len() + y.len() + back.len());
    assert(x.len() == y.len());
    assert(x =~= left.subrange(front.len() as int, (front.len() + x.len()) as int));
    assert(y =~= right.subrange(front.len() as int, (front.len() + y.len()) as int));
    assert(x == y);
    if a != 1 && b != 1 {
        assert(decimal(a) =~= x.skip((label.len() + 1) as int));
        assert(decimal(b) =~= y.skip((label.len() + 1) as int));
        lemma_decimal_differs(a, b);
    }
}

/// As many different names as there are numbers below one are taken, so no more than there are
/// names.
proof fn lemma_taken_suffixes(
    taken: Seq<Seq<char>>,
    title: Seq<char>,
    label: Seq<char>,
    extension: Seq<char>,
    suffix: nat,
)
    requires
        suffix >= 1,
        forall|other: nat|
            1 <= other < suffix ==> taken.contains(
                #[trigger] subtitle_name(title, label, extension, other),
            ),
    ensures
        suffix <= taken.len() + 1,
{
    let used = Seq::new(
        (suffix - 1) as nat,
        |i: int| subtitle_name(title, label, extension, (i + 1) as nat),
    );
    assert forall|i: int, j: int| 0 <= i < used.len() && 0 <= j < used.len() && i != j implies used[i]
        != used[j] by {
        if used[i] == used[j] {
            lemma_suffixes_differ(title, label, extension, (i + 1) as nat, (j + 1) as nat);
        }
    }
    assert(used.no_duplicates());
    used.unique_seq_to_set();
    taken.lemma_cardinality_of_set();
    assert forall|name: Seq<char>| used.to_set().contains(name) implies taken.to_set().contains(
        name,
    ) by {
        let i = choose|i: int| 0 <= i < used.len() && used[i] == name;
        assert(taken.contains(subtitle_name(title, label, extension, (i + 1) as nat)));
    }
    vstd::set_lib::lemma_len_subset(used.to_set(), taken.to_set());
}

proof fn lemma_first_free(
    taken: Seq<Seq<char>>,
    title: Seq<char>,
    label: Seq<char>,
    extension: Seq<char>,
    suffix: nat,
)
    requires
        is_first_free(taken, title, label, extension, suffix),
    ensures
        first_free(taken, title, label, extension) == suffix,
{
    let chosen = first_free(taken, title, label, extension);
    assert(is_first_free(taken, title, label, extension, chosen));
    if chosen < suffix {
        assert(taken.contains(subtitle_name(title, label, extension, chosen)));
    } else if suffix < chosen {
        assert(taken.contains(subtitle_name(title, label, extension, suffix)));
    }
}

fn is_taken(moves: &Vec<FileMove>, name: &Vec<char>) -> (found: bool)
    ensures
        found == destinations(moves_of(moves@)).contains(name@),
{
    let mut i: usize = 0;
    while i < moves.len()
        invariant
            i <= moves@.len(),
            forall|j: int| 0 <= j < i ==> #[trigger] destinations(moves_of(moves@))[j] != name@,
        decreases moves@.len() - i,
    {
        let other = chars_of(moves[i].destination.as_str());
        if same(&other, name) {
            assert(destinations(moves_of(moves@))[i as int] == name@);
            return true;
        }
        i += 1;
    }
    false
}

fn write_subtitle_name(title: &str, label: &str, extension: &str, suffix: u64) -> (name: Vec<char>)
    ensures
        name@ == subtitle_name(title@, label@, extension@, suffix as nat),
{
    let mut name = chars_of(title);
    append_text(&mut name, ".");
    let ghost front = name@;
    append_text(&mut name, label);
    if suffix != 1 {
        name.push(' ');
        let number = write_decimal(suffix);
        extend(&mut name, &number);
        assert(name@ =~= front + (label@ + space() + decimal(suffix as nat)));
    }
    append_text(&mut name, ".");
    append_text(&mut name, extension);
    name
}

fn free_name(moves: &Vec<FileMove>, title: &str, label: &str, extension: &str) -> (name: Vec<char>)
    requires
        moves@.len() < usize::MAX,
    ensures
        name@ == subtitle_name(
            title@,
            label@,
            extension@,
            first_free(destinations(moves_of(moves@)), title@, label@, extension@),
        ),
        !destinations(moves_of(moves@)).contains(name@),
{
    let ghost taken = destinations(moves_of(moves@));
    let mut suffix: u64 = 1;
    let mut name = write_subtitle_name(title, label, extension, suffix);
    while is_taken(moves, &name)
        invariant
            suffix >= 1,
            moves@.len() < usize::MAX,
            taken == destinations(moves_of(moves@)),
            name@ == subtitle_name(title@, label@, extension@, suffix as nat),
            suffix <= taken.len() + 1,
            forall|other: nat|
                1 <= other < suffix ==> taken.contains(
                    #[trigger] subtitle_name(title@, label@, extension@, other),
                ),
        decreases taken.len() + 1 - suffix,
    {
        assert forall|other: nat| 1 <= other < suffix + 1 implies taken.contains(
            #[trigger] subtitle_name(title@, label@, extension@, other),
        ) by {
            if other == suffix {
                assert(taken.contains(name@));
            }
        }
        proof {
            lemma_taken_suffixes(taken, title@, label@, extension@, (suffix + 1) as nat);
        }
        suffix += 1;
        name = write_subtitle_name(title, label, extension, suffix);
    }
    proof {
        assert(is_first_free(taken, title@, label@, extension@, suffix as nat));
        lemma_first_free(taken, title@, label@, extension@, suffix as nat);
    }
    name
}

/// The movie has no extension to be called by.
#[derive(Debug)]
pub struct NoExtension;

/// The moves that take the kept files into the library, the movie first: uniform names made of
/// the title, and for subtitles of what tells them apart.
pub fn build_file_moves(list: &Vec<FoundFile>, selection: &MediaSelection, title: &str) -> (moves:
    Result<Vec<FileMove>, NoExtension>)
    requires
        selection.movie < list@.len(),
        forall|i: int|
            0 <= i < selection.subtitles@.len() ==> (#[trigger] selection.subtitles@[i])
                < list@.len(),
        selection.subtitles@.len() < usize::MAX,
    ensures
        moves is Err <==> extension(files(list@)[selection.movie as int].name()).len() == 0,
        moves matches Ok(moves) ==> {
            &&& moves_of(moves@) == planned_moves(
                files(list@),
                selection.movie,
                selection.subtitles@,
                title@,
                selection.subtitles@.len() as int,
            )
            &&& destinations(moves_of(moves@)).no_duplicates()
        },
{
    let ghost views = files(list@);
    let ghost order = selection.subtitles@;
    assert(views[selection.movie as int] == list@[selection.movie as int]@);
    let movie = list[selection.movie].name();
    let movie_extension = extension_of(&movie);
    if movie_extension.as_str().is_empty() {
        return Err(NoExtension);
    }
    let mut name = chars_of(title);
    append_text(&mut name, ".");
    append_text(&mut name, movie_extension.as_str());
    let mut moves: Vec<FileMove> = Vec::new();
    moves.push(FileMove { source: selection.movie, destination: string_of(&name) });
    assert(moves_of(moves@) =~= planned_moves(views, selection.movie, order, title@, 0));
    let mut i: usize = 0;
    while i < selection.subtitles.len()
        invariant
            i <= order.len(),
            order == selection.subtitles@,
            order.len() < usize::MAX,
            views == files(list@),
            forall|i: int| 0 <= i < order.len() ==> (#[trigger] order[i]) < list@.len(),
            moves@.len() <= i + 1,
            moves_of(moves@) == planned_moves(views, selection.movie, order, title@, i as int),
            destinations(moves_of(moves@)).no_duplicates(),
        decreases order.len() - i,
    {
        let source: usize = selection.subtitles[i];
        assert(order[i as int] < list@.len());
        assert(views[source as int] == list@[source as int]@);
        let name = list[source].name();
        let extension = extension_of(&name);
        if !extension.as_str().is_empty() {
            let stem = stem_of(&name);
            let label = subtitle_label(stem.as_str(), title, i);
            let destination = free_name(&moves, title, label.as_str(), extension.as_str());
            let ghost front = moves_of(moves@);
            let new = FileMove { source, destination: string_of(&destination) };
            moves.push(new);
            assert(moves_of(moves@) =~= front.push(new@));
            assert(destinations(moves_of(moves@)) =~= destinations(front).push(destination@));
        }
        i += 1;
    }
    Ok(moves)
}

/// Every file in the library is called by the title, with a point behind it.
pub proof fn names_in_the_library_begin_with_the_title(
    list: Seq<FileView>,
    movie: usize,
    subtitles: Seq<usize>,
    title: Seq<char>,
    n: int,
    at: int,
)
    requires
        0 <= at < planned_moves(list, movie, subtitles, title, n).len(),
    ensures
        (title + "."@).is_prefix_of(
            planned_moves(list, movie, subtitles, title, n)[at].destination,
        ),
    decreases n,
{
    let moves = planned_moves(list, movie, subtitles, title, n);
    let start = title + "."@;
    if n > 0 && at < planned_moves(list, movie, subtitles, title, n - 1).len() {
        names_in_the_library_begin_with_the_title(list, movie, subtitles, title, n - 1, at);
    } else {
        assert(moves[at].destination.take(start.len() as int) =~= start);
        assert(start.is_prefix_of(moves[at].destination));
    }
}

/// A download that was queued under the name of its release is kept in the library under that
/// name, as far as it is short enough.
pub proof fn library_folders_are_called_by_their_releases(name: Seq<char>, torrent: Seq<char>)
    requires
        0 < normalised(name).len() <= NAME_LIMIT,
    ensures
        title_of(encode_utf8(file_name_of(name)), torrent) == normalised(name),
{
    encode_utf8_valid_utf8(normalised(name));
    encode_utf8_decode_utf8(normalised(name));
    normalising_is_idempotent(name);
}

proof fn lemma_common_with_front(front: Seq<Seq<char>>, rest: Seq<Seq<char>>)
    ensures
        common_words(front + rest, front) == front.len(),
    decreases front.len(),
{
    if front.len() > 0 {
        lemma_common_with_front(front.drop_first(), rest);
        assert((front + rest).drop_first() =~= front.drop_first() + rest);
    }
}

/// A subtitle is told apart by what its name adds to the title.
pub proof fn subtitles_keep_what_they_add_to_the_title(
    stem: Seq<char>,
    title: Seq<char>,
    added: Seq<Seq<char>>,
    index: nat,
)
    requires
        words(normalised(stem)) == words(title) + added,
        joined(added, space()).len() > 0,
    ensures
        label_of(stem, title, index) == joined(added, space()),
{
    lemma_common_with_front(words(title), added);
    assert((words(title) + added).skip(words(title).len() as int) =~= added);
}

// ---------------------------------------------------------------------------
// Laws
// ---------------------------------------------------------------------------

/// The file name made of a title is the first 180 characters of the title, normalized, or all of
/// them where there are fewer; and `untitled movie` where there are none.
pub proof fn file_names_are_the_start_of_the_title(name: Seq<char>)
    ensures
        normalised(name).len() == 0 ==> file_name_of(name) == "untitled movie"@,
        0 < normalised(name).len() <= 180 ==> file_name_of(name) == normalised(name),
        normalised(name).len() > 180 ==> file_name_of(name).len() == 180 && file_name_of(
            name,
        ).is_prefix_of(normalised(name)),
{
    if normalised(name).len() > 180 {
        assert(file_name_of(name) == normalised(name).take(180));
    }
}

/// A completed download is called by the name of its directory, or by that of the torrent where
/// that is no text.
pub proof fn downloads_are_called_by_their_directories(directory: Seq<u8>, torrent: Seq<char>)
    ensures
        title_of(directory, torrent) == if valid_utf8(directory) {
            file_name_of(decode_utf8(directory))
        } else {
            file_name_of(torrent)
        },
{
}

/// Two directories are separate exactly where they differ at a place that both have.
pub proof fn separate_directories_differ_somewhere(left: Seq<Seq<u8>>, right: Seq<Seq<u8>>)
    ensures
        are_separate(left, right) <==> exists|i: int|
            0 <= i < left.len() && i < right.len() && #[trigger] left[i] != right[i],
{
    if are_separate(left, right) {
        if left.len() <= right.len() {
            if forall|i: int|
                0 <= i < left.len() && i < right.len() ==> #[trigger] left[i] == right[i] {
                assert(right.take(left.len() as int) =~= left);
            }
        } else {
            if forall|i: int|
                0 <= i < left.len() && i < right.len() ==> #[trigger] left[i] == right[i] {
                assert(left.take(right.len() as int) =~= right);
            }
        }
    }
    if exists|i: int| 0 <= i < left.len() && i < right.len() && #[trigger] left[i] != right[i] {
        let i = choose|i: int| 0 <= i < left.len() && i < right.len() && #[trigger] left[i] != right[i];
        if left.is_prefix_of(right) {
            assert(right.take(left.len() as int)[i] == right[i]);
        }
        if right.is_prefix_of(left) {
            assert(left.take(right.len() as int)[i] == left[i]);
        }
    }
}

/// A directory is a direct child of another exactly where it is that with one name behind it.
pub proof fn children_have_one_name_more(directory: Seq<Seq<u8>>, parent: Seq<Seq<u8>>)
    ensures
        is_child(directory, parent) <==> directory.len() > 0 && directory.drop_last() == parent,
{
    if is_child(directory, parent) {
        assert(directory.take(parent.len() as int) =~= directory.drop_last());
    }
    if directory.len() > 0 && directory.drop_last() == parent {
        assert(directory.take(parent.len() as int) =~= parent);
    }
}

/// Movies are files that end in `mkv`, `mp4` or `avi`, and subtitles those that end in `srt`,
/// `ass`, `ssa`, `sub` or `vtt`, in capitals or not; nothing else is either.
pub proof fn kinds_are_told_by_extensions(file: FileView)
    ensures
        file.path.len() > 0 ==> file.name() == file.path[file.path.len() - 1],
        file.kind() is Movie <==> extension(file.name()) == "mkv"@ || extension(file.name())
            == "mp4"@ || extension(file.name()) == "avi"@,
        file.kind() is Subtitle <==> extension(file.name()) == "srt"@ || extension(file.name())
            == "ass"@ || extension(file.name()) == "ssa"@ || extension(file.name()) == "sub"@
            || extension(file.name()) == "vtt"@,
{
    reveal_strlit("mkv");
    reveal_strlit("mp4");
    reveal_strlit("avi");
    reveal_strlit("srt");
    reveal_strlit("ass");
    reveal_strlit("ssa");
    reveal_strlit("sub");
    reveal_strlit("vtt");
    assert("mkv"@[0] == 'm' && "mp4"@[0] == 'm' && "avi"@[1] == 'v');
    assert("srt"@[0] == 's' && "ass"@[1] == 's' && "ssa"@[0] == 's' && "sub"@[0] == 's'
        && "vtt"@[0] == 'v');
    assert("avi"@[0] == 'a');
}

/// The movie that is kept is at least as large as asked for, and no other movie is larger; of
/// equally large ones it is the last. The subtitles that are kept are all there are.
pub proof fn the_largest_movie_and_every_subtitle_are_kept(
    selection: MediaSelection,
    list: Seq<FileView>,
    minimum_size: u64,
    i: int,
)
    requires
        is_selection(selection, list, minimum_size),
        0 <= i < list.len() <= usize::MAX,
    ensures
        selection.movie < list.len(),
        list[selection.movie as int].kind() is Movie,
        list[selection.movie as int].size >= minimum_size,
        list[i].kind() is Movie ==> list[i].size <= list[selection.movie as int].size,
        list[i].kind() is Movie && i > selection.movie ==> list[i].size < list[
        selection.movie as int].size,
        list[i].kind() is Subtitle <==> selection.subtitles@.contains(i as usize),
{
    let kept = list[selection.movie as int];
    if list[i].kind() is Movie {
        if list[i].size >= minimum_size {
            assert(list[i].is_movie(minimum_size));
        }
    }
    if list[i].kind() is Subtitle {
        assert(is_subtitle(list, (i as usize) as int));
    }
    if selection.subtitles@.contains(i as usize) {
        let a = choose|a: int|
            0 <= a < selection.subtitles@.len() && selection.subtitles@[a] == i as usize;
        assert(is_subtitle(list, selection.subtitles@[a] as int));
    }
}

/// The subtitles are kept in the order of their paths, each once; those of one path in the order
/// in which they were found.
pub proof fn subtitles_are_kept_in_the_order_of_their_paths(
    selection: MediaSelection,
    list: Seq<FileView>,
    minimum_size: u64,
    a: int,
    b: int,
)
    requires
        is_selection(selection, list, minimum_size),
        0 <= a < b < selection.subtitles@.len(),
    ensures
        ({
            let left = selection.subtitles@[a];
            let right = selection.subtitles@[b];
            path_before(list[left as int].path, list[right as int].path) || (list[left as int].path
                == list[right as int].path && left < right)
        }),
{
    assert(file_before(
        list,
        selection.subtitles@[a] as int,
        selection.subtitles@[b] as int,
    ));
}

/// Nothing is kept exactly where each file is no movie, or smaller than asked for.
pub proof fn downloads_without_a_large_movie_are_left(list: Seq<FileView>, minimum_size: u64)
    ensures
        lacks_movie(list, minimum_size) <==> forall|i: int|
            0 <= i < list.len() ==> !((#[trigger] list[i]).kind() is Movie) || list[i].size
                < minimum_size,
{
    if forall|i: int|
        0 <= i < list.len() ==> !((#[trigger] list[i]).kind() is Movie) || list[i].size
            < minimum_size {
        assert forall|i: int| 0 <= i < list.len() implies !(#[trigger] list[i]).is_movie(
            minimum_size,
        ) by {
            assert(!(list[i].kind() is Movie) || list[i].size < minimum_size);
        }
    } else {
        let i = choose|i: int|
            0 <= i < list.len() && !(!((#[trigger] list[i]).kind() is Movie) || list[i].size
                < minimum_size);
        assert(list[i].is_movie(minimum_size));
    }
}

proof fn lemma_common_words(left: Seq<Seq<char>>, right: Seq<Seq<char>>, k: int)
    requires
        0 <= k <= left.len(),
        k <= right.len(),
        forall|i: int| 0 <= i < k ==> lowered(#[trigger] left[i]) == lowered(right[i]),
        k == left.len() || k == right.len() || lowered(left[k]) != lowered(right[k]),
    ensures
        common_words(left, right) == k,
    decreases k,
{
    if k > 0 {
        assert(lowered(left[0]) == lowered(right[0]));
        let a = left.drop_first();
        let b = right.drop_first();
        assert forall|i: int| 0 <= i < k - 1 implies lowered(#[trigger] a[i]) == lowered(b[i]) by {
            assert(a[i] == left[i + 1] && b[i] == right[i + 1]);
        }
        lemma_common_words(a, b, k - 1);
    }
}

/// With `k` the number of words that the stem of a subtitle and the title have in common at their
/// start, up to ASCII case and no matter how many more the title has, the label is the rest of
/// the words of the stem, joined by spaces. Where none are left it is `subtitle`, with a number
/// behind it from the second subtitle on.
pub proof fn labels_leave_out_the_words_of_the_title(
    stem: Seq<char>,
    title: Seq<char>,
    index: nat,
    k: int,
)
    requires
        0 <= k <= words(normalised(stem)).len(),
        k <= words(title).len(),
        forall|i: int|
            0 <= i < k ==> lowered(#[trigger] words(normalised(stem))[i]) == lowered(
                words(title)[i],
            ),
        k == words(normalised(stem)).len() || k == words(title).len() || lowered(
            words(normalised(stem))[k],
        ) != lowered(words(title)[k]),
    ensures
        label_of(stem, title, index) == if k < words(normalised(stem)).len() {
            joined(words(normalised(stem)).skip(k), " "@)
        } else if index == 0 {
            "subtitle"@
        } else {
            "subtitle "@ + decimal(index + 1)
        },
{
    let list = words(normalised(stem));
    lemma_common_words(list, words(title), k);
    reveal_strlit(" ");
    assert(space() =~= " "@);
    let rest = list.skip(k);
    if k < list.len() {
        lemma_runs_are_runs(normalised(stem), CharClass::Visible);
        assert(is_run(list[k], CharClass::Visible));
        assert(rest[0] == list[k]);
        lemma_joined_is_not_empty(rest);
    } else {
        assert(rest =~= Seq::empty());
    }
}

proof fn lemma_joined_is_not_empty(parts: Seq<Seq<char>>)
    requires
        parts.len() > 0,
        parts[0].len() > 0,
    ensures
        joined(parts, space()).len() > 0,
    decreases parts.len(),
{
    if parts.len() > 1 {
        lemma_joined_is_not_empty(parts.drop_last());
    }
}

/// The move of the movie comes first, under the title with the extension of the movie.
pub proof fn the_movie_is_moved_first(
    list: Seq<FileView>,
    movie: usize,
    subtitles: Seq<usize>,
    title: Seq<char>,
    n: int,
)
    ensures
        planned_moves(list, movie, subtitles, title, n).len() > 0,
        planned_moves(list, movie, subtitles, title, n)[0].source == movie,
        planned_moves(list, movie, subtitles, title, n)[0].destination == title + "."@ + extension(
            list[movie as int].name(),
        ),
    decreases n,
{
    if n > 0 {
        the_movie_is_moved_first(list, movie, subtitles, title, n - 1);
    }
}

/// Each subtitle with an extension is moved behind those before it, under the title, its label and
/// its extension with points between them; where that name is taken, the label gets the first
/// number from two on with which it is not. A subtitle without an extension stays.
pub proof fn subtitles_are_moved_one_by_one(
    list: Seq<FileView>,
    movie: usize,
    subtitles: Seq<usize>,
    title: Seq<char>,
    n: int,
    suffix: nat,
)
    requires
        0 <= n,
        suffix >= 1,
        ({
            let taken = destinations(planned_moves(list, movie, subtitles, title, n));
            let name = list[subtitles[n] as int].name();
            let label = label_of(stem_text(name), title, n as nat);
            &&& !taken.contains(numbered_name(title, label, extension(name), suffix))
            &&& forall|other: nat|
                1 <= other < suffix ==> taken.contains(
                    #[trigger] numbered_name(title, label, extension(name), other),
                )
        }),
    ensures
        ({
            let before = planned_moves(list, movie, subtitles, title, n);
            let name = list[subtitles[n] as int].name();
            let label = label_of(stem_text(name), title, n as nat);
            planned_moves(list, movie, subtitles, title, n + 1) == if extension(name).len() == 0 {
                before
            } else {
                before.push(
                    MoveView {
                        source: subtitles[n],
                        destination: numbered_name(title, label, extension(name), suffix),
                    },
                )
            }
        }),
{
    let taken = destinations(planned_moves(list, movie, subtitles, title, n));
    let name = list[subtitles[n] as int].name();
    let label = label_of(stem_text(name), title, n as nat);
    reveal_strlit(" ");
    assert(space() =~= " "@);
    assert forall|other: nat| subtitle_name(title, label, extension(name), other)
        == #[trigger] numbered_name(title, label, extension(name), other) by {
        assert(subtitle_name(title, label, extension(name), other) =~= numbered_name(
            title,
            label,
            extension(name),
            other,
        ));
    }
    assert forall|other: nat| 1 <= other < suffix implies taken.contains(
        #[trigger] subtitle_name(title, label, extension(name), other),
    ) by {
        assert(taken.contains(numbered_name(title, label, extension(name), other)));
    }
    assert(numbered_name(title, label, extension(name), suffix) == subtitle_name(
        title,
        label,
        extension(name),
        suffix,
    ));
    assert(is_first_free(taken, title, label, extension(name), suffix));
    lemma_first_free(taken, title, label, extension(name), suffix);
}

/// A title, a label and an extension with points between them, and from two on a number behind
/// the label.
pub open spec fn numbered_name(
    title: Seq<char>,
    label: Seq<char>,
    extension: Seq<char>,
    number: nat,
) -> Seq<char> {
    if number == 1 {
        title + "."@ + label + "."@ + extension
    } else {
        title + "."@ + label + " "@ + decimal(number) + "."@ + extension
    }
}

/// The label of a subtitle leaves out those words of its stem with which the title begins too, up
/// to ASCII case, be they all words of the title or only the first of them; the other words stay.
pub proof fn subtitles_are_labelled_by_what_they_add(
    stem: &str,
    title: &str,
    index: usize,
    label: String,
    k: int,
)
    requires
        call_ensures(subtitle_label, (stem, title, index), label),
        0 <= k < words(normalised(stem@)).len(),
        k <= words(title@).len(),
        forall|i: int|
            0 <= i < k ==> lowered(#[trigger] words(normalised(stem@))[i]) == lowered(
                words(title@)[i],
            ),
        k == words(title@).len() || lowered(words(normalised(stem@))[k]) != lowered(
            words(title@)[k],
        ),
    ensures
        label@ == joined(words(normalised(stem@)).skip(k), " "@),
{
    labels_leave_out_the_words_of_the_title(stem@, title@, index as nat, k);
}

/// What is kept of a download: nothing exactly where no file is a movie that is large enough, and
/// otherwise a movie of at least that size.
pub proof fn downloads_are_kept_for_a_large_movie(
    list: &Vec<FoundFile>,
    minimum_size: u64,
    selection: Option<MediaSelection>,
    i: int,
)
    requires
        call_ensures(select_media_files, (list, minimum_size), selection),
    ensures
        selection is None && 0 <= i < list@.len() ==> !(list@[i]@.kind() is Movie && list@[i].size
            >= minimum_size),
        selection is Some ==> {
            &&& selection->0.movie < list@.len()
            &&& list@[selection->0.movie as int]@.kind() is Movie
            &&& list@[selection->0.movie as int].size >= minimum_size
            &&& 0 <= i < list@.len() && list@[i]@.kind() is Movie ==> list@[i].size <= list@[
            selection->0.movie as int].size
            &&& 0 <= i < list@.len() ==> (list@[i]@.kind() is Subtitle
                <==> selection->0.subtitles@.contains(i as usize))
        },
{
    let views = files(list@);
    assert(list.len() == views.len());
    if 0 <= i < list@.len() {
        assert(views[i] == list@[i]@);
        match selection {
            Some(selection) => {
                the_largest_movie_and_every_subtitle_are_kept(selection, views, minimum_size, i);
            },
            None => {
                assert(!views[i].is_movie(minimum_size));
            },
        }
    }
    if selection is Some {
        assert(views[selection->0.movie as int] == list@[selection->0.movie as int]@);
    }
}

/// Moves are planned exactly where the movie has an extension. The first is that of the movie, to
/// the title with its extension; no two have one destination.
pub proof fn moves_begin_with_the_movie(
    list: &Vec<FoundFile>,
    selection: &MediaSelection,
    title: &str,
    moves: Result<Vec<FileMove>, NoExtension>,
    i: int,
    j: int,
)
    requires
        call_ensures(build_file_moves, (list, selection, title), moves),
        selection.movie < list@.len(),
    ensures
        moves is Err <==> extension(list@[selection.movie as int]@.name()).len() == 0,
        moves is Ok ==> {
            &&& moves->Ok_0@.len() > 0
            &&& moves->Ok_0@[0].source == selection.movie
            &&& moves->Ok_0@[0].destination@ == title@ + "."@ + extension(
                list@[selection.movie as int]@.name(),
            )
            &&& 0 <= i < j < moves->Ok_0@.len() ==> moves->Ok_0@[i].destination@
                != moves->Ok_0@[j].destination@
        },
{
    let views = files(list@);
    assert(views[selection.movie as int] == list@[selection.movie as int]@);
    if moves is Ok {
        let plan = moves_of(moves->Ok_0@);
        the_movie_is_moved_first(
            views,
            selection.movie,
            selection.subtitles@,
            title@,
            selection.subtitles@.len() as int,
        );
        assert(plan.len() == moves->Ok_0@.len());
        assert(plan[0] == moves->Ok_0@[0]@);
        if 0 <= i < j < plan.len() {
            assert(destinations(plan)[i] == moves->Ok_0@[i].destination@);
            assert(destinations(plan)[j] == moves->Ok_0@[j].destination@);
        }
    }
}

/// The kind of a file is told by its extension alone.
pub proof fn files_are_told_apart_by_extensions(name: &Vec<u8>, kind: MediaKind)
    requires
        call_ensures(media_kind, (name,), kind),
    ensures
        kind is Movie <==> extension(name@) == "mkv"@ || extension(name@) == "mp4"@ || extension(
            name@,
        ) == "avi"@,
        kind is Subtitle <==> extension(name@) == "srt"@ || extension(name@) == "ass"@
            || extension(name@) == "ssa"@ || extension(name@) == "sub"@ || extension(name@)
            == "vtt"@,
{
    let file = FileView { path: seq![name@], size: 0 };
    kinds_are_told_by_extensions(file);
    assert(file.name() == name@);
}

/// Files and moves are seen whole, one by one.
pub proof fn files_are_seen_whole(list: Seq<FoundFile>, moves: Seq<FileMove>, i: int, j: int)
    ensures
        files(list).len() == list.len(),
        moves_of(moves).len() == moves.len(),
        0 <= i < list.len() ==> files(list)[i].size == list[i].size && files(list)[i].path.len()
            == list[i].path@.len() && (0 <= j < list[i].path@.len() ==> files(list)[i].path[j]
            == list[i].path@[j]@),
        0 <= i < moves.len() ==> moves_of(moves)[i].source == moves[i].source && moves_of(
            moves,
        )[i].destination == moves[i].destination@,
{
}

/// File names are the first 180 characters of what a title is normalized to, or `untitled movie`;
/// a download is called by its directory, or by its torrent where that is no text.
pub proof fn downloads_get_safe_names(
    name: &str,
    safe: String,
    directory: Vec<u8>,
    torrent: &str,
    title: String,
)
    requires
        call_ensures(safe_file_name, (name,), safe),
        call_ensures(job_title, (directory, torrent), title),
    ensures
        normalised(name@).len() == 0 ==> safe@ == "untitled movie"@,
        0 < normalised(name@).len() <= 180 ==> safe@ == normalised(name@),
        normalised(name@).len() > 180 ==> safe@ == normalised(name@).take(180),
        title@ == if valid_utf8(directory@) {
            file_name_of(decode_utf8(directory@))
        } else {
            file_name_of(torrent@)
        },
{
    file_names_are_the_start_of_the_title(name@);
    downloads_are_called_by_their_directories(directory@, torrent@);
    if normalised(name@).len() > 180 {
        assert(safe@ =~= normalised(name@).take(180));
    }
}

/// The library is separate from the downloads exactly where the two ways differ at a place that
/// both have; a directory is managed exactly where it is the one of the downloads with one name
/// behind it.
pub proof fn directories_are_told_apart_by_their_names(
    library: &Vec<Vec<u8>>,
    downloads: &Vec<Vec<u8>>,
    separate: bool,
    managed: bool,
)
    requires
        call_ensures(directories_are_separate, (library, downloads), separate),
        call_ensures(managed_job_directory, (library, downloads), managed),
    ensures
        separate <==> exists|i: int|
            0 <= i < library@.len() && i < downloads@.len() && (#[trigger] library@[i])@
                != downloads@[i]@,
        managed <==> library@.len() == downloads@.len() + 1 && forall|i: int|
            0 <= i < downloads@.len() ==> (#[trigger] downloads@[i])@ == library@[i]@,
{
    let left = names(library@);
    let right = names(downloads@);
    separate_directories_differ_somewhere(left, right);
    children_have_one_name_more(left, right);
    if separate {
        let i = choose|i: int|
            0 <= i < left.len() && i < right.len() && #[trigger] left[i] != right[i];
        assert(library@[i]@ != downloads@[i]@);
    }
    if exists|i: int|
        0 <= i < library@.len() && i < downloads@.len() && (#[trigger] library@[i])@
            != downloads@[i]@ {
        let i = choose|i: int|
            0 <= i < library@.len() && i < downloads@.len() && (#[trigger] library@[i])@
                != downloads@[i]@;
        assert(left[i] != right[i]);
    }
    if managed {
        assert forall|i: int| 0 <= i < downloads@.len() implies (#[trigger] downloads@[i])@
            == library@[i]@ by {
            assert(left.drop_last()[i] == right[i]);
        }
    }
    if library@.len() == downloads@.len() + 1 && forall|i: int|
        0 <= i < downloads@.len() ==> (#[trigger] downloads@[i])@ == library@[i]@ {
        assert forall|i: int| 0 <= i < right.len() implies left.drop_last()[i] == #[trigger] right[
        i] by {
            assert(downloads@[i]@ == library@[i]@);
        }
        assert(left.drop_last() =~= right);
    }
}

} // verus!
