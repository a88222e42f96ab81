use hd_movies::organizer::{
    build_file_moves, directories_are_separate, is_extension, job_title, managed_job_directory,
    media_kind, safe_file_name, select_media_files, subtitle_label, FoundFile, MediaKind,
    MediaSelection,
};
use hd_movies::paths::{extension_of, stem_of};

fn bytes(name: &str) -> Vec<u8> {
    name.as_bytes().to_vec()
}

fn path(names: &[&str]) -> Vec<Vec<u8>> {
    names.iter().map(|name| bytes(name)).collect()
}

fn file(names: &[&str], size: u64) -> FoundFile {
    FoundFile { path: path(names), size }
}

fn moved(files: &Vec<FoundFile>, minimum_size: u64, title: &str) -> Vec<(usize, String)> {
    let selection = select_media_files(files, minimum_size).unwrap();
    build_file_moves(files, &selection, title)
        .unwrap()
        .into_iter()
        .map(|file_move| (file_move.source, file_move.destination))
        .collect()
}

#[test]
fn keeps_movie_and_subtitles_with_uniform_names() {
    let files = vec![
        file(&["feature.mkv"], b"movie".len() as u64),
        file(&["The.Movie.2026.1080p.en.srt"], b"subtitle".len() as u64),
        file(&["notes.txt"], b"discard".len() as u64),
    ];
    let title = safe_file_name("The.Movie.2026.1080p");
    assert_eq!(
        moved(&files, 1, &title),
        vec![
            (0, "The Movie 2026 1080p.mkv".to_owned()),
            (1, "The Movie 2026 1080p.en.srt".to_owned()),
        ]
    );
}

#[test]
fn keeps_the_largest_movie() {
    let files = vec![
        file(&["sample.mkv"], 10),
        file(&["cd1", "a.MP4"], 700),
        file(&["cd2", "b.avi"], 700),
        file(&["extras", "c.mkv"], 699),
        file(&["huge.iso"], 9_000),
    ];
    assert_eq!(select_media_files(&files, 500).unwrap().movie, 2);
    assert_eq!(select_media_files(&files, 700).unwrap().movie, 2);
    assert!(select_media_files(&files, 701).is_none());
    assert!(select_media_files(&Vec::new(), 0).is_none());
}

#[test]
fn subtitles_come_in_the_order_of_their_paths() {
    let files = vec![
        file(&["subs", "z.srt"], 1),
        file(&["movie.mkv"], 1),
        file(&["subs.d", "a.ass"], 1),
        file(&["subs", "a.vtt"], 1),
        file(&["a.sub"], 1),
    ];
    let selection = select_media_files(&files, 0).unwrap();
    assert_eq!(selection.subtitles, vec![4, 3, 0, 2]);
}

#[test]
fn subtitles_get_names_of_their_own() {
    let files = vec![
        file(&["Movie 2026.mkv"], 1),
        file(&["a", "Movie.2026.en.srt"], 1),
        file(&["b", "movie 2026 en.srt"], 1),
        file(&["c", "Movie.2026.srt"], 1),
        file(&["d", "Movie.2026.en.ass"], 1),
        file(&["e", "en.srt"], 1),
    ];
    let names: Vec<_> = moved(&files, 0, "Movie 2026").into_iter().map(|pair| pair.1).collect();
    assert_eq!(
        names,
        vec![
            "Movie 2026.mkv",
            "Movie 2026.en.srt",
            "Movie 2026.en 2.srt",
            "Movie 2026.subtitle 3.srt",
            "Movie 2026.en.ass",
            "Movie 2026.en 3.srt",
        ]
    );
}

#[test]
fn a_movie_needs_an_extension() {
    let files = vec![file(&["movie"], 1), file(&["x.srt"], 1), file(&["bare"], 1)];
    let selection = MediaSelection { movie: 0, subtitles: vec![1] };
    assert!(build_file_moves(&files, &selection, "Movie").is_err());
    let selection = MediaSelection { movie: 1, subtitles: vec![2] };
    assert_eq!(build_file_moves(&files, &selection, "Movie").unwrap().len(), 1);
}

#[test]
fn labels_subtitles_by_what_the_title_lacks() {
    assert_eq!(subtitle_label("The.Movie.2026.en", "The Movie 2026", 0), "en");
    assert_eq!(subtitle_label("the movie 2026", "The Movie 2026", 0), "subtitle");
    assert_eq!(subtitle_label("the movie 2026", "The Movie 2026", 4), "subtitle 5");
    assert_eq!(subtitle_label("Other.de", "The Movie 2026", 0), "Other de");
    assert_eq!(subtitle_label("", "The Movie 2026", 1), "subtitle 2");
}

#[test]
fn makes_file_names_of_titles() {
    assert_eq!(safe_file_name("../The/Movie: 2026?"), "The Movie 2026");
    assert_eq!(safe_file_name("***"), "untitled movie");
    let long = "ab ".repeat(100);
    assert_eq!(safe_file_name(&long).chars().count(), 180);
    assert_eq!(safe_file_name(&"é".repeat(200)), "é".repeat(180));
    assert_eq!(job_title(bytes("The.Movie.2026"), "torrent"), "The Movie 2026");
    assert_eq!(job_title(vec![0xff, 0xfe], "The.Torrent"), "The Torrent");
}

#[test]
fn library_folders_are_called_by_their_releases() {
    let folder = safe_file_name("Example.Movie.2026.2160p");
    assert_eq!(folder, "Example Movie 2026 2160p");
    assert_eq!(job_title(bytes(&folder), "torrent"), folder);
    let files = vec![file(&["x.mkv"], 1), file(&["Example Movie 2026 2160p.en.srt"], 1)];
    for (_, name) in moved(&files, 0, &folder) {
        assert!(name.starts_with("Example Movie 2026 2160p."));
    }
}

#[test]
fn managed_directories_are_apart_from_the_library() {
    let root = path(&["mnt", "downloads"]);
    let library = path(&["mnt", "media"]);
    let job = path(&["mnt", "downloads", "Movie"]);
    assert!(directories_are_separate(&library, &root));
    assert!(managed_job_directory(&job, &root));
    assert!(directories_are_separate(&job, &library));
}

#[test]
fn extensions_stand_behind_the_last_point() {
    assert_eq!(extension_of(&bytes("a.b.MKV")), "mkv");
    assert_eq!(extension_of(&bytes(".mkv")), "");
    assert_eq!(extension_of(&bytes("mkv")), "");
    assert_eq!(extension_of(&bytes("a.")), "");
    assert_eq!(extension_of(&vec![b'a', b'.', 0xff]), "");
    assert_eq!(stem_of(&bytes("a.b.MKV")), "a.b");
    assert_eq!(stem_of(&bytes(".mkv")), ".mkv");
    assert_eq!(stem_of(&vec![0xff, b'.', b'm']), "");
    assert_eq!(stem_of(&bytes("é.srt")), "é");
}

#[test]
fn tells_kinds_of_files_apart() {
    assert_eq!(media_kind(&bytes("a.Mp4")), MediaKind::Movie);
    assert_eq!(media_kind(&bytes("a.SSA")), MediaKind::Subtitle);
    assert_eq!(media_kind(&bytes("a.mkv.part")), MediaKind::Other);
    assert!(is_extension("MKV", &["mp4", "mkv"]));
    assert!(!is_extension("", &["mp4", "mkv"]));
}

#[test]
fn only_direct_children_are_managed() {
    let root = path(&["mnt", "downloads"]);
    assert!(managed_job_directory(&path(&["mnt", "downloads", "Movie"]), &root));
    assert!(!managed_job_directory(&root, &root));
    assert!(!managed_job_directory(&path(&["mnt", "downloads", "a", "b"]), &root));
    assert!(!managed_job_directory(&path(&["mnt", "other", "Movie"]), &root));
    assert!(!managed_job_directory(&path(&["mnt"]), &root));
}

#[test]
fn the_library_lies_apart_from_the_downloads() {
    let root = path(&["mnt", "downloads"]);
    assert!(directories_are_separate(&path(&["mnt", "media"]), &root));
    assert!(directories_are_separate(&path(&["mnt", "downloads2"]), &root));
    assert!(!directories_are_separate(&root, &root));
    assert!(!directories_are_separate(&path(&["mnt"]), &root));
    assert!(!directories_are_separate(&path(&["mnt", "downloads", "library"]), &root));
}
