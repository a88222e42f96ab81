use hd_movies::feed::{
    effective_sources, is_torrent_link, normalise_name, parse_candidates, resolve_url,
    scan_sources, swarm_counts, torrent_size_bytes, wait_after_attempt,
};
use hd_movies::models::ReleaseCandidate;

const SOURCE: &str = "https://tpb.example/top/207";

fn row(title: &str, href: &str, size: &str, seeders: &str, leechers: &str) -> String {
    format!(
        "<tr><td><div class=\"detName\"><a href=\"/t/1\" class=\"detLink\">{title}</a></div>\
         <a href=\"{href}\">get</a><font>Size {size}, ULed by someone</font></td>\
         <td>{seeders}</td><td>{leechers}</td></tr>"
    )
}

fn page(rows: &[String]) -> String {
    format!("<html><body><table>{}</table></body></html>", rows.join(""))
}

#[test]
fn normalises_legacy_style_names() {
    assert_eq!(normalise_name("A.Movie_2026-1080p!"), "A Movie 2026 1080p");
}

#[test]
fn names_are_normalised_part_by_part() {
    assert_eq!(normalise_name("A.Movie/-2026_4K"), "A Movie 2026 4K");
    assert_eq!(normalise_name("A.Movie/..."), "A Movie");
    assert_eq!(normalise_name("--/2026_4K"), "2026 4K");
}

#[test]
fn normalising_keeps_letters_of_every_script() {
    assert_eq!(normalise_name("  Amélie…(2001) "), "Amélie 2001");
    assert_eq!(normalise_name("千と千尋.の"), "千と千尋 の");
    assert_eq!(normalise_name("---"), "");
}

#[test]
fn normalising_twice_changes_nothing() {
    let once = normalise_name("__A..Movie__2026");
    assert_eq!(once, "A Movie 2026");
    assert_eq!(normalise_name(&once), once);
}

#[test]
fn parses_torrent_size_units() {
    assert_eq!(torrent_size_bytes("Film 1.5 GiB 7 2"), Some(1_610_612_736));
    assert_eq!(torrent_size_bytes("Film 500 MiB 7 2"), Some(524_288_000));
    assert_eq!(torrent_size_bytes("Film without a size"), None);
}

#[test]
fn parses_every_unit() {
    assert_eq!(torrent_size_bytes("12 B"), Some(12));
    assert_eq!(torrent_size_bytes("2 kB"), Some(2_000));
    assert_eq!(torrent_size_bytes("2 KiB"), Some(2_048));
    assert_eq!(torrent_size_bytes("3 MB"), Some(3_000_000));
    assert_eq!(torrent_size_bytes("1 GB"), Some(1_000_000_000));
    assert_eq!(torrent_size_bytes("1 TB"), Some(1_000_000_000_000));
    assert_eq!(torrent_size_bytes("(0.5 TiB),"), Some(549_755_813_888));
    assert_eq!(torrent_size_bytes("1.7 GB"), Some(1_700_000_000));
}

#[test]
fn sizes_are_cut_as_floating_point_cuts_them() {
    for text in ["2.3", "1.1", "14.7", "0.1", "99.99", "1e3", "7.", ".5"] {
        let value: f64 = text.parse().unwrap();
        for (unit, bytes) in [("GiB", 1_073_741_824u64), ("MB", 1_000_000), ("TiB", 1 << 40)] {
            assert_eq!(
                torrent_size_bytes(&format!("{text} {unit}")),
                Some((value * bytes as f64) as u64),
                "{text} {unit}"
            );
        }
    }
    assert_eq!(torrent_size_bytes("1e300 TiB"), Some(u64::MAX));
    assert_eq!(torrent_size_bytes("1e400 TiB 5 MB"), Some(5_000_000));
}

#[test]
fn the_first_size_counts() {
    assert_eq!(torrent_size_bytes("Part 2 of 3 MB and 4 MB"), Some(3_000_000));
    assert_eq!(torrent_size_bytes("1.2.3 GB 5 kB"), Some(5_000));
}

#[test]
fn swarms_stand_behind_the_size() {
    assert_eq!(swarm_counts("Film 1.5 GiB 7 2"), (Some(7), Some(2)));
    assert_eq!(swarm_counts("Film 7 2"), (None, None));
    assert_eq!(swarm_counts("Film 1.5 GiB 7"), (None, None));
    assert_eq!(swarm_counts("Film 1.5 GiB by someone"), (None, None));
}

#[test]
fn tells_torrent_links_from_others() {
    assert!(is_torrent_link(" MAGNET:?xt=urn:btih:1 "));
    assert!(is_torrent_link("/files/Movie.TORRENT?x=1"));
    assert!(is_torrent_link("/torrent/download/12"));
    assert!(!is_torrent_link("/torrent/12"));
    assert!(!is_torrent_link("see magnet:?xt"));
}

#[test]
fn links_are_read_with_their_character_references() {
    let html = page(&[row("A Movie 2026 4K", "/a&amp;b&nGt;.torrent", "2 GiB", "1", "1")]);
    let found = parse_candidates(&html, SOURCE);
    assert_eq!(found.len(), 1);
    assert_eq!(found[0].url, "https://tpb.example/a&b%E2%89%AB%E2%83%92.torrent");
}

#[test]
fn resolves_links_against_their_page() {
    assert_eq!(resolve_url(SOURCE, "/a/b.torrent"), "https://tpb.example/a/b.torrent");
    assert_eq!(resolve_url(SOURCE, " magnet:?xt=1 "), "magnet:?xt=1");
    assert_eq!(resolve_url("no address", " x.torrent "), "x.torrent");
}

#[test]
fn reads_candidates_out_of_table_rows() {
    let html = page(&[
        row("Zebra.2026.2160p", "magnet:?z", "2&nbsp;GiB", "10", "3"),
        row("Alpha.2026.4K", "/alpha.torrent", "700 MiB", "0", "1"),
        "<tr><td>no title</td></tr>".to_owned(),
    ]);
    let found = parse_candidates(&html, SOURCE);
    assert_eq!(
        found,
        vec![
            ReleaseCandidate {
                name: "Alpha 2026 4K".to_owned(),
                url: "https://tpb.example/alpha.torrent".to_owned(),
                size_bytes: Some(734_003_200),
                seeders: Some(0),
                leechers: Some(1),
            },
            ReleaseCandidate {
                name: "Zebra 2026 2160p".to_owned(),
                url: "magnet:?z".to_owned(),
                size_bytes: Some(2_147_483_648),
                seeders: Some(10),
                leechers: Some(3),
            },
        ]
    );
}

#[test]
fn keeps_the_first_candidate_of_a_name() {
    let html = page(&[
        row("Same.2026", "magnet:?first", "1 GB", "1", "1"),
        row("Same 2026", "magnet:?second", "2 GB", "2", "2"),
    ]);
    let found = parse_candidates(&html, SOURCE);
    assert_eq!(found.len(), 1);
    assert_eq!(found[0].url, "magnet:?first");
}

#[test]
fn reads_pages_in_the_older_layout() {
    let html = "<p class=detName><a href=\"/t/1\">Old.Movie.2026</a> 800 MiB \
                <a href=\"magnet:?old\">m</a><p class=detName><a href=\"/t/2\">No Link</a>";
    let found = parse_candidates(html, SOURCE);
    assert_eq!(found.len(), 1);
    assert_eq!(found[0].name, "Old Movie 2026");
    assert_eq!(found[0].url, "magnet:?old");
    assert_eq!(found[0].size_bytes, Some(838_860_800));
    assert!(parse_candidates("<p>nothing here</p>", SOURCE).is_empty());
}

#[test]
fn scans_go_on_when_a_feed_fails() {
    let sources = vec!["https://one.example/".to_owned(), "https://two.example/".to_owned()];
    let html = page(&[row("Movie.2026", "magnet:?m", "1 GB", "1", "1")]);
    let report = scan_sources(&sources, &vec![None, Some(html)]).unwrap();
    assert_eq!(report.candidates.len(), 1);
    assert_eq!(report.parsed, vec![None, Some(1)]);
}

#[test]
fn scans_fail_when_every_feed_failed() {
    let sources = vec!["https://one.example/".to_owned()];
    assert!(scan_sources(&sources, &vec![None]).is_err());
    assert!(scan_sources(&Vec::new(), &Vec::new()).is_err());
}

#[test]
fn a_known_size_replaces_an_unknown_one() {
    let sources = vec!["https://one.example/".to_owned(), "https://two.example/".to_owned()];
    let bare = page(&[row("Movie.2026", "magnet:?bare", "unknown", "1", "1")]);
    let sized = page(&[row("Movie.2026", "magnet:?sized", "1 GB", "1", "1")]);
    let report = scan_sources(&sources, &vec![Some(bare.clone()), Some(sized.clone())]).unwrap();
    assert_eq!(report.candidates[0].url, "magnet:?sized");
    let report = scan_sources(&sources, &vec![Some(sized), Some(bare)]).unwrap();
    assert_eq!(report.candidates[0].url, "magnet:?sized");
}

#[test]
fn named_feeds_take_the_place_of_the_default_ones() {
    assert_eq!(
        effective_sources(&[]),
        vec![
            "https://tpb.party/top/207".to_owned(),
            "https://tpb.party/browse/207/1/7/0".to_owned(),
        ]
    );
    let named = vec!["https://one.example/".to_owned()];
    assert_eq!(effective_sources(&named), named);
}

#[test]
fn feeds_are_asked_for_three_times() {
    assert_eq!(wait_after_attempt(1), Some(1));
    assert_eq!(wait_after_attempt(2), Some(2));
    assert_eq!(wait_after_attempt(3), None);
}
