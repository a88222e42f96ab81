use hd_movies::binary64::Binary64;
use hd_movies::filter::{
    bytes_of_mebibytes, effective_years, has_4k_resolution, movie_identity, movie_key, years_accepted_in,
    FilterConfig, MovieFilter, MovieIdentity, Verdict, MEBIBYTE,
};
use hd_movies::db::inferred_movie_key;
use hd_movies::json::read_json;
use hd_movies::models::ReleaseCandidate;
use hd_movies::quality::{rank, ranks_below};
use hd_movies::rating::{
    find_exact_imdb_movie, imdb_score, parse_imdb_rating, rating_url, suggestion_url, RatedMovie,
    RatingLookup,
};

fn double(value: f64) -> Binary64 {
    Binary64 { bits: value.to_bits() }
}

fn config() -> FilterConfig {
    FilterConfig::new(&[2025, 2026], 500, double(6.0)).unwrap()
}

fn candidate(name: &str, size_mib: u64) -> ReleaseCandidate {
    ReleaseCandidate {
        name: name.to_owned(),
        url: "magnet:?example".to_owned(),
        size_bytes: Some(size_mib * MEBIBYTE),
        seeders: None,
        leechers: None,
    }
}

fn swarm(name: &str, seeders: u64) -> ReleaseCandidate {
    ReleaseCandidate { seeders: Some(seeders), url: format!("magnet:?{name}"), ..candidate(name, 900) }
}

fn rated(imdb_id: &str, score: f64) -> RatingLookup {
    RatingLookup::Resolved(Some(RatedMovie { imdb_id: imdb_id.to_owned(), score: double(score) }))
}

#[test]
fn requires_size_year_and_4k_or_2160p() {
    let filter_config = config();
    assert_eq!(
        movie_identity(&candidate("Dune Part Two 2025 2160p WEB", 501), &filter_config),
        Some(MovieIdentity { title: "Dune Part Two".to_owned(), year: 2025 })
    );
    assert!(movie_identity(&candidate("Dune Part Two 2025 4K WEB", 501), &filter_config).is_some());
    assert!(
        movie_identity(&candidate("Dune Part Two 2025 1080p WEB", 501), &filter_config).is_none()
    );
    assert!(
        movie_identity(&candidate("Dune Part Two 2024 2160p WEB", 501), &filter_config).is_none()
    );
    assert!(
        movie_identity(&candidate("Dune Part Two 2025 2160p WEB", 500), &filter_config).is_none()
    );
}

#[test]
fn a_movie_needs_a_known_size_and_a_title() {
    let mut unknown = candidate("Dune 2025 2160p", 501);
    unknown.size_bytes = None;
    assert!(movie_identity(&unknown, &config()).is_none());
    assert!(movie_identity(&candidate("2025 2160p", 501), &config()).is_none());
}

#[test]
fn the_first_accepted_year_ends_the_title() {
    let found = movie_identity(&candidate("Blade Runner 2049 2025 2026 4k", 501), &config());
    assert_eq!(
        found,
        Some(MovieIdentity { title: "Blade Runner 2049".to_owned(), year: 2025 })
    );
}

#[test]
fn release_tags_do_not_change_the_movie() {
    let plain = movie_identity(&candidate("Dune Part Two 2025 2160p", 501), &config());
    let tagged = movie_identity(&candidate("Dune Part Two 2025 DV REMUX 2026 4K", 900), &config());
    assert!(plain.is_some());
    assert_eq!(plain, tagged);
}

#[test]
fn inferred_keys_are_those_of_the_filter() {
    let name = "Dune Part Two 2025 2160p WEB";
    let identity = movie_identity(&candidate(name, 501), &config()).unwrap();
    assert_eq!(inferred_movie_key(name), Some(movie_key(&identity)));
}

#[test]
fn resolutions_are_words_of_their_own() {
    assert!(has_4k_resolution("Movie 2026 4K"));
    assert!(has_4k_resolution("Movie 2160P"));
    assert!(!has_4k_resolution("Movie 4Kids 12160p"));
}

#[test]
fn matches_only_an_exact_imdb_movie_and_year() {
    let payload = read_json(
        r#"{
            "d": [
                {"id": "tt0000001", "l": "Dune: Part Two", "y": 2024, "qid": "movie"},
                {"id": "tt15239678", "l": "Dune: Part Two", "y": 2024, "q": "feature"},
                {"id": "tt0000002", "l": "Dune: Part Two", "y": 2023, "qid": "movie"}
            ]
        }"#,
    )
    .unwrap();
    let identity = MovieIdentity { title: "Dune Part Two".to_owned(), year: 2024 };
    assert_eq!(find_exact_imdb_movie(&payload, &identity), Some("tt0000001".to_owned()));
}

#[test]
fn other_suggestions_do_not_match() {
    let identity = MovieIdentity { title: "Dune Part Two".to_owned(), year: 2024 };
    for document in [
        r#"{}"#,
        r#"{"d": {}}"#,
        r#"{"d": [{"id": "nm1", "l": "Dune: Part Two", "y": 2024, "qid": "movie"}]}"#,
        r#"{"d": [{"id": "tt1", "l": "Dune", "y": 2024, "qid": "movie"}]}"#,
        r#"{"d": [{"id": "tt1", "l": "Dune: Part Two", "y": 2024.0, "qid": "movie"}]}"#,
        r#"{"d": [{"id": "tt1", "l": "Dune: Part Two", "y": 2024, "qid": "tvSeries", "q": "feature"}]}"#,
        r#"{"d": [{"id": "tt1", "l": "Dune: Part Two", "y": 2024}]}"#,
    ] {
        let payload = read_json(document).unwrap();
        assert_eq!(find_exact_imdb_movie(&payload, &identity), None, "{document}");
    }
    let payload =
        read_json(r#"{"d": [{"id": "tt1", "l": "DUNE part-two", "y": 2024, "q": "feature"}]}"#);
    assert_eq!(find_exact_imdb_movie(&payload.unwrap(), &identity), Some("tt1".to_owned()));
}

#[test]
fn accepts_valid_imdb_rating_values() {
    assert_eq!(
        parse_imdb_rating(&read_json(r#"{"meta": {"imdbRating": "6.1"}}"#).unwrap()),
        Some(double(6.1))
    );
    assert_eq!(
        parse_imdb_rating(&read_json(r#"{"meta": {"imdbRating": "N/A"}}"#).unwrap()),
        None
    );
}

#[test]
fn ratings_lie_between_zero_and_ten() {
    let rating = |text: &str| {
        parse_imdb_rating(&read_json(&format!(r#"{{"meta": {{"imdbRating": "{text}"}}}}"#)).unwrap())
    };
    assert_eq!(rating("0"), Some(double(0.0)));
    assert_eq!(rating("10"), Some(double(10.0)));
    assert_eq!(rating("10.1"), None);
    assert_eq!(rating("-0.1"), None);
    assert_eq!(rating("inf"), None);
    assert_eq!(rating("NaN"), None);
    assert_eq!(parse_imdb_rating(&read_json(r#"{"meta": {"imdbRating": 6.1}}"#).unwrap()), None);
    assert_eq!(parse_imdb_rating(&read_json("[]").unwrap()), None);
}

#[test]
fn thresholds_lie_between_zero_and_ten() {
    assert!(FilterConfig::new(&[2025], 500, double(0.0)).is_ok());
    assert!(FilterConfig::new(&[2025], 500, double(-0.0)).is_ok());
    assert!(FilterConfig::new(&[2025], 500, double(9.999)).is_ok());
    assert!(FilterConfig::new(&[2025], 500, double(10.0)).is_err());
    assert!(FilterConfig::new(&[2025], 500, double(-0.1)).is_err());
    assert!(FilterConfig::new(&[2025], 500, double(f64::NAN)).is_err());
    assert!(FilterConfig::new(&[2025], 500, double(f64::INFINITY)).is_err());
}

#[test]
fn huge_size_thresholds_are_cut_off() {
    let filter_config = FilterConfig::new(&[2025], u64::MAX, double(6.0)).unwrap();
    let mut huge = candidate("Dune 2025 4K", 1);
    huge.size_bytes = Some(u64::MAX);
    assert!(movie_identity(&huge, &filter_config).is_none());
}

#[test]
fn mebibytes_are_counted_in_bytes() {
    assert_eq!(bytes_of_mebibytes(500), 524_288_000);
    assert_eq!(bytes_of_mebibytes(u64::MAX / MEBIBYTE), u64::MAX / MEBIBYTE * MEBIBYTE);
    assert_eq!(bytes_of_mebibytes(u64::MAX / MEBIBYTE + 1), u64::MAX);
}

#[test]
fn the_recent_years_are_accepted_by_default() {
    let accepted = years_accepted_in(&[], 2026);
    assert!(accepted.len() == 2 && accepted.contains(&2026) && accepted.contains(&2025));
    let named = years_accepted_in(&[1999, 2001, 1999], 2026);
    assert!(named.len() == 2 && named.contains(&1999) && named.contains(&2001));
    let now = effective_years(&[]);
    assert_eq!(now.len(), 2);
    let latest = *now.iter().max().unwrap();
    assert!(latest >= 2024 && now.contains(&(latest - 1)));
    let asked = effective_years(&[2011, 2011]);
    assert!(asked.len() == 1 && asked.contains(&2011));
}

#[test]
fn movie_keys_stay_the_same_under_other_tags_and_capitals() {
    let key = |name: &str| movie_key(&movie_identity(&candidate(name, 900), &config()).unwrap());
    assert_eq!(key("Dune Part Two 2025 2160p WEB"), "dune part two 2025");
    assert_eq!(key("DUNE part TWO 2025 4K BluRay REMUX DV"), "dune part two 2025");
}

#[test]
fn looks_movies_up_under_their_titles() {
    let identity = MovieIdentity { title: "Dune Part Two".to_owned(), year: 2024 };
    assert_eq!(
        suggestion_url(&identity).unwrap(),
        "https://v3.sg.media-imdb.com/suggestion/x/Dune%20Part%20Two%202024.json"
    );
    assert_eq!(
        rating_url("tt15239678").unwrap(),
        "https://v3-cinemeta.strem.io/meta/movie/tt15239678.json"
    );
    assert_eq!(movie_key(&identity), "dune part two 2024");
}

#[test]
fn a_lookup_needs_an_id_and_a_score() {
    assert!(matches!(
        imdb_score(Some("tt1".to_owned()), Some(double(7.0))),
        RatingLookup::Resolved(Some(_))
    ));
    assert!(matches!(imdb_score(Some("tt1".to_owned()), None), RatingLookup::Resolved(None)));
    assert!(matches!(imdb_score(None, Some(double(7.0))), RatingLookup::Resolved(None)));
}

#[test]
fn looks_each_movie_up_once() {
    let filter = MovieFilter::new(config());
    let list = vec![
        candidate("Alpha 2026 2160p", 900),
        candidate("Beta 2026 2160p", 900),
        candidate("Alpha 2026 4K REMUX", 900),
        candidate("Gamma 2026 1080p", 900),
    ];
    let movies = filter.movies(&list);
    assert_eq!(movies.len(), 2);
    assert_eq!(movies[0].title, "Alpha");
    assert_eq!(movies[1].title, "Beta");
}

#[test]
fn counts_what_becomes_of_every_candidate() {
    let filter = MovieFilter::new(config());
    let list = vec![
        candidate("Alpha 2026 2160p", 900),
        candidate("Beta 2026 2160p", 900),
        candidate("Delta 2026 2160p", 900),
        candidate("Epsilon 2026 2160p", 900),
        candidate("Gamma 2026 1080p", 900),
    ];
    let lookups = vec![
        rated("tt1", 6.1),
        rated("tt2", 6.0),
        RatingLookup::Resolved(None),
        RatingLookup::Failed("timeout".to_owned()),
    ];
    let outcome = filter.filter(&list, &lookups);
    assert_eq!(outcome.releases.len(), 1);
    assert_eq!(outcome.releases[0].name, "Alpha 2026 2160p");
    assert_eq!(outcome.releases[0].movie_key, "alpha 2026");
    assert_eq!(outcome.releases[0].imdb_id, "tt1");
    assert_eq!(outcome.releases[0].imdb_rating, double(6.1));
    assert_eq!(outcome.basic_rejections, 1);
    assert_eq!(outcome.rating_rejections, 2);
    assert_eq!(outcome.lookup_failures, 1);
    assert_eq!(
        outcome.verdicts,
        vec![
            Verdict::Accepted(double(6.1)),
            Verdict::Low(double(6.0)),
            Verdict::Unrated,
            Verdict::Failed,
            Verdict::Basic,
        ]
    );
}

#[test]
fn keeps_one_variant_of_each_movie() {
    let filter = MovieFilter::new(config());
    let list = vec![
        swarm("Zulu 2026 2160p BluRay REMUX HEVC", 50),
        swarm("Zulu 2026 2160p DV WEBRip", 2),
        swarm("Zulu 2026 2160p Dolby Vision REMUX", 0),
        swarm("Alpha 2026 2160p WEB DL", 9),
        swarm("Alpha 2026 2160p BluRay", 1),
    ];
    let outcome = filter.filter(&list, &vec![rated("tt26", 8.0), rated("tt1", 7.0)]);
    let names: Vec<_> = outcome.releases.iter().map(|release| release.name.as_str()).collect();
    assert_eq!(names, vec!["Alpha 2026 2160p BluRay", "Zulu 2026 2160p DV WEBRip"]);
}

#[test]
fn variants_of_one_id_are_one_movie() {
    let filter = MovieFilter::new(config());
    let list = vec![swarm("Alpha 2026 4K", 1), swarm("Alpha The Movie 2026 4K", 5)];
    let outcome = filter.filter(&list, &vec![rated("tt1", 7.0), rated("tt1", 7.0)]);
    assert_eq!(outcome.releases.len(), 1);
    assert_eq!(outcome.releases[0].name, "Alpha The Movie 2026 4K");
}

#[test]
fn a_dead_swarm_is_kept_where_there_is_no_other() {
    let filter = MovieFilter::new(config());
    let list = vec![swarm("Alpha 2026 4K", 0)];
    assert_eq!(filter.filter(&list, &vec![rated("tt1", 7.0)]).releases.len(), 1);
}

#[test]
fn the_first_of_equal_variants_is_kept() {
    let filter = MovieFilter::new(config());
    let mut second = swarm("Alpha 2026 4k", 3);
    second.url = "magnet:?second".to_owned();
    let list = vec![swarm("Alpha 2026 4K", 3), second];
    let outcome = filter.filter(&list, &vec![rated("tt1", 7.0)]);
    assert_eq!(outcome.releases[0].url, "magnet:?Alpha 2026 4K");
}

#[test]
fn ranks_by_one_point_after_the_other() {
    let order = [
        swarm("A 2026 4K DV REMUX", 0),
        swarm("A 2026 4K", 7),
        swarm("A 2026 4K x264", 1),
        swarm("A 2026 4K H 265", 1),
        swarm("A 2026 4K HDR10", 1),
        swarm("A 2026 4K WEBRip", 1),
        swarm("A 2026 4K WEB DL", 1),
        swarm("A 2026 4K Blu Ray", 1),
        swarm("A 2026 4K REMUX", 1),
        swarm("A 2026 4K DoVi", 1),
    ];
    for pair in order.windows(2) {
        assert!(ranks_below(&rank(&pair[0]), &rank(&pair[1])), "{} {}", pair[0].name, pair[1].name);
        assert!(!ranks_below(&rank(&pair[1]), &rank(&pair[0])));
    }
    assert!(ranks_below(&rank(&candidate("A 4K", 501)), &rank(&candidate("A 4K", 502))));
    assert_eq!(rank(&swarm("A 2026 2160p DV REMUX HDR x265", 4)), vec![1, 1, 4, 1, 2, 4, 0, 900 << 20]);
}

#[test]
fn hdr_is_told_by_its_own_tags() {
    for name in ["A 4K HDR", "A 4K hdr10", "A 4K HDR10P", "A 4K HDR10Plus"] {
        assert_eq!(rank(&swarm(name, 1))[3], 1, "{name}");
    }
    for name in ["A 4K", "A 4K HDRip", "A 4K HDRezka"] {
        assert_eq!(rank(&swarm(name, 1))[3], 0, "{name}");
    }
}
