use git_spy::gradient::{apply_cyberpunk_gradient, gradient_rgb};
use git_spy::models::{RepoRow, Repository};
use git_spy::ranking::{rank_repositories_by_stars, select_top, top_languages};
use git_spy::summary::{chosen_url, display_rows, shorten_description, truncate_description};
use git_spy::tally::tally_languages;

fn repo(name: &str, stars: u64, lang: Option<&str>) -> Repository {
    Repository {
        name: name.to_string(),
        html_url: format!("https://example.org/{}", name),
        description: None,
        stargazers_count: stars,
        language: lang.map(|l| l.to_string()),
    }
}

#[test]
fn test_shorten_description_under_limit() {
    let text = "Kurzer Text".to_string();
    let result = shorten_description(Some(text.clone()));
    assert_eq!(result, Some(text));
}

#[test]
fn test_shorten_description_over_limit() {
    let text = "Dies ist ein sehr langer Text, der definitiv über fünfzig Zeichen lang ist und gekürzt werden muss.".to_string();
    let result = shorten_description(Some(text));
    let result_str = result.unwrap();

    assert!(result_str.ends_with("..."));
    assert!(result_str.chars().count() <= 53);
}

#[test]
fn test_shorten_description_none() {
    let result = shorten_description(None);
    assert_eq!(result, None);
}

#[test]
fn test_cyberpunk_gradient_not_empty() {
    let input = "Cyberpunk";
    let output = apply_cyberpunk_gradient(input);

    assert!(output.len() > input.len());
    assert!(output.contains('\n'));
}

#[test]
fn test_repo_row_creation() {
    let row = RepoRow {
        name: "TestRepo".to_string(),
        stars: 42,
        language: "Rust".to_string(),
        description: "Desc".to_string(),
    };

    assert_eq!(row.name, "TestRepo");
    assert_eq!(row.stars, 42);
}

#[test]
fn sixty_chars_cut_to_fifty_and_dots() {
    let text = "a".repeat(60);
    let result = truncate_description(Some(text), 50).unwrap();
    assert_eq!(result, format!("{}...", "a".repeat(50)));
    assert_eq!(result.chars().count(), 53);
}

#[test]
fn short_description_unchanged() {
    assert_eq!(shorten_description(Some("short".to_string())), Some("short".to_string()));
}

#[test]
fn absent_description_stays_absent() {
    assert_eq!(truncate_description(None, 50), None);
}

#[test]
fn exactly_limit_is_kept() {
    let text = "b".repeat(50);
    assert_eq!(shorten_description(Some(text.clone())), Some(text));
}

#[test]
fn multibyte_text_cut_by_characters() {
    let text = "ü".repeat(51);
    let result = shorten_description(Some(text)).unwrap();
    assert_eq!(result, format!("{}...", "ü".repeat(50)));
    assert_eq!(result.chars().count(), 53);
}

#[test]
fn short_multibyte_text_is_not_cut() {
    // 30 characters, 60 bytes: under the limit by characters.
    let text = "ä".repeat(30);
    assert_eq!(shorten_description(Some(text.clone())), Some(text));
}

#[test]
fn zero_limit_leaves_only_dots() {
    assert_eq!(truncate_description(Some("xy".to_string()), 0), Some("...".to_string()));
}

#[test]
fn go_rust_scenario() {
    let repos = vec![
        repo("a", 10, Some("Go")),
        repo("b", 50, Some("Rust")),
        repo("c", 5, Some("Go")),
    ];
    let tally = tally_languages(&repos);
    assert_eq!(tally, vec![("Go".to_string(), 2), ("Rust".to_string(), 1)]);
    let top = top_languages(tally, 2);
    assert_eq!(top, vec![("Go".to_string(), 2), ("Rust".to_string(), 1)]);
    let ranked = rank_repositories_by_stars(repos);
    let stars: Vec<u64> = ranked.iter().map(|r| r.stargazers_count).collect();
    assert_eq!(stars, vec![50, 10, 5]);
    assert_eq!(ranked[0].language.as_deref(), Some("Rust"));
}

#[test]
fn tally_counts_every_repository_once() {
    let repos = vec![
        repo("a", 1, None),
        repo("b", 2, Some("C")),
        repo("c", 3, None),
        repo("d", 4, Some("Unknown")),
        repo("e", 5, Some("C")),
    ];
    let tally = tally_languages(&repos);
    assert_eq!(tally, vec![("Unknown".to_string(), 3), ("C".to_string(), 2)]);
    let sum: usize = tally.iter().map(|e| e.1).sum();
    assert_eq!(sum, repos.len());
}

#[test]
fn empty_collection_gives_empty_tally() {
    let repos: Vec<Repository> = Vec::new();
    let tally = tally_languages(&repos);
    assert!(tally.is_empty());
    assert!(top_languages(tally, 3).is_empty());
    assert!(rank_repositories_by_stars(repos).is_empty());
}

#[test]
fn top_three_sorted_and_bounded() {
    let repos = vec![
        repo("a", 1, Some("A")),
        repo("b", 1, Some("B")),
        repo("c", 1, Some("B")),
        repo("d", 1, Some("C")),
        repo("e", 1, Some("C")),
        repo("f", 1, Some("C")),
        repo("g", 1, Some("D")),
        repo("h", 1, Some("D")),
    ];
    let top = top_languages(tally_languages(&repos), 3);
    assert_eq!(
        top,
        vec![("C".to_string(), 3), ("B".to_string(), 2), ("D".to_string(), 2)]
    );
}

#[test]
fn ranking_is_non_increasing_and_stable() {
    let repos = vec![
        repo("x", 3, None),
        repo("y", 7, None),
        repo("z", 3, None),
        repo("w", 9, None),
    ];
    let ranked = rank_repositories_by_stars(repos);
    let names: Vec<&str> = ranked.iter().map(|r| r.name.as_str()).collect();
    assert_eq!(names, vec!["w", "y", "x", "z"]);
    for pair in ranked.windows(2) {
        assert!(pair[0].stargazers_count >= pair[1].stargazers_count);
    }
}

#[test]
fn select_top_is_bounded() {
    assert_eq!(select_top(vec![1, 2, 3, 4, 5, 6], 5), vec![1, 2, 3, 4, 5]);
    assert_eq!(select_top(vec![1, 2], 5), vec![1, 2]);
    assert_eq!(select_top(Vec::<u8>::new(), 5), Vec::<u8>::new());
    assert_eq!(select_top(vec![1, 2], 0), Vec::<i32>::new());
}

#[test]
fn rows_project_repositories() {
    let mut with_desc = repo("long", 12, None);
    with_desc.description = Some("d".repeat(55));
    let ranked = vec![with_desc, repo("plain", 3, Some("Rust"))];
    let rows = display_rows(&ranked, 5);
    assert_eq!(rows.len(), 2);
    assert_eq!(rows[0].name, "long");
    assert_eq!(rows[0].stars, 12);
    assert_eq!(rows[0].language, "-");
    assert_eq!(rows[0].description, format!("{}...", "d".repeat(50)));
    assert_eq!(rows[1].language, "Rust");
    assert_eq!(rows[1].description, "");
    assert_eq!(display_rows(&ranked, 1).len(), 1);
}

#[test]
fn choice_gives_url() {
    let shown = vec![repo("one", 1, None), repo("two", 2, None)];
    assert_eq!(chosen_url(&shown, Some(1)), Some("https://example.org/two".to_string()));
    assert_eq!(chosen_url(&shown, None), None);
    assert_eq!(chosen_url(&shown, Some(2)), None);
}

#[test]
fn gradient_ends_are_the_two_colours() {
    assert_eq!(gradient_rgb(0, 10), (247, 37, 133));
    assert_eq!(gradient_rgb(10, 10), (76, 201, 240));
    assert_eq!(gradient_rgb(5, 10), (161, 119, 186));
}

#[test]
fn gradient_keeps_blanks_and_ends_lines() {
    let output = apply_cyberpunk_gradient("a b\r\nc\n");
    assert!(output.ends_with('\n'));
    assert_eq!(output.matches('\n').count(), 2);
    assert!(!output.contains('\r'));
    assert!(output.contains(' '));
    assert_eq!(apply_cyberpunk_gradient(""), "");
}

#[test]
fn fewer_labels_than_requested() {
    let repos = vec![repo("a", 1, None), repo("b", 1, Some("Zig")), repo("c", 1, Some("Zig"))];
    let top = top_languages(tally_languages(&repos), 3);
    assert_eq!(top, vec![("Zig".to_string(), 2), ("Unknown".to_string(), 1)]);
}
