use git_spy::gradient::{apply_cyberpunk_gradient, gradient_rgb};

/// Removes every `ESC [ ... m` sequence.
fn strip_sgr(s: &str) -> String {
    let mut out = String::new();
    let mut chars = s.chars();
    while let Some(c) = chars.next() {
        if c == '\u{1b}' {
            assert_eq!(chars.next(), Some('['));
            for d in chars.by_ref() {
                if d == 'm' {
                    break;
                }
            }
        } else {
            out.push(c);
        }
    }
    out
}

/// The rendition codes of the escape sequences of `s`, in order, resets left out.
fn codes(s: &str) -> Vec<String> {
    s.split('\u{1b}')
        .skip(1)
        .map(|part| part[1..part.find('m').unwrap()].to_string())
        .filter(|c| c != "0")
        .collect()
}

#[test]
fn coloured_output_strips_back_to_lines() {
    colored::control::set_override(true);
    let output = apply_cyberpunk_gradient("ab c\r\nxyz\n");
    assert_eq!(strip_sgr(&output), "ab c\nxyz\n");
    assert_eq!(output.matches('\n').count(), 2);
    assert_eq!(codes(&output).len(), 6);
}

#[test]
fn coloured_line_runs_from_start_to_end_colour() {
    colored::control::set_override(true);
    let output = apply_cyberpunk_gradient("GIT");
    let found = codes(&output);
    assert_eq!(found.len(), 3);
    if found[0].starts_with("38;2;") {
        assert_eq!(found[0], "38;2;247;37;133");
        assert_eq!(found[1], "38;2;161;119;186");
        assert_eq!(found[2], "38;2;76;201;240");
    } else {
        for code in found {
            assert_eq!(code.len(), 2);
            assert!(code.starts_with('3') || code.starts_with('9'));
        }
    }
}

#[test]
fn unicode_blank_is_left_unpainted() {
    colored::control::set_override(true);
    let output = apply_cyberpunk_gradient("a\u{3000}b");
    assert!(output.contains("\u{1b}[0m\u{3000}\u{1b}["));
    assert_eq!(strip_sgr(&output), "a\u{3000}b\n");
}

#[test]
fn gradient_is_monotone_and_bounded() {
    let width: usize = 37;
    let mut prev = gradient_rgb(0, width);
    for i in 1..=width {
        let cur = gradient_rgb(i, width);
        assert!(cur.0 <= prev.0 && cur.1 >= prev.1 && cur.2 >= prev.2);
        assert!((76..=247).contains(&cur.0));
        assert!((37..=201).contains(&cur.1));
        assert!((133..=240).contains(&cur.2));
        prev = cur;
    }
    assert_eq!(prev, (76, 201, 240));
    assert_eq!(gradient_rgb(0, 1), (247, 37, 133));
}
