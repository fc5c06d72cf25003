use backslash::find::{find_contains, find_fold};
use backslash::unescape::{char_loop, chunk_loop_box, chunk_loop_vec, splice};

/// Runs all four resolver strategies on the same input and returns their
/// outputs in a fixed order: splice, char_loop, chunk_loop_vec,
/// chunk_loop_box.
fn resolve_all(input: &[u8]) -> [Vec<u8>; 4] {
    let mut spliced: Vec<u8> = input.to_vec();
    splice(&mut spliced);
    [
        spliced,
        char_loop(input),
        chunk_loop_vec(input),
        chunk_loop_box(input),
    ]
}

/// Asserts that every strategy maps `input` to exactly `expected`.
fn assert_resolves_to(input: &[u8], expected: &[u8]) {
    for (i, out) in resolve_all(input).iter().enumerate() {
        assert_eq!(
            out.as_slice(),
            expected,
            "strategy {} disagrees on input {:?}",
            i,
            input
        );
    }
}

#[test]
fn consistent_unescape() {
    let lines: [&[u8]; 10] = [
        b"plain text without escapes",
        b"a\\\\b",
        b"line1\\nline2",
        b"\\\\\\n",
        b"tab\\tstop",
        b"ends with backslash\\",
        b"\\n at the start",
        b"\\\\\\\\ four backslashes",
        b"mix \\n and \\\\ and \\q here",
        b"",
    ];
    for line in lines {
        let expected = {
            let mut clone: Vec<u8> = Vec::new();
            clone.extend_from_slice(line);
            splice(&mut clone);
            clone
        };

        let alternates: [(fn(&[u8]) -> Vec<u8>, &str); 3] = [
            (char_loop, "char_loop"),
            (chunk_loop_vec, "chunk_loop_vec"),
            (chunk_loop_box, "chunk_loop_box"),
        ];
        for (alternate, name) in alternates {
            let result = alternate(line);
            assert_eq!(
                expected, result,
                "{} does not match the in-place reference on {:?}",
                name, line
            );
        }
    }
}

#[test]
fn detector_strategies_agree() {
    let lines: [&[u8]; 6] = [
        b"",
        b"no escapes here",
        b"\\",
        b"ends with backslash\\",
        b"\\ starts with one",
        b"a\\\\b\\nc",
    ];
    for line in lines {
        assert_eq!(find_contains(line), find_fold(line), "on input {:?}", line);
    }
}

#[test]
fn detector_finds_backslash() {
    assert!(find_contains(b"a\\b"));
    assert!(find_fold(b"a\\b"));
    assert!(find_contains(b"\\"));
    assert!(find_fold(b"\\"));
    assert!(!find_contains(b"abc"));
    assert!(!find_fold(b"abc"));
}

#[test]
fn passthrough_line_unchanged() {
    let line: &[u8] = b"no escapes here";
    assert!(!find_contains(line));
    assert!(!find_fold(line));
    assert_resolves_to(line, line);
}

#[test]
fn trailing_backslash_passes_through() {
    assert_resolves_to(b"a\\", b"a\\");
}

#[test]
fn unrecognized_escape_passes_through() {
    assert_resolves_to(b"a\\qb", b"a\\qb");
}

#[test]
fn empty_input() {
    assert!(!find_contains(b""));
    assert!(!find_fold(b""));
    assert_resolves_to(b"", b"");
}

#[test]
fn double_backslash_collapses() {
    assert_resolves_to(b"ab\\\\cd", b"ab\\cd");
}

#[test]
fn backslash_n_becomes_newline() {
    assert_resolves_to(b"line1\\nline2", b"line1\nline2");
}

#[test]
fn pair_then_newline_escape() {
    // Backslash, backslash, backslash, n: the first pair collapses to one
    // backslash, the rest decodes to a newline byte.
    assert_resolves_to(&[92, 92, 92, 110], &[92, 10]);
}

#[test]
fn lone_backslash_passes_through() {
    assert_resolves_to(b"\\", b"\\");
}
