use recall::diff::{diff, Diff, DiffCharType, DiffError, IndexedString, RopeSegment};

fn lcs_values(d: &Diff) -> String {
    d.lcs.iter().map(|e| e.value).collect()
}

fn rope_rebuild(d: &Diff) -> String {
    let segs = d.build_rope().expect("rope should build");
    let mut out = String::new();
    for seg in segs {
        match seg {
            RopeSegment::FromSource { start, end } => {
                for k in start..end {
                    out.push(d.source.chars[k]);
                }
            }
            RopeSegment::Literal { text } => {
                for ch in text {
                    out.push(ch);
                }
            }
        }
    }
    out
}

#[test]
fn kitten_sitting_lcs() {
    let d = diff(String::from("kitten"), String::from("sitting"));
    assert_eq!(lcs_values(&d), "ittn");
    let source_flats: Vec<usize> = d.lcs.iter().map(|e| e.source_index.flat).collect();
    let changed_flats: Vec<usize> = d.lcs.iter().map(|e| e.changed_index.flat).collect();
    assert_eq!(source_flats, vec![1, 2, 3, 5]);
    assert_eq!(changed_flats, vec![1, 2, 3, 5]);
}

#[test]
fn kitten_sitting_script() {
    let d = diff(String::from("kitten"), String::from("sitting"));
    let ops: Vec<(char, usize, DiffCharType)> = d
        .diff
        .iter()
        .map(|o| (o.value, o.index.flat, o.char_type))
        .collect();
    assert_eq!(
        ops,
        vec![
            ('k', 0, DiffCharType::Deletion),
            ('s', 0, DiffCharType::Addition),
            ('e', 4, DiffCharType::Deletion),
            ('i', 4, DiffCharType::Addition),
            ('g', 6, DiffCharType::Addition),
        ]
    );
}

#[test]
fn kitten_sitting_rope_and_display() {
    let d = diff(String::from("kitten"), String::from("sitting"));
    assert_eq!(rope_rebuild(&d), "sitting");
    let shown = d.to_string();
    let expect = "\u{1b}[31mk\u{1b}[0m\u{1b}[32ms\u{1b}[0mitt\u{1b}[31me\u{1b}[0m\u{1b}[32mi\u{1b}[0mn\u{1b}[32mg\u{1b}[0m";
    assert_eq!(shown, expect);
}

#[test]
fn partition_both_sequences() {
    // every source offset is exactly one of {anchor, deletion}; every
    // changed offset exactly one of {anchor, addition}
    let src = "kitten";
    let chg = "sitting";
    let d = diff(String::from(src), String::from(chg));
    let mut source_seen = vec![0u32; src.len()];
    let mut changed_seen = vec![0u32; chg.len()];
    for e in &d.lcs {
        source_seen[e.source_index.flat] += 1;
        changed_seen[e.changed_index.flat] += 1;
    }
    for o in &d.diff {
        match o.char_type {
            DiffCharType::Deletion => source_seen[o.index.flat] += 1,
            DiffCharType::Addition => changed_seen[o.index.flat] += 1,
        }
    }
    assert!(source_seen.iter().all(|&n| n == 1));
    assert!(changed_seen.iter().all(|&n| n == 1));
}

#[test]
fn rope_round_trip_edge_cases() {
    let cases = [
        ("", ""),
        ("", "abc"),
        ("abc", ""),
        ("abc", "abc"),
        ("abc", "xyz"),
        ("abc", "cab"),
        ("banana", "bandana"),
        ("a\nb\nc\n", "a\nx\nc\n"),
    ];
    for (s, c) in cases {
        let d = diff(String::from(s), String::from(c));
        assert_eq!(rope_rebuild(&d), c, "rope must rebuild {:?} -> {:?}", s, c);
    }
}

#[test]
fn lcs_of_disjoint_is_empty() {
    let d = diff(String::from("abc"), String::from("xyz"));
    assert_eq!(d.lcs.len(), 0);
    assert_eq!(d.diff.len(), 6);
}

#[test]
fn lcs_of_abc_cab() {
    // the best common subsequence of "abc" and "cab" has two characters
    let d = diff(String::from("abc"), String::from("cab"));
    assert_eq!(d.lcs.len(), 2);
    assert_eq!(lcs_values(&d), "ab");
}

#[test]
fn rope_reports_inconsistency() {
    // a diff whose script was never built cannot explain any changed offset
    let source = IndexedString::new(String::from("aaa"));
    let changed = IndexedString::new(String::from("bbb"));
    let d = Diff::new(source, changed, Vec::new());
    match d.build_rope() {
        Err(DiffError::Inconsistent) => {}
        other => panic!("expected Inconsistent, got {:?}", other),
    }
}

#[test]
fn line_indexing() {
    let s = IndexedString::new(String::from("ab\ncd\nef"));
    assert_eq!(s.get_line(0), Some(String::from("ab\n")));
    assert_eq!(s.get_line(1), Some(String::from("cd\n")));
    assert_eq!(s.get_line(2), Some(String::from("ef")));
    assert_eq!(s.get_line(3), None);
    assert_eq!(s.len(), 8);
}

#[test]
fn line_indexing_counters() {
    let s = IndexedString::new(String::from("a\nbc"));
    let lines: Vec<usize> = s.indices.iter().map(|i| i.line).collect();
    let cols: Vec<usize> = s.indices.iter().map(|i| i.column).collect();
    let flats: Vec<usize> = s.indices.iter().map(|i| i.flat).collect();
    assert_eq!(lines, vec![0, 0, 1, 1]);
    assert_eq!(cols, vec![0, 1, 0, 1]);
    assert_eq!(flats, vec![0, 1, 2, 3]);
}

#[test]
fn empty_buffer_has_no_lines() {
    let s = IndexedString::new(String::new());
    assert_eq!(s.get_line(0), None);
    assert_eq!(s.len(), 0);
}

#[test]
fn colors_wrap_characters() {
    assert_eq!(recall::diff::red('x'), "\u{1b}[31mx\u{1b}[0m");
    assert_eq!(recall::diff::green('y'), "\u{1b}[32my\u{1b}[0m");
}

#[test]
fn pretty_summary_unchanged_line() {
    // only lines before the last one are walked, so the change on the
    // final line never renders; the unchanged first line does
    let d = diff(String::from("a\nx\n"), String::from("a\ny\n"));
    assert_eq!(d.to_pretty_string(), " a\n");
}

#[test]
fn pretty_summary_changed_first_line() {
    let d = diff(String::from("x\nb\n"), String::from("y\nb\n"));
    let expect = format!(
        "{m}{s}{x}{nl}{p}{s2}{y}{nl2}",
        m = "\u{1b}[31m-\u{1b}[0m",
        s = " ",
        x = "\u{1b}[31mx\u{1b}[0m",
        nl = "\u{1b}[31m\n\u{1b}[0m",
        p = "\u{1b}[32m+\u{1b}[0m",
        s2 = " ",
        y = "\u{1b}[32my\u{1b}[0m",
        nl2 = "\u{1b}[32m\n\u{1b}[0m",
    );
    assert_eq!(d.to_pretty_string(), expect);
}

#[test]
fn unicode_diff_round_trip() {
    let d = diff(String::from("h\u{e9}llo"), String::from("h\u{e5}llo"));
    assert_eq!(rope_rebuild(&d), "h\u{e5}llo");
    assert_eq!(d.lcs.len(), 4);
}

fn brute_force_lcs_len(s: &[char], c: &[char]) -> usize {
    if s.is_empty() || c.is_empty() {
        0
    } else if s[s.len() - 1] == c[c.len() - 1] {
        brute_force_lcs_len(&s[..s.len() - 1], &c[..c.len() - 1]) + 1
    } else {
        brute_force_lcs_len(&s[..s.len() - 1], c).max(brute_force_lcs_len(s, &c[..c.len() - 1]))
    }
}

#[test]
fn lcs_length_matches_reference_on_small_inputs() {
    let words = ["", "a", "ab", "ba", "abc", "cab", "aabb", "abab", "xyz"];
    for s in words {
        for c in words {
            let sc: Vec<char> = s.chars().collect();
            let cc: Vec<char> = c.chars().collect();
            let expect = brute_force_lcs_len(&sc, &cc);
            let d = diff(String::from(s), String::from(c));
            assert_eq!(d.lcs.len(), expect, "lcs length for {:?} vs {:?}", s, c);
            assert_eq!(rope_rebuild(&d), c);
        }
    }
}

#[test]
fn diff_is_deterministic_and_rebuild_changes_nothing() {
    let d1 = diff(String::from("kitten"), String::from("sitting"));
    let d2 = diff(String::from("kitten"), String::from("sitting"));
    let anchors = |d: &Diff| -> Vec<(usize, usize)> {
        d.lcs
            .iter()
            .map(|e| (e.source_index.flat, e.changed_index.flat))
            .collect()
    };
    let script = |d: &Diff| -> Vec<(char, usize, DiffCharType)> {
        d.diff
            .iter()
            .map(|o| (o.value, o.index.flat, o.char_type))
            .collect()
    };
    assert_eq!(anchors(&d1), anchors(&d2));
    assert_eq!(script(&d1), script(&d2));
    let mut d3 = diff(String::from("kitten"), String::from("sitting"));
    let before = script(&d3);
    d3.build();
    assert_eq!(script(&d3), before);
}
