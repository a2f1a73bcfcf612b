use strsim::levenshtein;
use wecom::fs::fuzzy::{normalize_noise, pick, LevelPick};

#[test]
fn levenshtein_identical_zero() {
    assert_eq!(levenshtein("abc", "abc"), 0);
}

#[test]
fn levenshtein_one_space_insertion() {
    assert_eq!(levenshtein("workspace", "work space"), 1);
}

#[test]
fn levenshtein_fully_different() {
    assert_eq!(levenshtein("abc", "xyz"), 3);
}

#[test]
fn levenshtein_empty_string() {
    assert_eq!(levenshtein("", "hello"), 5);
    assert_eq!(levenshtein("hello", ""), 5);
}

#[test]
fn levenshtein_cjk_chars() {
    assert_eq!(levenshtein("文件", "文档"), 1);
}

#[test]
fn levenshtein_one_deletion() {
    assert_eq!(levenshtein("abc", "ab"), 1);
}

#[test]
fn levenshtein_one_substitution() {
    assert_eq!(levenshtein("cat", "bat"), 1);
}

#[test]
fn levenshtein_case_difference() {
    assert_eq!(levenshtein("file", "File"), 1);
}

#[test]
fn pick_exact_with_near_sibling() {
    let result = pick("data (1).md", &["data (1).md".into(), "data (2).md".into()]);
    assert_eq!(result, LevelPick::Exact("data (1).md".into()));
}

#[test]
fn pick_high_margin_correction() {
    let result = pick("abcd efgh", &["abcdefgh".into(), "jaij39rj39".into()]);
    assert_eq!(result, LevelPick::Corrected("abcdefgh".into()));
}

#[test]
fn pick_whitespace_insensitive_unique_match() {
    let result = pick("data(1).md", &["data (1).md".into(), "data (2).md".into()]);
    assert_eq!(result, LevelPick::Corrected("data (1).md".into()));
}

#[test]
fn pick_whitespace_insensitive_reverse_safe() {
    let result = pick("data(2).md", &["data (1).md".into(), "data (2).md".into()]);
    assert_eq!(result, LevelPick::Corrected("data (2).md".into()));
}

#[test]
fn pick_whitespace_insensitive_ambiguous_aborts() {
    let result = pick("a bc", &["abc".into(), "ab c".into()]);
    assert_eq!(result, LevelPick::Abort);
}

#[test]
fn pick_whitespace_insensitive_id_segment() {
    let result = pick("ZPog D6Q", &["ZPogD6Q".into(), "otherlongname".into()]);
    assert_eq!(result, LevelPick::Corrected("ZPogD6Q".into()));
}

#[test]
fn pick_case_insensitive_unique_match() {
    let result = pick("File.TXT", &["file.txt".into(), "other.txt".into()]);
    assert_eq!(result, LevelPick::Corrected("file.txt".into()));
}

#[test]
fn pick_noise_insensitive_space_and_case() {
    let result = pick("Data (1).MD", &["data(1).md".into(), "data(2).md".into()]);
    assert_eq!(result, LevelPick::Corrected("data(1).md".into()));
}

#[test]
fn pick_case_insensitive_ambiguous_aborts() {
    let result = pick("FILE.txt", &["file.txt".into(), "File.txt".into()]);
    assert_eq!(result, LevelPick::Abort);
}

#[test]
fn pick_exact_tie_aborts() {
    let result = pick("x", &["xa".into(), "xb".into()]);
    assert_eq!(result, LevelPick::Abort);
}

#[test]
fn pick_single_candidate_correctable() {
    let result = pick("abcd efgh", &["abcdefgh".into()]);
    assert_eq!(result, LevelPick::Corrected("abcdefgh".into()));
}

#[test]
fn pick_single_candidate_relevance_fails() {
    let result = pick("abc", &["totally_different_long".into()]);
    assert_eq!(result, LevelPick::Abort);
}

#[test]
fn pick_empty_candidates_aborts() {
    let result = pick("anything", &[]);
    assert_eq!(result, LevelPick::Abort);
}

#[test]
fn pick_absolute_dist_cap_aborts() {
    // "strawberry" (10) → "blueberry" (9): straw→blue = 4+ edits
    let result = pick("strawberry", &["blueberry".into()]);
    assert_eq!(result, LevelPick::Abort);
}

#[test]
fn pick_margin_ratio_fails() {
    let result = pick(
        "aaaaaaaaaa",                                  // 10 a's
        &["bbbbbbbbbb".into(), "cccccccccccc".into()], // dist ≈ 10 vs 12
    );
    assert_eq!(result, LevelPick::Abort);
}

#[test]
fn pick_short_seg_single_typo_corrected() {
    let result = pick("ab", &["ac".into()]);
    assert_eq!(result, LevelPick::Corrected("ac".into()));
}

#[test]
fn pick_short_seg_relevance_fails() {
    let result = pick("ab", &["cd".into()]);
    assert_eq!(result, LevelPick::Abort);
}

#[test]
fn pick_duplicate_non_exact_candidates_tie() {
    let result = pick("data.md", &["data (1).md".into(), "data (1).md".into()]);
    assert_eq!(result, LevelPick::Abort);
}

#[test]
fn pick_exact_single_candidate() {
    let result = pick("hello", &["hello".into()]);
    assert_eq!(result, LevelPick::Exact("hello".into()));
}

#[test]
fn pick_exact_with_duplicate_exact_candidates() {
    let result = pick("foo", &["foo".into(), "foo".into()]);
    assert_eq!(result, LevelPick::Exact("foo".into()));
}

#[test]
fn pick_dd1_exactly_max_dist_boundary() {
    // "aaaaaaaaa" (9) → "aaabbbaaa" (9): change 3 a's to b's = 3
    // len_ref=9, floor(9*0.34)=3, clamp(3,1,3)=3, dd1=3 ≤ 3 ✓
    let result = pick("aaaaaaaaa", &["aaabbbaaa".into()]);
    assert_eq!(result, LevelPick::Corrected("aaabbbaaa".into()));
}

#[test]
fn pick_dd1_4_single_candidate_aborts() {
    // "aaaaaaaaaa" (10) → "aaaabbbbaa" (10): change 4 a's → b's = 4 > 3
    let result = pick("aaaaaaaaaa", &["aaaabbbbaa".into()]);
    assert_eq!(result, LevelPick::Abort);
}

#[test]
fn pick_ratio_ok_but_abs_margin_fails() {
    // "aaaaaa" → "aabbaa" (2 edits: change a→b at pos 2,3)
    // "aaaaaa" → "aabbca" (3 edits: change a→b at pos 2,3 + a→c at pos 4)
    // len_ref=6, floor(6*0.34)=2, cap=2, dd1=2 ≤ 2 ✓
    // dd2=3 > dd1 ✓, 但 dd2−dd1=1 < 2 ✗ → Abort
    let result = pick("aaaaaa", &["aabbaa".into(), "aabbca".into()]);
    assert_eq!(result, LevelPick::Abort);
}

#[test]
fn pick_dd1_3_dd2_4_margin_fails() {
    // "aaaaaaaaa" (9) → "aaabbbaaa" (3 edits)
    // "aaaaaaaaa" (9) → "aaabbbbaa" (4 edits)
    // len_ref=9, floor(9*0.34)=3, cap=3, dd1=3 ≤ 3 ✓
    // dd2=4 > dd1 ✓, 但 dd2−dd1=1 < 2 ✗ → Abort
    let result = pick("aaaaaaaaa", &["aaabbbaaa".into(), "aaabbbbaa".into()]);
    assert_eq!(result, LevelPick::Abort);
}

#[test]
fn pick_empty_seg_single_candidate() {
    let result = pick("", &["a".into()]);
    assert_eq!(result, LevelPick::Corrected("a".into()));
}

#[test]
fn pick_empty_seg_distance_exceeds_cap() {
    let result = pick("", &["ab".into()]);
    assert_eq!(result, LevelPick::Abort);
}

#[test]
fn pick_empty_seg_exact_match_empty_candidate() {
    let result = pick("", &["".into()]);
    assert_eq!(result, LevelPick::Exact("".into()));
}

#[test]
fn noise_is_taken_out() {
    assert_eq!(normalize_noise("Data (1).MD"), "data(1).md");
    assert_eq!(normalize_noise(" \t\n"), "");
    assert_eq!(normalize_noise("ÄÖ Ü"), "äöü");
}

#[test]
fn pick_does_not_depend_on_the_order() {
    let forward = pick("report.txt", &["raport.txt".into(), "unrelated".into()]);
    let backward = pick("report.txt", &["unrelated".into(), "raport.txt".into()]);
    assert_eq!(forward, backward);
    assert_eq!(forward, LevelPick::Corrected("raport.txt".into()));
}

#[test]
fn pick_counts_characters_of_any_script() {
    let result = pick("文件夹甲", &["文件夹乙".into(), "完全不同的名字".into()]);
    assert_eq!(result, LevelPick::Corrected("文件夹乙".into()));
}

#[test]
fn pick_does_not_depend_on_the_order_of_repeated_candidates() {
    let typed = "reprot.md";
    let lists = [
        ["report.md", "zebra.txt", "zebra.txt"],
        ["zebra.txt", "report.md", "zebra.txt"],
        ["zebra.txt", "zebra.txt", "report.md"],
    ];
    for list in lists {
        let names: Vec<String> = list.iter().map(|name| name.to_string()).collect();
        assert_eq!(pick(typed, &names), LevelPick::Corrected("report.md".to_string()));
    }
    let twice = [
        ["report.md", "report.md", "zebra.txt"],
        ["report.md", "zebra.txt", "report.md"],
        ["zebra.txt", "report.md", "report.md"],
    ];
    for list in twice {
        let names: Vec<String> = list.iter().map(|name| name.to_string()).collect();
        assert_eq!(pick(typed, &names), LevelPick::Abort);
    }
}
