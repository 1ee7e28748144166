use pi_natives::glob::{
    build_glob_pattern, compile_glob, contains_bytes, contains_component, entry_passes, finish,
    glob_config, keeps_type, nothing_wanted, record_match, should_skip_path, wants_entry,
    with_forward_slashes,
    FileType, GlobConfig, GlobError, GlobMatch, GlobOptions,
};
use pi_natives::glob_order::newer_first;
use std::cmp::Ordering;

fn options(pattern: &str) -> GlobOptions {
    GlobOptions {
        pattern: pattern.to_string(),
        path: ".".to_string(),
        file_type: None,
        hidden: None,
        max_results: None,
        gitignore: None,
        sort_by_mtime: None,
        timeout_ms: None,
    }
}

fn config(max_results: usize, sort_by_mtime: bool) -> GlobConfig {
    GlobConfig {
        pattern: "*".to_string(),
        include_hidden: false,
        file_type_filter: None,
        max_results,
        use_gitignore: true,
        mentions_node_modules: false,
        sort_by_mtime,
    }
}

fn found(path: &str, mtime: Option<u64>) -> GlobMatch {
    GlobMatch { path: path.to_string(), file_type: FileType::File, mtime }
}

fn parts(path: &[&str]) -> Vec<String> {
    path.iter().map(|p| p.to_string()).collect()
}

#[test]
fn bare_patterns_match_at_any_depth() {
    assert_eq!(build_glob_pattern("*.rs", false), "**/*.rs");
    assert_eq!(build_glob_pattern("", false), "**/");
    assert_eq!(build_glob_pattern("*", false), "**/*");
}

#[test]
fn patterns_with_a_slash_or_leading_stars_stay() {
    assert_eq!(build_glob_pattern("src/*.rs", false), "src/*.rs");
    assert_eq!(build_glob_pattern("**foo", false), "**foo");
    assert_eq!(build_glob_pattern("**/x", false), "**/x");
    assert_eq!(build_glob_pattern("/", false), "/");
}

#[test]
fn backslashes_become_slashes_on_windows_only() {
    assert_eq!(build_glob_pattern("src\\*.rs", true), "src/*.rs");
    assert_eq!(build_glob_pattern("a\\b\\", true), "a/b/");
    assert_eq!(build_glob_pattern("é\\ü", true), "é/ü");
    assert_eq!(build_glob_pattern("src\\*.rs", false), "**/src\\*.rs");
    assert_eq!(build_glob_pattern("*.rs", true), "**/*.rs");
}

#[test]
fn defaults_are_filled_in() {
    let config = glob_config(&options("*.rs"));
    assert_eq!(config.pattern, "*.rs");
    assert!(!config.include_hidden);
    assert_eq!(config.file_type_filter, None);
    assert_eq!(config.max_results, usize::MAX);
    assert!(config.use_gitignore);
    assert!(!config.sort_by_mtime);
    assert!(!config.mentions_node_modules);
}

#[test]
fn options_are_taken_over() {
    let mut asked = options("node_modules/**");
    asked.file_type = Some(FileType::Dir);
    asked.hidden = Some(true);
    asked.max_results = Some(7);
    asked.gitignore = Some(false);
    asked.sort_by_mtime = Some(true);
    let config = glob_config(&asked);
    assert!(config.include_hidden);
    assert_eq!(config.file_type_filter, Some(FileType::Dir));
    assert_eq!(config.max_results, 7);
    assert!(!config.use_gitignore);
    assert!(config.sort_by_mtime);
    assert!(config.mentions_node_modules);
}

#[test]
fn the_pattern_is_trimmed_and_defaults_to_a_star() {
    assert_eq!(glob_config(&options("  *.rs \t\n")).pattern, "*.rs");
    assert_eq!(glob_config(&options("\u{3000}a b\u{a0}")).pattern, "a b");
    assert_eq!(glob_config(&options("")).pattern, "*");
    assert_eq!(glob_config(&options("   ")).pattern, "*");
}

#[test]
fn substring_search() {
    assert!(contains_bytes(b"a/node_modules/b", b"node_modules"));
    assert!(contains_bytes(b"node_modules", b"node_modules"));
    assert!(!contains_bytes(b"node_module", b"node_modules"));
    assert!(contains_bytes(b"abc", b""));
    assert!(contains_bytes(b"", b""));
    assert!(!contains_bytes(b"", b"a"));
    assert!(contains_bytes(b"aab", b"ab"));
}

#[test]
fn components_are_compared_whole() {
    let path = parts(&["/", "home", ".git", "config"]);
    assert!(contains_component(&path, ".git"));
    assert!(!contains_component(&path, "git"));
    assert!(!contains_component(&path, ".gitx"));
    assert!(!contains_component(&parts(&[]), ".git"));
}

#[test]
fn git_is_always_passed_by_and_node_modules_unless_named() {
    assert!(should_skip_path(&parts(&["a", ".git", "b"]), false));
    assert!(should_skip_path(&parts(&["a", ".git", "b"]), true));
    assert!(should_skip_path(&parts(&["a", "node_modules", "b"]), false));
    assert!(!should_skip_path(&parts(&["a", "node_modules", "b"]), true));
    assert!(!should_skip_path(&parts(&["a", "b"]), false));
}

#[test]
fn an_entry_passes_if_nothing_speaks_against_it() {
    let path = parts(&["root", "src", "main.rs"]);
    assert!(entry_passes(&path, "src/main.rs", false, true));
    assert!(!entry_passes(&path, "src/main.rs", false, false));
    assert!(!entry_passes(&path, "", false, true));
    assert!(!entry_passes(&parts(&["root", ".git", "x"]), ".git/x", false, true));
}

#[test]
fn the_matcher_is_asked_about_entries() {
    let set = match compile_glob("*.rs", false) {
        Ok(set) => set,
        Err(_) => panic!("pattern refused"),
    };
    let config = config(10, false);
    assert!(wants_entry(&set, &config, &parts(&["root", "src", "main.rs"]), "src/main.rs"));
    assert!(wants_entry(&set, &config, &parts(&["root", "main.rs"]), "main.rs"));
    assert!(!wants_entry(&set, &config, &parts(&["root", "src", "main.txt"]), "src/main.txt"));
    assert!(!wants_entry(&set, &config, &parts(&["root", ".git", "x.rs"]), ".git/x.rs"));
    assert!(!wants_entry(&set, &config, &parts(&["root", "node_modules", "x.rs"]), "node_modules/x.rs"));
    assert!(!wants_entry(&set, &config, &parts(&["root"]), ""));
}

#[test]
fn a_pattern_with_a_slash_is_matched_from_the_root() {
    let set = match compile_glob("src/*.rs", false) {
        Ok(set) => set,
        Err(_) => panic!("pattern refused"),
    };
    let config = config(10, false);
    assert!(wants_entry(&set, &config, &parts(&["root", "src", "main.rs"]), "src/main.rs"));
    assert!(!wants_entry(&set, &config, &parts(&["root", "a", "src", "main.rs"]), "a/src/main.rs"));
}

#[test]
fn the_matcher_comes_with_its_pattern() {
    match compile_glob("*.rs", false) {
        Ok(matcher) => assert_eq!(matcher.pattern, "**/*.rs"),
        Err(_) => panic!("pattern refused"),
    }
    match compile_glob("src\\*.rs", true) {
        Ok(matcher) => assert_eq!(matcher.pattern, "src/*.rs"),
        Err(_) => panic!("pattern refused"),
    }
}

#[test]
fn backslashes_are_turned_into_slashes() {
    assert_eq!(with_forward_slashes("a\\b\\c"), "a/b/c");
    assert_eq!(with_forward_slashes("\\"), "/");
    assert_eq!(with_forward_slashes("a/b"), "a/b");
    assert_eq!(with_forward_slashes(""), "");
}

#[test]
fn a_pattern_that_does_not_parse_is_refused() {
    match compile_glob("a/[", false) {
        Err(GlobError::InvalidPattern(words)) => assert!(!words.is_empty()),
        _ => panic!("pattern accepted"),
    }
}

#[test]
fn the_kind_filter() {
    assert!(keeps_type(None, FileType::File));
    assert!(keeps_type(Some(FileType::File), FileType::File));
    assert!(keeps_type(Some(FileType::Dir), FileType::Dir));
    assert!(keeps_type(Some(FileType::Symlink), FileType::Symlink));
    assert!(!keeps_type(Some(FileType::File), FileType::Dir));
    assert!(!keeps_type(Some(FileType::Dir), FileType::Symlink));
    assert!(!keeps_type(Some(FileType::Symlink), FileType::File));
}

#[test]
fn the_walk_ends_at_the_limit_unless_sorting() {
    let mut matches = Vec::new();
    assert!(!record_match(&mut matches, found("a", None), &config(2, false)));
    assert!(record_match(&mut matches, found("b", None), &config(2, false)));
    assert_eq!(matches.len(), 2);
    assert_eq!(matches[1].path, "b");
    assert!(!record_match(&mut matches, found("c", None), &config(2, true)));
    assert_eq!(matches.len(), 3);
}

#[test]
fn nothing_is_searched_where_nothing_is_wanted() {
    assert!(nothing_wanted(&config(0, false)));
    assert!(!nothing_wanted(&config(1, false)));
}

#[test]
fn unsorted_matches_stay_as_found() {
    let matches = vec![found("a", Some(1)), found("b", Some(9)), found("c", None)];
    let result = finish(matches, &config(2, false));
    let paths: Vec<&str> = result.matches.iter().map(|m| m.path.as_str()).collect();
    assert_eq!(paths, vec!["a", "b", "c"]);
    assert_eq!(result.total_matches, 3);
}

#[test]
fn sorted_matches_come_newest_first_and_are_limited() {
    let matches = vec![
        found("a", Some(1)),
        found("b", None),
        found("c", Some(5)),
        found("d", Some(1)),
        found("e", Some(0)),
    ];
    let result = finish(matches, &config(4, true));
    let paths: Vec<&str> = result.matches.iter().map(|m| m.path.as_str()).collect();
    assert_eq!(paths, vec!["c", "a", "d", "b"]);
    assert_eq!(result.total_matches, 4);
    let result = finish(vec![found("a", Some(1)), found("b", Some(2))], &config(10, true));
    let paths: Vec<&str> = result.matches.iter().map(|m| m.path.as_str()).collect();
    assert_eq!(paths, vec!["b", "a"]);
    assert_eq!(result.total_matches, 2);
}

#[test]
fn newer_matches_order_first() {
    assert_eq!(newer_first(&found("a", Some(2)), &found("b", Some(1))), Ordering::Less);
    assert_eq!(newer_first(&found("a", Some(1)), &found("b", Some(2))), Ordering::Greater);
    assert_eq!(newer_first(&found("a", None), &found("b", Some(0))), Ordering::Equal);
}

#[test]
fn the_matcher_gets_the_pattern_for_any_depth() {
    let set = match compile_glob("main.rs", false) {
        Ok(set) => set,
        Err(_) => panic!("pattern refused"),
    };
    let config = config(10, false);
    assert!(wants_entry(&set, &config, &parts(&["root", "a", "b", "main.rs"]), "a/b/main.rs"));
    assert!(wants_entry(&set, &config, &parts(&["root", "main.rs"]), "main.rs"));
    assert!(!wants_entry(&set, &config, &parts(&["root", "a", "xmain.rs"]), "a/xmain.rs"));
}
