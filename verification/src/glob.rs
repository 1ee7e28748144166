//! Discovery of files by glob pattern: what is decided about patterns,
//! paths and matches. The walk through the file system is the host's.

use crate::glob_order::{is_newest_first, sort_newest_first};
use crate::utf8::{lemma_ascii_is_boundary, push_text, str_piece};
use vstd::prelude::*;
use vstd::string::*;
use vstd::utf8::*;

verus! {

broadcast use vstd::utf8::encode_utf8_valid_utf8;

pub const SLASH: u8 = 0x2f;

pub const BACKSLASH: u8 = 0x5c;

pub const STAR: u8 = 0x2a;

/// What kind of entry a path names.
#[derive(Clone, Copy, Debug, PartialEq, Eq)]
pub enum FileType {
    File,
    Dir,
    Symlink,
}

/// One entry that matched: its path below the search root, with forward
/// slashes, its kind, and when it was last modified, in milliseconds since
/// the epoch, if that is known.
#[derive(Debug)]
pub struct GlobMatch {
    pub path: String,
    pub file_type: FileType,
    pub mtime: Option<u64>,
}

/// The matches of a search and their number.
#[derive(Debug)]
pub struct GlobResult {
    pub matches: Vec<GlobMatch>,
    pub total_matches: u32,
}

/// What a caller may ask of a search.
#[derive(Debug)]
pub struct GlobOptions {
    pub pattern: String,
    pub path: String,
    pub file_type: Option<FileType>,
    pub hidden: Option<bool>,
    pub max_results: Option<u32>,
    pub gitignore: Option<bool>,
    pub sort_by_mtime: Option<bool>,
    pub timeout_ms: Option<u32>,
}

/// What a search goes by, all defaults filled in.
#[derive(Debug)]
pub struct GlobConfig {
    pub pattern: String,
    pub include_hidden: bool,
    pub file_type_filter: Option<FileType>,
    pub max_results: usize,
    pub use_gitignore: bool,
    pub mentions_node_modules: bool,
    pub sort_by_mtime: bool,
}

/// Why a pattern could not be used, with the words of the matcher.
#[derive(Debug)]
pub enum GlobError {
    InvalidPattern(String),
    BuildFailed(String),
}

/// `globset::Glob`, a parsed pattern; nothing is known of what is in it.
#[verifier::external_type_specification]
#[verifier::external_body]
pub struct ExGlob(globset::Glob);

/// `globset::GlobSet`, a matcher; nothing is known of what is in it.
#[verifier::external_type_specification]
#[verifier::external_body]
pub struct ExGlobSet(globset::GlobSet);

/// `globset::GlobSetBuilder`; nothing is known of what is in it.
#[verifier::external_type_specification]
#[verifier::external_body]
pub struct ExGlobSetBuilder(globset::GlobSetBuilder);

/// `globset::Error`; only its words are read.
#[verifier::external_type_specification]
#[verifier::external_body]
pub struct ExGlobSetError(globset::Error);

/// The characters that Unicode calls white space.
pub open spec fn is_white_space(c: char) -> bool {
    ('\u{9}' <= c <= '\u{d}') || c == ' ' || c == '\u{85}' || c == '\u{a0}' || c == '\u{1680}' || (
    '\u{2000}' <= c <= '\u{200a}') || c == '\u{2028}' || c == '\u{2029}' || c == '\u{202f}' || c
        == '\u{205f}' || c == '\u{3000}'
}

/// `text` without the white space at its start.
pub open spec fn trimmed_start(text: Seq<char>) -> Seq<char>
    decreases text.len(),
{
    if text.len() > 0 && is_white_space(text[0]) {
        trimmed_start(text.drop_first())
    } else {
        text
    }
}

/// `text` without the white space at its end.
pub open spec fn trimmed_end(text: Seq<char>) -> Seq<char>
    decreases text.len(),
{
    if text.len() > 0 && is_white_space(text.last()) {
        trimmed_end(text.drop_last())
    } else {
        text
    }
}

/// `text` without the white space at its start and at its end.
pub open spec fn trimmed(text: Seq<char>) -> Seq<char> {
    trimmed_end(trimmed_start(text))
}

/// `str::trim` of std: the slice without leading and trailing white space,
/// where white space is what Unicode lists as `White_Space`.
#[verifier::external_body]
fn trim_text(text: &str) -> (inner: &str)
    ensures
        inner@ == trimmed(text@),
{
    text.trim()
}

/// `globset::Glob::new`: parses a pattern with the default options. Which
/// patterns parse depends on the platform as well, since a backslash is an
/// escape only where it is no path separator, so nothing is said of it.
#[verifier::external_body]
fn parse_glob(pattern: &str) -> Result<globset::Glob, globset::Error> {
    globset::Glob::new(pattern)
}

/// `globset::GlobSetBuilder::new`.
#[verifier::external_body]
fn new_builder() -> globset::GlobSetBuilder {
    globset::GlobSetBuilder::new()
}

/// `globset::GlobSetBuilder::add`.
#[verifier::external_body]
fn add_glob(builder: &mut globset::GlobSetBuilder, glob: globset::Glob) {
    builder.add(glob);
}

/// `globset::GlobSetBuilder::build`.
#[verifier::external_body]
fn build_set(builder: &globset::GlobSetBuilder) -> Result<globset::GlobSet, globset::Error> {
    builder.build()
}

/// `globset::GlobSet::is_match`. How a path is read depends on the
/// platform, so nothing is said of the answer.
#[verifier::external_body]
fn set_matches(set: &globset::GlobSet, path: &str) -> bool {
    set.is_match(path)
}

/// The words of a `globset::Error`, through its `Display`.
#[verifier::external_body]
fn error_text(error: &globset::Error) -> String {
    error.to_string()
}

/// Some byte of `s` is `b`.
pub open spec fn has_byte(s: Seq<u8>, b: u8) -> bool {
    exists|i: int| 0 <= i < s.len() && s[i] == b
}

/// `s` with every backslash turned into a forward slash.
pub open spec fn slashed(s: Seq<u8>) -> Seq<u8> {
    Seq::new(
        s.len(),
        |i: int|
            if s[i] == BACKSLASH {
                SLASH
            } else {
                s[i]
            },
    )
}

/// `s` starts with two stars.
pub open spec fn starts_with_stars(s: Seq<u8>) -> bool {
    s.len() >= 2 && s[0] == STAR && s[1] == STAR
}

/// The pattern that a glob is matched as: with forward slashes where the
/// platform writes backslashes, and, unless it holds a slash or starts with
/// `**`, with `**/` before it, so that it matches at any depth.
pub open spec fn glob_pattern(glob: Seq<u8>, windows: bool) -> Seq<u8> {
    let normal = if windows {
        slashed(glob)
    } else {
        glob
    };
    if has_byte(normal, SLASH) || starts_with_stars(normal) {
        normal
    } else {
        seq![STAR, STAR, SLASH] + normal
    }
}

/// `needle` stands in `hay` at `at`.
pub open spec fn stands_at(hay: Seq<u8>, needle: Seq<u8>, at: int) -> bool {
    0 <= at && at + needle.len() <= hay.len() && hay.subrange(at, at + needle.len()) == needle
}

/// `needle` stands somewhere in `hay`.
pub open spec fn has_part(hay: Seq<u8>, needle: Seq<u8>) -> bool {
    exists|at: int| stands_at(hay, needle, at)
}

/// Whether `bytes` holds the byte `b`.
fn holds_byte(bytes: &[u8], b: u8) -> (found: bool)
    ensures
        found == has_byte(bytes@, b),
{
    let mut i: usize = 0;
    while i < bytes.len()
        invariant
            i <= bytes.len(),
            forall|k: int| 0 <= k < i ==> bytes[k] != b,
        decreases bytes.len() - i,
    {
        if bytes[i] == b {
            return true;
        }
        i += 1;
    }
    false
}

/// Whether two byte strings are the same.
fn same_bytes(a: &[u8], b: &[u8]) -> (same: bool)
    ensures
        same == (a@ == b@),
{
    if a.len() != b.len() {
        return false;
    }
    let mut i: usize = 0;
    while i < a.len()
        invariant
            i <= a.len(),
            a.len() == b.len(),
            forall|k: int| 0 <= k < i ==> a[k] == b[k],
        decreases a.len() - i,
    {
        if a[i] != b[i] {
            return false;
        }
        i += 1;
    }
    assert(a@ =~= b@);
    true
}

/// Whether `needle` stands somewhere in `hay`.
pub fn contains_bytes(hay: &[u8], needle: &[u8]) -> (found: bool)
    ensures
        found == has_part(hay@, needle@),
{
    if needle.len() > hay.len() {
        return false;
    }
    if needle.len() == 0 {
        assert(stands_at(hay@, needle@, 0)) by {
            assert(hay@.subrange(0, 0) =~= needle@);
        }
        return true;
    }
    let last: usize = hay.len() - needle.len();
    let mut at: usize = 0;
    while at <= last
        invariant
            at <= last + 1,
            0 < needle.len() <= hay.len(),
            last == hay.len() - needle.len(),
            forall|k: int| 0 <= k < at ==> !stands_at(hay@, needle@, k),
        decreases last + 1 - at,
    {
        let part = &hay[at..at + needle.len()];
        if same_bytes(part, needle) {
            assert(stands_at(hay@, needle@, at as int));
            return true;
        }
        at += 1;
    }
    false
}

/// `text` with every backslash turned into a forward slash.
pub fn with_forward_slashes(text: &str) -> (out: String)
    ensures
        encode_utf8(out@) == slashed(text.spec_bytes()),
{
    let bytes = text.as_bytes();
    let n = bytes.len();
    let mut out = String::new();
    let mut from: usize = 0;
    let mut i: usize = 0;
    proof {
        is_char_boundary_start_end_of_seq(bytes@);
        assert(encode_utf8(out@) =~= slashed(bytes@.take(0)));
        reveal_strlit("/");
        is_ascii_chars_encode_utf8("/"@);
        assert("/".spec_bytes() =~= seq![SLASH]);
    }
    while i < n
        invariant
            from <= i <= n,
            n == bytes@.len(),
            bytes@ == text.spec_bytes(),
            valid_utf8(bytes@),
            "/".spec_bytes() == seq![SLASH],
            is_char_boundary(bytes@, from as int),
            encode_utf8(out@) == slashed(bytes@.take(from as int)),
            forall|k: int| from <= k < i ==> bytes[k] != BACKSLASH,
        decreases n - i,
    {
        if bytes[i] == BACKSLASH {
            proof {
                lemma_ascii_is_boundary(bytes@, i as int);
            }
            push_text(&mut out, str_piece(text, from, i));
            push_text(&mut out, "/");
            assert(encode_utf8(out@) =~= slashed(bytes@.take(i + 1)));
            from = i + 1;
        }
        i += 1;
    }
    push_text(&mut out, str_piece(text, from, n));
    assert(encode_utf8(out@) =~= slashed(bytes@));
    out
}

/// Makes the pattern under which a glob is matched.
///
/// `windows` says whether the platform writes paths with backslashes.
pub fn build_glob_pattern(glob: &str, windows: bool) -> (pattern: String)
    ensures
        encode_utf8(pattern@) == glob_pattern(glob.spec_bytes(), windows),
{
    let mut normal = if windows {
        with_forward_slashes(glob)
    } else {
        glob.to_owned()
    };
    let bytes = normal.as_str().as_bytes();
    if holds_byte(bytes, SLASH) || (bytes.len() >= 2 && bytes[0] == STAR && bytes[1] == STAR) {
        return normal;
    }
    proof {
        reveal_strlit("**/");
        is_ascii_chars_encode_utf8("**/"@);
        assert("**/".spec_bytes() =~= seq![STAR, STAR, SLASH]);
    }
    let mut pattern = "**/".to_owned();
    push_text(&mut pattern, normal.as_str());
    pattern
}

/// The text of the pattern that a glob is matched as.
pub open spec fn glob_pattern_text(glob: Seq<char>, windows: bool) -> Seq<char> {
    decode_utf8(glob_pattern(encode_utf8(glob), windows))
}

/// A matcher and the pattern that it was made for.
pub struct GlobMatcher {
    pub pattern: String,
    pub set: globset::GlobSet,
}

/// Makes the matcher for a glob: the pattern of `build_glob_pattern`,
/// parsed and built. Which patterns parse is for the matcher to say; what it
/// refuses comes back as an error with its words. What comes back otherwise
/// holds the pattern that was handed to the matcher.
pub fn compile_glob(glob: &str, windows: bool) -> (compiled: Result<GlobMatcher, GlobError>)
    ensures
        compiled matches Ok(matcher) ==> matcher.pattern@ == glob_pattern_text(glob@, windows),
{
    let pattern = build_glob_pattern(glob, windows);
    proof {
        encode_utf8_decode_utf8(pattern@);
    }
    let mut builder = new_builder();
    match parse_glob(pattern.as_str()) {
        Ok(parsed) => {
            add_glob(&mut builder, parsed);
        },
        Err(error) => {
            return Err(GlobError::InvalidPattern(error_text(&error)));
        },
    }
    match build_set(&builder) {
        Ok(set) => Ok(GlobMatcher { pattern, set }),
        Err(error) => Err(GlobError::BuildFailed(error_text(&error))),
    }
}

/// The pattern that a search goes by: the one asked for without the white
/// space around it, or `*` where nothing is left.
pub open spec fn effective_pattern(pattern: Seq<char>) -> Seq<char> {
    if trimmed(pattern).len() == 0 {
        "*"@
    } else {
        trimmed(pattern)
    }
}

/// The configuration of a search, from what was asked for: hidden entries
/// are left out, ignore files are honoured, results are neither limited nor
/// sorted, unless the options say otherwise.
pub fn glob_config(options: &GlobOptions) -> (config: GlobConfig)
    ensures
        config.pattern@ == effective_pattern(options.pattern@),
        config.include_hidden == (options.hidden == Some(true)),
        config.file_type_filter == options.file_type,
        config.max_results == match options.max_results {
            Some(max) => max as usize,
            None => usize::MAX,
        },
        config.use_gitignore == (options.gitignore != Some(false)),
        config.sort_by_mtime == (options.sort_by_mtime == Some(true)),
        config.mentions_node_modules == has_part(
            encode_utf8(config.pattern@),
            "node_modules".spec_bytes(),
        ),
{
    let inner = trim_text(options.pattern.as_str());
    let pattern = if inner.as_bytes().len() == 0 {
        "*".to_owned()
    } else {
        inner.to_owned()
    };
    proof {
        crate::utf8::lemma_empty_encoding(inner@);
    }
    let mentions_node_modules = contains_bytes(
        pattern.as_str().as_bytes(),
        "node_modules".as_bytes(),
    );
    GlobConfig {
        include_hidden: match options.hidden {
            Some(hidden) => hidden,
            None => false,
        },
        file_type_filter: options.file_type,
        max_results: match options.max_results {
            Some(max) => max as usize,
            None => usize::MAX,
        },
        use_gitignore: match options.gitignore {
            Some(gitignore) => gitignore,
            None => true,
        },
        mentions_node_modules,
        sort_by_mtime: match options.sort_by_mtime {
            Some(sort) => sort,
            None => false,
        },
        pattern,
    }
}

/// Some component is `target`.
pub open spec fn has_component(components: Seq<String>, target: Seq<char>) -> bool {
    exists|k: int| 0 <= k < components.len() && (#[trigger] components[k])@ == target
}

/// Whether one of the components of a path is `target`.
pub fn contains_component(components: &Vec<String>, target: &str) -> (found: bool)
    ensures
        found == has_component(components@, target@),
{
    let mut k: usize = 0;
    while k < components.len()
        invariant
            k <= components.len(),
            forall|j: int| 0 <= j < k ==> (#[trigger] components@[j])@ != target@,
        decreases components.len() - k,
    {
        if same_bytes(components[k].as_str().as_bytes(), target.as_bytes()) {
            proof {
                encode_utf8_decode_utf8(components@[k as int]@);
                encode_utf8_decode_utf8(target@);
            }
            return true;
        }
        k += 1;
    }
    false
}

/// Whether a search passes a path by: what lies under `.git` always, what
/// lies under `node_modules` unless the pattern names it.
pub open spec fn skips(components: Seq<String>, mentions_node_modules: bool) -> bool {
    has_component(components, ".git"@) || (!mentions_node_modules && has_component(
        components,
        "node_modules"@,
    ))
}

/// Whether a search passes by the path with the given components.
pub fn should_skip_path(components: &Vec<String>, mentions_node_modules: bool) -> (skip: bool)
    ensures
        skip == skips(components@, mentions_node_modules),
{
    if contains_component(components, ".git") {
        return true;
    }
    if !mentions_node_modules && contains_component(components, "node_modules") {
        return true;
    }
    false
}

/// Whether an entry is looked at more closely, given what the matcher says
/// of its path below the root: it is not passed by, it is not the root
/// itself, and the matcher accepts it.
pub fn entry_passes(
    components: &Vec<String>,
    relative: &str,
    mentions_node_modules: bool,
    matched: bool,
) -> (passes: bool)
    ensures
        passes == (!skips(components@, mentions_node_modules) && relative@.len() > 0 && matched),
{
    proof {
        crate::utf8::lemma_empty_encoding(relative@);
    }
    !should_skip_path(components, mentions_node_modules) && relative.as_bytes().len() > 0
        && matched
}

/// Whether an entry is looked at more closely: asks the matcher, unless the
/// entry is passed by or is the root itself.
pub fn wants_entry(
    matcher: &GlobMatcher,
    config: &GlobConfig,
    components: &Vec<String>,
    relative: &str,
) -> (wanted: bool)
    ensures
        wanted ==> !skips(components@, config.mentions_node_modules) && relative@.len() > 0,
{
    if should_skip_path(components, config.mentions_node_modules) {
        return false;
    }
    if relative.as_bytes().len() == 0 {
        return false;
    }
    let matched = set_matches(&matcher.set, relative);
    entry_passes(components, relative, config.mentions_node_modules, matched)
}

/// Whether an entry of the given kind is of the kind asked for.
pub fn keeps_type(filter: Option<FileType>, file_type: FileType) -> (keep: bool)
    ensures
        keep == (filter is None || filter == Some(file_type)),
{
    match filter {
        None => true,
        Some(wanted) => match (wanted, file_type) {
            (FileType::File, FileType::File) => true,
            (FileType::Dir, FileType::Dir) => true,
            (FileType::Symlink, FileType::Symlink) => true,
            _ => false,
        },
    }
}

/// Takes one more match and says whether the walk is over: it is once the
/// limit is reached, unless the matches are sorted at the end, for which all
/// of them are needed.
pub fn record_match(matches: &mut Vec<GlobMatch>, found: GlobMatch, config: &GlobConfig) -> (done:
    bool)
    ensures
        final(matches)@ == old(matches)@.push(found),
        done == (!config.sort_by_mtime && final(matches)@.len() >= config.max_results),
{
    matches.push(found);
    !config.sort_by_mtime && matches.len() >= config.max_results
}

/// The time by which a match is sorted: when it was last modified, or 0
/// where that is not known.
pub open spec fn mtime_of(found: GlobMatch) -> u64 {
    match found.mtime {
        Some(time) => time,
        None => 0,
    }
}

/// The first `n` of `all`, or all of them if they are fewer.
pub open spec fn first_of(all: Seq<GlobMatch>, n: int) -> Seq<GlobMatch> {
    if n < all.len() {
        all.take(n)
    } else {
        all
    }
}

/// Whether a search is over before it starts: it is where no result is
/// asked for.
pub fn nothing_wanted(config: &GlobConfig) -> (nothing: bool)
    ensures
        nothing == (config.max_results == 0),
{
    config.max_results == 0
}

/// Turns the matches found into the result.
///
/// With sorting, the newest matches come first, those of the same time in
/// the order in which they were found, and the limit is applied to the
/// sorted matches. Without, the matches stay as they were found. The count
/// is that of the matches handed back, held at the largest `u32`.
pub fn finish(matches: Vec<GlobMatch>, config: &GlobConfig) -> (result: GlobResult)
    ensures
        !config.sort_by_mtime ==> result.matches@ == matches@,
        config.sort_by_mtime ==> exists|sorted: Seq<GlobMatch>|
            is_newest_first(sorted, matches@) && result.matches@ == first_of(
                sorted,
                config.max_results as int,
            ),
        result.total_matches == if result.matches@.len() > u32::MAX {
            u32::MAX
        } else {
            result.matches@.len() as u32
        },
{
    let mut matches = matches;
    if config.sort_by_mtime {
        let ghost found = matches@;
        sort_newest_first(&mut matches);
        let ghost sorted = matches@;
        matches.truncate(config.max_results);
        assert(is_newest_first(sorted, found) && matches@ == first_of(
            sorted,
            config.max_results as int,
        ));
    }
    let total_matches: u32 = if matches.len() > u32::MAX as usize {
        u32::MAX
    } else {
        matches.len() as u32
    };
    GlobResult { matches, total_matches }
}

} // verus!
