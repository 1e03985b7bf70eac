//! Selecting, ordering and reading the files that make up a version.
use vstd::prelude::*;

use crate::error::{I18nVersionError, I18nVersionErrorView};
use crate::order::{
    PathKeyed, is_sorted_by_key, is_strictly_sorted_by_key, keys_distinct, lemma_sort_by_key,
    lemma_sort_contains, lemma_sort_sorted,
    lemma_sort_map, lemma_sort_strict, lemma_strictly_sorted_unique, sort_by_key, sort_by_path,
};
use crate::text::{
    decimal, forward_slashes, push_decimal, text_equal, text_lt, to_forward_slashes,
    trim_leading_slashes, without_leading_slashes,
};

verus! {

#[verifier::external_type_specification]
#[verifier::external_body]
pub struct ExPathBuf(std::path::PathBuf);


/// `<PathBuf as Clone>::clone`: a copy of the same path. The derived
/// `Clone` of [`FileRef`] calls it.
pub assume_specification[ <std::path::PathBuf as Clone>::clone ](p: &std::path::PathBuf) -> (r:
    std::path::PathBuf)
    ensures
        r == *p,
;

/// A file together with its contents, identified by its path relative to
/// the scanned root.
#[derive(Debug, Clone, PartialEq, Eq)]
pub struct FileEntry {
    pub relative_path: String,
    pub bytes: Vec<u8>,
}

impl View for FileEntry {
    type V = (Seq<char>, Seq<u8>);

    open spec fn view(&self) -> (Seq<char>, Seq<u8>) {
        (self.relative_path@, self.bytes@)
    }
}

/// A matched file located during discovery, before its contents are read.
#[derive(Debug, Clone, PartialEq, Eq)]
pub struct FileRef {
    pub relative_path: String,
    pub abs_path: std::path::PathBuf,
}

impl View for FileRef {
    type V = (Seq<char>, std::path::PathBuf);

    open spec fn view(&self) -> (Seq<char>, std::path::PathBuf) {
        (self.relative_path@, self.abs_path)
    }
}


impl PathKeyed for FileEntry {
    open spec fn path_key(&self) -> Seq<char> {
        self.relative_path@
    }

    fn path(&self) -> (p: &str) {
        self.relative_path.as_str()
    }
}

impl PathKeyed for FileRef {
    open spec fn path_key(&self) -> Seq<char> {
        self.relative_path@
    }

    fn path(&self) -> (p: &str) {
        self.relative_path.as_str()
    }
}

/// Names of directories that are never descended into: they hold no
/// message catalogues, and walking them (`node_modules` above all) is the
/// largest avoidable cost of a scan.
pub open spec fn is_pruned_name(name: Seq<char>) -> bool {
    name == "node_modules"@ || name == ".git"@
}

/// Whether the walk must skip an entry: a directory below the root (depth
/// greater than zero) whose name is one of the pruned names. Entries whose
/// name is not valid Unicode (`None`) are kept.
pub fn is_pruned_dir(depth: usize, is_dir: bool, file_name: Option<&str>) -> (pruned: bool)
    ensures
        pruned == (depth != 0 && is_dir && (file_name matches Some(n) && is_pruned_name(n@))),
{
    if depth == 0 || !is_dir {
        return false;
    }
    match file_name {
        Some(name) => text_equal(name, "node_modules") || text_equal(name, ".git"),
        None => false,
    }
}

/// Whether `c` separates path components on the platform the library is
/// built for (`std::path::is_separator`): fixed for one build, it differs
/// between Windows and other platforms.
pub uninterp spec fn is_path_separator(c: char) -> bool;

/// `std::path::is_separator`: whether `c` is a path separator of the
/// platform (`/`, and on Windows also `\\`).
#[verifier::external_body]
fn path_separator(c: char) -> (b: bool)
    ensures
        b == is_path_separator(c),
{
    std::path::is_separator(c)
}

/// Whether `path[s..e]` is a whole directory component of `path`: it starts
/// the path or follows a separator, holds no separator, and is followed by
/// one.
pub open spec fn is_dir_component(path: Seq<char>, s: int, e: int) -> bool {
    &&& 0 <= s <= e < path.len()
    &&& is_path_separator(path[e])
    &&& (s == 0 || is_path_separator(path[s - 1]))
    &&& forall|k: int| s <= k < e ==> !is_path_separator(#[trigger] path[k])
}

/// Whether the relative path `path`, as the walk reported it, lies below a
/// pruned directory: some directory component of it is a pruned name.
pub open spec fn in_pruned_dir(path: Seq<char>) -> bool {
    exists|s: int, e: int|
        is_dir_component(path, s, e) && #[trigger] is_pruned_name(path.subrange(s, e))
}

fn is_pruned_component(name: &str) -> (r: bool)
    ensures
        r == is_pruned_name(name@),
{
    text_equal(name, "node_modules") || text_equal(name, ".git")
}

/// Whether the relative path `path` lies below a pruned directory.
fn lies_in_pruned_dir(path: &str) -> (r: bool)
    ensures
        r == in_pruned_dir(path@),
{
    let n = path.unicode_len();
    let mut start: usize = 0;
    let mut i: usize = 0;
    while i < n
        invariant
            n == path@.len(),
            start <= i <= n,
            start == 0 || is_path_separator(path@[start - 1]),
            forall|j: int| start <= j < i ==> !is_path_separator(#[trigger] path@[j]),
            forall|s: int, e: int|
                e < i && is_dir_component(path@, s, e) ==> !#[trigger] is_pruned_name(
                    path@.subrange(s, e),
                ),
        decreases n - i,
    {
        if path_separator(path.get_char(i)) {
            let component = path.substring_char(start, i);
            if is_pruned_component(component) {
                assert(is_dir_component(path@, start as int, i as int));
                assert(is_pruned_name(path@.subrange(start as int, i as int)));
                return true;
            }
            assert forall|s: int, e: int|
                e < i + 1 && is_dir_component(path@, s, e) implies !#[trigger] is_pruned_name(
                path@.subrange(s, e),
            ) by {
                if e == i {
                    if s < start {
                        assert(is_path_separator(path@[start - 1]));
                    } else if s > start {
                        assert(!is_path_separator(path@[s - 1]));
                    }
                }
            }
            start = i + 1;
        }
        i = i + 1;
    }
    false
}

/// Whether discovery keeps a file the walk reported: its relative path, as
/// reported, does not lie below a pruned directory, and some pattern matches
/// it once backslashes are turned into forward slashes.
pub open spec fn selected(patterns: Seq<Seq<char>>, e: WalkEventView) -> bool {
    !in_pruned_dir(e->relative) && matches_any(patterns, forward_slashes(e->relative))
}

/// The syntax error that `glob::Pattern::new` reports for a pattern, as its
/// position and message, or `None` when the pattern compiles. What counts as
/// a separator inside `**` is that of the platform the library is built for.
pub uninterp spec fn glob_syntax_error(pattern: Seq<char>) -> Option<(usize, Seq<char>)>;

/// Whether the compiled glob `pattern` matches `path` (`glob::Pattern::matches`,
/// default options). What counts as a separator is that of the platform the
/// library is built for.
pub uninterp spec fn glob_match(pattern: Seq<char>, path: Seq<char>) -> bool;

/// The message with which `serde_json` rejects `bytes` as a JSON document, or
/// `None` when they parse.
pub uninterp spec fn json_rejection(bytes: Seq<u8>) -> Option<Seq<char>>;

/// `glob::Pattern::new`: whether the pattern compiles, and if not, the
/// position and message of its `PatternError`.
#[verifier::external_body]
fn glob_compile_check(pattern: &str) -> (r: Result<(), (usize, String)>)
    ensures
        r is Ok <==> glob_syntax_error(pattern@) is None,
        r matches Err(e) ==> glob_syntax_error(pattern@) == Some((e.0, e.1@)),
{
    match glob::Pattern::new(pattern) {
        Ok(_) => Ok(()),
        Err(e) => Err((e.pos, e.msg.to_string())),
    }
}

/// `glob::Pattern::matches` on the pattern compiled from `pattern`.
#[verifier::external_body]
fn glob_matches(pattern: &str, path: &str) -> (m: bool)
    requires
        glob_syntax_error(pattern@) is None,
    ensures
        m == glob_match(pattern@, path@),
{
    match glob::Pattern::new(pattern) {
        Ok(compiled) => compiled.matches(path),
        Err(_) => false,
    }
}

/// `serde_json::from_slice::<serde_json::Value>`: whether `bytes` parse as a
/// JSON document, and if not, the text of the error.
#[verifier::external_body]
fn json_parse_check(bytes: &[u8]) -> (r: Result<(), String>)
    ensures
        r is Ok <==> json_rejection(bytes@) is None,
        r matches Err(m) ==> json_rejection(bytes@) == Some(m@),
{
    match serde_json::from_slice::<serde_json::Value>(bytes) {
        Ok(_) => Ok(()),
        Err(e) => Err(e.to_string()),
    }
}

/// How `std::path::Path::display` writes a path as text.
pub uninterp spec fn path_display(path: std::path::PathBuf) -> Seq<char>;

/// `std::path::Path::display`, written to a `String`.
#[verifier::external_body]
fn display_path(path: &std::path::PathBuf) -> (s: String)
    ensures
        s@ == path_display(*path),
{
    path.display().to_string()
}

/// The text of a glob syntax error (the `Display` of `glob::PatternError`).
pub open spec fn glob_error_text(pos: usize, msg: Seq<char>) -> Seq<char> {
    "Pattern syntax error near position "@ + decimal(pos as nat) + ": "@ + msg
}

/// Index of the first pattern that does not compile, or the number of
/// patterns when all compile.
pub open spec fn first_invalid_pattern(patterns: Seq<Seq<char>>) -> int
    decreases patterns.len(),
{
    if patterns.len() == 0 {
        0
    } else if glob_syntax_error(patterns[0]) is Some {
        0
    } else {
        1 + first_invalid_pattern(patterns.drop_first())
    }
}

/// Whether some pattern matches `path`.
pub open spec fn matches_any(patterns: Seq<Seq<char>>, path: Seq<char>) -> bool {
    exists|i: int| 0 <= i < patterns.len() && glob_match(#[trigger] patterns[i], path)
}

/// What the walk of a directory tree reported, entry by entry.
pub enum WalkEvent {
    /// A regular file: its path relative to the root, as text, and its full path.
    File { relative: String, abs_path: std::path::PathBuf },
    /// The walk itself failed, with the text of the failure.
    WalkFailed { message: String },
    /// A file's full path could not be made relative to the root.
    Unrelated { abs_path: std::path::PathBuf, message: String },
}

/// The mathematical value of a [`WalkEvent`].
pub enum WalkEventView {
    File { relative: Seq<char>, abs_path: std::path::PathBuf },
    WalkFailed { message: Seq<char> },
    Unrelated { abs_path: std::path::PathBuf, message: Seq<char> },
}

impl View for WalkEvent {
    type V = WalkEventView;

    open spec fn view(&self) -> WalkEventView {
        match self {
            WalkEvent::File { relative, abs_path } => WalkEventView::File {
                relative: relative@,
                abs_path: *abs_path,
            },
            WalkEvent::WalkFailed { message } => WalkEventView::WalkFailed { message: message@ },
            WalkEvent::Unrelated { abs_path, message } => WalkEventView::Unrelated {
                abs_path: *abs_path,
                message: message@,
            },
        }
    }
}

/// The files that the walk reached and discovery selects (see
/// [`selected`]), in walk order, with relative paths written with forward
/// slashes; or the error of the first failed walk event.
pub open spec fn walk_outcome(
    root: Seq<char>,
    patterns: Seq<Seq<char>>,
    walk: Seq<WalkEventView>,
) -> Result<Seq<(Seq<char>, std::path::PathBuf)>, I18nVersionErrorView>
    decreases walk.len(),
{
    if walk.len() == 0 {
        Ok(Seq::empty())
    } else {
        match walk_outcome(root, patterns, walk.drop_last()) {
            Err(e) => Err(e),
            Ok(found) => match walk.last() {
                WalkEventView::File { relative, abs_path } => {
                    let rel = forward_slashes(relative);
                    if !in_pruned_dir(relative) && matches_any(patterns, rel) {
                        Ok(found.push((rel, abs_path)))
                    } else {
                        Ok(found)
                    }
                },
                WalkEventView::WalkFailed { message } => Err(
                    I18nVersionErrorView::ScanError { path: root, message },
                ),
                WalkEventView::Unrelated { abs_path, message } => Err(
                    I18nVersionErrorView::ReadError { path: path_display(abs_path), message },
                ),
            },
        }
    }
}

/// The result of discovery: a missing root, then the first pattern that does
/// not compile, then the first failure of the walk are errors; otherwise
/// the selected files sorted by relative path.
pub open spec fn discovered(
    root: Seq<char>,
    root_exists: bool,
    patterns: Seq<Seq<char>>,
    walk: Seq<WalkEventView>,
) -> Result<Seq<(Seq<char>, std::path::PathBuf)>, I18nVersionErrorView> {
    if !root_exists {
        Err(I18nVersionErrorView::RootNotFound(root))
    } else if first_invalid_pattern(patterns) < patterns.len() {
        let pattern = patterns[first_invalid_pattern(patterns)];
        let (pos, msg) = glob_syntax_error(pattern).unwrap();
        Err(I18nVersionErrorView::InvalidGlob { pattern, message: glob_error_text(pos, msg) })
    } else {
        match walk_outcome(root, patterns, walk) {
            Err(e) => Err(e),
            Ok(found) => Ok(
                sort_by_key(found, |f: (Seq<char>, std::path::PathBuf)| f.0),
            ),
        }
    }
}

/// The view of a list of patterns.
pub open spec fn patterns_view(patterns: Seq<String>) -> Seq<Seq<char>> {
    patterns.map_values(|p: String| p@)
}

/// The view of the outcome of a discovery.
pub open spec fn refs_result_view(r: Result<Vec<FileRef>, I18nVersionError>) -> Result<
    Seq<(Seq<char>, std::path::PathBuf)>,
    I18nVersionErrorView,
> {
    match r {
        Ok(v) => Ok(v@.map_values(|f: FileRef| f@)),
        Err(e) => Err(e@),
    }
}

fn check_patterns(patterns: &[String]) -> (r: Result<(), I18nVersionError>)
    ensures
        ({
            let ps = patterns_view(patterns@);
            if first_invalid_pattern(ps) < ps.len() {
                let pattern = ps[first_invalid_pattern(ps)];
                let (pos, msg) = glob_syntax_error(pattern).unwrap();
                r matches Err(e) && e@ == I18nVersionErrorView::InvalidGlob {
                    pattern,
                    message: glob_error_text(pos, msg),
                }
            } else {
                r is Ok
            }
        }),
{
    let ghost ps = patterns_view(patterns@);
    let mut i: usize = 0;
    assert(ps.skip(0) =~= ps);
    while i < patterns.len()
        invariant
            i <= patterns@.len(),
            ps == patterns_view(patterns@),
            first_invalid_pattern(ps) == i + first_invalid_pattern(ps.skip(i as int)),
            forall|j: int| 0 <= j < i ==> glob_syntax_error(#[trigger] ps[j]) is None,
        decreases patterns@.len() - i,
    {
        assert(ps.skip(i as int)[0] == ps[i as int]);
        match glob_compile_check(patterns[i].as_str()) {
            Ok(()) => {},
            Err((pos, msg)) => {
                let mut message = String::from_str("Pattern syntax error near position ");
                push_decimal(&mut message, pos);
                message.append(": ");
                message.append(msg.as_str());
                return Err(
                    I18nVersionError::InvalidGlob { pattern: patterns[i].clone(), message },
                );
            },
        }
        assert(ps.skip(i as int).drop_first() =~= ps.skip(i + 1));
        i = i + 1;
    }
    assert(ps.skip(i as int).len() == 0);
    Ok(())
}

fn matched_by_any(patterns: &[String], path: &str) -> (m: bool)
    requires
        forall|j: int| 0 <= j < patterns@.len() ==> glob_syntax_error(#[trigger] patterns@[j]@) is None,
    ensures
        m == matches_any(patterns_view(patterns@), path@),
{
    let ghost ps = patterns_view(patterns@);
    let mut i: usize = 0;
    while i < patterns.len()
        invariant
            i <= patterns@.len(),
            ps == patterns_view(patterns@),
            forall|j: int| 0 <= j < patterns@.len() ==> glob_syntax_error(#[trigger] patterns@[j]@) is None,
            forall|j: int| 0 <= j < i ==> !glob_match(#[trigger] ps[j], path@),
        decreases patterns@.len() - i,
    {
        if glob_matches(patterns[i].as_str(), path) {
            assert(glob_match(ps[i as int], path@));
            return true;
        }
        i = i + 1;
    }
    false
}

/// Selects and orders the files that a directory walk reached.
///
/// `root` is the root as displayed, `root_exists` whether it exists,
/// `walk` what the walk of the root reported, in walk order (up to and
/// including its first failure). A missing root is reported first, then
/// the first pattern that does not compile, then the first failure of the
/// walk; otherwise the files whose relative path (with backslashes turned
/// into forward slashes) some pattern matches and that do not lie below a
/// `node_modules` or `.git` directory, sorted by that path. (The walk may
/// skip those directories itself, see [`is_pruned_dir`]; files below them
/// are dropped here either way.)
pub fn discover(root: &str, root_exists: bool, patterns: &[String], walk: Vec<WalkEvent>) -> (r:
    Result<Vec<FileRef>, I18nVersionError>)
    ensures
        refs_result_view(r) == discovered(
            root@,
            root_exists,
            patterns_view(patterns@),
            walk@.map_values(|e: WalkEvent| e@),
        ),
{
    if !root_exists {
        return Err(I18nVersionError::RootNotFound(String::from_str(root)));
    }
    check_patterns(patterns)?;
    let ghost ps = patterns_view(patterns@);
    let ghost events = walk@.map_values(|e: WalkEvent| e@);
    assert(forall|j: int| 0 <= j < patterns@.len() ==> glob_syntax_error(#[trigger] patterns@[j]@) is None) by {
        assert forall|j: int| 0 <= j < patterns@.len() implies glob_syntax_error(#[trigger] patterns@[j]@) is None by {
            lemma_first_invalid_pattern(ps, j);
        }
    }
    let mut refs: Vec<FileRef> = Vec::new();
    assert(events.take(0) =~= Seq::<WalkEventView>::empty());
    assert(refs@.map_values(|f: FileRef| f@) =~= Seq::<(Seq<char>, std::path::PathBuf)>::empty());
    for event in it: walk.into_iter()
        invariant
            it.seq() == walk@,
            events == walk@.map_values(|e: WalkEvent| e@),
            ps == patterns_view(patterns@),
            root_exists,
            first_invalid_pattern(ps) >= ps.len(),
            forall|j: int| 0 <= j < patterns@.len() ==> glob_syntax_error(#[trigger] patterns@[j]@) is None,
            walk_outcome(root@, ps, events.take(it.index() as int)) == Ok::<
                Seq<(Seq<char>, std::path::PathBuf)>,
                I18nVersionErrorView,
            >(refs@.map_values(|f: FileRef| f@)),
    {
        proof {
            assert(events.take(it.index() + 1).drop_last() =~= events.take(it.index() as int));
            assert(events.take(it.index() + 1).last() == event@);
        }
        match event {
            WalkEvent::File { relative, abs_path } => {
                let rel = to_forward_slashes(relative.as_str());
                if !lies_in_pruned_dir(relative.as_str()) && matched_by_any(patterns, rel.as_str()) {
                    let ghost before = refs@;
                    refs.push(FileRef { relative_path: rel, abs_path });
                    proof {
                        assert(refs@.map_values(|f: FileRef| f@) =~= before.map_values(|f: FileRef| f@).push(refs@.last()@));
                    }
                }
            },
            WalkEvent::WalkFailed { message } => {
                proof {
                    lemma_walk_failure_persists(root@, ps, events, it.index() + 1);
                }
                return Err(I18nVersionError::ScanError { path: String::from_str(root), message });
            },
            WalkEvent::Unrelated { abs_path, message } => {
                proof {
                    lemma_walk_failure_persists(root@, ps, events, it.index() + 1);
                }
                let path = display_path(&abs_path);
                return Err(I18nVersionError::ReadError { path, message });
            },
        }
    }
    proof {
        assert(events.take(events.len() as int) =~= events);
        lemma_sort_map(
            refs@,
            |t: FileRef| t.path_key(),
            |f: FileRef| f@,
            |f: (Seq<char>, std::path::PathBuf)| f.0,
        );
    }
    Ok(sort_by_path(refs))
}

proof fn lemma_first_invalid_pattern(ps: Seq<Seq<char>>, j: int)
    requires
        0 <= j < ps.len(),
        first_invalid_pattern(ps) >= ps.len(),
    ensures
        glob_syntax_error(ps[j]) is None,
    decreases ps.len(),
{
    if j > 0 {
        assert(ps.drop_first()[j - 1] == ps[j]);
        lemma_first_invalid_pattern(ps.drop_first(), j - 1);
    }
}

/// Once a prefix of the walk has failed, the whole walk fails the same way.
proof fn lemma_walk_failure_persists(
    root: Seq<char>,
    patterns: Seq<Seq<char>>,
    walk: Seq<WalkEventView>,
    k: int,
)
    requires
        0 <= k <= walk.len(),
        walk_outcome(root, patterns, walk.take(k)) is Err,
    ensures
        walk_outcome(root, patterns, walk) == walk_outcome(root, patterns, walk.take(k)),
    decreases walk.len() - k,
{
    if k < walk.len() {
        assert(walk.take(k + 1).drop_last() =~= walk.take(k));
        lemma_walk_failure_persists(root, patterns, walk, k + 1);
    } else {
        assert(walk.take(k) =~= walk);
    }
}


/// The path, with forward slashes, and the full path of a file the walk
/// reported.
pub open spec fn reported_file(e: WalkEventView) -> (Seq<char>, std::path::PathBuf)
    recommends
        e is File,
{
    (forward_slashes(e->relative), e->File_abs_path)
}

/// Every event of the walk is a file.
pub open spec fn only_files(walk: Seq<WalkEventView>) -> bool {
    forall|i: int| 0 <= i < walk.len() ==> #[trigger] walk[i] is File
}

/// No two files of the walk have the same path once backslashes are turned
/// into forward slashes.
pub open spec fn reported_paths_distinct(walk: Seq<WalkEventView>) -> bool {
    forall|i: int, j: int|
        0 <= i < walk.len() && 0 <= j < walk.len() && i != j ==> (#[trigger] reported_file(walk[i])).0
            != (#[trigger] reported_file(walk[j])).0
}

/// Whether the walk reports a selected file whose relative path, with
/// forward slashes, is `path`.
pub open spec fn selects_path(patterns: Seq<Seq<char>>, walk: Seq<WalkEventView>, path: Seq<char>) -> bool {
    exists|i: int|
        0 <= i < walk.len() && (#[trigger] reported_file(walk[i])).0 == path && selected(
            patterns,
            walk[i],
        )
}

/// What a walk that succeeded found: exactly the reported files that are
/// selected, each once when the reported paths are distinct.
pub(crate) proof fn lemma_walk_found(root: Seq<char>, patterns: Seq<Seq<char>>, walk: Seq<WalkEventView>)
    requires
        walk_outcome(root, patterns, walk) is Ok,
    ensures
        only_files(walk),
        forall|x: (Seq<char>, std::path::PathBuf)|
            (#[trigger] walk_outcome(root, patterns, walk)->Ok_0.contains(x)) <==> (exists|i: int|
                0 <= i < walk.len() && #[trigger] reported_file(walk[i]) == x && selected(
                    patterns,
                    walk[i],
                )),
        reported_paths_distinct(walk) ==> keys_distinct(
            walk_outcome(root, patterns, walk)->Ok_0,
            |f: (Seq<char>, std::path::PathBuf)| f.0,
        ),
    decreases walk.len(),
{
    if walk.len() > 0 {
        let prev = walk.drop_last();
        let last = walk.last();
        lemma_walk_found(root, patterns, prev);
        let before = walk_outcome(root, patterns, prev)->Ok_0;
        let found = walk_outcome(root, patterns, walk)->Ok_0;
        assert(last is File);
        assert forall|i: int| 0 <= i < walk.len() implies #[trigger] walk[i] is File by {
            if i < walk.len() - 1 {
                assert(prev[i] == walk[i]);
            }
        }
        assert forall|x: (Seq<char>, std::path::PathBuf)|
            (#[trigger] found.contains(x)) <==> (exists|i: int|
                0 <= i < walk.len() && #[trigger] reported_file(walk[i]) == x && selected(
                    patterns,
                    walk[i],
                )) by {
            if found.contains(x) {
                if before.contains(x) {
                    let i = choose|i: int|
                        0 <= i < prev.len() && #[trigger] reported_file(prev[i]) == x && selected(
                            patterns,
                            prev[i],
                        );
                    assert(prev[i] == walk[i]);
                } else {
                    let k = choose|k: int| 0 <= k < found.len() && found[k] == x;
                    assert(k == before.len());
                    assert(reported_file(walk[walk.len() - 1]) == x);
                    assert(selected(patterns, walk[walk.len() - 1]));
                }
            }
            if exists|i: int|
                0 <= i < walk.len() && #[trigger] reported_file(walk[i]) == x && selected(
                    patterns,
                    walk[i],
                ) {
                let i = choose|i: int|
                    0 <= i < walk.len() && #[trigger] reported_file(walk[i]) == x && selected(
                        patterns,
                        walk[i],
                    );
                if i < walk.len() - 1 {
                    assert(prev[i] == walk[i]);
                    assert(reported_file(prev[i]) == x);
                    assert(before.contains(x));
                    let k = choose|k: int| 0 <= k < before.len() && before[k] == x;
                    assert(found[k] == x);
                } else {
                    assert(found[found.len() - 1] == x);
                }
            }
        }
        if reported_paths_distinct(walk) {
            assert(reported_paths_distinct(prev)) by {
                assert forall|i: int, j: int|
                    0 <= i < prev.len() && 0 <= j < prev.len() && i != j implies (
                    #[trigger] reported_file(prev[i])).0 != (#[trigger] reported_file(prev[j])).0 by {
                    assert(prev[i] == walk[i] && prev[j] == walk[j]);
                }
            }
            let key = |f: (Seq<char>, std::path::PathBuf)| f.0;
            if found.len() > before.len() {
                let y = reported_file(last);
                assert forall|k: int| 0 <= k < before.len() implies #[trigger] key(before[k])
                    != key(y) by {
                    assert(before.contains(before[k]));
                    let i = choose|i: int|
                        0 <= i < prev.len() && #[trigger] reported_file(prev[i]) == before[k]
                            && selected(patterns, prev[i]);
                    assert(prev[i] == walk[i]);
                    assert(reported_file(walk[i]).0 != reported_file(walk[walk.len() - 1]).0);
                }
                assert forall|i: int, j: int|
                    0 <= i < found.len() && 0 <= j < found.len() && i != j implies #[trigger] key(
                    found[i]) != #[trigger] key(found[j]) by {
                    if i < before.len() && j < before.len() {
                        assert(found[i] == before[i] && found[j] == before[j]);
                    } else if i < before.len() {
                        assert(found[i] == before[i] && found[j] == y);
                    } else {
                        assert(found[j] == before[j] && found[i] == y);
                    }
                }
            }
        }
    }
}

/// Which files are discovered does not depend on the order in which the
/// walk reports them, nor on files that discovery does not select: two
/// walks that report the same selected files, each path once, discover the
/// same list, in the same (path) order. This is what makes a version
/// identical across file systems that list directories differently.
pub proof fn lemma_discovery_order_independent(
    root: Seq<char>,
    root_exists: bool,
    patterns: Seq<Seq<char>>,
    walk1: Seq<WalkEventView>,
    walk2: Seq<WalkEventView>,
)
    requires
        only_files(walk1),
        only_files(walk2),
        reported_paths_distinct(walk1),
        reported_paths_distinct(walk2),
        forall|e: WalkEventView|
            #[trigger] selected(patterns, e) ==> (walk1.contains(e) <==> walk2.contains(e)),
    ensures
        discovered(root, root_exists, patterns, walk1) == discovered(
            root,
            root_exists,
            patterns,
            walk2,
        ),
{
    lemma_only_files_found(root, patterns, walk1);
    lemma_only_files_found(root, patterns, walk2);
    let key = |f: (Seq<char>, std::path::PathBuf)| f.0;
    let f1 = walk_outcome(root, patterns, walk1)->Ok_0;
    let f2 = walk_outcome(root, patterns, walk2)->Ok_0;
    lemma_walk_found(root, patterns, walk1);
    lemma_walk_found(root, patterns, walk2);
    assert forall|x: (Seq<char>, std::path::PathBuf)| f1.contains(x) <==> f2.contains(x) by {
        if exists|i: int| 0 <= i < walk1.len() && #[trigger] reported_file(walk1[i]) == x && selected(patterns, walk1[i]) {
            let i = choose|i: int| 0 <= i < walk1.len() && #[trigger] reported_file(walk1[i]) == x && selected(patterns, walk1[i]);
            assert(walk1.contains(walk1[i]));
            let j = choose|j: int| 0 <= j < walk2.len() && walk2[j] == walk1[i];
            assert(reported_file(walk2[j]) == x);
        }
        if exists|i: int| 0 <= i < walk2.len() && #[trigger] reported_file(walk2[i]) == x && selected(patterns, walk2[i]) {
            let i = choose|i: int| 0 <= i < walk2.len() && #[trigger] reported_file(walk2[i]) == x && selected(patterns, walk2[i]);
            assert(walk2.contains(walk2[i]));
            let j = choose|j: int| 0 <= j < walk1.len() && walk1[j] == walk2[i];
            assert(reported_file(walk1[j]) == x);
        }
    }
    lemma_sort_strict(f1, key);
    lemma_sort_strict(f2, key);
    lemma_sort_contains(f1, key);
    lemma_sort_contains(f2, key);
    let s1 = sort_by_key(f1, key);
    let s2 = sort_by_key(f2, key);
    assert forall|x: (Seq<char>, std::path::PathBuf)| s1.contains(x) <==> s2.contains(x) by {
        assert(s1.contains(x) <==> f1.contains(x));
        assert(s2.contains(x) <==> f2.contains(x));
    }
    lemma_strictly_sorted_unique(s1, s2, key);
}

/// A walk that reports only files succeeds.
pub(crate) proof fn lemma_only_files_found(root: Seq<char>, patterns: Seq<Seq<char>>, walk: Seq<WalkEventView>)
    requires
        only_files(walk),
    ensures
        walk_outcome(root, patterns, walk) is Ok,
    decreases walk.len(),
{
    if walk.len() > 0 {
        let prev = walk.drop_last();
        assert(only_files(prev)) by {
            assert forall|i: int| 0 <= i < prev.len() implies #[trigger] prev[i] is File by {
                assert(prev[i] == walk[i]);
            }
        }
        lemma_only_files_found(root, patterns, prev);
        assert(walk[walk.len() - 1] is File);
    }
}

/// What discovery returns: the files the walk reported that some pattern
/// matches and that do not lie below a pruned directory, each once, with
/// strictly increasing paths; and nothing else.
pub proof fn lemma_discovered_files(
    root: Seq<char>,
    root_exists: bool,
    patterns: Seq<Seq<char>>,
    walk: Seq<WalkEventView>,
)
    requires
        discovered(root, root_exists, patterns, walk) is Ok,
        reported_paths_distinct(walk),
    ensures
        only_files(walk),
        ({
            let files = discovered(root, root_exists, patterns, walk)->Ok_0;
            &&& is_strictly_sorted_by_key(files, |f: (Seq<char>, std::path::PathBuf)| f.0)
            &&& forall|x: (Seq<char>, std::path::PathBuf)|
                #![trigger files.contains(x)]
                files.contains(x) <==> (exists|i: int|
                    0 <= i < walk.len() && #[trigger] reported_file(walk[i]) == x && selected(
                        patterns,
                        walk[i],
                    ))
        }),
{
    let key = |f: (Seq<char>, std::path::PathBuf)| f.0;
    lemma_walk_found(root, patterns, walk);
    let found = walk_outcome(root, patterns, walk)->Ok_0;
    lemma_sort_strict(found, key);
    lemma_sort_contains(found, key);
    let files = sort_by_key(found, key);
    assert(discovered(root, root_exists, patterns, walk)->Ok_0 == files);
    assert forall|x: (Seq<char>, std::path::PathBuf)| files.contains(x) <==> (exists|i: int|
        0 <= i < walk.len() && #[trigger] reported_file(walk[i]) == x && selected(
            patterns,
            walk[i],
        )) by {
        assert(files.contains(x) <==> found.contains(x));
    }
}

/// A walk's outcome depends on the patterns only through which paths they
/// match.
proof fn lemma_walk_outcome_same_matches(
    root: Seq<char>,
    ps1: Seq<Seq<char>>,
    ps2: Seq<Seq<char>>,
    walk: Seq<WalkEventView>,
)
    requires
        forall|path: Seq<char>| matches_any(ps1, path) == matches_any(ps2, path),
    ensures
        walk_outcome(root, ps1, walk) == walk_outcome(root, ps2, walk),
    decreases walk.len(),
{
    if walk.len() > 0 {
        lemma_walk_outcome_same_matches(root, ps1, ps2, walk.drop_last());
    }
}

/// Discovery depends on the patterns as a set. Every file discovered with
/// patterns `ps1` is discovered with patterns `ps2` that include all of
/// them; and patterns holding the same strings (reordered or repeated)
/// discover the same list.
pub proof fn lemma_discovery_pattern_set(
    root: Seq<char>,
    root_exists: bool,
    ps1: Seq<Seq<char>>,
    ps2: Seq<Seq<char>>,
    walk: Seq<WalkEventView>,
)
    requires
        discovered(root, root_exists, ps1, walk) is Ok,
        discovered(root, root_exists, ps2, walk) is Ok,
        forall|p: Seq<char>| ps1.contains(p) ==> ps2.contains(p),
    ensures
        forall|x: (Seq<char>, std::path::PathBuf)|
            discovered(root, root_exists, ps1, walk)->Ok_0.contains(x) ==> discovered(
                root,
                root_exists,
                ps2,
                walk,
            )->Ok_0.contains(x),
        (forall|p: Seq<char>| ps2.contains(p) ==> ps1.contains(p)) ==> discovered(
            root,
            root_exists,
            ps1,
            walk,
        ) == discovered(root, root_exists, ps2, walk),
{
    let key = |f: (Seq<char>, std::path::PathBuf)| f.0;
    assert forall|path: Seq<char>| matches_any(ps1, path) implies matches_any(ps2, path) by {
        let i = choose|i: int| 0 <= i < ps1.len() && glob_match(#[trigger] ps1[i], path);
        assert(ps1.contains(ps1[i]));
        let j = choose|j: int| 0 <= j < ps2.len() && ps2[j] == ps1[i];
        assert(glob_match(ps2[j], path));
    }
    lemma_walk_found(root, ps1, walk);
    lemma_walk_found(root, ps2, walk);
    let f1 = walk_outcome(root, ps1, walk)->Ok_0;
    let f2 = walk_outcome(root, ps2, walk)->Ok_0;
    lemma_sort_contains(f1, key);
    lemma_sort_contains(f2, key);
    assert forall|x: (Seq<char>, std::path::PathBuf)|
        discovered(root, root_exists, ps1, walk)->Ok_0.contains(x) implies discovered(
        root,
        root_exists,
        ps2,
        walk,
    )->Ok_0.contains(x) by {
        assert(sort_by_key(f1, key).contains(x) ==> f1.contains(x));
        assert(f1.contains(x) ==> f2.contains(x));
    }
    if forall|p: Seq<char>| ps2.contains(p) ==> ps1.contains(p) {
        assert forall|path: Seq<char>| matches_any(ps2, path) implies matches_any(ps1, path) by {
            let i = choose|i: int| 0 <= i < ps2.len() && glob_match(#[trigger] ps2[i], path);
            assert(ps2.contains(ps2[i]));
            let j = choose|j: int| 0 <= j < ps1.len() && ps1[j] == ps2[i];
            assert(glob_match(ps1[j], path));
        }
        lemma_walk_outcome_same_matches(root, ps1, ps2, walk);
    }
}

/// The view of the outcome of reading a file's bytes, or of the error that
/// took their place.
pub open spec fn read_view(r: Result<Vec<u8>, I18nVersionError>) -> Result<Seq<u8>, I18nVersionErrorView> {
    match r {
        Ok(b) => Ok(b@),
        Err(e) => Err(e@),
    }
}

/// The view of what the file system gave for a read: the bytes, or the text
/// of the failure.
pub open spec fn raw_read_view(r: Result<Vec<u8>, String>) -> Result<Seq<u8>, Seq<char>> {
    match r {
        Ok(b) => Ok(b@),
        Err(m) => Err(m@),
    }
}

/// The view of a list of entries, or of the error in its place.
pub open spec fn entries_result_view(r: Result<Vec<FileEntry>, I18nVersionError>) -> Result<
    Seq<(Seq<char>, Seq<u8>)>,
    I18nVersionErrorView,
> {
    match r {
        Ok(v) => Ok(v@.map_values(|e: FileEntry| e@)),
        Err(e) => Err(e@),
    }
}

/// `bytes` if they hold a JSON document, otherwise the error that names the
/// file at `path` and carries the parser's message.
pub open spec fn json_checked(path: Seq<char>, bytes: Seq<u8>) -> Result<Seq<u8>, I18nVersionErrorView> {
    match json_rejection(bytes) {
        None => Ok(bytes),
        Some(message) => Err(I18nVersionErrorView::InvalidJson { path, message }),
    }
}

/// The contents of the file at `abs` (relative path `relative`) given what
/// reading it gave: a failed read is the error that names the full path;
/// contents that are not JSON are the error that names the relative path.
pub open spec fn validated(
    abs: std::path::PathBuf,
    relative: Seq<char>,
    read: Result<Seq<u8>, Seq<char>>,
) -> Result<Seq<u8>, I18nVersionErrorView> {
    match read {
        Err(message) => Err(I18nVersionErrorView::ReadError { path: path_display(abs), message }),
        Ok(bytes) => json_checked(relative, bytes),
    }
}

/// Checks that `bytes`, the contents of the file at `relative_path`, hold a
/// JSON document, and hands them back if so.
fn check_json(relative_path: &str, bytes: Vec<u8>) -> (r: Result<Vec<u8>, I18nVersionError>)
    ensures
        read_view(r) == json_checked(relative_path@, bytes@),
{
    match json_parse_check(bytes.as_slice()) {
        Ok(()) => Ok(bytes),
        Err(message) => Err(
            I18nVersionError::InvalidJson { path: String::from_str(relative_path), message },
        ),
    }
}

/// Validates one matched file from what reading it gave (`read`: its bytes,
/// or the text of the read failure). A failed read is an error naming the
/// full path `abs`; contents that are not a JSON document are an error
/// naming the relative path `rel`; otherwise the bytes are handed back.
pub fn read_and_validate(abs: &std::path::PathBuf, rel: &str, read: Result<Vec<u8>, String>) -> (r:
    Result<Vec<u8>, I18nVersionError>)
    ensures
        read_view(r) == validated(*abs, rel@, raw_read_view(read)),
{
    match read {
        Err(message) => Err(I18nVersionError::ReadError { path: display_path(abs), message }),
        Ok(bytes) => check_json(rel, bytes),
    }
}

/// The entries made of the first `n` discovered files and what reading each
/// gave: the first file that fails validation is the error, in order.
pub open spec fn scanned(
    files: Seq<((Seq<char>, std::path::PathBuf), Result<Seq<u8>, Seq<char>>)>,
    n: int,
) -> Result<Seq<(Seq<char>, Seq<u8>)>, I18nVersionErrorView>
    decreases n,
{
    if n <= 0 {
        Ok(Seq::empty())
    } else {
        match scanned(files, n - 1) {
            Err(e) => Err(e),
            Ok(entries) => {
                let path = files[n - 1].0.0;
                match validated(files[n - 1].0.1, path, files[n - 1].1) {
                    Err(e) => Err(e),
                    Ok(b) => Ok(entries.push((path, b))),
                }
            },
        }
    }
}

/// The view of discovered files paired with what reading them gave.
pub open spec fn reads_view(files: Seq<(FileRef, Result<Vec<u8>, String>)>) -> Seq<
    ((Seq<char>, std::path::PathBuf), Result<Seq<u8>, Seq<char>>),
> {
    files.map_values(|f: (FileRef, Result<Vec<u8>, String>)| (f.0@, raw_read_view(f.1)))
}

/// Once the first `k` files fail, every longer prefix fails the same way.
pub(crate) proof fn lemma_scanned_failure_persists(
    files: Seq<((Seq<char>, std::path::PathBuf), Result<Seq<u8>, Seq<char>>)>,
    k: int,
    n: int,
)
    requires
        0 <= k <= n,
        scanned(files, k) is Err,
    ensures
        scanned(files, n) == scanned(files, k),
    decreases n - k,
{
    if k < n {
        lemma_scanned_failure_persists(files, k, n - 1);
    }
}

/// Reads every discovered file into memory, in the order given: `files`
/// pairs each file with what reading it gave (its bytes, or the text of the
/// read failure). The first file that fails validation (see
/// [`read_and_validate`]) is the error.
pub fn scan(files: Vec<(FileRef, Result<Vec<u8>, String>)>) -> (r: Result<
    Vec<FileEntry>,
    I18nVersionError,
>)
    ensures
        entries_result_view(r) == scanned(reads_view(files@), files@.len() as int),
{
    let ghost input = reads_view(files@);
    let ghost n = files@.len() as int;
    let mut entries: Vec<FileEntry> = Vec::new();
    assert(entries@.map_values(|e: FileEntry| e@) =~= Seq::<(Seq<char>, Seq<u8>)>::empty());
    for file in it: files.into_iter()
        invariant
            it.seq() == files@,
            input == reads_view(files@),
            n == files@.len(),
            scanned(input, it.index() as int) == Ok::<
                Seq<(Seq<char>, Seq<u8>)>,
                I18nVersionErrorView,
            >(entries@.map_values(|e: FileEntry| e@)),
    {
        let ghost k = it.index() as int;
        let (file_ref, read) = file;
        assert(input[k] == (file_ref@, raw_read_view(read)));
        match read_and_validate(&file_ref.abs_path, file_ref.relative_path.as_str(), read) {
            Err(e) => {
                proof {
                    lemma_scanned_failure_persists(input, k + 1, n);
                }
                return Err(e);
            },
            Ok(bytes) => {
                let ghost before = entries@;
                entries.push(FileEntry { relative_path: file_ref.relative_path, bytes });
                assert(entries@.map_values(|e: FileEntry| e@) =~= before.map_values(
                    |e: FileEntry| e@,
                ).push(entries@.last()@));
            },
        }
    }
    Ok(entries)
}

/// The alias under which the files of a root are listed when several roots
/// are joined: the root's path as text with forward slashes. A single root
/// lists its files under no alias.
pub open spec fn root_alias(root: Seq<char>, several: bool) -> Seq<char> {
    if several {
        forward_slashes(root)
    } else {
        Seq::empty()
    }
}

/// A relative path listed under a root alias: unchanged for an empty alias,
/// otherwise the alias without leading slashes, a slash, then the path.
pub open spec fn under_alias(alias: Seq<char>, path: Seq<char>) -> Seq<char> {
    if alias.len() == 0 {
        path
    } else {
        trim_leading_slashes(alias) + seq!['/'] + path
    }
}

/// The entries of the first `n` roots, each listed under its root's alias
/// (no alias when there is only one root), in root order; or the first
/// root's error.
pub open spec fn gathered(
    roots: Seq<(Seq<char>, Result<Seq<(Seq<char>, Seq<u8>)>, I18nVersionErrorView>)>,
    n: int,
) -> Result<Seq<(Seq<char>, Seq<u8>)>, I18nVersionErrorView>
    decreases n,
{
    if n <= 0 {
        Ok(Seq::empty())
    } else {
        match gathered(roots, n - 1) {
            Err(e) => Err(e),
            Ok(all) => match roots[n - 1].1 {
                Err(e) => Err(e),
                Ok(entries) => {
                    let alias = root_alias(roots[n - 1].0, roots.len() > 1);
                    Ok(
                        all + entries.map_values(
                            |e: (Seq<char>, Seq<u8>)| (under_alias(alias, e.0), e.1),
                        ),
                    )
                },
            },
        }
    }
}

/// The result of scanning several roots: the first root's error, or all
/// entries under their roots' aliases, sorted by path.
pub open spec fn scanned_many(
    roots: Seq<(Seq<char>, Result<Seq<(Seq<char>, Seq<u8>)>, I18nVersionErrorView>)>,
) -> Result<Seq<(Seq<char>, Seq<u8>)>, I18nVersionErrorView> {
    match gathered(roots, roots.len() as int) {
        Err(e) => Err(e),
        Ok(all) => Ok(sort_by_key(all, |e: (Seq<char>, Seq<u8>)| e.0)),
    }
}

/// The view of the per-root scan outcomes.
pub open spec fn roots_view(roots: Seq<(String, Result<Vec<FileEntry>, I18nVersionError>)>) -> Seq<
    (Seq<char>, Result<Seq<(Seq<char>, Seq<u8>)>, I18nVersionErrorView>),
> {
    roots.map_values(
        |r: (String, Result<Vec<FileEntry>, I18nVersionError>)| (r.0@, entries_result_view(r.1)),
    )
}

proof fn lemma_gathered_failure_persists(
    roots: Seq<(Seq<char>, Result<Seq<(Seq<char>, Seq<u8>)>, I18nVersionErrorView>)>,
    k: int,
    n: int,
)
    requires
        0 <= k <= n,
        gathered(roots, k) is Err,
    ensures
        gathered(roots, n) == gathered(roots, k),
    decreases n - k,
{
    if k < n {
        lemma_gathered_failure_persists(roots, k, n - 1);
    }
}

/// Joins the scans of several roots. `roots` pairs each root's path, as
/// text, with the outcome of scanning it, in root order. The first failed
/// root is the error; otherwise all entries, sorted by path. A single root's
/// entries keep their relative paths; when several roots are joined, each
/// entry's path is put under its root's alias (see [`root_alias`] and
/// [`under_alias`]).
pub fn scan_many(roots: Vec<(String, Result<Vec<FileEntry>, I18nVersionError>)>) -> (r: Result<
    Vec<FileEntry>,
    I18nVersionError,
>)
    ensures
        entries_result_view(r) == scanned_many(roots_view(roots@)),
{
    let ghost input = roots_view(roots@);
    let ghost n = roots@.len() as int;
    let several = roots.len() > 1;
    let mut all: Vec<FileEntry> = Vec::new();
    assert(all@.map_values(|e: FileEntry| e@) =~= Seq::<(Seq<char>, Seq<u8>)>::empty());
    for root in it: roots.into_iter()
        invariant
            it.seq() == roots@,
            input == roots_view(roots@),
            n == roots@.len(),
            several == (n > 1),
            gathered(input, it.index() as int) == Ok::<
                Seq<(Seq<char>, Seq<u8>)>,
                I18nVersionErrorView,
            >(all@.map_values(|e: FileEntry| e@)),
    {
        let ghost k = it.index() as int;
        let (root_text, outcome) = root;
        assert(input[k] == (root_text@, entries_result_view(outcome)));
        match outcome {
            Err(e) => {
                proof {
                    lemma_gathered_failure_persists(input, k + 1, n);
                }
                return Err(e);
            },
            Ok(entries) => {
                let alias = if several {
                    to_forward_slashes(root_text.as_str())
                } else {
                    String::new()
                };
                let trimmed = without_leading_slashes(alias.as_str());
                let ghost before = all@.map_values(|e: FileEntry| e@);
                let ghost src = entries@.map_values(|e: FileEntry| e@);
                let ghost f = |e: (Seq<char>, Seq<u8>)| (under_alias(alias@, e.0), e.1);
                for entry in jt: entries.into_iter()
                    invariant
                        jt.seq() == entries@,
                        src == entries@.map_values(|e: FileEntry| e@),
                        alias@ == root_alias(root_text@, several),
                        trimmed@ == trim_leading_slashes(alias@),
                        f == (|e: (Seq<char>, Seq<u8>)| (under_alias(alias@, e.0), e.1)),
                        all@.map_values(|e: FileEntry| e@) == before + src.take(
                            jt.index() as int,
                        ).map_values(f),
                {
                    let ghost j = jt.index() as int;
                    let ghost prev = all@;
                    let relative_path = if alias.as_str().is_empty() {
                        entry.relative_path
                    } else {
                        let mut p = String::from_str(trimmed.as_str());
                        p.append("/");
                        p.append(entry.relative_path.as_str());
                        p
                    };
                    proof {
                        reveal_strlit("/");
                    }
                    assert(relative_path@ == under_alias(alias@, src[j].0));
                    all.push(FileEntry { relative_path, bytes: entry.bytes });
                    assert(src.take(j + 1).map_values(f) =~= src.take(j).map_values(f).push(
                        f(src[j]),
                    ));
                    assert(all@.map_values(|e: FileEntry| e@) =~= prev.map_values(
                        |e: FileEntry| e@,
                    ).push(all@.last()@));
                }
                assert(src.take(src.len() as int) =~= src);
            },
        }
    }
    proof {
        lemma_sort_map(
            all@,
            |t: FileEntry| t.path_key(),
            |e: FileEntry| e@,
            |e: (Seq<char>, Seq<u8>)| e.0,
        );
    }
    Ok(sort_by_path(all))
}


/// An entry as listed under its root (see [`root_alias`]): its path under
/// the root's alias, and its bytes.
pub open spec fn listed_entry(root: Seq<char>, several: bool, e: (Seq<char>, Seq<u8>)) -> (
    Seq<char>,
    Seq<u8>,
) {
    (under_alias(root_alias(root, several), e.0), e.1)
}

/// When the first `n` roots were scanned without error, joining them gives
/// exactly their entries, each listed under its root.
proof fn lemma_gathered_contents(
    roots: Seq<(Seq<char>, Result<Seq<(Seq<char>, Seq<u8>)>, I18nVersionErrorView>)>,
    n: int,
    several: bool,
)
    requires
        0 <= n <= roots.len(),
        several == (roots.len() > 1),
        forall|k: int| 0 <= k < n ==> (#[trigger] roots[k]).1 is Ok,
    ensures
        gathered(roots, n) is Ok,
        forall|x: (Seq<char>, Seq<u8>)|
            #![trigger gathered(roots, n)->Ok_0.contains(x)]
            gathered(roots, n)->Ok_0.contains(x) <==> exists|i: int, j: int|
                0 <= i < n && 0 <= j < roots[i].1->Ok_0.len() && x == #[trigger] listed_entry(
                    roots[i].0,
                    several,
                    roots[i].1->Ok_0[j],
                ),
    decreases n,
{
    if n > 0 {
        lemma_gathered_contents(roots, n - 1, several);
        let before = gathered(roots, n - 1)->Ok_0;
        let r = roots[n - 1];
        let es = r.1->Ok_0;
        let added = es.map_values(
            |e: (Seq<char>, Seq<u8>)| (under_alias(root_alias(r.0, several), e.0), e.1),
        );
        let all = gathered(roots, n)->Ok_0;
        assert(all == before + added);
        assert forall|x: (Seq<char>, Seq<u8>)| all.contains(x) <==> exists|i: int, j: int|
            0 <= i < n && 0 <= j < roots[i].1->Ok_0.len() && x == #[trigger] listed_entry(
                roots[i].0,
                several,
                roots[i].1->Ok_0[j],
            ) by {
            if all.contains(x) {
                let k = choose|k: int| 0 <= k < all.len() && all[k] == x;
                if k < before.len() {
                    assert(before[k] == all[k]);
                    assert(before.contains(x));
                } else {
                    assert(added[k - before.len()] == x);
                    assert(x == listed_entry(roots[n - 1].0, several, roots[n - 1].1->Ok_0[k
                        - before.len()]));
                }
            }
            if exists|i: int, j: int|
                0 <= i < n && 0 <= j < roots[i].1->Ok_0.len() && x == #[trigger] listed_entry(
                    roots[i].0,
                    several,
                    roots[i].1->Ok_0[j],
                ) {
                let (i, j) = choose|i: int, j: int|
                    0 <= i < n && 0 <= j < roots[i].1->Ok_0.len() && x == #[trigger] listed_entry(
                        roots[i].0,
                        several,
                        roots[i].1->Ok_0[j],
                    );
                if i < n - 1 {
                    assert(before.contains(x));
                    let k = choose|k: int| 0 <= k < before.len() && before[k] == x;
                    assert(all[k] == x);
                } else {
                    assert(added[j] == x);
                    assert(all[before.len() + j] == x);
                }
            }
        }
    }
}

/// The order in which roots are given does not matter: two lists holding
/// the same roots (as many in each), each scanned without error, whose
/// listed paths are all distinct, join to the same sorted entries.
pub proof fn lemma_scan_many_root_order(
    roots1: Seq<(Seq<char>, Result<Seq<(Seq<char>, Seq<u8>)>, I18nVersionErrorView>)>,
    roots2: Seq<(Seq<char>, Result<Seq<(Seq<char>, Seq<u8>)>, I18nVersionErrorView>)>,
)
    requires
        roots1.len() == roots2.len(),
        forall|r| roots1.contains(r) <==> roots2.contains(r),
        forall|k: int| 0 <= k < roots1.len() ==> (#[trigger] roots1[k]).1 is Ok,
        keys_distinct(
            gathered(roots1, roots1.len() as int)->Ok_0,
            |e: (Seq<char>, Seq<u8>)| e.0,
        ),
        keys_distinct(
            gathered(roots2, roots2.len() as int)->Ok_0,
            |e: (Seq<char>, Seq<u8>)| e.0,
        ),
    ensures
        scanned_many(roots1) == scanned_many(roots2),
{
    let key = |e: (Seq<char>, Seq<u8>)| e.0;
    let n = roots1.len() as int;
    let several = n > 1;
    assert forall|k: int| 0 <= k < n implies (#[trigger] roots2[k]).1 is Ok by {
        assert(roots2.contains(roots2[k]));
        let m = choose|m: int| 0 <= m < n && roots1[m] == roots2[k];
        assert(roots1[m].1 is Ok);
    }
    lemma_gathered_contents(roots1, n, several);
    lemma_gathered_contents(roots2, n, several);
    let g1 = gathered(roots1, n)->Ok_0;
    let g2 = gathered(roots2, n)->Ok_0;
    assert forall|x: (Seq<char>, Seq<u8>)| g1.contains(x) <==> g2.contains(x) by {
        if g1.contains(x) {
            let (i, j) = choose|i: int, j: int|
                0 <= i < n && 0 <= j < roots1[i].1->Ok_0.len() && x == #[trigger] listed_entry(
                    roots1[i].0,
                    several,
                    roots1[i].1->Ok_0[j],
                );
            assert(roots1.contains(roots1[i]));
            let m = choose|m: int| 0 <= m < n && roots2[m] == roots1[i];
            assert(x == listed_entry(roots2[m].0, several, roots2[m].1->Ok_0[j]));
        }
        if g2.contains(x) {
            let (i, j) = choose|i: int, j: int|
                0 <= i < n && 0 <= j < roots2[i].1->Ok_0.len() && x == #[trigger] listed_entry(
                    roots2[i].0,
                    several,
                    roots2[i].1->Ok_0[j],
                );
            assert(roots2.contains(roots2[i]));
            let m = choose|m: int| 0 <= m < n && roots1[m] == roots2[i];
            assert(x == listed_entry(roots1[m].0, several, roots1[m].1->Ok_0[j]));
        }
    }
    lemma_sort_strict(g1, key);
    lemma_sort_strict(g2, key);
    lemma_sort_contains(g1, key);
    lemma_sort_contains(g2, key);
    let s1 = sort_by_key(g1, key);
    let s2 = sort_by_key(g2, key);
    assert forall|x: (Seq<char>, Seq<u8>)| s1.contains(x) <==> s2.contains(x) by {
        assert(s1.contains(x) <==> g1.contains(x));
        assert(s2.contains(x) <==> g2.contains(x));
    }
    lemma_strictly_sorted_unique(s1, s2, key);
}


/// Two walks reporting the same selected relative paths, each path once,
/// discover files with the same relative paths in the same order (their
/// full paths may differ, as under two different roots).
pub(crate) proof fn lemma_discovered_same_paths(
    root1: Seq<char>,
    root2: Seq<char>,
    root_exists: bool,
    patterns: Seq<Seq<char>>,
    walk1: Seq<WalkEventView>,
    walk2: Seq<WalkEventView>,
)
    requires
        discovered(root1, root_exists, patterns, walk1) is Ok,
        only_files(walk2),
        reported_paths_distinct(walk1),
        reported_paths_distinct(walk2),
        forall|p: Seq<char>|
            #[trigger] selects_path(patterns, walk1, p) == selects_path(patterns, walk2, p),
    ensures
        discovered(root2, root_exists, patterns, walk2) is Ok,
        discovered(root1, root_exists, patterns, walk1)->Ok_0.len() == discovered(
            root2,
            root_exists,
            patterns,
            walk2,
        )->Ok_0.len(),
        forall|k: int|
            0 <= k < discovered(root1, root_exists, patterns, walk1)->Ok_0.len() ==> (
            #[trigger] discovered(root1, root_exists, patterns, walk1)->Ok_0[k]).0 == discovered(
                root2,
                root_exists,
                patterns,
                walk2,
            )->Ok_0[k].0,
{
    let key = |f: (Seq<char>, std::path::PathBuf)| f.0;
    let id = |p: Seq<char>| p;
    lemma_only_files_found(root2, patterns, walk2);
    lemma_walk_found(root1, patterns, walk1);
    lemma_walk_found(root2, patterns, walk2);
    let f1 = walk_outcome(root1, patterns, walk1)->Ok_0;
    let f2 = walk_outcome(root2, patterns, walk2)->Ok_0;
    lemma_sort_strict(f1, key);
    lemma_sort_strict(f2, key);
    lemma_sort_contains(f1, key);
    lemma_sort_contains(f2, key);
    lemma_sort_by_key(f1, key);
    lemma_sort_by_key(f2, key);
    let s1 = sort_by_key(f1, key);
    let s2 = sort_by_key(f2, key);
    let k1 = s1.map_values(key);
    let k2 = s2.map_values(key);
    assert(is_strictly_sorted_by_key(k1, id)) by {
        assert forall|i: int, j: int| 0 <= i < j < k1.len() implies text_lt(
            #[trigger] id(k1[i]),
            #[trigger] id(k1[j]),
        ) by {
            assert(text_lt(key(s1[i]), key(s1[j])));
        }
    }
    assert(is_strictly_sorted_by_key(k2, id)) by {
        assert forall|i: int, j: int| 0 <= i < j < k2.len() implies text_lt(
            #[trigger] id(k2[i]),
            #[trigger] id(k2[j]),
        ) by {
            assert(text_lt(key(s2[i]), key(s2[j])));
        }
    }
    assert forall|p: Seq<char>| k1.contains(p) implies k2.contains(p) by {
        let k = choose|k: int| 0 <= k < k1.len() && k1[k] == p;
        assert(s1.contains(s1[k]));
        assert(f1.contains(s1[k]));
        let i = choose|i: int|
            0 <= i < walk1.len() && #[trigger] reported_file(walk1[i]) == s1[k] && selected(
                patterns,
                walk1[i],
            );
        assert((reported_file(walk1[i])).0 == p);
        assert(selects_path(patterns, walk1, p));
        assert(selects_path(patterns, walk2, p));
        let i2 = choose|i2: int|
            0 <= i2 < walk2.len() && (#[trigger] reported_file(walk2[i2])).0 == p && selected(
                patterns,
                walk2[i2],
            );
        assert(f2.contains(reported_file(walk2[i2])));
        assert(s2.contains(reported_file(walk2[i2])));
        let m = choose|m: int| 0 <= m < s2.len() && s2[m] == reported_file(walk2[i2]);
        assert(k2[m] == p);
    }
    assert forall|p: Seq<char>| k2.contains(p) implies k1.contains(p) by {
        let k = choose|k: int| 0 <= k < k2.len() && k2[k] == p;
        assert(s2.contains(s2[k]));
        assert(f2.contains(s2[k]));
        let i = choose|i: int|
            0 <= i < walk2.len() && #[trigger] reported_file(walk2[i]) == s2[k] && selected(
                patterns,
                walk2[i],
            );
        assert((reported_file(walk2[i])).0 == p);
        assert(selects_path(patterns, walk2, p));
        assert(selects_path(patterns, walk1, p));
        let i1 = choose|i1: int|
            0 <= i1 < walk1.len() && (#[trigger] reported_file(walk1[i1])).0 == p && selected(
                patterns,
                walk1[i1],
            );
        assert(f1.contains(reported_file(walk1[i1])));
        assert(s1.contains(reported_file(walk1[i1])));
        let m = choose|m: int| 0 <= m < s1.len() && s1[m] == reported_file(walk1[i1]);
        assert(k1[m] == p);
    }
    lemma_strictly_sorted_unique(k1, k2, id);
    assert forall|k: int| 0 <= k < s1.len() implies (#[trigger] s1[k]).0 == s2[k].0 by {
        assert(k1[k] == k2[k]);
    }
}


/// When some of the first `n` roots fail and all that fail give the same
/// error `e`, joining them gives `e`.
proof fn lemma_gathered_common_error(
    roots: Seq<(Seq<char>, Result<Seq<(Seq<char>, Seq<u8>)>, I18nVersionErrorView>)>,
    n: int,
    e: I18nVersionErrorView,
)
    requires
        0 <= n <= roots.len(),
        exists|k: int| 0 <= k < n && (#[trigger] roots[k]).1 is Err,
        forall|k: int|
            0 <= k < n && (#[trigger] roots[k]).1 is Err ==> roots[k].1 == Err::<
                Seq<(Seq<char>, Seq<u8>)>,
                I18nVersionErrorView,
            >(e),
    ensures
        gathered(roots, n) == Err::<Seq<(Seq<char>, Seq<u8>)>, I18nVersionErrorView>(e),
    decreases n,
{
    if exists|k: int| 0 <= k < n - 1 && (#[trigger] roots[k]).1 is Err {
        lemma_gathered_common_error(roots, n - 1, e);
    } else {
        lemma_gathered_contents(roots, n - 1, roots.len() > 1);
        assert(roots[n - 1].1 is Err);
    }
}

/// The order in which roots are given does not matter when some fail: two
/// lists holding the same roots (as many in each), where every root that
/// fails fails with the same error `e`, both give `e`.
pub proof fn lemma_scan_many_root_order_failing(
    roots1: Seq<(Seq<char>, Result<Seq<(Seq<char>, Seq<u8>)>, I18nVersionErrorView>)>,
    roots2: Seq<(Seq<char>, Result<Seq<(Seq<char>, Seq<u8>)>, I18nVersionErrorView>)>,
    e: I18nVersionErrorView,
)
    requires
        roots1.len() == roots2.len(),
        forall|r| roots1.contains(r) <==> roots2.contains(r),
        exists|k: int| 0 <= k < roots1.len() && (#[trigger] roots1[k]).1 is Err,
        forall|k: int|
            0 <= k < roots1.len() && (#[trigger] roots1[k]).1 is Err ==> roots1[k].1 == Err::<
                Seq<(Seq<char>, Seq<u8>)>,
                I18nVersionErrorView,
            >(e),
    ensures
        scanned_many(roots1) == Err::<Seq<(Seq<char>, Seq<u8>)>, I18nVersionErrorView>(e),
        scanned_many(roots2) == scanned_many(roots1),
{
    let n = roots1.len() as int;
    lemma_gathered_common_error(roots1, n, e);
    let k = choose|k: int| 0 <= k < n && (#[trigger] roots1[k]).1 is Err;
    assert(roots1.contains(roots1[k]));
    let m = choose|m: int| 0 <= m < n && roots2[m] == roots1[k];
    assert(roots2[m].1 is Err);
    assert forall|j: int|
        0 <= j < n && (#[trigger] roots2[j]).1 is Err implies roots2[j].1 == Err::<
        Seq<(Seq<char>, Seq<u8>)>,
        I18nVersionErrorView,
    >(e) by {
        assert(roots2.contains(roots2[j]));
        let i = choose|i: int| 0 <= i < n && roots1[i] == roots2[j];
        assert(roots1[i].1 is Err);
    }
    lemma_gathered_common_error(roots2, n, e);
}

/// A single root that scans without error, with its entries already in path
/// order (as scanning a discovered root gives them), comes back unchanged.
pub proof fn lemma_scan_many_single_root(
    root: Seq<char>,
    entries: Seq<(Seq<char>, Seq<u8>)>,
)
    requires
        is_sorted_by_key(entries, |e: (Seq<char>, Seq<u8>)| e.0),
    ensures
        scanned_many(
            seq![(root, Ok::<Seq<(Seq<char>, Seq<u8>)>, I18nVersionErrorView>(entries))],
        ) == Ok::<Seq<(Seq<char>, Seq<u8>)>, I18nVersionErrorView>(entries),
{
    let roots = seq![(root, Ok::<Seq<(Seq<char>, Seq<u8>)>, I18nVersionErrorView>(entries))];
    let key = |e: (Seq<char>, Seq<u8>)| e.0;
    assert(gathered(roots, 0) == Ok::<Seq<(Seq<char>, Seq<u8>)>, I18nVersionErrorView>(
        Seq::empty(),
    ));
    let listed = entries.map_values(
        |e: (Seq<char>, Seq<u8>)| (under_alias(root_alias(root, false), e.0), e.1),
    );
    assert(listed =~= entries);
    assert(Seq::<(Seq<char>, Seq<u8>)>::empty() + listed =~= entries);
    lemma_sort_sorted(entries, key);
}

/// What scanning gives, entry by entry: it succeeds exactly when every file
/// passes validation, and then the `i`-th entry is the `i`-th file's
/// relative path with its validated contents; otherwise the error is that of
/// the first file that fails, every earlier one having passed.
pub proof fn lemma_scanned_entries(
    files: Seq<((Seq<char>, std::path::PathBuf), Result<Seq<u8>, Seq<char>>)>,
    n: int,
)
    requires
        0 <= n <= files.len(),
    ensures
        scanned(files, n) is Ok <==> forall|i: int|
            0 <= i < n ==> #[trigger] validated(files[i].0.1, files[i].0.0, files[i].1) is Ok,
        scanned(files, n) matches Ok(entries) ==> entries.len() == n && forall|i: int|
            0 <= i < n ==> (#[trigger] entries[i]).0 == files[i].0.0 && validated(
                files[i].0.1,
                files[i].0.0,
                files[i].1,
            ) == Ok::<Seq<u8>, I18nVersionErrorView>(entries[i].1),
        scanned(files, n) matches Err(e) ==> exists|k: int|
            0 <= k < n && #[trigger] validated(files[k].0.1, files[k].0.0, files[k].1) == Err::<
                Seq<u8>,
                I18nVersionErrorView,
            >(e) && forall|i: int|
                0 <= i < k ==> #[trigger] validated(files[i].0.1, files[i].0.0, files[i].1) is Ok,
    decreases n,
{
    if n > 0 {
        lemma_scanned_entries(files, n - 1);
        let v = validated(files[n - 1].0.1, files[n - 1].0.0, files[n - 1].1);
        match scanned(files, n - 1) {
            Err(e) => {
                let k = choose|k: int|
                    0 <= k < n - 1 && #[trigger] validated(files[k].0.1, files[k].0.0, files[k].1)
                        == Err::<Seq<u8>, I18nVersionErrorView>(e) && forall|i: int|
                        0 <= i < k ==> #[trigger] validated(files[i].0.1, files[i].0.0, files[i].1)
                            is Ok;
                assert(validated(files[k].0.1, files[k].0.0, files[k].1) is Err);
            },
            Ok(entries) => {
                if v is Ok {
                    let all = scanned(files, n)->Ok_0;
                    assert forall|i: int| 0 <= i < n implies (#[trigger] all[i]).0 == files[i].0.0
                        && validated(files[i].0.1, files[i].0.0, files[i].1) == Ok::<
                        Seq<u8>,
                        I18nVersionErrorView,
                    >(all[i].1) by {
                        if i < n - 1 {
                            assert(all[i] == entries[i]);
                        }
                    }
                } else {
                    assert(validated(files[n - 1].0.1, files[n - 1].0.0, files[n - 1].1) is Err);
                }
            },
        }
    }
}


/// Only `node_modules` and `.git` are pruned: a name is pruned exactly when
/// it is one of these two.
pub proof fn lemma_pruned_names(name: Seq<char>)
    ensures
        is_pruned_name(name) <==> (name == "node_modules"@ || name == ".git"@),
{
}

/// A file lies below a pruned directory exactly when one of its directory
/// components (a stretch that starts the path or follows a separator, holds
/// no separator, and is followed by one) is `node_modules` or `.git`.
pub proof fn lemma_in_pruned_dir_names(path: Seq<char>)
    ensures
        in_pruned_dir(path) <==> exists|s: int, e: int|
            0 <= s <= e < path.len() && is_path_separator(path[e]) && (s == 0
                || is_path_separator(path[s - 1])) && (forall|k: int|
                s <= k < e ==> !is_path_separator(#[trigger] path[k])) && (#[trigger] path.subrange(s, e) == "node_modules"@
                || path.subrange(s, e) == ".git"@),
{
    if in_pruned_dir(path) {
        let (s, e) = choose|s: int, e: int|
            is_dir_component(path, s, e) && #[trigger] is_pruned_name(path.subrange(s, e));
        assert(path.subrange(s, e) == "node_modules"@ || path.subrange(s, e) == ".git"@);
    }
    if exists|s: int, e: int|
        0 <= s <= e < path.len() && is_path_separator(path[e]) && (s == 0
                || is_path_separator(path[s - 1])) && (forall|k: int|
                s <= k < e ==> !is_path_separator(#[trigger] path[k])) && (#[trigger] path.subrange(s, e) == "node_modules"@
            || path.subrange(s, e) == ".git"@) {
        let (s, e) = choose|s: int, e: int|
            0 <= s <= e < path.len() && is_path_separator(path[e]) && (s == 0
                || is_path_separator(path[s - 1])) && (forall|k: int|
                s <= k < e ==> !is_path_separator(#[trigger] path[k])) && (#[trigger] path.subrange(s, e) == "node_modules"@
                || path.subrange(s, e) == ".git"@);
        assert(is_pruned_name(path.subrange(s, e)));
    }
}

/// Discovery keeps every file the walk reported that some pattern matches
/// and that has no directory component named `node_modules` or `.git`.
pub proof fn lemma_discovery_keeps_unpruned_matches(
    root: Seq<char>,
    root_exists: bool,
    patterns: Seq<Seq<char>>,
    walk: Seq<WalkEventView>,
    i: int,
)
    requires
        discovered(root, root_exists, patterns, walk) is Ok,
        0 <= i < walk.len(),
        forall|s: int, e: int|
            0 <= s <= e < walk[i]->relative.len() && is_path_separator(walk[i]->relative[e]) && (s
                == 0 || is_path_separator(walk[i]->relative[s - 1])) && (forall|k: int|
                s <= k < e ==> !is_path_separator(#[trigger] walk[i]->relative[k]))
                ==> #[trigger] walk[i]->relative.subrange(s, e) != "node_modules"@
                && walk[i]->relative.subrange(s, e) != ".git"@,
        matches_any(patterns, forward_slashes(walk[i]->relative)),
    ensures
        discovered(root, root_exists, patterns, walk)->Ok_0.contains(reported_file(walk[i])),
{
    let key = |f: (Seq<char>, std::path::PathBuf)| f.0;
    lemma_walk_found(root, patterns, walk);
    let found = walk_outcome(root, patterns, walk)->Ok_0;
    lemma_sort_contains(found, key);
    assert(walk[i] is File);
    lemma_in_pruned_dir_names(walk[i]->relative);
    assert(selected(patterns, walk[i]));
    assert(found.contains(reported_file(walk[i])));
}

/// Validation accepts exactly the JSON documents and hands them back
/// unchanged: the contents are kept if and only if they parse, the result
/// is then the very bytes given, and otherwise the error names the file and
/// carries the parser's message.
pub proof fn lemma_json_checked(path: Seq<char>, bytes: Seq<u8>)
    ensures
        json_checked(path, bytes) is Ok <==> json_rejection(bytes) is None,
        json_checked(path, bytes) matches Ok(kept) ==> kept == bytes,
        json_rejection(bytes) matches Some(message) ==> json_checked(path, bytes) == Err::<
            Seq<u8>,
            I18nVersionErrorView,
        >(I18nVersionErrorView::InvalidJson { path, message }),
{
}

/// Validating what reading a file gave: it passes exactly when the read
/// succeeded and the bytes are a JSON document, and then hands back the
/// bytes read, unchanged; a failed read is an error naming the full path; a
/// non-JSON file is an error naming the relative path.
pub proof fn lemma_validated(
    abs: std::path::PathBuf,
    relative: Seq<char>,
    read: Result<Seq<u8>, Seq<char>>,
)
    ensures
        validated(abs, relative, read) is Ok <==> (read matches Ok(bytes) && json_rejection(bytes)
            is None),
        validated(abs, relative, read) matches Ok(kept) ==> read == Ok::<Seq<u8>, Seq<char>>(kept),
        read matches Err(message) ==> validated(abs, relative, read) == Err::<
            Seq<u8>,
            I18nVersionErrorView,
        >(I18nVersionErrorView::ReadError { path: path_display(abs), message }),
        (read matches Ok(bytes) && json_rejection(bytes) is Some) ==> validated(
            abs,
            relative,
            read,
        ) == Err::<Seq<u8>, I18nVersionErrorView>(
            I18nVersionErrorView::InvalidJson {
                path: relative,
                message: json_rejection(read->Ok_0)->Some_0,
            },
        ),
{
}

/// Every entry that scanning gives holds exactly the bytes that reading its
/// file gave, and every file read that way is a JSON document.
pub proof fn lemma_scanned_bytes_are_read_bytes(
    files: Seq<((Seq<char>, std::path::PathBuf), Result<Seq<u8>, Seq<char>>)>,
    n: int,
)
    requires
        0 <= n <= files.len(),
        scanned(files, n) is Ok,
    ensures
        scanned(files, n)->Ok_0.len() == n,
        forall|i: int|
            0 <= i < n ==> files[i].1 == Ok::<Seq<u8>, Seq<char>>(
                (#[trigger] scanned(files, n)->Ok_0[i]).1,
            ) && scanned(files, n)->Ok_0[i].0 == files[i].0.0 && json_rejection(
                scanned(files, n)->Ok_0[i].1,
            ) is None,
{
    lemma_scanned_entries(files, n);
    let entries = scanned(files, n)->Ok_0;
    assert forall|i: int| 0 <= i < n implies files[i].1 == Ok::<Seq<u8>, Seq<char>>(
        (#[trigger] entries[i]).1,
    ) && entries[i].0 == files[i].0.0 && json_rejection(entries[i].1) is None by {
        lemma_validated(files[i].0.1, files[i].0.0, files[i].1);
    }
}

} // verus!
