//! Content-derived version strings for sets of JSON files.
//!
//! A version is the SHA-256 digest of the selected files — each contributing
//! its relative path, a zero byte and its contents, in path order — written
//! in lowercase hexadecimal and cut to the requested length.
use vstd::prelude::*;

pub mod error;
pub mod hash;
pub mod order;
pub mod scanner;
pub mod text;

pub use error::{I18nVersionError, I18nVersionErrorView};
pub use hash::{compute_hash, compute_hash_checked, VersionHasher};
pub use scanner::{discover, read_and_validate, scan, scan_many, FileEntry, FileRef, WalkEvent};

use hash::{entries_bytes, version_of};
use scanner::{
    WalkEventView, lemma_discovered_same_paths, lemma_discovery_order_independent, only_files,
    reported_file, reported_paths_distinct, selected, selects_path,
};
use scanner::{
    discovered, lemma_scanned_failure_persists, patterns_view, raw_read_view, scanned, validated,
};

verus! {

/// What a version computation is asked for: the root directory, the glob
/// patterns (relative to the root) that select files, and the number of hex
/// characters of the result.
#[derive(Clone, Debug)]
pub struct ComputeOptions {
    pub root: String,
    pub patterns: Vec<String>,
    pub length: u32,
}

/// The requested number of hex characters, if it lies in `1..=64`; any
/// other length is an error. It is checked before anything else is done.
pub fn check_length(length: u32) -> (r: Result<usize, I18nVersionError>)
    ensures
        1 <= length <= 64 ==> r == Ok::<usize, I18nVersionError>(length as usize),
        !(1 <= length <= 64) ==> (r matches Err(e) && e@ == I18nVersionErrorView::InvalidLength(
            length as nat,
        )),
{
    let n = length as usize;
    if n < 1 || n > 64 {
        Err(I18nVersionError::InvalidLength(n))
    } else {
        Ok(n)
    }
}

/// A version computation in progress: the files discovered, how many of them
/// have been fed, and the hash of those.
///
/// The caller reads the file that [`VersionRun::next_file`] names, hands the
/// outcome to [`VersionRun::feed`], and once every file is fed takes the
/// version from [`VersionRun::finish`]. Only one file's contents are held at
/// a time.
pub struct VersionRun {
    files: Vec<FileRef>,
    next: usize,
    length: usize,
    hasher: VersionHasher,
    fed: Ghost<Seq<(Seq<char>, Seq<u8>)>>,
}

impl VersionRun {
    /// The run's internal consistency: the hasher has absorbed exactly the
    /// entries fed, which are the first files in order, and the length is
    /// in `1..=64`.
    #[verifier::type_invariant]
    spec fn consistent(self) -> bool {
        &&& self.fed@.len() == self.next
        &&& self.next <= self.files@.len()
        &&& forall|i: int|
            0 <= i < self.fed@.len() ==> (#[trigger] self.fed@[i]).0 == self.files@[i].relative_path@
        &&& self.hasher@ == entries_bytes(self.fed@)
        &&& 1 <= self.length <= 64
    }

    /// The files to be hashed, in order.
    pub closed spec fn files(&self) -> Seq<(Seq<char>, std::path::PathBuf)> {
        self.files@.map_values(|f: FileRef| f@)
    }

    /// The entries fed so far: each file's relative path with its contents.
    pub closed spec fn fed(&self) -> Seq<(Seq<char>, Seq<u8>)> {
        self.fed@
    }

    /// The number of hex characters of the result.
    pub closed spec fn length(&self) -> nat {
        self.length as nat
    }

    /// Starts a computation: a length outside `1..=64` is an error first;
    /// then the files are discovered (see [`discover`]) under `options.root`,
    /// given whether the root exists and what the walk of it reported.
    pub fn start(options: &ComputeOptions, root_exists: bool, walk: Vec<WalkEvent>) -> (r: Result<
        VersionRun,
        I18nVersionError,
    >)
        ensures
            !(1 <= options.length <= 64) ==> (r matches Err(e) && e@
                == I18nVersionErrorView::InvalidLength(options.length as nat)),
            1 <= options.length <= 64 ==> match discovered(
                options.root@,
                root_exists,
                patterns_view(options.patterns@),
                walk@.map_values(|e: WalkEvent| e@),
            ) {
                Err(d) => r matches Err(e) && e@ == d,
                Ok(files) => r matches Ok(run) && run.files() == files && run.fed()
                    == Seq::<(Seq<char>, Seq<u8>)>::empty() && run.length() == options.length,
            },
    {
        let length = check_length(options.length)?;
        let files = discover(options.root.as_str(), root_exists, options.patterns.as_slice(), walk)?;
        Ok(VersionRun { files, next: 0, length, hasher: VersionHasher::new(), fed: Ghost(Seq::empty()) })
    }

    /// The file to read next, or `None` once every file has been fed.
    pub fn next_file(&self) -> (f: Option<&FileRef>)
        ensures
            f is Some <==> self.fed().len() < self.files().len(),
            f matches Some(file) ==> file@ == self.files()[self.fed().len() as int],
    {
        proof {
            use_type_invariant(self);
        }
        let k = self.next;
        if k < self.files.len() {
            Some(&self.files[k])
        } else {
            None
        }
    }


    /// Feeds what reading the next file gave: its bytes, or the text of the
    /// read failure. The file is validated as [`read_and_validate`] does; a
    /// file that fails is the error, and the run is unchanged; otherwise the
    /// file is hashed.
    pub fn feed(&mut self, read: Result<Vec<u8>, String>) -> (r: Result<
        (),
        I18nVersionError,
    >)
        requires
            old(self).fed().len() < old(self).files().len(),
        ensures
            final(self).files() == old(self).files(),
            final(self).length() == old(self).length(),
            ({
                let file = old(self).files()[old(self).fed().len() as int];
                match validated(file.1, file.0, raw_read_view(read)) {
                    Err(e) => r matches Err(x) && x@ == e && final(self).fed() == old(self).fed(),
                    Ok(b) => r is Ok && final(self).fed() == old(self).fed().push((file.0, b)),
                }
            }),
    {
        proof {
            use_type_invariant(&*self);
        }
        let k = self.next;
        let n = self.files.len();
        proof {
            assert(self.files().len() == self.files@.len());
            assert(k < n);
            assert(self.files()[k as int] == self.files@[k as int]@);
        }
        let checked = read_and_validate(
            &self.files[k].abs_path,
            self.files[k].relative_path.as_str(),
            read,
        )?;
        let mut taken = VersionRun {
            files: Vec::new(),
            next: 0,
            length: 1,
            hasher: VersionHasher::new(),
            fed: Ghost(Seq::empty()),
        };
        std::mem::swap(self, &mut taken);
        proof {
            use_type_invariant(&taken);
        }
        let VersionRun { files, next, length, mut hasher, fed } = taken;
        hasher.update(files[k].relative_path.as_str(), checked.as_slice());
        let ghost entry = (files@[k as int].relative_path@, checked@);
        proof {
            assert(fed@.push(entry).drop_last() =~= fed@);
        }
        *self = VersionRun { files, next: next + 1, length, hasher, fed: Ghost(fed@.push(entry)) };
        Ok(())
    }

    /// The version of the files fed: the first `length` lowercase hex
    /// characters of the digest of their entries, in order.
    pub fn finish(self) -> (s: String)
        requires
            self.fed().len() == self.files().len(),
        ensures
            s@ == version_of(self.fed(), self.length() as int),
    {
        proof {
            use_type_invariant(&self);
        }
        self.hasher.finalize(self.length)
    }
}

/// Streaming and buffering agree. When the files of a run were fed one by
/// one and every feed succeeded, each with the entry recorded in `fed`
/// (`reads` pairs each file with what reading it gave), scanning the same
/// reads at once with [`scan`] gives exactly `fed`: the version that
/// [`VersionRun::finish`] returns is the one [`compute_hash`] gives for the
/// scanned entries.
pub proof fn lemma_streaming_matches_buffered(
    reads: Seq<((Seq<char>, std::path::PathBuf), Result<Seq<u8>, Seq<char>>)>,
    fed: Seq<(Seq<char>, Seq<u8>)>,
)
    requires
        fed.len() == reads.len(),
        forall|k: int|
            0 <= k < reads.len() ==> fed[k].0 == (#[trigger] reads[k]).0.0 && validated(
                reads[k].0.1,
                reads[k].0.0,
                reads[k].1,
            ) == Ok::<Seq<u8>, I18nVersionErrorView>(fed[k].1),
    ensures
        scanned(reads, reads.len() as int) == Ok::<
            Seq<(Seq<char>, Seq<u8>)>,
            I18nVersionErrorView,
        >(fed),
    decreases reads.len(),
{
    if reads.len() > 0 {
        let n = reads.len() - 1;
        let prev = reads.drop_last();
        assert forall|k: int| 0 <= k < prev.len() implies fed.drop_last()[k].0 == (
        #[trigger] prev[k]).0.0 && validated(prev[k].0.1, prev[k].0.0, prev[k].1) == Ok::<
            Seq<u8>,
            I18nVersionErrorView,
        >(fed.drop_last()[k].1) by {
            assert(prev[k] == reads[k]);
        }
        lemma_streaming_matches_buffered(prev, fed.drop_last());
        lemma_scanned_prefix(reads, n);
        lemma_scanned_prefix(prev, n);
        assert(reads.take(n) =~= prev.take(n));
        assert(fed.drop_last().push((reads[n].0.0, fed[n].1)) =~= fed);
    } else {
        assert(fed =~= Seq::<(Seq<char>, Seq<u8>)>::empty());
    }
}

/// Scanning the first `n` reads depends on those reads alone.
proof fn lemma_scanned_prefix(
    reads: Seq<((Seq<char>, std::path::PathBuf), Result<Seq<u8>, Seq<char>>)>,
    n: int,
)
    requires
        0 <= n <= reads.len(),
    ensures
        scanned(reads, n) == scanned(reads.take(n), n),
    decreases n,
{
    if n > 0 {
        lemma_scanned_prefix(reads, n - 1);
        lemma_scanned_prefix(reads.take(n), n - 1);
        assert(reads.take(n).take(n - 1) =~= reads.take(n - 1));
        assert(reads.take(n)[n - 1] == reads[n - 1]);
    }
}

/// When the first files were fed, giving `fed`, and the next one fails
/// validation with `e`, scanning all the reads at once fails with the same
/// error: both ways report the first file that fails.
pub proof fn lemma_streaming_error_matches_buffered(
    reads: Seq<((Seq<char>, std::path::PathBuf), Result<Seq<u8>, Seq<char>>)>,
    fed: Seq<(Seq<char>, Seq<u8>)>,
    e: I18nVersionErrorView,
)
    requires
        fed.len() < reads.len(),
        scanned(reads, fed.len() as int) == Ok::<Seq<(Seq<char>, Seq<u8>)>, I18nVersionErrorView>(
            fed,
        ),
        validated(
            reads[fed.len() as int].0.1,
            reads[fed.len() as int].0.0,
            reads[fed.len() as int].1,
        ) == Err::<Seq<u8>, I18nVersionErrorView>(e),
    ensures
        scanned(reads, reads.len() as int) == Err::<
            Seq<(Seq<char>, Seq<u8>)>,
            I18nVersionErrorView,
        >(e),
{
    let k = fed.len() as int;
    assert(scanned(reads, k + 1) == Err::<Seq<(Seq<char>, Seq<u8>)>, I18nVersionErrorView>(e));
    lemma_scanned_failure_persists(reads, k + 1, reads.len() as int);
}


/// What reading each discovered file gives, paired with the file.
pub open spec fn read_outcomes(
    files: Seq<(Seq<char>, std::path::PathBuf)>,
    read: spec_fn((Seq<char>, std::path::PathBuf)) -> Result<Seq<u8>, Seq<char>>,
) -> Seq<((Seq<char>, std::path::PathBuf), Result<Seq<u8>, Seq<char>>)> {
    files.map_values(|f: (Seq<char>, std::path::PathBuf)| (f, read(f)))
}

/// The version computed under `root` with the given patterns and length,
/// when the walk of the root reports `walk` and reading a file gives `read`
/// of it: a length outside `1..=64` is an error first; then discovery's
/// error; then the first discovered file that fails validation; otherwise
/// the version of the discovered files with their contents, in path order.
/// This is what discovering, scanning and hashing the entries at once
/// gives.
pub open spec fn computed_version(
    root: Seq<char>,
    root_exists: bool,
    patterns: Seq<Seq<char>>,
    walk: Seq<WalkEventView>,
    length: nat,
    read: spec_fn((Seq<char>, std::path::PathBuf)) -> Result<Seq<u8>, Seq<char>>,
) -> Result<Seq<char>, I18nVersionErrorView> {
    if !(1 <= length <= 64) {
        Err(I18nVersionErrorView::InvalidLength(length))
    } else {
        match discovered(root, root_exists, patterns, walk) {
            Err(e) => Err(e),
            Ok(files) => match scanned(read_outcomes(files, read), files.len() as int) {
                Err(e) => Err(e),
                Ok(entries) => Ok(version_of(entries, length as int)),
            },
        }
    }
}

/// A run ends as [`computed_version`] says. Take a run started on `root`,
/// `root_exists`, `patterns`, `walk` and `length` (so its files are those
/// discovered), whose feeds handed each file what `read` gives of it. If
/// every file was fed, each with the entry recorded in `fed`, the version
/// [`VersionRun::finish`] returns is the computed one; if the first
/// `fed.len()` files were fed and the next failed with `e`, the computed
/// result is that same error.
pub proof fn lemma_run_computes_version(
    root: Seq<char>,
    root_exists: bool,
    patterns: Seq<Seq<char>>,
    walk: Seq<WalkEventView>,
    length: nat,
    read: spec_fn((Seq<char>, std::path::PathBuf)) -> Result<Seq<u8>, Seq<char>>,
    fed: Seq<(Seq<char>, Seq<u8>)>,
    failure: Option<I18nVersionErrorView>,
)
    requires
        1 <= length <= 64,
        discovered(root, root_exists, patterns, walk) is Ok,
        ({
            let files = discovered(root, root_exists, patterns, walk)->Ok_0;
            &&& fed.len() <= files.len()
            &&& forall|k: int|
                0 <= k < fed.len() ==> fed[k].0 == (#[trigger] files[k]).0 && validated(
                    files[k].1,
                    files[k].0,
                    read(files[k]),
                ) == Ok::<Seq<u8>, I18nVersionErrorView>(fed[k].1)
            &&& match failure {
                None => fed.len() == files.len(),
                Some(e) => fed.len() < files.len() && validated(
                    files[fed.len() as int].1,
                    files[fed.len() as int].0,
                    read(files[fed.len() as int]),
                ) == Err::<Seq<u8>, I18nVersionErrorView>(e),
            }
        }),
    ensures
        computed_version(root, root_exists, patterns, walk, length, read) == match failure {
            None => Ok::<Seq<char>, I18nVersionErrorView>(version_of(fed, length as int)),
            Some(e) => Err(e),
        },
{
    let files = discovered(root, root_exists, patterns, walk)->Ok_0;
    let reads = read_outcomes(files, read);
    let m = fed.len() as int;
    let prefix = reads.take(m);
    assert forall|k: int| 0 <= k < prefix.len() implies fed[k].0 == (#[trigger] prefix[k]).0.0
        && validated(prefix[k].0.1, prefix[k].0.0, prefix[k].1) == Ok::<
        Seq<u8>,
        I18nVersionErrorView,
    >(fed[k].1) by {
        assert(prefix[k] == (files[k], read(files[k])));
    }
    lemma_streaming_matches_buffered(prefix, fed);
    lemma_scanned_prefix(reads, m);
    assert(reads.take(m) =~= prefix.take(m));
    lemma_scanned_prefix(prefix, m);
    match failure {
        None => {
            assert(prefix =~= reads);
        },
        Some(e) => {
            assert(reads[m] == (files[m], read(files[m])));
            lemma_streaming_error_matches_buffered(reads, fed, e);
        },
    }
}

/// The version does not depend on the order in which the walk reports the
/// files, nor on files that discovery does not select: two walks that
/// report the same selected files, each path once, compute the same
/// version (or the same error).
pub proof fn lemma_version_order_independent(
    root: Seq<char>,
    root_exists: bool,
    patterns: Seq<Seq<char>>,
    walk1: Seq<WalkEventView>,
    walk2: Seq<WalkEventView>,
    length: nat,
    read: spec_fn((Seq<char>, std::path::PathBuf)) -> Result<Seq<u8>, Seq<char>>,
)
    requires
        only_files(walk1),
        only_files(walk2),
        reported_paths_distinct(walk1),
        reported_paths_distinct(walk2),
        forall|e: WalkEventView|
            #[trigger] selected(patterns, e) ==> (walk1.contains(e) <==> walk2.contains(e)),
    ensures
        computed_version(root, root_exists, patterns, walk1, length, read) == computed_version(
            root,
            root_exists,
            patterns,
            walk2,
            length,
            read,
        ),
{
    lemma_discovery_order_independent(root, root_exists, patterns, walk1, walk2);
}

/// Only the relative paths and contents of the selected files matter, not
/// where the root lies. Two roots whose walks report the same selected
/// relative paths (each path once), where reading a file gives the same
/// outcome for the same relative path, compute the same version when one of
/// them computes a version.
pub proof fn lemma_version_depends_on_selected_contents(
    root1: Seq<char>,
    root2: Seq<char>,
    root_exists: bool,
    patterns: Seq<Seq<char>>,
    walk1: Seq<WalkEventView>,
    walk2: Seq<WalkEventView>,
    length: nat,
    read1: spec_fn((Seq<char>, std::path::PathBuf)) -> Result<Seq<u8>, Seq<char>>,
    read2: spec_fn((Seq<char>, std::path::PathBuf)) -> Result<Seq<u8>, Seq<char>>,
)
    requires
        only_files(walk2),
        reported_paths_distinct(walk1),
        reported_paths_distinct(walk2),
        forall|p: Seq<char>|
            #[trigger] selects_path(patterns, walk1, p) == selects_path(patterns, walk2, p),
        forall|f: (Seq<char>, std::path::PathBuf), g: (Seq<char>, std::path::PathBuf)|
            f.0 == g.0 ==> #[trigger] read1(f) == #[trigger] read2(g),
        computed_version(root1, root_exists, patterns, walk1, length, read1) is Ok,
    ensures
        computed_version(root2, root_exists, patterns, walk2, length, read2) == computed_version(
            root1,
            root_exists,
            patterns,
            walk1,
            length,
            read1,
        ),
{
    lemma_discovered_same_paths(root1, root2, root_exists, patterns, walk1, walk2);
    let f1 = discovered(root1, root_exists, patterns, walk1)->Ok_0;
    let f2 = discovered(root2, root_exists, patterns, walk2)->Ok_0;
    let r1 = read_outcomes(f1, read1);
    let r2 = read_outcomes(f2, read2);
    assert forall|k: int| 0 <= k < r1.len() implies (#[trigger] r1[k]).0.0 == r2[k].0.0 && r1[k].1
        == r2[k].1 by {
        assert(f1[k].0 == f2[k].0);
        assert(read1(f1[k]) == read2(f2[k]));
    }
    lemma_scanned_same_contents(r1, r2, f1.len() as int);
}

/// Scanning depends on the files only through their relative paths and
/// what reading them gave, as long as it succeeds.
proof fn lemma_scanned_same_contents(
    r1: Seq<((Seq<char>, std::path::PathBuf), Result<Seq<u8>, Seq<char>>)>,
    r2: Seq<((Seq<char>, std::path::PathBuf), Result<Seq<u8>, Seq<char>>)>,
    n: int,
)
    requires
        0 <= n <= r1.len(),
        n <= r2.len(),
        forall|k: int|
            0 <= k < n ==> (#[trigger] r1[k]).0.0 == r2[k].0.0 && r1[k].1 == r2[k].1,
        scanned(r1, n) is Ok,
    ensures
        scanned(r2, n) == scanned(r1, n),
    decreases n,
{
    if n > 0 {
        if scanned(r1, n - 1) is Err {
            lemma_scanned_failure_persists(r1, n - 1, n);
        }
        lemma_scanned_same_contents(r1, r2, n - 1);
        assert(r1[n - 1].0.0 == r2[n - 1].0.0 && r1[n - 1].1 == r2[n - 1].1);
    }
}

} // verus!
