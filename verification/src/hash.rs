//! The version hash: SHA-256 over the files' paths and contents, rendered
//! in lowercase hexadecimal and cut to the requested length.
use vstd::prelude::*;
use vstd::utf8::encode_utf8;

use crate::error::{I18nVersionError, I18nVersionErrorView};
use crate::scanner::FileEntry;
use crate::text::{digit_char, hex_lower, hex_prefix};

verus! {

/// The incremental SHA-256 state of the `sha2` crate (`sha2::Sha256`).
///
/// The state sits in a private field, opaque to proofs: `sha2::Sha256` is a
/// generic wrapper whose parameters are bounded by traits of `digest` and
/// `typenum`, and it is not declared as a type here. What the state has
/// absorbed is known only through [`sha256_absorbed`].
#[verifier::external_body]
pub struct Sha256State {
    inner: sha2::Sha256,
}

/// The bytes fed to a SHA-256 state since it was created.
pub uninterp spec fn sha256_absorbed(state: Sha256State) -> Seq<u8>;

/// The SHA-256 digest of a byte string.
pub uninterp spec fn sha256_digest(data: Seq<u8>) -> [u8; 32];

/// `<sha2::Sha256 as Digest>::new`: a state that has absorbed nothing.
#[verifier::external_body]
fn sha256_new() -> (state: Sha256State)
    ensures
        sha256_absorbed(state) == Seq::<u8>::empty(),
{
    Sha256State { inner: <sha2::Sha256 as sha2::Digest>::new() }
}

/// `<sha2::Sha256 as Digest>::update`: the state absorbs `data` after what
/// it held.
#[verifier::external_body]
fn sha256_update(state: &mut Sha256State, data: &[u8])
    ensures
        sha256_absorbed(*final(state)) == sha256_absorbed(*old(state)) + data@,
{
    sha2::Digest::update(&mut state.inner, data);
}

/// `<sha2::Sha256 as Digest>::finalize`: the 32-byte digest of everything the
/// state absorbed.
#[verifier::external_body]
fn sha256_finalize(state: Sha256State) -> (digest: [u8; 32])
    ensures
        digest == sha256_digest(sha256_absorbed(state)),
{
    sha2::Digest::finalize(state.inner).into()
}

/// The bytes one file contributes to the hash: its relative path in UTF-8,
/// a zero byte, then its contents.
pub open spec fn entry_bytes(path: Seq<char>, bytes: Seq<u8>) -> Seq<u8> {
    encode_utf8(path) + seq![0u8] + bytes
}

/// The bytes a sequence of files contributes to the hash, in order.
pub open spec fn entries_bytes(entries: Seq<(Seq<char>, Seq<u8>)>) -> Seq<u8>
    decreases entries.len(),
{
    if entries.len() == 0 {
        Seq::empty()
    } else {
        entries_bytes(entries.drop_last()) + entry_bytes(
            entries.last().0,
            entries.last().1,
        )
    }
}

/// The version of a sequence of files: the first `length` lowercase hex
/// characters of the SHA-256 digest of their bytes, or the empty string
/// when `length` is outside `1..=64`.
pub open spec fn version_of(entries: Seq<(Seq<char>, Seq<u8>)>, length: int) -> Seq<char> {
    if 1 <= length <= 64 {
        hex_lower(sha256_digest(entries_bytes(entries))@).take(length)
    } else {
        Seq::empty()
    }
}

/// Incremental hasher over file entries.
///
/// Entries are fed one at a time, so a caller never has to hold more than
/// one file's contents; the result depends on the order of the entries.
pub struct VersionHasher {
    inner: Sha256State,
}

impl View for VersionHasher {
    type V = Seq<u8>;

    /// The bytes fed so far.
    closed spec fn view(&self) -> Seq<u8> {
        sha256_absorbed(self.inner)
    }
}

impl VersionHasher {
    /// A hasher that has been fed nothing.
    pub fn new() -> (h: Self)
        ensures
            h@ == Seq::<u8>::empty(),
    {
        VersionHasher { inner: sha256_new() }
    }

    /// Feeds one entry: its path, a zero byte, then its contents.
    pub fn update(&mut self, relative_path: &str, bytes: &[u8])
        ensures
            final(self)@ == old(self)@ + entry_bytes(relative_path@, bytes@),
            final(self)@ == old(self)@ + encode_utf8(relative_path@) + seq![0u8] + bytes@,
    {
        sha256_update(&mut self.inner, relative_path.as_bytes());
        let zero: [u8; 1] = [0u8];
        sha256_update(&mut self.inner, zero.as_slice());
        sha256_update(&mut self.inner, bytes);
        assert(final(self)@ =~= old(self)@ + entry_bytes(relative_path@, bytes@));
    }

    /// The first `length` lowercase hex characters of the digest of
    /// everything fed.
    pub fn finalize(self, length: usize) -> (s: String)
        requires
            length <= 64,
        ensures
            s@ == hex_lower(sha256_digest(self@)@).take(length as int),
    {
        let digest = sha256_finalize(self.inner);
        proof {
            vstd::array::array_len_matches_n(&digest);
        }
        hex_prefix(digest.as_slice(), length)
    }
}

impl Default for VersionHasher {
    fn default() -> (h: Self)
        ensures
            h@ == Seq::<u8>::empty(),
    {
        Self::new()
    }
}

/// Hashes the entries in the order given; the empty string when `length`
/// is outside `1..=64`.
pub fn compute_hash(entries: &[FileEntry], length: usize) -> (s: String)
    ensures
        s@ == version_of(entries@.map_values(|e: FileEntry| e@), length as int),
{
    let ghost views = entries@.map_values(|e: FileEntry| e@);
    if length < 1 || length > 64 {
        return String::new();
    }
    let mut hasher = VersionHasher::new();
    let mut i: usize = 0;
    while i < entries.len()
        invariant
            i <= entries@.len(),
            views == entries@.map_values(|e: FileEntry| e@),
            hasher@ == entries_bytes(views.take(i as int)),
        decreases entries@.len() - i,
    {
        let entry = &entries[i];
        hasher.update(entry.relative_path.as_str(), entry.bytes.as_slice());
        i = i + 1;
        assert(views.take(i as int).drop_last() =~= views.take(i - 1));
    }
    assert(views.take(i as int) =~= views);
    hasher.finalize(length)
}

/// Like [`compute_hash`], but a length outside `1..=64` is an error.
pub fn compute_hash_checked(entries: &[FileEntry], length: usize) -> (r: Result<
    String,
    I18nVersionError,
>)
    ensures
        1 <= length <= 64 ==> (r matches Ok(s) && s@ == version_of(
            entries@.map_values(|e: FileEntry| e@),
            length as int,
        )),
        !(1 <= length <= 64) ==> (r matches Err(e) && e@ == I18nVersionErrorView::InvalidLength(
            length as nat,
        )),
{
    if length < 1 || length > 64 {
        return Err(I18nVersionError::InvalidLength(length));
    }
    Ok(compute_hash(entries, length))
}


/// Whether `c` is a lowercase hexadecimal digit (`0`-`9`, `a`-`f`).
pub open spec fn is_lower_hex_digit(c: char) -> bool {
    ('0' <= c && c <= '9') || ('a' <= c && c <= 'f')
}

/// A version of length `n` in `1..=64` has exactly `n` characters, all
/// lowercase hex digits, and is the first `n` characters of every longer
/// version of the same entries; any other length gives the empty string.
pub proof fn lemma_version_shape(entries: Seq<(Seq<char>, Seq<u8>)>, n: int, m: int)
    requires
        n <= m <= 64,
    ensures
        1 <= n ==> version_of(entries, n).len() == n,
        !(1 <= n <= 64) ==> version_of(entries, n).len() == 0,
        forall|i: int|
            0 <= i < version_of(entries, n).len() ==> is_lower_hex_digit(
                #[trigger] version_of(entries, n)[i],
            ),
        1 <= n ==> version_of(entries, n) == version_of(entries, m).take(n),
{
    let digest = sha256_digest(entries_bytes(entries))@;
    lemma_digest_len(entries);
    assert forall|i: int| 0 <= i < version_of(entries, n).len() implies is_lower_hex_digit(
        #[trigger] version_of(entries, n)[i],
    ) by {
        let b = digest[i / 2];
        assert(b / 16 < 16 && b % 16 < 16);
    }
    if 1 <= n {
        assert(version_of(entries, n) =~= version_of(entries, m).take(n));
    }
}

proof fn lemma_digest_len(entries: Seq<(Seq<char>, Seq<u8>)>)
    ensures
        sha256_digest(entries_bytes(entries))@.len() == 32,
{
    vstd::array::array_len_matches_n(&sha256_digest(entries_bytes(entries)));
}


/// Feeding a hasher entry by entry gives what [`compute_hash`] gives. When
/// `states` are the views of a hasher just made with [`VersionHasher::new`]
/// and after each [`VersionHasher::update`] with the entries in order, the
/// last state holds the bytes of all entries, and finalizing it with a
/// length in `1..=64` gives their version.
pub proof fn lemma_hasher_matches_compute_hash(
    entries: Seq<(Seq<char>, Seq<u8>)>,
    states: Seq<Seq<u8>>,
    length: int,
)
    requires
        states.len() == entries.len() + 1,
        states[0] == Seq::<u8>::empty(),
        forall|k: int|
            0 <= k < entries.len() ==> states[k + 1] == #[trigger] states[k] + entry_bytes(
                entries[k].0,
                entries[k].1,
            ),
    ensures
        states.last() == entries_bytes(entries),
        1 <= length <= 64 ==> hex_lower(sha256_digest(states.last())@).take(length) == version_of(
            entries,
            length,
        ),
    decreases entries.len(),
{
    if entries.len() > 0 {
        let n = entries.len() - 1;
        let e = entries.drop_last();
        let st = states.drop_last();
        assert forall|k: int| 0 <= k < e.len() implies st[k + 1] == #[trigger] st[k] + entry_bytes(
            e[k].0,
            e[k].1,
        ) by {
            assert(st[k] == states[k] && st[k + 1] == states[k + 1] && e[k] == entries[k]);
        }
        lemma_hasher_matches_compute_hash(e, st, length);
        assert(states[n + 1] == states[n] + entry_bytes(entries[n].0, entries[n].1));
    }
}


/// The bytes one file contributes are its path in UTF-8, a zero byte, and
/// then every byte of its contents, unchanged and to the end: the last
/// `bytes.len()` bytes fed for an entry are exactly its contents, and two
/// entries with the same path but different contents feed different bytes.
pub proof fn lemma_entry_bytes_hold_all_contents(
    path: Seq<char>,
    bytes: Seq<u8>,
    other: Seq<u8>,
)
    ensures
        entry_bytes(path, bytes) == encode_utf8(path) + seq![0u8] + bytes,
        entry_bytes(path, bytes).len() == encode_utf8(path).len() + 1 + bytes.len(),
        entry_bytes(path, bytes).subrange(
            encode_utf8(path).len() as int + 1,
            entry_bytes(path, bytes).len() as int,
        ) == bytes,
        entry_bytes(path, bytes) == entry_bytes(path, other) ==> bytes == other,
{
    let x = entry_bytes(path, bytes);
    let y = entry_bytes(path, other);
    let start: int = encode_utf8(path).len() as int + 1;
    assert(x.subrange(start as int, x.len() as int) =~= bytes);
    if x == y {
        assert(y.subrange(start as int, y.len() as int) =~= other);
    }
}

} // verus!
