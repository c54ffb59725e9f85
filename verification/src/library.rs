//! Maps a folder of pad audio files to musical keys.
//!
//! Matches by whole filename token (e.g. "C.mp3", "Pad C.flac", "01 - C.mp3");
//! a token must be exactly a key spelling. Files with no key or a same-key
//! conflict go to `Preset::unmapped` for manual resolution instead of being
//! dropped. Listing the folder is left to the caller, which hands in what it
//! found as a `FolderListing`.

use vstd::multiset::Multiset;
use vstd::prelude::*;

use crate::key::{key_at, key_for_alias, key_index, lemma_key_index_inverse, Key};
use crate::model::{views, FilePath, KeyFiles, Preset};
use crate::order::{lemma_path_order_total, path_order, sort_dedup_paths, sort_paths, strictly_sorted};
use vstd::relations::sorted_by;
use crate::text::{lowercase_of, trimmed};

verus! {

// ---------------------------------------------------------------------------
// File names: stem, extension, tokens
// ---------------------------------------------------------------------------

/// Position of the last `.` among the first `n` characters of `f`, or -1.
pub open spec fn last_dot(f: Seq<char>, n: int) -> int
    decreases n,
{
    if n <= 0 {
        -1
    } else if f[n - 1] == '.' {
        n - 1
    } else {
        last_dot(f, n - 1)
    }
}

/// The file name `..`, which has no stem/extension split.
pub open spec fn is_parent_name(f: Seq<char>) -> bool {
    f == seq!['.', '.']
}

/// Stem of a file name: the part before the last `.`, or the whole name when
/// there is no `.` after the first character.
pub open spec fn file_stem_of(f: Seq<char>) -> Seq<char> {
    let d = last_dot(f, f.len() as int);
    if is_parent_name(f) || d <= 0 {
        f
    } else {
        f.take(d)
    }
}

/// Extension of a file name: the part after the last `.`, if that `.` is not
/// the first character.
pub open spec fn extension_of(f: Seq<char>) -> Option<Seq<char>> {
    let d = last_dot(f, f.len() as int);
    if is_parent_name(f) || d <= 0 {
        None
    } else {
        Some(f.skip(d + 1))
    }
}

/// Split a file name into stem and extension, as `Path::file_stem` and
/// `Path::extension` do for a path whose last component is `name`.
pub fn split_file_name(name: &str) -> (r: (&str, Option<&str>))
    ensures
        r.0@ == file_stem_of(name@),
        r.1 matches Some(e) ==> extension_of(name@) == Some(e@),
        r.1 is None ==> extension_of(name@) is None,
{
    let n = name.unicode_len();
    if n == 2 && name.get_char(0) == '.' && name.get_char(1) == '.' {
        proof {
            assert(name@ =~= seq!['.', '.']);
        }
        return (name, None);
    }
    let mut i: usize = n;
    while i > 0 && name.get_char(i - 1) != '.'
        invariant
            n == name@.len(),
            i <= n,
            last_dot(name@, n as int) == last_dot(name@, i as int),
        decreases i,
    {
        i -= 1;
    }
    if i <= 1 {
        (name, None)
    } else {
        let d = i - 1;
        let stem = name.substring_char(0, d);
        let ext = name.substring_char(d + 1, n);
        proof {
            assert(stem@ =~= name@.take(d as int));
            assert(ext@ =~= name@.skip(d + 1));
        }
        (stem, Some(ext))
    }
}

/// Characters that may appear inside a filename token: ASCII letters, digits
/// and `#`.
pub open spec fn is_token_char(c: char) -> bool {
    ||| ('a' <= c && c <= 'z')
    ||| ('A' <= c && c <= 'Z')
    ||| ('0' <= c && c <= '9')
    ||| c == '#'
}

/// Whether `c` may appear inside a filename token.
pub fn token_char(c: char) -> (r: bool)
    ensures
        r == is_token_char(c),
{
    ('a' <= c && c <= 'z') || ('A' <= c && c <= 'Z') || ('0' <= c && c <= '9') || c == '#'
}

/// `cur` as a one-token list, or no token when it is empty.
pub open spec fn token_if_any(cur: Seq<char>) -> Seq<Seq<char>> {
    if cur.len() > 0 {
        seq![cur]
    } else {
        Seq::empty()
    }
}

/// Tokens of `cur + s`, where `cur` is a token already under way: the maximal
/// non-empty runs of token characters.
pub open spec fn tokens_from(s: Seq<char>, cur: Seq<char>) -> Seq<Seq<char>>
    decreases s.len(),
{
    if s.len() == 0 {
        token_if_any(cur)
    } else if is_token_char(s[0]) {
        tokens_from(s.drop_first(), cur.push(s[0]))
    } else {
        token_if_any(cur) + tokens_from(s.drop_first(), Seq::empty())
    }
}

/// Non-empty runs of token characters in `s`, split at every other character.
pub open spec fn tokens(s: Seq<char>) -> Seq<Seq<char>> {
    tokens_from(s, Seq::empty())
}

proof fn lemma_tokens_from_split(a: Seq<char>, c: char, b: Seq<char>, cur: Seq<char>)
    requires
        !is_token_char(c),
    ensures
        tokens_from(a + seq![c] + b, cur) == tokens_from(a, cur) + tokens(b),
    decreases a.len(),
{
    let s = a + seq![c] + b;
    if a.len() == 0 {
        assert(s.drop_first() =~= b);
        assert(s[0] == c);
    } else {
        assert(s[0] == a[0]);
        assert(s.drop_first() =~= a.drop_first() + seq![c] + b);
        if is_token_char(a[0]) {
            lemma_tokens_from_split(a.drop_first(), c, b, cur.push(a[0]));
        } else {
            lemma_tokens_from_split(a.drop_first(), c, b, Seq::empty());
            assert(token_if_any(cur) + (tokens_from(a.drop_first(), Seq::empty()) + tokens(b))
                =~= token_if_any(cur) + tokens_from(a.drop_first(), Seq::empty()) + tokens(b));
        }
    }
}

/// Every character other than an ASCII letter, an ASCII digit or `#` (such as
/// a space, `-`, `_`, `.`, `(` or `)`) separates filename tokens: the tokens of
/// `a`, that character, then `b` are the tokens of `a` followed by those of
/// `b`. So the key read from "Warm Pad (C#)" comes from the tokens "Warm",
/// "Pad" and "C#".
pub proof fn lemma_tokens_split_at_separators(a: Seq<char>, c: char, b: Seq<char>)
    requires
        !(('a' <= c && c <= 'z') || ('A' <= c && c <= 'Z') || ('0' <= c && c <= '9') || c == '#'),
    ensures
        tokens(a + seq![c] + b) == tokens(a) + tokens(b),
{
    lemma_tokens_from_split(a, c, b, Seq::empty());
}

proof fn lemma_tokens_from_shape(s: Seq<char>, cur: Seq<char>)
    requires
        forall|j: int| 0 <= j < cur.len() ==> is_token_char(#[trigger] cur[j]),
    ensures
        forall|i: int| 0 <= i < tokens_from(s, cur).len() ==> (#[trigger] tokens_from(s, cur)[i]).len() > 0,
        forall|i: int, j: int|
            0 <= i < tokens_from(s, cur).len() && 0 <= j < tokens_from(s, cur)[i].len()
                ==> is_token_char(#[trigger] tokens_from(s, cur)[i][j]),
    decreases s.len(),
{
    let r = tokens_from(s, cur);
    let t = token_if_any(cur);
    if s.len() == 0 {
        assert(r == t);
    } else if is_token_char(s[0]) {
        let c2 = cur.push(s[0]);
        assert forall|j: int| 0 <= j < c2.len() implies is_token_char(#[trigger] c2[j]) by {
            if j < cur.len() {
                assert(c2[j] == cur[j]);
            }
        }
        lemma_tokens_from_shape(s.drop_first(), c2);
        assert(r == tokens_from(s.drop_first(), c2));
    } else {
        lemma_tokens_from_shape(s.drop_first(), Seq::empty());
        let rest = tokens_from(s.drop_first(), Seq::empty());
        assert(r == t + rest);
        assert forall|i: int| 0 <= i < r.len() implies (#[trigger] r[i]).len() > 0 && forall|j: int|
            0 <= j < r[i].len() ==> is_token_char(#[trigger] r[i][j]) by {
            if i < t.len() {
                assert(r[i] == cur);
            } else {
                assert(r[i] == rest[i - t.len()]);
            }
        }
    }
}

/// Filename tokens are non-empty and made of ASCII letters, ASCII digits and
/// `#` alone; with `lemma_tokens_split_at_separators` they are the maximal
/// runs of those characters.
pub proof fn lemma_tokens_are_runs(s: Seq<char>)
    ensures
        forall|i: int| 0 <= i < tokens(s).len() ==> (#[trigger] tokens(s)[i]).len() > 0,
        forall|i: int, j: int|
            0 <= i < tokens(s).len() && 0 <= j < tokens(s)[i].len() ==> {
                let c = #[trigger] tokens(s)[i][j];
                ('a' <= c && c <= 'z') || ('A' <= c && c <= 'Z') || ('0' <= c && c <= '9') || c == '#'
            },
{
    lemma_tokens_from_shape(s, Seq::empty());
}

/// A non-empty run of ASCII letters, ASCII digits and `#` is a single token.
pub proof fn lemma_run_is_one_token(t: Seq<char>)
    requires
        t.len() > 0,
        forall|j: int| 0 <= j < t.len() ==> {
            let c = #[trigger] t[j];
            ('a' <= c && c <= 'z') || ('A' <= c && c <= 'Z') || ('0' <= c && c <= '9') || c == '#'
        },
    ensures
        tokens(t) == seq![t],
{
    assert(t.skip(0) =~= t);
    assert(t.take(0) =~= Seq::<char>::empty());
    lemma_run_from(t, 0);
}

proof fn lemma_run_from(t: Seq<char>, k: int)
    requires
        0 <= k <= t.len(),
        t.len() > 0,
        forall|j: int| 0 <= j < t.len() ==> is_token_char(#[trigger] t[j]),
    ensures
        tokens_from(t.skip(k), t.take(k)) == seq![t],
    decreases t.len() - k,
{
    if k == t.len() {
        assert(t.take(k) =~= t);
        assert(t.skip(k).len() == 0);
    } else {
        assert(t.skip(k)[0] == t[k]);
        assert(t.skip(k).drop_first() =~= t.skip(k + 1));
        assert(t.take(k).push(t[k]) =~= t.take(k + 1));
        lemma_run_from(t, k + 1);
    }
}

/// The key `Key::parse` finds in a string.
pub open spec fn parsed_key(t: Seq<char>) -> Option<Key> {
    key_for_alias(lowercase_of(trimmed(t)))
}

/// The first key that a token of `ts` names.
pub open spec fn first_parsed(ts: Seq<Seq<char>>) -> Option<Key>
    decreases ts.len(),
{
    if ts.len() == 0 {
        None
    } else if parsed_key(ts[0]) is Some {
        parsed_key(ts[0])
    } else {
        first_parsed(ts.drop_first())
    }
}

/// The key a file name implies: the first token of its lowercased stem that
/// names a key.
pub open spec fn key_from_name(f: Seq<char>) -> Option<Key> {
    first_parsed(tokens(lowercase_of(file_stem_of(f))))
}

proof fn lemma_first_parsed_concat(a: Seq<Seq<char>>, b: Seq<Seq<char>>)
    requires
        first_parsed(a) is None,
    ensures
        first_parsed(a + b) == first_parsed(b),
    decreases a.len(),
{
    if a.len() > 0 {
        assert((a + b).drop_first() =~= a.drop_first() + b);
        lemma_first_parsed_concat(a.drop_first(), b);
    } else {
        assert(a + b =~= b);
    }
}

/// First filename-stem token that names a key.
pub fn key_from_filename(file_name: &str) -> (r: Option<Key>)
    ensures
        r == key_from_name(file_name@),
{
    let (stem, _) = split_file_name(file_name);
    let lower = crate::text::to_lowercase(stem);
    key_from_tokens(lower.as_str())
}

/// The first key that a token of `s` names, tokens being the maximal runs of
/// ASCII letters, digits and `#`.
pub fn key_from_tokens(s: &str) -> (r: Option<Key>)
    ensures
        r == first_parsed(tokens(s@)),
{
    let ghost sv = s@;
    let n = s.unicode_len();
    let mut start: usize = 0;
    let mut i: usize = 0;
    let ghost mut emitted: Seq<Seq<char>> = Seq::empty();
    proof {
        assert(sv.skip(0) =~= sv);
        assert(sv.subrange(0, 0) =~= Seq::<char>::empty());
        assert(emitted + tokens_from(sv.skip(0), sv.subrange(0, 0)) =~= tokens(sv));
    }
    while i < n
        invariant
            sv == s@,
            n == sv.len(),
            start <= i <= n,
            first_parsed(emitted) is None,
            emitted + tokens_from(sv.skip(i as int), sv.subrange(start as int, i as int)) == tokens(sv),
        decreases n - i,
    {
        let c = s.get_char(i);
        let ghost cur = sv.subrange(start as int, i as int);
        let ghost rest = sv.skip(i as int);
        proof {
            assert(rest[0] == c);
            assert(rest.drop_first() =~= sv.skip(i + 1));
        }
        if !token_char(c) {
            proof {
                assert(tokens_from(rest, cur) == token_if_any(cur) + tokens_from(sv.skip(i + 1), Seq::empty()));
            }
            if start < i {
                let t = s.substring_char(start, i);
                let k = Key::parse(t);
                if k.is_some() {
                    proof {
                        assert(t@ == cur);
                        assert(token_if_any(cur) =~= seq![cur]);
                        lemma_first_parsed_concat(emitted, seq![cur] + tokens_from(sv.skip(i + 1), Seq::empty()));
                        assert((seq![cur] + tokens_from(sv.skip(i + 1), Seq::empty()))[0] == cur);
                        assert(emitted + (seq![cur] + tokens_from(sv.skip(i + 1), Seq::empty())) =~= tokens(sv));
                    }
                    return k;
                }
                proof {
                    assert(t@ == cur);
                    let e2 = emitted.push(cur);
                    lemma_first_parsed_concat(emitted, seq![cur]);
                    assert(emitted + seq![cur] =~= e2);
                    assert(seq![cur].drop_first() =~= Seq::<Seq<char>>::empty());
                    assert(parsed_key(cur) is None);
                    assert(first_parsed(seq![cur].drop_first()) is None);
                    assert(first_parsed(seq![cur]) is None);
                    assert(token_if_any(cur) =~= seq![cur]);
                    assert(e2 + tokens_from(sv.skip(i + 1), Seq::empty()) =~= emitted + (token_if_any(cur) + tokens_from(sv.skip(i + 1), Seq::empty())));
                    emitted = e2;
                }
            } else {
                proof {
                    assert(cur.len() == 0);
                    assert(token_if_any(cur) =~= Seq::<Seq<char>>::empty());
                    assert(token_if_any(cur) + tokens_from(sv.skip(i + 1), Seq::empty()) =~= tokens_from(sv.skip(i + 1), Seq::empty()));
                }
            }
            start = i + 1;
            proof {
                assert(sv.subrange(start as int, i + 1) =~= Seq::<char>::empty());
            }
        } else {
            proof {
                assert(cur.push(c) =~= sv.subrange(start as int, i + 1));
            }
        }
        i += 1;
    }
    let ghost cur = sv.subrange(start as int, n as int);
    proof {
        assert(sv.skip(n as int) =~= Seq::<char>::empty());
        assert(tokens_from(sv.skip(n as int), cur) == token_if_any(cur));
    }
    if start < n {
        let t = s.substring_char(start, n);
        proof {
            assert(t@ == cur);
            assert(token_if_any(cur) =~= seq![cur]);
            lemma_first_parsed_concat(emitted, seq![cur]);
            assert(seq![cur].drop_first() =~= Seq::<Seq<char>>::empty());
        }
        Key::parse(t)
    } else {
        proof {
            assert(token_if_any(cur) =~= Seq::<Seq<char>>::empty());
            assert(emitted + Seq::<Seq<char>>::empty() =~= emitted);
        }
        None
    }
}

// ---------------------------------------------------------------------------
// Audio extensions
// ---------------------------------------------------------------------------

/// Extensions (lowercase) of the audio files a preset can use.
pub open spec fn audio_exts() -> Seq<Seq<char>> {
    seq![
        seq!['m', 'p', '3'],
        seq!['w', 'a', 'v'],
        seq!['f', 'l', 'a', 'c'],
        seq!['o', 'g', 'g'],
        seq!['m', '4', 'a'],
        seq!['a', 'a', 'c'],
    ]
}

/// A file name whose lowercased extension is an audio extension.
pub open spec fn has_audio_ext_spec(f: Seq<char>) -> bool {
    match extension_of(f) {
        Some(e) => audio_exts().contains(lowercase_of(e)),
        None => false,
    }
}

/// Whether `e` is one of the audio extensions, as written (no case folding).
pub fn is_audio_ext(e: &str) -> (r: bool)
    ensures
        r == audio_exts().contains(e@),
{
    proof {
        reveal_strlit("mp3");
        reveal_strlit("wav");
        reveal_strlit("flac");
        reveal_strlit("ogg");
        reveal_strlit("m4a");
        reveal_strlit("aac");
        let x = audio_exts();
        assert(x[0] == "mp3"@ && x[1] == "wav"@ && x[2] == "flac"@);
        assert(x[3] == "ogg"@ && x[4] == "m4a"@ && x[5] == "aac"@);
    }
    let r = crate::text::str_eq(e, "mp3") || crate::text::str_eq(e, "wav") || crate::text::str_eq(
        e,
        "flac",
    ) || crate::text::str_eq(e, "ogg") || crate::text::str_eq(e, "m4a") || crate::text::str_eq(
        e,
        "aac",
    );
    r
}

/// Whether the file name has an audio extension (case-insensitive).
pub fn has_audio_ext(file_name: &str) -> (r: bool)
    ensures
        r == has_audio_ext_spec(file_name@),
{
    let (_, ext) = split_file_name(file_name);
    match ext {
        Some(e) => {
            let lower = crate::text::to_lowercase(e);
            is_audio_ext(lower.as_str())
        },
        None => false,
    }
}

/// Display name of a preset scanned from a folder: the folder's own name, or
/// "Preset" when it has none.
pub open spec fn display_name_of(folder_name: Option<Seq<char>>) -> Seq<char> {
    match folder_name {
        Some(n) => n,
        None => "Preset"@,
    }
}

/// The folder's own name, or "Preset" when it has none.
pub fn folder_display_name(folder_name: Option<&str>) -> (r: String)
    ensures
        r@ == display_name_of(
            match folder_name {
                Some(n) => Some(n@),
                None => None,
            },
        ),
{
    match folder_name {
        Some(n) => String::from_str(n),
        None => String::from_str("Preset"),
    }
}

// ---------------------------------------------------------------------------
// Folder scan
// ---------------------------------------------------------------------------

/// One directory entry as the folder listing reports it.
#[derive(Clone, Debug, PartialEq, Eq)]
pub struct FileEntry {
    /// Full path of the entry.
    pub path: FilePath,
    /// Last component of the path. When the name is not valid Unicode this
    /// is a lossy rendering of it.
    pub file_name: String,
    /// Whether the name is valid Unicode; no key is read from a name that is not.
    pub name_is_text: bool,
    /// Whether the entry is a regular file.
    pub is_file: bool,
}

/// What a folder listing found.
#[derive(Clone, Debug, PartialEq, Eq)]
pub struct FolderListing {
    /// The folder's path as text, which names the preset scanned from it.
    pub folder_text: String,
    /// The folder's path.
    pub folder: FilePath,
    /// The folder's own name (last component), if it has one.
    pub folder_name: Option<String>,
    /// The folder's entries, in any order.
    pub entries: Vec<FileEntry>,
}

/// A regular file with an audio extension.
pub open spec fn is_audio_entry(e: FileEntry) -> bool {
    e.is_file && has_audio_ext_spec(e.file_name@)
}

/// The key an entry's name implies; none for a name that is not valid Unicode.
pub open spec fn entry_key(e: FileEntry) -> Option<Key> {
    if e.name_is_text {
        key_from_name(e.file_name@)
    } else {
        None
    }
}

/// `e` is an audio file whose name implies key `k`.
pub open spec fn claims(e: FileEntry, k: Key) -> bool {
    is_audio_entry(e) && entry_key(e) == Some(k)
}

/// The audio files of `es` whose names imply key `k`, in listing order.
pub open spec fn claimants(es: Seq<FileEntry>, k: Key) -> Seq<FileEntry> {
    es.filter(|e: FileEntry| claims(e, k))
}

/// `e` is the only audio file of `es` claiming its key, so the scan assigns it.
pub open spec fn auto_assigned(es: Seq<FileEntry>, e: FileEntry) -> bool {
    &&& is_audio_entry(e)
    &&& entry_key(e) matches Some(k)
    &&& claimants(es, k).len() == 1
}

/// Key map of a scan: each key claimed by exactly one audio file gets it.
pub open spec fn scan_files(es: Seq<FileEntry>) -> Map<Key, Seq<Seq<char>>> {
    Map::new(|k: Key| claimants(es, k).len() == 1, |k: Key| claimants(es, k)[0].path@)
}

/// Audio files of a scan that no key took, in listing order.
pub open spec fn scan_leftovers(es: Seq<FileEntry>) -> Seq<FileEntry> {
    es.filter(|e: FileEntry| is_audio_entry(e) && !auto_assigned(es, e))
}

/// Unmapped paths of a scan: the leftovers' paths, sorted.
pub open spec fn scan_unmapped(es: Seq<FileEntry>) -> Seq<Seq<Seq<char>>> {
    scan_leftovers(es).map_values(|e: FileEntry| e.path@).sort_by(path_order())
}

/// `p` is what scanning the listing `l`, with optional display name `name`,
/// yields.
pub open spec fn is_scan_of(l: FolderListing, name: Option<Seq<char>>, p: Preset) -> bool {
    &&& p.id@ == l.folder_text@
    &&& p.folder@ == l.folder@
    &&& p.name@ == match name {
        Some(n) => n,
        None => display_name_of(
            match l.folder_name {
                Some(f) => Some(f@),
                None => None,
            },
        ),
    }
    &&& p.files@ == scan_files(l.entries@)
    &&& views(p.unmapped@) == scan_unmapped(l.entries@)
}

proof fn lemma_claimants_step(es: Seq<FileEntry>, i: int, k: Key)
    requires
        0 <= i < es.len(),
    ensures
        claimants(es.take(i + 1), k) == if claims(es[i], k) {
            claimants(es.take(i), k).push(es[i])
        } else {
            claimants(es.take(i), k)
        },
{
    assert(es.take(i + 1) =~= es.take(i).push(es[i]));
    es.take(i).lemma_filter_push(es[i], |e: FileEntry| claims(e, k));
}

proof fn lemma_claimants_split(es: Seq<FileEntry>, i: int, k: Key)
    requires
        0 <= i <= es.len(),
    ensures
        claimants(es, k) == claimants(es.take(i), k) + claimants(es.skip(i), k),
{
    assert(es =~= es.take(i) + es.skip(i));
    Seq::filter_distributes_over_add(es.take(i), es.skip(i), |e: FileEntry| claims(e, k));
}

/// Scan a folder listing: keys claimed by exactly one audio file are
/// auto-assigned; ambiguous or keyless audio files go to `unmapped`, sorted.
/// `name` overrides the display name (default: the folder's name). A listing
/// that failed is passed through as the error.
pub fn scan_preset(listing: Result<FolderListing, String>, name: Option<String>) -> (r: Result<
    Preset,
    String,
>)
    ensures
        listing matches Err(e) ==> r == Err::<Preset, String>(e),
        listing matches Ok(l) ==> (r matches Ok(p) && is_scan_of(
            l,
            match name {
                Some(n) => Some(n@),
                None => None,
            },
            p,
        )),
{
    let l = match listing {
        Err(e) => return Err(e),
        Ok(l) => l,
    };
    let ghost es = l.entries@;
    let n = l.entries.len();

    // The key each entry implies (None for non-audio entries), and how many
    // audio files claim each key.
    let mut keys: Vec<Option<Key>> = Vec::new();
    let mut counts: Vec<usize> = vec![0, 0, 0, 0, 0, 0, 0, 0, 0, 0, 0, 0];
    let mut i: usize = 0;
    while i < n
        invariant
            n == es.len(),
            es == l.entries@,
            i <= n,
            keys@.len() == i,
            forall|j: int| 0 <= j < i ==> (#[trigger] keys@[j]) == if is_audio_entry(es[j]) {
                entry_key(es[j])
            } else {
                None
            },
            counts@.len() == 12,
            forall|k: Key| #[trigger] counts@[key_index(k)] == claimants(es.take(i as int), k).len(),
            forall|k: Key| #[trigger] counts@[key_index(k)] <= i,
        decreases n - i,
    {
        let e = &l.entries[i];
        let key = if e.is_file && has_audio_ext(e.file_name.as_str()) && e.name_is_text {
            key_from_filename(e.file_name.as_str())
        } else {
            None
        };
        proof {
            assert forall|k: Key| true implies claimants(es.take(i + 1), k) == if claims(es[i as int], k) {
                claimants(es.take(i as int), k).push(es[i as int])
            } else {
                claimants(es.take(i as int), k)
            } by {
                lemma_claimants_step(es, i as int, k);
            }
        }
        let ghost counts_before = counts@;
        match key {
            Some(k) => {
                let idx = k.index();
                let c = counts[idx];
                counts.set(idx, c + 1);
                proof {
                    assert forall|k2: Key| #[trigger] key_index(k2) == idx implies k2 == k by {}
                }
            },
            None => {},
        }
        proof {
            assert forall|k2: Key| #[trigger] counts@[key_index(k2)] == claimants(es.take(i + 1), k2).len() by {
                lemma_claimants_step(es, i as int, k2);
                assert(counts_before[key_index(k2)] == claimants(es.take(i as int), k2).len());
                if key == Some(k2) {
                    assert(claims(es[i as int], k2));
                } else {
                    assert(!claims(es[i as int], k2));
                    if key is Some {
                        assert(key_index(key->0) != key_index(k2));
                    }
                }
            }
        }
        keys.push(key);
        i += 1;
    }
    proof {
        assert(es.take(n as int) =~= es);
    }

    // One claimant → auto-assign; conflicts and keyless files → `unmapped`.
    let mut files = KeyFiles::new();
    let mut unmapped: Vec<FilePath> = Vec::new();
    let mut i: usize = 0;
    while i < n
        invariant
            n == es.len(),
            es == l.entries@,
            i <= n,
            keys@.len() == n,
            forall|j: int| 0 <= j < n ==> (#[trigger] keys@[j]) == if is_audio_entry(es[j]) {
                entry_key(es[j])
            } else {
                None
            },
            counts@.len() == 12,
            forall|k: Key| #[trigger] counts@[key_index(k)] == claimants(es, k).len(),
            forall|k: Key| #[trigger] files@.contains_key(k) <==> (claimants(es, k).len() == 1
                && claimants(es.take(i as int), k).len() == 1),
            forall|k: Key| #[trigger] files@.contains_key(k) ==> files@[k] == claimants(es, k)[0].path@,
            views(unmapped@) == es.take(i as int).filter(
                |e: FileEntry| is_audio_entry(e) && !auto_assigned(es, e),
            ).map_values(|e: FileEntry| e.path@),
        decreases n - i,
    {
        let e = &l.entries[i];
        let ghost pred = |e: FileEntry| is_audio_entry(e) && !auto_assigned(es, e);
        let ghost before = views(unmapped@);
        proof {
            assert forall|k: Key| true implies claimants(es.take(i + 1), k) == if claims(es[i as int], k) {
                claimants(es.take(i as int), k).push(es[i as int])
            } else {
                claimants(es.take(i as int), k)
            } by {
                lemma_claimants_step(es, i as int, k);
            }
            assert(es.take(i + 1) =~= es.take(i as int).push(es[i as int]));
            es.take(i as int).lemma_filter_push(es[i as int], pred);
        }
        let audio = e.is_file && has_audio_ext(e.file_name.as_str());
        if audio {
            match keys[i] {
                Some(k) if counts[k.index()] == 1 => {
                    let ghost files_before = files@;
                    proof {
                        lemma_claimants_split(es, i + 1, k);
                        assert(claims(es[i as int], k));
                        assert(claimants(es.take(i as int), k).len() == 0);
                        assert(claimants(es.take(i + 1), k) =~= seq![es[i as int]]);
                        assert(claimants(es, k)[0] == es[i as int]);
                        assert(auto_assigned(es, es[i as int]));
                    }
                    files.insert(k, e.path.copy());
                    proof {
                        assert forall|k2: Key| #[trigger] files@.contains_key(k2) <==> (claimants(es, k2).len() == 1
                            && claimants(es.take(i + 1), k2).len() == 1) by {
                            lemma_claimants_step(es, i as int, k2);
                            if k2 != k {
                                assert(!claims(es[i as int], k2));
                                assert(files@.contains_key(k2) == files_before.contains_key(k2));
                            }
                        }
                        assert(views(unmapped@) =~= es.take(i + 1).filter(pred).map_values(|e: FileEntry| e.path@));
                    }
                },
                _ => {
                    proof {
                        assert(!auto_assigned(es, es[i as int]));
                        assert forall|k2: Key| #[trigger] files@.contains_key(k2) <==> (claimants(es, k2).len() == 1
                            && claimants(es.take(i + 1), k2).len() == 1) by {
                            if claims(es[i as int], k2) {
                                lemma_claimants_split(es, i + 1, k2);
                                assert(claimants(es, k2).len() != 1);
                            }
                        }
                    }
                    unmapped.push(e.path.copy());
                    proof {
                        assert(views(unmapped@) =~= before.push(es[i as int].path@));
                        assert(es.take(i + 1).filter(pred) == es.take(i as int).filter(pred).push(es[i as int]));
                        assert(views(unmapped@) =~= es.take(i + 1).filter(pred).map_values(|e: FileEntry| e.path@));
                    }
                },
            }
        } else {
            proof {
                assert forall|k2: Key| #[trigger] files@.contains_key(k2) <==> (claimants(es, k2).len() == 1
                    && claimants(es.take(i + 1), k2).len() == 1) by {
                    lemma_claimants_step(es, i as int, k2);
                    assert(!claims(es[i as int], k2));
                }
                assert(es.take(i + 1).filter(pred) == es.take(i as int).filter(pred));
            }
        }
        i += 1;
    }
    proof {
        assert(es.take(n as int) =~= es);
        assert(files@ =~= scan_files(es));
    }
    let unmapped = sort_paths(unmapped);
    let display = match name {
        Some(n) => n,
        None => match &l.folder_name {
            Some(f) => folder_display_name(Some(f.as_str())),
            None => folder_display_name(None),
        },
    };
    Ok(Preset { id: l.folder_text.clone(), name: display, folder: l.folder, files, unmapped })
}

// ---------------------------------------------------------------------------
// Re-scan preserving manual assignments
// ---------------------------------------------------------------------------

/// `p` is one of the files a fresh scan found: mapped to a key or unmapped.
pub open spec fn on_disk(fresh_files: Map<Key, Seq<Seq<char>>>, fresh_unmapped: Seq<Seq<Seq<char>>>, p: Seq<Seq<char>>) -> bool {
    fresh_files.contains_value(p) || fresh_unmapped.contains(p)
}

/// The earlier assignment of `k` survives: it exists and its file is still on disk.
pub open spec fn keeps_choice(
    old_files: Map<Key, Seq<Seq<char>>>,
    fresh_files: Map<Key, Seq<Seq<char>>>,
    fresh_unmapped: Seq<Seq<Seq<char>>>,
    k: Key,
) -> bool {
    old_files.contains_key(k) && on_disk(fresh_files, fresh_unmapped, old_files[k])
}

/// Key map after a merge: the fresh auto-mapping, overridden by every earlier
/// assignment whose file is still on disk.
pub open spec fn merged_files(
    old_files: Map<Key, Seq<Seq<char>>>,
    fresh_files: Map<Key, Seq<Seq<char>>>,
    fresh_unmapped: Seq<Seq<Seq<char>>>,
) -> Map<Key, Seq<Seq<char>>> {
    Map::new(
        |k: Key| keeps_choice(old_files, fresh_files, fresh_unmapped, k) || fresh_files.contains_key(k),
        |k: Key|
            if keeps_choice(old_files, fresh_files, fresh_unmapped, k) {
                old_files[k]
            } else {
                fresh_files[k]
            },
    )
}

/// Unmapped list after a merge: every file on disk that no key has, sorted,
/// each once.
pub open spec fn is_merged_unmapped(
    files: Map<Key, Seq<Seq<char>>>,
    fresh_files: Map<Key, Seq<Seq<char>>>,
    fresh_unmapped: Seq<Seq<Seq<char>>>,
    unmapped: Seq<Seq<Seq<char>>>,
) -> bool {
    &&& strictly_sorted(unmapped)
    &&& forall|p: Seq<Seq<char>>| #[trigger] unmapped.contains(p) <==> (on_disk(fresh_files, fresh_unmapped, p)
        && !files.contains_value(p))
}

/// `r` is `fresh` with the still-valid manual assignments of `old` merged in.
pub open spec fn is_merge_of(old: Preset, fresh: Preset, r: Preset) -> bool {
    &&& r.id == fresh.id
    &&& r.name == fresh.name
    &&& r.folder == fresh.folder
    &&& r.files@ == merged_files(old.files@, fresh.files@, views(fresh.unmapped@))
    &&& is_merged_unmapped(r.files@, fresh.files@, views(fresh.unmapped@), views(r.unmapped@))
}

/// Whether `v` holds a path equal to `p`.
fn contains_path(v: &Vec<FilePath>, p: &FilePath) -> (r: bool)
    ensures
        r == views(v@).contains(p@),
{
    let n = v.len();
    let mut i: usize = 0;
    while i < n
        invariant
            n == v@.len(),
            i <= n,
            forall|j: int| 0 <= j < i ==> (#[trigger] v@[j])@ != p@,
        decreases n - i,
    {
        if crate::order::file_path_eq(&v[i], p) {
            proof {
                assert(views(v@)[i as int] == p@);
            }
            return true;
        }
        i += 1;
    }
    proof {
        assert forall|j: int| 0 <= j < views(v@).len() implies views(v@)[j] != p@ by {
            assert(views(v@)[j] == v@[j]@);
        }
    }
    false
}

/// In-memory merge of a fresh scan onto an existing preset's manual mappings:
/// manual choices win; only files still on disk are kept; every file on disk
/// that ends up with no key is unmapped.
pub fn merge_scan(old: &Preset, fresh: Preset) -> (r: Preset)
    ensures
        is_merge_of(*old, fresh, r),
{
    let ghost fresh0 = fresh;
    let Preset { id, name, folder, files: fresh_files, unmapped: fresh_unmapped } = fresh;
    let ghost ff = fresh_files@;
    let ghost fu = views(fresh_unmapped@);
    let ghost of = old.files@;

    // All audio files currently on disk.
    let mut universe: Vec<FilePath> = Vec::new();
    let mut i: usize = 0;
    while i < 12
        invariant
            ff == fresh_files@,
            i <= 12,
            forall|p: Seq<Seq<char>>| #[trigger] views(universe@).contains(p) <==> exists|j: int|
                0 <= j < i && ff.contains_key(#[trigger] key_at(j)) && ff[key_at(j)] == p,
        decreases 12 - i,
    {
        let ghost before = views(universe@);
        let k = Key::from_index(i);
        match fresh_files.get(k) {
            Some(p) => {
                universe.push(p.copy());
                proof {
                    assert(views(universe@) =~= before.push(p@));
                    assert forall|q: Seq<Seq<char>>| #[trigger] views(universe@).contains(q) <==> exists|j: int|
                        0 <= j < i + 1 && ff.contains_key(#[trigger] key_at(j)) && ff[key_at(j)] == q by {
                        if q == p@ {
                            assert(ff.contains_key(key_at(i as int)) && ff[key_at(i as int)] == q);
                            assert(views(universe@)[before.len() as int] == q);
                        }
                        if views(universe@).contains(q) && q != p@ {
                            let m = choose|m: int| 0 <= m < views(universe@).len() && #[trigger] views(universe@)[m] == q;
                            assert(before[m] == q);
                        }
                        if before.contains(q) {
                            let m = choose|m: int| 0 <= m < before.len() && #[trigger] before[m] == q;
                            assert(views(universe@)[m] == q);
                        }
                    }
                }
            },
            None => {
                proof {
                    assert forall|q: Seq<Seq<char>>| #[trigger] views(universe@).contains(q) <==> exists|j: int|
                        0 <= j < i + 1 && ff.contains_key(#[trigger] key_at(j)) && ff[key_at(j)] == q by {
                        if exists|j: int| 0 <= j < i + 1 && ff.contains_key(#[trigger] key_at(j)) && ff[key_at(j)] == q {
                            let j = choose|j: int| 0 <= j < i + 1 && ff.contains_key(#[trigger] key_at(j)) && ff[key_at(j)] == q;
                            assert(j != i);
                        }
                    }
                }
            },
        }
        i += 1;
    }
    proof {
        assert forall|p: Seq<Seq<char>>| #[trigger] views(universe@).contains(p) <==> ff.contains_value(p) by {
            if ff.contains_value(p) {
                let k = choose|k: Key| #[trigger] ff.dom().contains(k) && ff[k] == p;
                lemma_key_index_inverse(k);
                assert(ff.contains_key(key_at(key_index(k))));
            }
        }
    }
    let ghost mapped_part = views(universe@);
    let m = fresh_unmapped.len();
    let mut j: usize = 0;
    while j < m
        invariant
            m == fresh_unmapped@.len(),
            fu == views(fresh_unmapped@),
            j <= m,
            views(universe@) == mapped_part + fu.take(j as int),
        decreases m - j,
    {
        let ghost before = views(universe@);
        universe.push(fresh_unmapped[j].copy());
        proof {
            assert(views(universe@) =~= before.push(fu[j as int]));
            assert(fu.take(j + 1) =~= fu.take(j as int).push(fu[j as int]));
            assert(views(universe@) =~= mapped_part + fu.take(j + 1));
        }
        j += 1;
    }
    proof {
        assert(fu.take(m as int) =~= fu);
        assert forall|p: Seq<Seq<char>>| #[trigger] views(universe@).contains(p) <==> on_disk(ff, fu, p) by {
            let u = views(universe@);
            if u.contains(p) {
                let x = choose|x: int| 0 <= x < u.len() && #[trigger] u[x] == p;
                if x < mapped_part.len() {
                    assert(mapped_part[x] == p);
                    assert(mapped_part.contains(p));
                } else {
                    assert(fu[x - mapped_part.len()] == p);
                }
            }
            if mapped_part.contains(p) {
                let x = choose|x: int| 0 <= x < mapped_part.len() && #[trigger] mapped_part[x] == p;
                assert(u[x] == p);
            }
            if fu.contains(p) {
                let x = choose|x: int| 0 <= x < fu.len() && #[trigger] fu[x] == p;
                assert(u[mapped_part.len() + x] == p);
            }
        }
    }

    // Fresh auto-mapping, overridden by surviving manual choices.
    let mut files = fresh_files;
    let mut i: usize = 0;
    while i < 12
        invariant
            i <= 12,
            forall|p: Seq<Seq<char>>| #[trigger] views(universe@).contains(p) <==> on_disk(ff, fu, p),
            of == old.files@,
            files@ == Map::new(
                |k: Key| (key_index(k) < i && keeps_choice(of, ff, fu, k)) || ff.contains_key(k),
                |k: Key|
                    if key_index(k) < i && keeps_choice(of, ff, fu, k) {
                        of[k]
                    } else {
                        ff[k]
                    },
            ),
        decreases 12 - i,
    {
        let k = Key::from_index(i);
        let ghost before = files@;
        match old.files.get(k) {
            Some(p) => {
                if contains_path(&universe, p) {
                    files.insert(k, p.copy());
                    proof {
                        assert forall|k2: Key| #[trigger] key_index(k2) == i implies k2 == k by {
                            lemma_key_index_inverse(k2);
                        }
                    }
                } else {
                    proof {
                        assert forall|k2: Key| #[trigger] key_index(k2) == i implies k2 == k by {
                            lemma_key_index_inverse(k2);
                        }
                    }
                }
            },
            None => {
                proof {
                    assert forall|k2: Key| #[trigger] key_index(k2) == i implies k2 == k by {
                        lemma_key_index_inverse(k2);
                    }
                }
            },
        }
        proof {
            assert(files@ =~= Map::new(
                |k: Key| (key_index(k) < i + 1 && keeps_choice(of, ff, fu, k)) || ff.contains_key(k),
                |k: Key|
                    if key_index(k) < i + 1 && keeps_choice(of, ff, fu, k) {
                        of[k]
                    } else {
                        ff[k]
                    },
            ));
        }
        i += 1;
    }
    proof {
        assert forall|k: Key| key_index(k) < 12 by {
            lemma_key_index_inverse(k);
        }
        assert(files@ =~= merged_files(of, ff, fu));
    }

    // Files on disk that no key has are unmapped.
    let ghost fm = files@;
    let n = universe.len();
    let mut left: Vec<FilePath> = Vec::new();
    let mut j: usize = 0;
    while j < n
        invariant
            n == universe@.len(),
            fm == files@,
            j <= n,
            forall|p: Seq<Seq<char>>| #[trigger] views(left@).contains(p) <==> (views(universe@).take(j as int).contains(p)
                && !fm.contains_value(p)),
        decreases n - j,
    {
        let ghost before = views(left@);
        let ghost u = views(universe@);
        proof {
            assert(u.take(j + 1) =~= u.take(j as int).push(u[j as int]));
            assert forall|p: Seq<Seq<char>>| before.contains(p) <==> (u.take(j as int).contains(p)
                && !fm.contains_value(p)) by {
                assert(views(left@).contains(p) <==> (views(universe@).take(j as int).contains(p)
                    && !fm.contains_value(p)));
            }
        }
        if !files.has_file(&universe[j]) {
            left.push(universe[j].copy());
            proof {
                assert(views(left@) =~= before.push(u[j as int]));
                assert forall|p: Seq<Seq<char>>| #[trigger] views(left@).contains(p) <==> (u.take(j + 1).contains(p)
                    && !fm.contains_value(p)) by {
                    let a = views(left@);
                    let t0 = u.take(j as int);
                    let t1 = u.take(j + 1);
                    if a.contains(p) {
                        let x = choose|x: int| 0 <= x < a.len() && #[trigger] a[x] == p;
                        if x < before.len() {
                            assert(before[x] == p);
                            assert(before.contains(p));
                            let y = choose|y: int| 0 <= y < t0.len() && #[trigger] t0[y] == p;
                            assert(t1[y] == p);
                        } else {
                            assert(t1[j as int] == p);
                        }
                    }
                    if t1.contains(p) && !fm.contains_value(p) {
                        let y = choose|y: int| 0 <= y < t1.len() && #[trigger] t1[y] == p;
                        if y < j {
                            assert(t0[y] == p);
                            assert(t0.contains(p));
                            let x = choose|x: int| 0 <= x < before.len() && #[trigger] before[x] == p;
                            assert(a[x] == p);
                        } else {
                            assert(a[before.len() as int] == p);
                        }
                    }
                }
            }
        } else {
            proof {
                assert forall|p: Seq<Seq<char>>| #[trigger] views(left@).contains(p) <==> (u.take(j + 1).contains(p)
                    && !fm.contains_value(p)) by {
                    let t0 = u.take(j as int);
                    let t1 = u.take(j + 1);
                    if t1.contains(p) && !fm.contains_value(p) {
                        let y = choose|y: int| 0 <= y < t1.len() && #[trigger] t1[y] == p;
                        assert(y != j);
                        assert(t0[y] == p);
                    }
                    if t0.contains(p) {
                        let y = choose|y: int| 0 <= y < t0.len() && #[trigger] t0[y] == p;
                        assert(t1[y] == p);
                    }
                }
            }
        }
        j += 1;
    }
    proof {
        assert(views(universe@).take(n as int) =~= views(universe@));
    }
    let unmapped = sort_dedup_paths(left);
    Preset { id, name, folder, files, unmapped }
}

/// Re-scan a preset's folder listing, preserving the user's manual key
/// assignments: the scan uses `name`, else the preset's current name, and is
/// then merged onto `old`. A listing that failed is passed through as the error.
pub fn rescan_preserving(old: &Preset, listing: Result<FolderListing, String>, name: Option<String>) -> (r: Result<
    Preset,
    String,
>)
    ensures
        listing matches Err(e) ==> r == Err::<Preset, String>(e),
        listing matches Ok(l) ==> (r matches Ok(p) && {
            let es = l.entries@;
            &&& p.id@ == l.folder_text@
            &&& p.folder@ == l.folder@
            &&& p.name@ == match name {
                Some(n) => n@,
                None => old.name@,
            }
            &&& p.files@ == merged_files(old.files@, scan_files(es), scan_unmapped(es))
            &&& is_merged_unmapped(p.files@, scan_files(es), scan_unmapped(es), views(p.unmapped@))
        }),
{
    let name = match name {
        Some(n) => Some(n),
        None => Some(old.name.clone()),
    };
    match scan_preset(listing, name) {
        Err(e) => Err(e),
        Ok(fresh) => Ok(merge_scan(old, fresh)),
    }
}

// ---------------------------------------------------------------------------
// Laws of the scan and the merge
// ---------------------------------------------------------------------------

/// Scanning accounts for every audio file exactly once: the sole claimant of a
/// key is mapped to it, every other audio file is unmapped, nothing else
/// appears, and the unmapped list is sorted.
pub proof fn lemma_scan_partition(es: Seq<FileEntry>)
    ensures
        forall|i: int|
            0 <= i < es.len() && #[trigger] auto_assigned(es, es[i]) ==> scan_files(es)[entry_key(es[i])->0] == es[i].path@ && scan_files(es).contains_key(entry_key(es[i])->0),
        forall|i: int|
            0 <= i < es.len() && is_audio_entry(es[i]) && !auto_assigned(es, es[i])
                ==> #[trigger] scan_unmapped(es).contains(es[i].path@),
        forall|k: Key|
            #[trigger] scan_files(es).contains_key(k) ==> exists|i: int|
                0 <= i < es.len() && claims(es[i], k) && auto_assigned(es, es[i]) && (#[trigger] es[i]).path@
                    == scan_files(es)[k],
        forall|p: Seq<Seq<char>>|
            #[trigger] scan_unmapped(es).contains(p) ==> exists|i: int|
                0 <= i < es.len() && is_audio_entry(es[i]) && !auto_assigned(es, es[i]) && (#[trigger] es[i]).path@
                    == p,
        sorted_by(scan_unmapped(es), path_order()),
{
    broadcast use vstd::seq_lib::group_filter_ensures;
    let pred = |e: FileEntry| is_audio_entry(e) && !auto_assigned(es, e);
    let left = scan_leftovers(es);
    let paths = left.map_values(|e: FileEntry| e.path@);
    lemma_path_order_total();
    paths.lemma_sort_by_ensures(path_order());
    assert forall|i: int|
        0 <= i < es.len() && #[trigger] auto_assigned(es, es[i]) implies scan_files(es)[entry_key(es[i])->0] == es[i].path@ && scan_files(es).contains_key(entry_key(es[i])->0) by {
        let k = entry_key(es[i])->0;
        let c = claimants(es, k);
        assert(claims(es[i], k));
        assert(c.contains(es[i]));
        let j = choose|j: int| 0 <= j < c.len() && c[j] == es[i];
        assert(j == 0);
    }
    assert forall|i: int|
        0 <= i < es.len() && is_audio_entry(es[i]) && !auto_assigned(es, es[i]) implies #[trigger] scan_unmapped(
            es,
        ).contains(es[i].path@) by {
        assert(pred(es[i]));
        assert(left.contains(es[i]));
        let j = choose|j: int| 0 <= j < left.len() && left[j] == es[i];
        assert(paths[j] == es[i].path@);
        vstd::seq_lib::to_multiset_contains(paths, es[i].path@);
        vstd::seq_lib::to_multiset_contains(scan_unmapped(es), es[i].path@);
    }
    assert forall|k: Key| #[trigger] scan_files(es).contains_key(k) implies exists|i: int|
        0 <= i < es.len() && claims(es[i], k) && auto_assigned(es, es[i]) && (#[trigger] es[i]).path@ == scan_files(
            es,
        )[k] by {
        let c = claimants(es, k);
        assert(claims(c[0], k));
        assert(es.contains(c[0])) by {
            es.lemma_filter_contains_rev(|e: FileEntry| claims(e, k), c[0]);
        }
        let i = choose|i: int| 0 <= i < es.len() && es[i] == c[0];
        assert(auto_assigned(es, es[i]));
    }
    assert forall|p: Seq<Seq<char>>| #[trigger] scan_unmapped(es).contains(p) implies exists|i: int|
        0 <= i < es.len() && is_audio_entry(es[i]) && !auto_assigned(es, es[i]) && (#[trigger] es[i]).path@ == p by {
        vstd::seq_lib::to_multiset_contains(paths, p);
        vstd::seq_lib::to_multiset_contains(scan_unmapped(es), p);
        assert(paths.contains(p));
        let j = choose|j: int| 0 <= j < paths.len() && paths[j] == p;
        assert(pred(left[j]));
        assert(es.contains(left[j])) by {
            es.lemma_filter_contains_rev(pred, left[j]);
        }
        let i = choose|i: int| 0 <= i < es.len() && es[i] == left[j];
    }
}

/// Manual choices win: an earlier assignment whose file is still on disk is
/// kept as it was; every other key keeps the fresh auto-mapping.
pub proof fn lemma_merge_keeps_manual_choices(
    old_files: Map<Key, Seq<Seq<char>>>,
    fresh_files: Map<Key, Seq<Seq<char>>>,
    fresh_unmapped: Seq<Seq<Seq<char>>>,
    k: Key,
)
    ensures
        keeps_choice(old_files, fresh_files, fresh_unmapped, k) ==> merged_files(
            old_files,
            fresh_files,
            fresh_unmapped,
        ).contains_key(k) && merged_files(old_files, fresh_files, fresh_unmapped)[k] == old_files[k],
        !keeps_choice(old_files, fresh_files, fresh_unmapped, k) ==> merged_files(
            old_files,
            fresh_files,
            fresh_unmapped,
        ).contains_key(k) == fresh_files.contains_key(k) && (fresh_files.contains_key(k) ==> merged_files(
            old_files,
            fresh_files,
            fresh_unmapped,
        )[k] == fresh_files[k]),
{
}

/// A merge accounts for exactly the files on disk: each is either assigned to
/// some key or unmapped, never both, and nothing else appears.
pub proof fn lemma_merge_accounts_for_disk(
    old_files: Map<Key, Seq<Seq<char>>>,
    fresh_files: Map<Key, Seq<Seq<char>>>,
    fresh_unmapped: Seq<Seq<Seq<char>>>,
    unmapped: Seq<Seq<Seq<char>>>,
    p: Seq<Seq<char>>,
)
    requires
        is_merged_unmapped(
            merged_files(old_files, fresh_files, fresh_unmapped),
            fresh_files,
            fresh_unmapped,
            unmapped,
        ),
    ensures
        on_disk(fresh_files, fresh_unmapped, p) <==> (merged_files(
            old_files,
            fresh_files,
            fresh_unmapped,
        ).contains_value(p) || unmapped.contains(p)),
        !(merged_files(old_files, fresh_files, fresh_unmapped).contains_value(p) && unmapped.contains(p)),
{
    let m = merged_files(old_files, fresh_files, fresh_unmapped);
    assert(unmapped.contains(p) <==> (on_disk(fresh_files, fresh_unmapped, p) && !m.contains_value(p)));
    if m.contains_value(p) {
        let k = choose|k: Key| #[trigger] m.dom().contains(k) && m[k] == p;
        if !keeps_choice(old_files, fresh_files, fresh_unmapped, k) {
            assert(fresh_files.contains_key(k) && fresh_files[k] == p);
        }
    }
}

/// Merging the same manual choices again changes nothing: the result of a
/// merge, taken as a fresh scan, merges to itself.
pub proof fn lemma_merge_idempotent(
    old_files: Map<Key, Seq<Seq<char>>>,
    fresh_files: Map<Key, Seq<Seq<char>>>,
    fresh_unmapped: Seq<Seq<Seq<char>>>,
    unmapped: Seq<Seq<Seq<char>>>,
)
    requires
        is_merged_unmapped(
            merged_files(old_files, fresh_files, fresh_unmapped),
            fresh_files,
            fresh_unmapped,
            unmapped,
        ),
    ensures
        merged_files(old_files, merged_files(old_files, fresh_files, fresh_unmapped), unmapped)
            == merged_files(old_files, fresh_files, fresh_unmapped),
        is_merged_unmapped(
            merged_files(old_files, fresh_files, fresh_unmapped),
            merged_files(old_files, fresh_files, fresh_unmapped),
            unmapped,
            unmapped,
        ),
{
    let m = merged_files(old_files, fresh_files, fresh_unmapped);
    assert forall|p: Seq<Seq<char>>| #[trigger] on_disk(m, unmapped, p) == on_disk(fresh_files, fresh_unmapped, p) by {
        lemma_merge_accounts_for_disk(old_files, fresh_files, fresh_unmapped, unmapped, p);
    }
    assert forall|k: Key| #[trigger] keeps_choice(old_files, m, unmapped, k) == keeps_choice(old_files, fresh_files, fresh_unmapped, k) by {
        if old_files.contains_key(k) {
            assert(on_disk(m, unmapped, old_files[k]) == on_disk(fresh_files, fresh_unmapped, old_files[k]));
        }
    }
    let m2 = merged_files(old_files, m, unmapped);
    assert(m2 =~= m);
    assert forall|p: Seq<Seq<char>>| #[trigger] unmapped.contains(p) <==> (on_disk(m, unmapped, p) && !m.contains_value(p)) by {
        lemma_merge_accounts_for_disk(old_files, fresh_files, fresh_unmapped, unmapped, p);
    }
}

proof fn lemma_filter_count<A>(s: Seq<A>, p: spec_fn(A) -> bool, x: A)
    ensures
        s.filter(p).to_multiset().count(x) == if p(x) {
            s.to_multiset().count(x)
        } else {
            0
        },
    decreases s.len(),
{
    broadcast use vstd::multiset::group_multiset_axioms;
    broadcast use vstd::seq_lib::group_to_multiset_ensures;
    reveal(Seq::filter);
    if s.len() == 0 {
        assert(s.filter(p) =~= Seq::<A>::empty());
        assert(s.to_multiset() =~= Multiset::<A>::empty());
        assert(s.filter(p).to_multiset() =~= Multiset::<A>::empty());
    } else {
        let init = s.drop_last();
        let last = s.last();
        lemma_filter_count(init, p, x);
        assert(s =~= init.push(last));
        init.lemma_filter_push(last, p);
        vstd::seq_lib::to_multiset_build(init, last);
        vstd::seq_lib::to_multiset_build(init.filter(p), last);
    }
}

proof fn lemma_filter_permutation<A>(s1: Seq<A>, s2: Seq<A>, p: spec_fn(A) -> bool)
    requires
        s1.to_multiset() == s2.to_multiset(),
    ensures
        s1.filter(p).to_multiset() == s2.filter(p).to_multiset(),
{
    assert forall|x: A| s1.filter(p).to_multiset().count(x) == s2.filter(p).to_multiset().count(x) by {
        lemma_filter_count(s1, p, x);
        lemma_filter_count(s2, p, x);
    }
    assert(s1.filter(p).to_multiset() =~= s2.filter(p).to_multiset());
}

proof fn lemma_map_permutation<A, B>(s1: Seq<A>, s2: Seq<A>, f: spec_fn(A) -> B)
    requires
        s1.to_multiset() == s2.to_multiset(),
    ensures
        s1.map_values(f).to_multiset() == s2.map_values(f).to_multiset(),
    decreases s1.len(),
{
    broadcast use vstd::multiset::group_multiset_axioms;
    vstd::seq_lib::to_multiset_len(s1);
    vstd::seq_lib::to_multiset_len(s2);
    if s1.len() == 0 {
        assert(s1.map_values(f) =~= Seq::<B>::empty());
        assert(s2.map_values(f) =~= Seq::<B>::empty());
    } else {
        let init = s1.drop_last();
        let x = s1.last();
        assert(s1 =~= init.push(x));
        vstd::seq_lib::to_multiset_build(init, x);
        vstd::seq_lib::to_multiset_contains(s2, x);
        assert(s2.contains(x));
        let j = choose|j: int| 0 <= j < s2.len() && s2[j] == x;
        let rest = s2.remove(j);
        vstd::seq_lib::to_multiset_remove(s2, j);
        assert(init.to_multiset() =~= s1.to_multiset().remove(x));
        lemma_map_permutation(init, rest, f);
        let m1 = s1.map_values(f);
        let m2 = s2.map_values(f);
        assert(m1 =~= init.map_values(f).push(f(x)));
        vstd::seq_lib::to_multiset_build(init.map_values(f), f(x));
        assert(rest.map_values(f) =~= m2.remove(j));
        vstd::seq_lib::to_multiset_remove(m2, j);
        assert(m2[j] == f(x));
        vstd::seq_lib::to_multiset_contains(m2, f(x));
        assert(m2.to_multiset() =~= m2.to_multiset().remove(f(x)).insert(f(x)));
        assert(m1.to_multiset() =~= m2.to_multiset());
    }
}

proof fn lemma_single_from_multiset<A>(c1: Seq<A>, c2: Seq<A>)
    requires
        c1.to_multiset() == c2.to_multiset(),
        c1.len() == 1,
    ensures
        c2.len() == 1,
        c1[0] == c2[0],
{
    broadcast use vstd::multiset::group_multiset_axioms;
    vstd::seq_lib::to_multiset_len(c1);
    vstd::seq_lib::to_multiset_len(c2);
    vstd::seq_lib::to_multiset_contains(c2, c2[0]);
    vstd::seq_lib::to_multiset_contains(c1, c2[0]);
    let j = choose|j: int| 0 <= j < c1.len() && c1[j] == c2[0];
}

/// The order in which a folder lists its entries does not matter: two
/// listings of the same folder holding the same entries, in any order, scan
/// to the same preset — the same key map and the same unmapped list, element
/// for element.
pub proof fn lemma_scan_ignores_listing_order(
    l1: FolderListing,
    l2: FolderListing,
    name: Option<Seq<char>>,
    p1: Preset,
    p2: Preset,
)
    requires
        l1.folder_text@ == l2.folder_text@,
        l1.folder@ == l2.folder@,
        l1.folder_name is Some <==> l2.folder_name is Some,
        l1.folder_name is Some ==> l1.folder_name->0@ == l2.folder_name->0@,
        l1.entries@.to_multiset() == l2.entries@.to_multiset(),
        is_scan_of(l1, name, p1),
        is_scan_of(l2, name, p2),
    ensures
        p1.id@ == p2.id@,
        p1.name@ == p2.name@,
        p1.folder@ == p2.folder@,
        p1.files@ == p2.files@,
        views(p1.unmapped@) == views(p2.unmapped@),
{
    let es1 = l1.entries@;
    let es2 = l2.entries@;
    assert forall|k: Key| #[trigger] claimants(es1, k).len() == claimants(es2, k).len() && (claimants(
        es1,
        k,
    ).len() == 1 ==> claimants(es1, k)[0] == claimants(es2, k)[0]) by {
        lemma_filter_permutation(es1, es2, |e: FileEntry| claims(e, k));
        vstd::seq_lib::to_multiset_len(claimants(es1, k));
        vstd::seq_lib::to_multiset_len(claimants(es2, k));
        if claimants(es1, k).len() == 1 {
            lemma_single_from_multiset(claimants(es1, k), claimants(es2, k));
        }
    }
    assert(scan_files(es1) =~= scan_files(es2));
    let pred1 = |e: FileEntry| is_audio_entry(e) && !auto_assigned(es1, e);
    let pred2 = |e: FileEntry| is_audio_entry(e) && !auto_assigned(es2, e);
    assert(pred1 =~= pred2);
    lemma_filter_permutation(es1, es2, pred1);
    lemma_map_permutation(scan_leftovers(es1), scan_leftovers(es2), |e: FileEntry| e.path@);
    let m1 = scan_leftovers(es1).map_values(|e: FileEntry| e.path@);
    let m2 = scan_leftovers(es2).map_values(|e: FileEntry| e.path@);
    lemma_path_order_total();
    m1.lemma_sort_by_ensures(path_order());
    m2.lemma_sort_by_ensures(path_order());
    vstd::seq_lib::lemma_sorted_unique(m1.sort_by(path_order()), m2.sort_by(path_order()), path_order());
}

} // verus!
