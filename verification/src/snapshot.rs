//! Snapshots: the saved tree of a root, its file name, compression and
//! version check, and the "recent roots" list.
use vstd::prelude::*;
use crate::model::{Tree, TreeView};
use crate::paths::{push_component, push_component_exec};
use crate::text::{chars_of, decimal, decimal_exec, is_ascii_text, lower_ascii, string_from_chars};
use std::hash::{Hash, Hasher};

verus! {

/// Format version of snapshot files.
pub const VERSION: u32 = 1;

/// Most entries the recent list keeps.
pub const MAX_RECENT: usize = 20;

/// The saved scan of a root.
pub struct Snapshot {
    pub version: u32,
    pub root: String,
    pub created_at: i64,
    pub validated_at: Option<i64>,
    pub tree: Tree,
}

#[derive(Debug, Clone)]
pub struct RecentEntry {
    pub root: String,
    pub created_at: i64,
    pub file_count: u64,
    pub total_size: u64,
}

impl Snapshot {
    /// When the snapshot was last validated, or else created.
    pub fn shown_at(&self) -> (t: i64)
        ensures
            t == match self.validated_at {
                Some(v) => v,
                None => self.created_at,
            },
    {
        match self.validated_at {
            Some(v) => v,
            None => self.created_at,
        }
    }
}

/// The list entry for a snapshot: its root, when it was last validated
/// (or else created), its file count and total size.
pub open spec fn entry_of(s: &Snapshot) -> RecentEntry {
    RecentEntry {
        root: s.root,
        created_at: match s.validated_at {
            Some(v) => v,
            None => s.created_at,
        },
        file_count: s.tree.file_count,
        total_size: if (s.tree.root as int) < s.tree@.nodes.len() {
            s.tree@.nodes[s.tree.root as int].size
        } else {
            0
        },
    }
}

impl<'a> From<&'a Snapshot> for RecentEntry {
    /// The list entry for a snapshot (see `entry_of`).
    fn from(s: &'a Snapshot) -> (e: RecentEntry) {
        RecentEntry {
            root: s.root.clone(),
            created_at: match s.validated_at {
                Some(v) => v,
                None => s.created_at,
            },
            file_count: s.tree.file_count,
            total_size: s.tree.total_size(),
        }
    }
}

impl<'a> vstd::std_specs::convert::FromSpecImpl<&'a Snapshot> for RecentEntry {
    open spec fn obeys_from_spec() -> bool {
        true
    }

    open spec fn from_spec(s: &'a Snapshot) -> RecentEntry {
        entry_of(s)
    }
}

// ---------------------------------------------------------------------------
// Root keys
// ---------------------------------------------------------------------------

/// Unicode lowercase of a whole string (`str::to_lowercase`).
pub uninterp spec fn str_lowercase(s: Seq<char>) -> Seq<char>;

/// `str::to_lowercase`: the Unicode lowercase of `s`; an ASCII text is
/// lowercased character by character.
#[verifier::external_body]
fn lower_str(s: &str) -> (r: String)
    ensures
        r@ == str_lowercase(s@),
        is_ascii_text(s@) ==> r@ == s@.map_values(|c: char| lower_ascii(c)),
{
    s.to_lowercase()
}

/// `s` with every `/` turned into `\`.
pub open spec fn slashes_to_backslashes(s: Seq<char>) -> Seq<char> {
    s.map_values(|c: char| if c == '/' { '\\' } else { c })
}

/// `s` without trailing `\`.
pub open spec fn trim_backslashes_end(s: Seq<char>) -> Seq<char>
    decreases s.len(),
{
    if s.len() > 0 && s.last() == '\\' {
        trim_backslashes_end(s.drop_last())
    } else {
        s
    }
}

/// The key of an already lowercased root: trailing `\` removed, unless
/// nothing would be left.
pub open spec fn key_from_lowered(s: Seq<char>) -> Seq<char> {
    if trim_backslashes_end(s).len() == 0 {
        s
    } else {
        trim_backslashes_end(s)
    }
}

/// Case-insensitive, separator-normalized key for a root path.
pub open spec fn root_key(p: Seq<char>) -> Seq<char> {
    key_from_lowered(str_lowercase(slashes_to_backslashes(p)))
}

/// The key of a lowercased root text (see `key_from_lowered`).
pub fn key_of_lowered(s: &str) -> (r: String)
    ensures
        r@ == key_from_lowered(s@),
{
    let v = chars_of(s);
    let mut b = v.len();
    assert(v@.take(b as int) =~= v@);
    while b > 0 && v[b - 1] == '\\'
        invariant
            b <= v@.len(),
            trim_backslashes_end(v@) == trim_backslashes_end(v@.take(b as int)),
        decreases b,
    {
        assert(v@.take(b as int).drop_last() =~= v@.take(b - 1));
        b -= 1;
    }
    if b == 0 {
        assert(v@.take(0) =~= Seq::<char>::empty());
        string_from_chars(v.as_slice())
    } else {
        let mut r: Vec<char> = Vec::new();
        let mut k: usize = 0;
        while k < b
            invariant
                k <= b <= v@.len(),
                r@ == v@.take(k as int),
            decreases b - k,
        {
            r.push(v[k]);
            k += 1;
            assert(r@ =~= v@.take(k as int));
        }
        string_from_chars(r.as_slice())
    }
}

/// One character of an ASCII root as its key holds it: `/` becomes `\`,
/// ASCII letters are lowercased.
pub open spec fn fold_char(c: char) -> char {
    lower_ascii(if c == '/' { '\\' } else { c })
}

/// The key of an ASCII root: each character folded (see `fold_char`), then
/// trailing `\` dropped unless nothing would be left.
pub open spec fn ascii_root_key(p: Seq<char>) -> Seq<char> {
    key_from_lowered(p.map_values(|c: char| fold_char(c)))
}

/// Case-insensitive, separator-normalized key for a root path.
pub fn normalize_root(p: &str) -> (r: String)
    ensures
        r@ == root_key(p@),
        is_ascii_text(p@) ==> r@ == ascii_root_key(p@),
{
    let v = chars_of(p);
    let mut w: Vec<char> = Vec::new();
    let mut k: usize = 0;
    while k < v.len()
        invariant
            k <= v@.len(),
            w@ == slashes_to_backslashes(v@.take(k as int)),
        decreases v@.len() - k,
    {
        let c = v[k];
        w.push(if c == '/' { '\\' } else { c });
        k += 1;
        assert(w@ =~= slashes_to_backslashes(v@.take(k as int)));
    }
    assert(v@.take(v@.len() as int) =~= v@);
    let replaced = string_from_chars(w.as_slice());
    let lowered = lower_str(replaced.as_str());
    proof {
        if is_ascii_text(p@) {
            assert(is_ascii_text(replaced@)) by {
                assert forall|k: int| 0 <= k < replaced@.len() implies (#[trigger] replaced@[k] as u32) < 128 by {
                    assert((p@[k] as u32) < 128);
                }
            }
            assert(lowered@ =~= p@.map_values(|c: char| fold_char(c)));
        }
    }
    key_of_lowered(lowered.as_str())
}

/// `x` followed by `m` backslashes loses them all when trailing
/// backslashes are trimmed.
proof fn lemma_trim_appended(x: Seq<char>, m: nat)
    ensures
        trim_backslashes_end(x + Seq::new(m, |i: int| '\\')) == trim_backslashes_end(x),
    decreases m,
{
    let y = x + Seq::new(m, |i: int| '\\');
    if m > 0 {
        assert(y.drop_last() =~= x + Seq::new((m - 1) as nat, |i: int| '\\'));
        lemma_trim_appended(x, (m - 1) as nat);
    } else {
        assert(y =~= x);
    }
}

/// Trimming trailing backslashes keeps a prefix that, when not empty, does
/// not end in a backslash.
proof fn lemma_trim_prefix(x: Seq<char>)
    ensures
        trim_backslashes_end(x).len() <= x.len(),
        trim_backslashes_end(x) =~= x.take(trim_backslashes_end(x).len() as int),
        trim_backslashes_end(x).len() > 0 ==> trim_backslashes_end(x).last() != '\\',
    decreases x.len(),
{
    if x.len() > 0 && x.last() == '\\' {
        lemma_trim_prefix(x.drop_last());
    } else {
        assert(x.take(x.len() as int) =~= x);
    }
}

/// An ASCII root written with other letter cases, with `/` and `\`
/// exchanged, or with separators added at the end, has the same key; the
/// key holds no `/` and no ASCII capital and does not end in `\`.
pub proof fn law_root_key_spelling(s: Seq<char>, q: Seq<char>)
    requires
        is_ascii_text(s),
        is_ascii_text(q),
        s.len() <= q.len(),
        forall|k: int| 0 <= k < s.len() ==> fold_char(#[trigger] q[k]) == fold_char(s[k]),
        forall|k: int| s.len() <= k < q.len() ==> #[trigger] q[k] == '/' || q[k] == '\\',
        trim_backslashes_end(s.map_values(|c: char| fold_char(c))).len() > 0,
    ensures
        ascii_root_key(q) == ascii_root_key(s),
        ascii_root_key(s).len() > 0,
        ascii_root_key(s).last() != '\\',
        forall|k: int| 0 <= k < ascii_root_key(s).len() ==> #[trigger] ascii_root_key(s)[k] != '/' && !crate::text::is_ascii_upper(ascii_root_key(s)[k]),
{
    let f = s.map_values(|c: char| fold_char(c));
    let g = q.map_values(|c: char| fold_char(c));
    let m = (q.len() - s.len()) as nat;
    assert(g =~= f + Seq::new(m, |i: int| '\\')) by {
        assert forall|k: int| 0 <= k < g.len() implies g[k] == (f + Seq::new(m, |i: int| '\\'))[k] by {
            if k >= s.len() {
                assert(q[k] == '/' || q[k] == '\\');
            }
        }
    }
    lemma_trim_appended(f, m);
    lemma_trim_prefix(f);
    let key = trim_backslashes_end(f);
    assert forall|k: int| 0 <= k < key.len() implies #[trigger] key[k] != '/' && !crate::text::is_ascii_upper(key[k]) by {
        assert(key[k] == f[k]);
        let c = s[k];
        let d = if c == '/' { '\\' } else { c };
        if crate::text::is_ascii_upper(d) {
            assert((d as u32) + 32 >= 97 && (d as u32) + 32 <= 122);
        }
    }
}

// ---------------------------------------------------------------------------
// Snapshot file names
// ---------------------------------------------------------------------------

/// `DefaultHasher::new()` fed the string `s` through `Hash`, then `finish`.
pub uninterp spec fn default_hash(s: Seq<char>) -> u64;

/// `Hash::hash` of a string into `DefaultHasher::new()`, then `finish`.
/// `new` starts from fixed keys, so the same text gives the same number in
/// every run; which number (the hash algorithm, which the standard library
/// may change between releases) is not stated.
#[verifier::external_body]
fn hash_text(s: &str) -> (h: u64)
    ensures
        h == default_hash(s@),
{
    let mut hasher = std::collections::hash_map::DefaultHasher::new();
    s.hash(&mut hasher);
    hasher.finish()
}

/// The lowercase hex digit of `d`.
pub open spec fn hex_char(d: nat) -> char {
    if d < 10 {
        (('0' as u32) + d) as char
    } else {
        (('a' as u32) + d - 10) as char
    }
}

/// The lowest `n` hex digits of `x`, most significant first, zero-padded.
pub open spec fn hex_digits(x: nat, n: nat) -> Seq<char>
    decreases n,
{
    if n == 0 {
        Seq::empty()
    } else {
        hex_digits(x / 16, (n - 1) as nat).push(hex_char(x % 16))
    }
}

fn hex16(x: u64) -> (r: Vec<char>)
    ensures
        r@ == hex_digits(x as nat, 16),
{
    let mut digits: Vec<char> = Vec::new();
    let mut y = x;
    let mut n: usize = 0;
    // least significant digit first
    while n < 16
        invariant
            n <= 16,
            digits@.len() == n,
            hex_digits(x as nat, 16) == hex_digits(y as nat, (16 - n) as nat) + digits@.reverse(),
        decreases 16 - n,
    {
        let d = y % 16;
        let c = if d < 10 {
            ((('0' as u8) + (d as u8)) as char)
        } else {
            ((('a' as u8) + (d as u8) - 10) as char)
        };
        assert(c == hex_char((y % 16) as nat));
        let ghost before = digits@;
        digits.push(c);
        assert(digits@.reverse() =~= seq![c] + before.reverse());
        assert(hex_digits(y as nat, (16 - n) as nat) == hex_digits((y / 16) as nat, (16 - n - 1) as nat).push(c));
        assert(hex_digits(x as nat, 16) =~= hex_digits((y / 16) as nat, (16 - n - 1) as nat) + digits@.reverse());
        y = y / 16;
        n += 1;
    }
    assert(hex_digits(y as nat, 0) =~= Seq::<char>::empty());
    let mut r: Vec<char> = Vec::new();
    let mut k: usize = 16;
    while k > 0
        invariant
            k <= 16,
            digits@.len() == 16,
            r@ == digits@.subrange(k as int, 16).reverse(),
        decreases k,
    {
        k -= 1;
        r.push(digits[k]);
        assert(r@ =~= digits@.subrange(k as int, 16).reverse());
    }
    assert(digits@.subrange(0, 16) =~= digits@);
    r
}

/// File name of the snapshot of `root`: the 16-digit hex hash of its key.
pub open spec fn snapshot_file_name(root: Seq<char>) -> Seq<char> {
    hex_digits(default_hash(root_key(root)) as nat, 16) + seq!['.', 's', 'n', 'a', 'p']
}

/// Roots with the same key share one snapshot file.
pub proof fn law_same_key_same_file(a: Seq<char>, b: Seq<char>)
    requires
        root_key(a) == root_key(b),
    ensures
        snapshot_file_name(a) == snapshot_file_name(b),
{
}

/// Where the snapshot of `root` is kept inside the storage directory, if
/// there is one.
pub fn snapshot_path(root: &str, storage: Option<String>) -> (r: Option<String>)
    ensures
        r is Some <==> storage is Some,
        r matches Some(p) ==> p@ == push_component(storage->0@, snapshot_file_name(root@)),
{
    match storage {
        None => None,
        Some(dir) => {
            let key = normalize_root(root);
            let h = hash_text(key.as_str());
            let mut name = hex16(h);
            name.push('.');
            name.push('s');
            name.push('n');
            name.push('a');
            name.push('p');
            assert(name@ =~= snapshot_file_name(root@));
            let mut buf = chars_of(dir.as_str());
            push_component_exec(&mut buf, name.as_slice());
            Some(string_from_chars(buf.as_slice()))
        },
    }
}

/// Where the recent list is kept inside the storage directory, if there is
/// one.
pub fn recent_path(storage: Option<String>) -> (r: Option<String>)
    ensures
        r is Some <==> storage is Some,
        r matches Some(p) ==> p@ == push_component(
            storage->0@,
            seq!['r', 'e', 'c', 'e', 'n', 't', '.', 'j', 's', 'o', 'n'],
        ),
{
    match storage {
        None => None,
        Some(dir) => {
            let name = vec!['r', 'e', 'c', 'e', 'n', 't', '.', 'j', 's', 'o', 'n'];
            let mut buf = chars_of(dir.as_str());
            push_component_exec(&mut buf, name.as_slice());
            Some(string_from_chars(buf.as_slice()))
        },
    }
}

// ---------------------------------------------------------------------------
// Compression and version
// ---------------------------------------------------------------------------

/// What `zstd::encode_all` makes of `raw` at `level`, when it succeeds.
pub uninterp spec fn zstd_encoded(raw: Seq<u8>, level: i32) -> Option<Seq<u8>>;

/// What `zstd::decode_all` makes of `bytes`, when it succeeds.
pub uninterp spec fn zstd_decoded(bytes: Seq<u8>) -> Option<Seq<u8>>;

/// `zstd::encode_all` on an in-memory buffer. The error text is the I/O
/// error's message, which is not stated.
#[verifier::external_body]
fn zstd_encode(raw: &[u8], level: i32) -> (r: Result<Vec<u8>, String>)
    ensures
        r is Ok <==> zstd_encoded(raw@, level) is Some,
        r matches Ok(v) ==> v@ == zstd_encoded(raw@, level)->0,
{
    zstd::encode_all(raw, level).map_err(|e| e.to_string())
}

/// `zstd::decode_all` on an in-memory buffer: it gives back what an
/// encoding of some data was made from. The error text is the I/O error's
/// message, which is not stated.
#[verifier::external_body]
fn zstd_decode(bytes: &[u8]) -> (r: Result<Vec<u8>, String>)
    ensures
        r is Ok <==> zstd_decoded(bytes@) is Some,
        r matches Ok(v) ==> v@ == zstd_decoded(bytes@)->0,
        r is Err ==> forall|raw: Seq<u8>, level: i32| #[trigger] zstd_encoded(raw, level) != Some(bytes@),
        r matches Ok(v) ==> forall|raw: Seq<u8>, level: i32|
            #[trigger] zstd_encoded(raw, level) == Some(bytes@) ==> v@ == raw,
{
    zstd::decode_all(bytes).map_err(|e| e.to_string())
}

/// Compression level of snapshot files.
pub const LEVEL: i32 = 3;

/// Compresses the serialized snapshot.
pub fn compress_snapshot(raw: &[u8]) -> (r: Result<Vec<u8>, String>)
    ensures
        r is Ok <==> zstd_encoded(raw@, LEVEL) is Some,
        r matches Ok(v) ==> v@ == zstd_encoded(raw@, LEVEL)->0,
{
    zstd_encode(raw, LEVEL)
}

/// Decompresses a snapshot file's bytes. What `compress_snapshot` made of
/// some data decompresses to that data.
pub fn decompress_snapshot(bytes: &[u8]) -> (r: Result<Vec<u8>, String>)
    ensures
        r is Ok <==> zstd_decoded(bytes@) is Some,
        r matches Ok(v) ==> v@ == zstd_decoded(bytes@)->0,
        forall|raw: Seq<u8>| #[trigger] zstd_encoded(raw, LEVEL) == Some(bytes@) ==> (r matches Ok(v) && v@ == raw),
{
    let r = zstd_decode(bytes);
    assert forall|raw: Seq<u8>| #[trigger] zstd_encoded(raw, LEVEL) == Some(bytes@) implies (r matches Ok(v) && v@ == raw) by {
        assert(zstd_encoded(raw, LEVEL) == Some(bytes@));
    }
    r
}

/// `snapshot version N not supported`.
pub open spec fn version_error(v: u32) -> Seq<char> {
    seq!['s', 'n', 'a', 'p', 's', 'h', 'o', 't', ' ', 'v', 'e', 'r', 's', 'i', 'o', 'n', ' ']
        + decimal(v as nat) + seq![' ', 'n', 'o', 't', ' ', 's', 'u', 'p', 'p', 'o', 'r', 't', 'e', 'd']
}

/// Accepts a decoded snapshot only in the current format version.
pub fn check_version(snap: Snapshot) -> (r: Result<Snapshot, String>)
    ensures
        snap.version == VERSION ==> r == Ok::<Snapshot, String>(snap),
        snap.version != VERSION ==> (r matches Err(e) && e@ == version_error(snap.version)),
{
    if snap.version != VERSION {
        let mut msg = vec!['s', 'n', 'a', 'p', 's', 'h', 'o', 't', ' ', 'v', 'e', 'r', 's', 'i', 'o', 'n', ' '];
        let digits = decimal_exec(snap.version as u64);
        let mut k: usize = 0;
        let ghost head = msg@;
        while k < digits.len()
            invariant
                k <= digits@.len(),
                msg@ == head + digits@.take(k as int),
            decreases digits@.len() - k,
        {
            msg.push(digits[k]);
            k += 1;
            assert(msg@ =~= head + digits@.take(k as int));
        }
        assert(digits@.take(digits@.len() as int) =~= digits@);
        let tail = vec![' ', 'n', 'o', 't', ' ', 's', 'u', 'p', 'p', 'o', 'r', 't', 'e', 'd'];
        let ghost mid = msg@;
        let mut k: usize = 0;
        while k < tail.len()
            invariant
                k <= tail@.len(),
                msg@ == mid + tail@.take(k as int),
            decreases tail@.len() - k,
        {
            msg.push(tail[k]);
            k += 1;
            assert(msg@ =~= mid + tail@.take(k as int));
        }
        assert(tail@.take(tail@.len() as int) =~= tail@);
        assert(msg@ =~= version_error(snap.version));
        return Err(string_from_chars(msg.as_slice()));
    }
    Ok(snap)
}

// ---------------------------------------------------------------------------
// Recent list
// ---------------------------------------------------------------------------

/// The entries of `list` whose root has a key other than `key`, in order.
pub open spec fn other_roots(list: Seq<RecentEntry>, key: Seq<char>) -> Seq<RecentEntry>
    decreases list.len(),
{
    if list.len() == 0 {
        Seq::empty()
    } else {
        let rest = other_roots(list.drop_last(), key);
        if root_key(list.last().root@) == key {
            rest
        } else {
            rest.push(list.last())
        }
    }
}

proof fn lemma_other_roots_filter(list: Seq<RecentEntry>, key: Seq<char>)
    ensures
        other_roots(list, key) == list.filter(|x: RecentEntry| root_key(x.root@) != key),
    decreases list.len(),
{
    reveal(Seq::filter);
    if list.len() > 0 {
        lemma_other_roots_filter(list.drop_last(), key);
    }
}

/// The recent list after `entry` was used is `entry` followed by exactly
/// the entries of the old list whose root has another key, in their
/// order, cut to `MAX_RECENT` entries.
pub proof fn law_touched_keeps(list: Seq<RecentEntry>, entry: RecentEntry)
    ensures
        ({
            let all = seq![entry] + list.filter(|x: RecentEntry| root_key(x.root@) != root_key(entry.root@));
            touched(list, entry) == all.take(if all.len() < MAX_RECENT { all.len() as int } else { MAX_RECENT as int })
        }),
{
    lemma_other_roots_filter(list, root_key(entry.root@));
}

/// The recent list after `entry` was used: it goes first, older entries for
/// the same root (by key) go away, and at most `MAX_RECENT` are kept.
pub open spec fn touched(list: Seq<RecentEntry>, entry: RecentEntry) -> Seq<RecentEntry> {
    let all = seq![entry] + other_roots(list, root_key(entry.root@));
    all.take(if all.len() < MAX_RECENT { all.len() as int } else { MAX_RECENT as int })
}

/// The recent list after `entry` was used (see `touched`).
pub fn touch_recent_list(list: Vec<RecentEntry>, entry: RecentEntry) -> (r: Vec<RecentEntry>)
    ensures
        r@ == touched(list@, entry),
{
    let key = normalize_root(entry.root.as_str());
    let ghost start = list@;
    let mut rest = list;
    let mut kept: Vec<RecentEntry> = Vec::new();
    kept.push(entry);
    let ghost mut seen_len: int = 0;
    while rest.len() > 0
        invariant
            rest@ == start.skip(seen_len),
            0 <= seen_len <= start.len(),
            key@ == root_key(entry.root@),
            kept@ == seq![entry] + other_roots(start.take(seen_len), key@),
        decreases rest@.len(),
    {
        let e = rest.remove(0);
        assert(start.take(seen_len + 1).drop_last() =~= start.take(seen_len));
        assert(start.take(seen_len + 1).last() == e);
        let ek = normalize_root(e.root.as_str());
        if ek != key {
            kept.push(e);
        }
        proof {
            seen_len = seen_len + 1;
        }
        assert(rest@ =~= start.skip(seen_len));
        assert(kept@ =~= seq![entry] + other_roots(start.take(seen_len), key@));
    }
    assert(start.take(seen_len) =~= start);
    kept.truncate(MAX_RECENT);
    kept
}

/// No two entries of the list are for the same root (by key).
pub open spec fn keys_unique(list: Seq<RecentEntry>) -> bool {
    forall|a: int, b: int|
        0 <= a < b < list.len() ==> root_key(#[trigger] list[a].root@) != root_key(#[trigger] list[b].root@)
}

proof fn lemma_other_roots(list: Seq<RecentEntry>, key: Seq<char>)
    ensures
        other_roots(list, key).len() <= list.len(),
        forall|k: int|
            0 <= k < other_roots(list, key).len() ==> root_key((#[trigger] other_roots(list, key)[k]).root@) != key
                && list.contains(other_roots(list, key)[k]),
    decreases list.len(),
{
    if list.len() > 0 {
        let front = list.drop_last();
        lemma_other_roots(front, key);
        let rest = other_roots(front, key);
        let o = other_roots(list, key);
        assert(o == (if root_key(list.last().root@) == key { rest } else { rest.push(list.last()) }));
        assert forall|k: int| 0 <= k < o.len() implies root_key((#[trigger] o[k]).root@) != key && list.contains(o[k]) by {
            if k < rest.len() {
                assert(o[k] == rest[k]);
                assert(root_key(rest[k].root@) != key && front.contains(rest[k]));
                let i = choose|i: int| 0 <= i < front.len() && front[i] == rest[k];
                assert(list[i] == front[i]);
            } else {
                assert(o[k] == list.last());
                assert(list[list.len() - 1] == list.last());
            }
        }
    }
}

#[verifier::spinoff_prover]
proof fn lemma_other_roots_unique(list: Seq<RecentEntry>, key: Seq<char>)
    requires
        keys_unique(list),
    ensures
        keys_unique(other_roots(list, key)),
    decreases list.len(),
{
    if list.len() > 0 {
        let front = list.drop_last();
        assert(keys_unique(front)) by {
            assert forall|a: int, b: int| 0 <= a < b < front.len() implies root_key(#[trigger] front[a].root@)
                != root_key(#[trigger] front[b].root@) by {
                assert(front[a] == list[a] && front[b] == list[b]);
            }
        }
        lemma_other_roots_unique(front, key);
        lemma_other_roots(front, key);
        let rest = other_roots(front, key);
        let o = other_roots(list, key);
        assert(o == (if root_key(list.last().root@) == key { rest } else { rest.push(list.last()) }));
        assert forall|a: int, b: int| 0 <= a < b < o.len() implies root_key(#[trigger] o[a].root@) != root_key(
            #[trigger] o[b].root@,
        ) by {
            if b < rest.len() {
                assert(o[a] == rest[a] && o[b] == rest[b]);
            } else {
                assert(o[a] == rest[a]);
                assert(o[b] == list.last());
                assert(root_key(rest[a].root@) != key && front.contains(rest[a]));
                let i = choose|i: int| 0 <= i < front.len() && front[i] == rest[a];
                assert(list[i] == front[i]);
                assert(root_key(list[i].root@) != root_key(list[list.len() - 1].root@));
            }
        }
    }
}

/// After an entry is used, the recent list starts with it, keeps no other
/// entry for its root and only entries it held before, holds at most
/// `MAX_RECENT` entries, and lists no root twice if it did not before.
pub proof fn law_touched(list: Seq<RecentEntry>, entry: RecentEntry)
    ensures
        touched(list, entry).len() >= 1,
        touched(list, entry)[0] == entry,
        touched(list, entry).len() <= MAX_RECENT,
        forall|k: int|
            1 <= k < touched(list, entry).len() ==> root_key(#[trigger] touched(list, entry)[k].root@) != root_key(
                entry.root@,
            ) && list.contains(touched(list, entry)[k]),
        keys_unique(list) ==> keys_unique(touched(list, entry)),
{
    let key = root_key(entry.root@);
    lemma_other_roots(list, key);
    if keys_unique(list) {
        lemma_other_roots_unique(list, key);
    }
    let o = other_roots(list, key);
    let all = seq![entry] + o;
    let r = touched(list, entry);
    assert forall|k: int| 1 <= k < r.len() implies root_key(#[trigger] r[k].root@) != key && list.contains(r[k]) by {
        assert(r[k] == all[k]);
        assert(all[k] == o[k - 1]);
        assert(root_key(o[k - 1].root@) != key);
    }
    if keys_unique(list) {
        assert forall|a: int, b: int| 0 <= a < b < r.len() implies root_key(#[trigger] r[a].root@) != root_key(
            #[trigger] r[b].root@,
        ) by {
            assert(r[a] == all[a] && r[b] == all[b]);
            assert(all[b] == o[b - 1]);
            if a > 0 {
                assert(all[a] == o[a - 1]);
            }
        }
    }
}

} // verus!
