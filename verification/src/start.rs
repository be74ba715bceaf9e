//! Start screen values: the typed folder path and the drive list.
use vstd::prelude::*;
use crate::paths::is_sep;
use crate::search::{trim, trim_exec};
use crate::snapshot::RecentEntry;
use crate::text::{chars_of, push_str, string_from_chars};

verus! {

/// `s` without trailing separators.
pub open spec fn trim_seps_end(s: Seq<char>) -> Seq<char>
    decreases s.len(),
{
    if s.len() > 0 && is_sep(s.last()) {
        trim_seps_end(s.drop_last())
    } else {
        s
    }
}

/// The folder a typed path names: surrounding whitespace and trailing
/// separators go, a bare drive such as `C:` gets its `\` back, and a path of
/// separators only is kept as typed (trimmed).
pub open spec fn input_path(s: Seq<char>) -> Seq<char> {
    let t = trim(s);
    let r = trim_seps_end(t);
    if r.len() == 2 && r[1] == ':' && (r[0] as u32) < 128 {
        r.push('\\')
    } else if r.len() == 0 {
        t
    } else {
        r
    }
}

/// Trim trailing separators (keeping drive roots like `C:\`).
pub fn normalize_input_path(s: &str) -> (p: String)
    ensures
        p@ == input_path(s@),
{
    let t = trim_exec(chars_of(s).as_slice());
    let mut b = t.len();
    assert(t@.take(b as int) =~= t@);
    while b > 0 && (t[b - 1] == '\\' || t[b - 1] == '/')
        invariant
            b <= t@.len(),
            trim_seps_end(t@) == trim_seps_end(t@.take(b as int)),
        decreases b,
    {
        assert(t@.take(b as int).drop_last() =~= t@.take(b - 1));
        b -= 1;
    }
    let mut r: Vec<char> = Vec::new();
    let mut k: usize = 0;
    while k < b
        invariant
            k <= b <= t@.len(),
            r@ == t@.take(k as int),
        decreases b - k,
    {
        r.push(t[k]);
        k += 1;
        assert(r@ =~= t@.take(k as int));
    }
    assert(r@ == trim_seps_end(t@));
    if r.len() == 2 && r[1] == ':' && (r[0] as u32) < 128 {
        r.push('\\');
        string_from_chars(r.as_slice())
    } else if r.len() == 0 {
        string_from_chars(t.as_slice())
    } else {
        string_from_chars(r.as_slice())
    }
}

/// The root of drive number `k` (0 for `A:\`).
pub open spec fn drive_root(k: int) -> Seq<char> {
    seq![(('A' as u32) + k) as char, ':', '\\']
}

/// `A:\` through `Z:\`, the drive roots the start screen offers when they
/// exist.
pub fn drive_candidates() -> (v: Vec<String>)
    ensures
        v@.len() == 26,
        forall|k: int| 0 <= k < 26 ==> (#[trigger] v@[k])@ == drive_root(k),
{
    let mut v: Vec<String> = Vec::new();
    let mut k: u8 = 0;
    while k < 26
        invariant
            k <= 26,
            v@.len() == k,
            forall|j: int| 0 <= j < k ==> (#[trigger] v@[j])@ == drive_root(j),
        decreases 26 - k,
    {
        v.push(drive_text(k));
        k += 1;
    }
    v
}

fn drive_text(k: u8) -> (r: String)
    requires
        k < 26,
    ensures
        r@ == drive_root(k as int),
{
    let c = ((65u8 + k) as char);
    let d = vec![c, ':', '\\'];
    assert(d@ =~= drive_root(k as int));
    string_from_chars(d.as_slice())
}

/// The roots of the first `upto` drives, in order, that `present` marks as
/// existing (a drive past the end of `present` does not exist).
pub open spec fn present_drives(present: Seq<bool>, upto: int) -> Seq<Seq<char>>
    decreases upto,
{
    if upto <= 0 {
        Seq::empty()
    } else {
        let rest = present_drives(present, upto - 1);
        if upto - 1 < present.len() && present[upto - 1] {
            rest.push(drive_root(upto - 1))
        } else {
            rest
        }
    }
}

/// Everything the start screen shows.
pub struct StartState {
    pub path: String,
    pub drives: Vec<String>,
    pub recent: Vec<RecentEntry>,
    pub error: Option<String>,
}

impl StartState {
    /// A start screen with an empty path, the roots of the drives from `A:`
    /// to `Z:` that exist (`present[k]` tells whether the `k`-th of
    /// `drive_candidates` does), in order, the given recent snapshots, and
    /// no error.
    pub fn new(present: &Vec<bool>, recent: Vec<RecentEntry>) -> (s: StartState)
        ensures
            s.path@.len() == 0,
            s.drives@.map_values(|d: String| d@) == present_drives(present@, 26),
            s.recent@ == recent@,
            s.error is None,
    {
        let mut drives: Vec<String> = Vec::new();
        let mut k: u8 = 0;
        while k < 26
            invariant
                k <= 26,
                drives@.map_values(|d: String| d@) == present_drives(present@, k as int),
            decreases 26 - k,
        {
            if (k as usize) < present.len() && present[k as usize] {
                let d = drive_text(k);
                let ghost before = drives@;
                drives.push(d);
                assert(drives@.map_values(|d: String| d@) =~= before.map_values(|d: String| d@).push(drive_root(k as int)));
            }
            k += 1;
        }
        StartState { path: String::new(), drives, recent, error: None }
    }
}

impl StartState {
    /// Back on the start screen after a scan of `root` ended without a
    /// tree: the path shows `root`; a failure `e` shows as `Scan failed: e`.
    pub fn after_scan(self, root: String, failure: Option<String>) -> (s: StartState)
        ensures
            s.path@ == root@,
            s.drives@ == self.drives@,
            s.recent@ == self.recent@,
            match failure {
                Some(e) => s.error matches Some(m) && m@ == "Scan failed: "@ + e@,
                None => s.error is None,
            },
    {
        let error = match failure {
            Some(e) => {
                let mut text: Vec<char> = Vec::new();
                push_str(&mut text, "Scan failed: ");
                push_str(&mut text, e.as_str());
                Some(string_from_chars(text.as_slice()))
            },
            None => None,
        };
        StartState { path: root, drives: self.drives, recent: self.recent, error }
    }

    /// The chosen path is not a folder: say so.
    pub fn reject(&mut self, path: &str)
        ensures
            final(self).error matches Some(m) && m@ == path@ + " is not a folder."@,
            final(self).path == old(self).path,
            final(self).drives == old(self).drives,
            final(self).recent == old(self).recent,
    {
        let mut text: Vec<char> = Vec::new();
        push_str(&mut text, path);
        push_str(&mut text, " is not a folder.");
        self.error = Some(string_from_chars(text.as_slice()));
    }
}

} // verus!
