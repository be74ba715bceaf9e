//! Name search over a loaded tree: wildcard and substring matching.
use vstd::prelude::*;
use crate::edit::sorted_by_size;
use crate::glob::{glob_matches, law_wild_glob};
use crate::model::{NodeId, NodeView, Tree, TreeView};
use crate::text::{chars_of, is_ascii_text, lower_ascii, string_from_chars};

verus! {

/// Where a wildcard match ended up: pattern index, text index and the
/// last `*` seen (its pattern index and the text index it resumes from).
pub open spec fn wild_measure(t: Seq<char>, star: Option<(int, int)>) -> int {
    match star {
        Some((sp, st)) => t.len() - st + 1,
        None => t.len() + 2int,
    }
}

/// Everything from `pi` on is `*`.
pub open spec fn only_stars(p: Seq<char>, pi: int) -> bool {
    forall|k: int| pi <= k < p.len() ==> p[k] == '*'
}

/// The glob matcher's run from a given state: `?` takes one character, a
/// pattern character equal to the text character takes it, `*` remembers
/// where it stood and first takes nothing; on a mismatch the last `*` takes
/// one more character and matching resumes after it. At the end of the text
/// only `*`s may remain.
pub open spec fn wild_from(p: Seq<char>, t: Seq<char>, pi: int, ti: int, star: Option<(int, int)>) -> bool
    decreases wild_measure(t, star), t.len() - ti + p.len() - pi,
    when 0 <= pi <= p.len() && 0 <= ti <= t.len() && (star matches Some((sp, st)) ==> 0 <= sp < p.len() && 0 <= st <= ti)
{
    if ti < t.len() {
        if pi < p.len() && (p[pi] == '?' || p[pi] == t[ti]) {
            wild_from(p, t, pi + 1, ti + 1, star)
        } else if pi < p.len() && p[pi] == '*' {
            wild_from(p, t, pi + 1, ti, Some((pi, ti)))
        } else {
            match star {
                Some((sp, st)) => wild_from(p, t, sp + 1, st + 1, Some((sp, st + 1))),
                None => false,
            }
        }
    } else {
        only_stars(p, pi)
    }
}

/// Glob-style match of the whole of `t` against `p`.
pub open spec fn wild_matches(p: Seq<char>, t: Seq<char>) -> bool {
    wild_from(p, t, 0, 0, None)
}

/// Glob-style match: `*` any run, `?` one char. Whole-name match.
pub fn wild_match(pat: &str, s: &str) -> (r: bool)
    ensures
        r == wild_matches(pat@, s@),
        !s@.contains('*') ==> r == glob_matches(pat@, s@),
{
    proof {
        if !s@.contains('*') {
            law_wild_glob(pat@, s@);
        }
    }
    let p = chars_of(pat);
    let t = chars_of(s);
    let mut pi: usize = 0;
    let mut ti: usize = 0;
    let mut star: Option<(usize, usize)> = None;
    while ti < t.len()
        invariant
            p@ == pat@,
            t@ == s@,
            !s@.contains('*') ==> wild_matches(pat@, s@) == glob_matches(pat@, s@),
            pi <= p@.len(),
            ti <= t@.len(),
            star matches Some((sp, st)) ==> sp < p@.len() && st <= ti,
            wild_matches(pat@, s@) == wild_from(
                p@,
                t@,
                pi as int,
                ti as int,
                match star {
                    Some((sp, st)) => Some((sp as int, st as int)),
                    None => None,
                },
            ),
        decreases wild_measure(
            t@,
            match star {
                Some((sp, st)) => Some((sp as int, st as int)),
                None => None,
            },
        ),
            t@.len() - ti + p@.len() - pi,
    {
        if pi < p.len() && (p[pi] == '?' || p[pi] == t[ti]) {
            pi += 1;
            ti += 1;
        } else if pi < p.len() && p[pi] == '*' {
            star = Some((pi, ti));
            pi += 1;
        } else {
            match star {
                Some((sp, st)) => {
                    pi = sp + 1;
                    ti = st + 1;
                    star = Some((sp, st + 1));
                },
                None => {
                    return false;
                },
            }
        }
    }
    while pi < p.len() && p[pi] == '*'
        invariant
            p@ == pat@,
            pi <= p@.len(),
            wild_matches(pat@, s@) == only_stars(p@, pi as int),
            !s@.contains('*') ==> wild_matches(pat@, s@) == glob_matches(pat@, s@),
        decreases p@.len() - pi,
    {
        pi += 1;
    }
    assert(pi < p@.len() ==> !only_stars(p@, pi as int));
    pi == p.len()
}


/// Unicode `White_Space` (`char::is_whitespace`).
pub open spec fn is_white(c: char) -> bool {
    ||| '\u{9}' <= c && c <= '\u{D}'
    ||| c == ' '
    ||| c == '\u{85}'
    ||| c == '\u{A0}'
    ||| c == '\u{1680}'
    ||| '\u{2000}' <= c && c <= '\u{200A}'
    ||| c == '\u{2028}'
    ||| c == '\u{2029}'
    ||| c == '\u{202F}'
    ||| c == '\u{205F}'
    ||| c == '\u{3000}'
}

fn is_white_exec(c: char) -> (b: bool)
    ensures
        b == is_white(c),
{
    ('\u{9}' <= c && c <= '\u{D}') || c == ' ' || c == '\u{85}' || c == '\u{A0}' || c == '\u{1680}'
        || ('\u{2000}' <= c && c <= '\u{200A}') || c == '\u{2028}' || c == '\u{2029}' || c
        == '\u{202F}' || c == '\u{205F}' || c == '\u{3000}'
}

/// `s` without leading white space.
pub open spec fn trim_start(s: Seq<char>) -> Seq<char>
    decreases s.len(),
{
    if s.len() > 0 && is_white(s[0]) {
        trim_start(s.drop_first())
    } else {
        s
    }
}

/// `s` without trailing white space.
pub open spec fn trim_end(s: Seq<char>) -> Seq<char>
    decreases s.len(),
{
    if s.len() > 0 && is_white(s.last()) {
        trim_end(s.drop_last())
    } else {
        s
    }
}

/// `str::trim`: without leading and trailing whitespace.
pub open spec fn trim(s: Seq<char>) -> Seq<char> {
    trim_end(trim_start(s))
}

/// `str::trim`: the text without surrounding white space.
pub fn trim_exec(s: &[char]) -> (r: Vec<char>)
    ensures
        r@ == trim(s@),
{
    let mut a: usize = 0;
    assert(s@.skip(0) =~= s@);
    while a < s.len() && is_white_exec(s[a])
        invariant
            a <= s@.len(),
            trim_start(s@) == trim_start(s@.skip(a as int)),
        decreases s@.len() - a,
    {
        assert(s@.skip(a as int).drop_first() =~= s@.skip(a + 1 as int));
        a += 1;
    }
    let mut b: usize = s.len();
    assert(s@.skip(a as int).take(b - a) =~= s@.skip(a as int));
    while b > a && is_white_exec(s[b - 1])
        invariant
            a <= b <= s@.len(),
            trim(s@) == trim_end(s@.subrange(a as int, b as int)),
        decreases b,
    {
        assert(s@.subrange(a as int, b as int).drop_last() =~= s@.subrange(a as int, b - 1));
        b -= 1;
    }
    assert(a < s@.len() ==> !is_white(s@.skip(a as int)[0]));
    assert(s@.subrange(a as int, s@.len() as int) =~= s@.skip(a as int));
    let mut r: Vec<char> = Vec::new();
    let mut k = a;
    while k < b
        invariant
            a <= k <= b <= s@.len(),
            r@ == s@.subrange(a as int, k as int),
        decreases b - k,
    {
        r.push(s[k]);
        k += 1;
        assert(r@ =~= s@.subrange(a as int, k as int));
    }
    r
}

/// Unicode lowercase mapping of one character (`char::to_lowercase`).
pub uninterp spec fn char_lowercase(c: char) -> Seq<char>;

/// `char::to_lowercase`, collected: the Unicode lowercase mapping of `c`,
/// which for an ASCII character is its ASCII lowercase.
#[verifier::external_body]
fn lower_char(c: char) -> (r: Vec<char>)
    ensures
        r@ == char_lowercase(c),
        (c as u32) < 128 ==> r@ == seq![lower_ascii(c)],
{
    c.to_lowercase().collect()
}

/// Character-wise lowercase of a text.
pub open spec fn lower_all(s: Seq<char>) -> Seq<char>
    decreases s.len(),
{
    if s.len() == 0 {
        Seq::empty()
    } else {
        lower_all(s.drop_last()) + char_lowercase(s.last())
    }
}

/// The Unicode lowercase of a text, character by character.
pub fn lower_all_exec(s: &[char]) -> (r: Vec<char>)
    ensures
        r@ == lower_all(s@),
        is_ascii_text(s@) ==> lower_all(s@) == s@.map_values(|c: char| lower_ascii(c)),
{
    let mut r: Vec<char> = Vec::new();
    let mut k: usize = 0;
    while k < s.len()
        invariant
            k <= s@.len(),
            r@ == lower_all(s@.take(k as int)),
            is_ascii_text(s@) ==> r@ == s@.take(k as int).map_values(|c: char| lower_ascii(c)),
        decreases s@.len() - k,
    {
        let l = lower_char(s[k]);
        let ghost before = r@;
        let mut j: usize = 0;
        while j < l.len()
            invariant
                j <= l@.len(),
                r@ == before + l@.take(j as int),
            decreases l@.len() - j,
        {
            r.push(l[j]);
            j += 1;
            assert(r@ =~= before + l@.take(j as int));
        }
        assert(l@.take(l@.len() as int) =~= l@);
        assert(s@.take(k + 1 as int).drop_last() =~= s@.take(k as int));
        proof {
            if is_ascii_text(s@) {
                assert((s@[k as int] as u32) < 128);
                assert(s@.take(k + 1 as int).map_values(|c: char| lower_ascii(c)) =~= s@.take(k as int).map_values(
                    |c: char| lower_ascii(c),
                ) + seq![lower_ascii(s@[k as int])]);
            }
        }
        k += 1;
    }
    assert(s@.take(s@.len() as int) =~= s@);
    r
}

/// `p` occurs in `t` (`str::contains`).
pub open spec fn has_substring(t: Seq<char>, p: Seq<char>) -> bool {
    exists|i: int| 0 <= i && i + p.len() <= t.len() && #[trigger] t.subrange(i, i + p.len()) == p
}

/// Whether `p` occurs in `t`.
pub fn has_substring_exec(t: &[char], p: &[char]) -> (r: bool)
    ensures
        r == has_substring(t@, p@),
{
    if p.len() > t.len() {
        return false;
    }
    let mut i: usize = 0;
    let tl = t.len();
    let last = tl - p.len();
    while i <= last
        invariant
            tl == t@.len(),
            last == t@.len() - p@.len(),
            p@.len() <= t@.len(),
            i <= t@.len() - p@.len() + 1,
            forall|j: int| 0 <= j < i ==> #[trigger] t@.subrange(j, j + p@.len()) != p@,
        decreases t@.len() - i,
    {
        let mut k: usize = 0;
        let mut same = true;
        while k < p.len() && same
            invariant
                tl == t@.len(),
                i <= last,
                last == t@.len() - p@.len(),
                i + p@.len() <= t@.len(),
                k <= p@.len(),
                forall|j: int| 0 <= j < k ==> t@[i + j] == p@[j],
                !same ==> k < p@.len() && t@[i + k] != p@[k as int],
            decreases p@.len() - k, (if same { 1int } else { 0int }),
        {
            if t[i + k] == p[k] {
                k += 1;
            } else {
                same = false;
            }
        }
        if k == p.len() {
            assert(t@.subrange(i as int, i + p@.len()) =~= p@);
            return true;
        }
        assert(t@.subrange(i as int, i + p@.len())[k as int] != p@[k as int]);
        i += 1;
    }
    false
}

/// Which nodes a search shows.
#[derive(Debug, Clone, Copy, PartialEq, Eq, Structural, Default)]
pub enum Kind {
    #[default]
    All,
    Files,
    Folders,
}

/// Node `n` passes the kind filter.
pub open spec fn kind_ok(kind: Kind, n: NodeView) -> bool {
    match kind {
        Kind::Files => !n.is_dir,
        Kind::Folders => n.is_dir,
        Kind::All => true,
    }
}

/// A lowercased name matches a lowercased pattern: as a glob when the
/// pattern has `*` or `?`, else as a substring.
pub open spec fn name_hit(pat: Seq<char>, name: Seq<char>) -> bool {
    if pat.contains('*') || pat.contains('?') {
        wild_matches(pat, name)
    } else {
        has_substring(name, pat)
    }
}

/// The nodes among the first `upto` (other than the root) that pass the
/// kind and size filters and whose lowercased name hits, in arena order.
pub open spec fn matching(t: TreeView, pat: Seq<char>, kind: Kind, min: u64, upto: int) -> Seq<NodeId>
    decreases upto,
{
    if upto <= 0 {
        Seq::empty()
    } else {
        let i = upto - 1;
        let n = t.nodes[i];
        let rest = matching(t, pat, kind, min, upto - 1);
        if i != t.root as int && kind_ok(kind, n) && n.size >= min && name_hit(pat, lower_all(n.name)) {
            rest.push(i as NodeId)
        } else {
            rest
        }
    }
}

proof fn lemma_matching_members(t: TreeView, pat: Seq<char>, kind: Kind, min: u64, upto: int, x: int)
    requires
        t.nodes.len() <= u32::MAX + 1,
        0 <= x < t.nodes.len(),
        upto <= t.nodes.len(),
    ensures
        matching(t, pat, kind, min, upto).contains(x as NodeId) <==> (x < upto && x != t.root as int && kind_ok(
            kind,
            t.nodes[x],
        ) && t.nodes[x].size >= min && name_hit(pat, lower_all(t.nodes[x].name))),
    decreases upto,
{
    if upto > 0 {
        lemma_matching_members(t, pat, kind, min, upto - 1, x);
        let rest = matching(t, pat, kind, min, upto - 1);
        let i = upto - 1;
        assert((i as NodeId) as int == i);
        if matching(t, pat, kind, min, upto) != rest {
            assert(matching(t, pat, kind, min, upto) == rest.push(i as NodeId));
            let pushed = rest.push(i as NodeId);
            if pushed.contains(x as NodeId) && !rest.contains(x as NodeId) {
                let k = choose|k: int| 0 <= k < pushed.len() && #[trigger] pushed[k] == x as NodeId;
                if k < rest.len() {
                    assert(rest[k] == x as NodeId);
                }
            }
            if rest.contains(x as NodeId) {
                let k = choose|k: int| 0 <= k < rest.len() && rest[k] == x as NodeId;
                assert(rest.push(i as NodeId)[k] == x as NodeId);
            }
            if x == i {
                assert(rest.push(i as NodeId)[rest.len() as int] == x as NodeId);
            }
        }
    } else {
        assert(matching(t, pat, kind, min, upto) =~= Seq::<NodeId>::empty());
    }
}

/// Which nodes a search over a lowercased pattern finds: those other than
/// the root that pass the kind and size filters and whose lowercased name
/// matches — as a glob (`*` any run, `?` any one character, the whole
/// name) when the pattern holds `*` or `?`, else as a substring.
pub proof fn law_search_finds(t: TreeView, pat: Seq<char>, kind: Kind, min: u64, x: int)
    requires
        t.nodes.len() <= u32::MAX + 1,
        0 <= x < t.nodes.len(),
    ensures
        ({
            let found = matching(t, pat, kind, min, t.nodes.len() as int).contains(x as NodeId);
            let name = lower_all(t.nodes[x].name);
            let passes = x != t.root as int && kind_ok(kind, t.nodes[x]) && t.nodes[x].size >= min;
            &&& (pat.contains('*') || pat.contains('?')) && !name.contains('*') ==> (found <==> passes
                && glob_matches(pat, name))
            &&& !(pat.contains('*') || pat.contains('?')) ==> (found <==> passes && exists|i: int|
                0 <= i && i + pat.len() <= name.len() && #[trigger] name.subrange(i, i + pat.len()) == pat)
        }),
{
    lemma_matching_members(t, pat, kind, min, t.nodes.len() as int, x);
    let name = lower_all(t.nodes[x].name);
    if !name.contains('*') {
        law_wild_glob(pat, name);
    }
}

/// Most results a search keeps.
pub const MAX_RESULTS: usize = 1000;

/// What a search found: the trimmed query it ran, the largest matches
/// (largest first) and how many matched in all.
pub struct SearchOutcome {
    pub applied: String,
    pub results: Vec<NodeId>,
    pub total_matches: usize,
}

fn contains_char(s: &[char], c: char) -> (r: bool)
    ensures
        r == s@.contains(c),
{
    let mut k: usize = 0;
    while k < s.len()
        invariant
            k <= s@.len(),
            forall|j: int| 0 <= j < k ==> s@[j] != c,
        decreases s@.len() - k,
    {
        if s[k] == c {
            return true;
        }
        k += 1;
    }
    false
}

/// Runs a name search: the query is trimmed and lowercased; nodes other than
/// the root that pass the kind filter and have at least `min_bytes` bytes
/// and whose lowercased name matches are collected, sorted largest first
/// (ties in arena order) and cut to `MAX_RESULTS`.
pub fn run_search(tree: &Tree, query: &str, kind: Kind, min_bytes: u64) -> (r: SearchOutcome)
    requires
        tree@.nodes.len() <= u32::MAX + 1,
    ensures
        r.applied@ == trim(query@),
        r.applied@.len() == 0 ==> r.results@.len() == 0 && r.total_matches == 0,
        r.applied@.len() > 0 ==> {
            let m = matching(tree@, lower_all(r.applied@), kind, min_bytes, tree@.nodes.len() as int);
            &&& r.total_matches == m.len()
            &&& exists|sorted: Seq<NodeId>|
                sorted_by_size(tree@.nodes, m, sorted) && r.results@ == sorted.take(
                    if m.len() < MAX_RESULTS { m.len() as int } else { MAX_RESULTS as int },
                )
        },
        r.applied@.len() > 0 && is_ascii_text(r.applied@) ==> lower_all(r.applied@) == r.applied@.map_values(
            |c: char| lower_ascii(c),
        ),
        r.applied@.len() > 0 ==> forall|i: int|
            0 <= i < tree@.nodes.len() && i != tree@.root && kind_ok(kind, #[trigger] tree@.nodes[i]) && tree@.nodes[i].size
                >= min_bytes && is_ascii_text(tree@.nodes[i].name) ==> lower_all(tree@.nodes[i].name)
                == tree@.nodes[i].name.map_values(|c: char| lower_ascii(c)),
{
    let q = chars_of(query);
    let applied_chars = trim_exec(q.as_slice());
    let applied = string_from_chars(applied_chars.as_slice());
    if applied_chars.len() == 0 {
        return SearchOutcome { applied, results: Vec::new(), total_matches: 0 };
    }
    let pat = lower_all_exec(applied_chars.as_slice());
    let wildcard = contains_char(pat.as_slice(), '*') || contains_char(pat.as_slice(), '?');
    let ghost t = tree@;
    let mut found: Vec<NodeId> = Vec::new();
    let mut i: usize = 0;
    while i < tree.nodes.len()
        invariant
            t == tree@,
            t.nodes.len() <= u32::MAX + 1,
            i <= t.nodes.len(),
            wildcard == (pat@.contains('*') || pat@.contains('?')),
            found@ == matching(t, pat@, kind, min_bytes, i as int),
            forall|j: int| 0 <= j < found@.len() ==> (#[trigger] found@[j] as int) < i,
            forall|j: int|
                0 <= j < i && j != t.root && kind_ok(kind, #[trigger] t.nodes[j]) && t.nodes[j].size >= min_bytes
                    && is_ascii_text(t.nodes[j].name) ==> lower_all(t.nodes[j].name) == t.nodes[j].name.map_values(
                    |c: char| lower_ascii(c),
                ),
        decreases t.nodes.len() - i,
    {
        let n = &tree.nodes[i];
        assert(n@ == t.nodes[i as int]);
        let keep_kind = match kind {
            Kind::Files => !n.is_dir,
            Kind::Folders => n.is_dir,
            Kind::All => true,
        };
        if i as NodeId != tree.root && keep_kind && n.size >= min_bytes {
            let name = lower_all_exec(chars_of(n.name.as_str()).as_slice());
            let hit = if wildcard {
                let ps = string_from_chars(pat.as_slice());
                let ns = string_from_chars(name.as_slice());
                wild_match(ps.as_str(), ns.as_str())
            } else {
                has_substring_exec(name.as_slice(), pat.as_slice())
            };
            if hit {
                found.push(i as NodeId);
            }
        }
        i += 1;
    }
    let total = found.len();
    let mut sorted = tree.sorted_ids(&found);
    let ghost full = sorted@;
    sorted.truncate(MAX_RESULTS);
    SearchOutcome { applied, results: sorted, total_matches: total }
}

impl Tree {
    /// Node ids stably sorted by descending node size.
    pub fn sorted_ids(&self, ids: &Vec<NodeId>) -> (r: Vec<NodeId>)
        requires
            forall|k: int| 0 <= k < ids@.len() ==> (#[trigger] ids@[k] as int) < self@.nodes.len(),
        ensures
            sorted_by_size(self@.nodes, ids@, r@),
    {
        self.sorted_kids(ids)
    }
}

} // verus!
