//! What the wildcard matcher decides: glob matching of a whole name, where
//! `*` stands for any run of characters and `?` for any one character.
use vstd::prelude::*;
use crate::search::{only_stars, wild_from, wild_matches};

verus! {

/// Whether `p` from `i` on matches the whole of `t` from `j` on: `*`
/// takes any run of characters, `?` any one character, and every other
/// pattern character itself.
pub open spec fn glob(p: Seq<char>, t: Seq<char>, i: int, j: int) -> bool
    decreases p.len() - i + t.len() - j,
    when 0 <= i <= p.len() && 0 <= j <= t.len()
{
    if i == p.len() {
        j == t.len()
    } else if p[i] == '*' {
        glob(p, t, i + 1, j) || (j < t.len() && glob(p, t, i, j + 1))
    } else {
        j < t.len() && (p[i] == '?' || p[i] == t[j]) && glob(p, t, i + 1, j + 1)
    }
}

/// Glob match of the whole of `t` against the whole of `p`.
pub open spec fn glob_matches(p: Seq<char>, t: Seq<char>) -> bool {
    glob(p, t, 0, 0)
}

/// `p` from `i` on matches `t` from some position in `j..` on.
pub open spec fn glob_some(p: Seq<char>, t: Seq<char>, i: int, j: int) -> bool {
    exists|k: int| j <= k <= t.len() && #[trigger] glob(p, t, i, k)
}

/// No `*` in `p[a..b]`.
pub open spec fn star_free(p: Seq<char>, a: int, b: int) -> bool {
    forall|m: int| a <= m < b ==> #[trigger] p[m] != '*'
}

/// At the end of the text only stars may remain.
proof fn lemma_glob_end(p: Seq<char>, t: Seq<char>, i: int)
    requires
        0 <= i <= p.len(),
    ensures
        glob(p, t, i, t.len() as int) == only_stars(p, i),
    decreases p.len() - i,
{
    if i < p.len() {
        lemma_glob_end(p, t, i + 1);
    }
}

/// A star-free stretch of pattern takes exactly as many characters.
proof fn lemma_glob_literal(p: Seq<char>, t: Seq<char>, i: int, k: int, len: int)
    requires
        0 <= i,
        0 <= len,
        i + len <= p.len(),
        0 <= k <= t.len(),
        star_free(p, i, i + len),
        glob(p, t, i, k),
    ensures
        k + len <= t.len(),
        glob(p, t, i + len, k + len),
    decreases len,
{
    if len > 0 {
        assert(p[i] != '*');
        lemma_glob_literal(p, t, i + 1, k + 1, len - 1);
    }
}

/// A star can take more characters: a match from a later position gives
/// one from an earlier one.
proof fn lemma_star_absorbs(p: Seq<char>, t: Seq<char>, i: int, j: int, k: int)
    requires
        0 <= i < p.len(),
        p[i] == '*',
        0 <= j <= k <= t.len(),
        glob(p, t, i, k),
    ensures
        glob(p, t, i, j),
    decreases k - j,
{
    if j < k {
        lemma_star_absorbs(p, t, i, j + 1, k);
    }
}

/// The state of the matcher: with no star seen, the pattern so far was
/// matched one character for one; with a last star at `sp` resumed from
/// `st`, the stretch after the star was matched one for one from `st`.
pub open spec fn aligned(p: Seq<char>, t: Seq<char>, pi: int, ti: int, star: Option<(int, int)>) -> bool {
    &&& 0 <= pi <= p.len()
    &&& 0 <= ti <= t.len()
    &&& match star {
        None => pi == ti && star_free(p, 0, pi),
        Some((sp, st)) => {
            &&& 0 <= sp < pi
            &&& p[sp] == '*'
            &&& 0 <= st <= ti
            &&& pi - sp - 1 == ti - st
            &&& star_free(p, sp + 1, pi)
        },
    }
}

/// What a matcher state stands for: a match from where it stands, or, with
/// a star, a match of the rest after the star from a later position.
pub open spec fn state_value(p: Seq<char>, t: Seq<char>, pi: int, ti: int, star: Option<(int, int)>) -> bool {
    match star {
        None => glob(p, t, pi, ti),
        Some((sp, st)) => glob(p, t, pi, ti) || glob_some(p, t, sp + 1, st + 1),
    }
}

proof fn lemma_run(p: Seq<char>, t: Seq<char>, pi: int, ti: int, star: Option<(int, int)>)
    requires
        !t.contains('*'),
        aligned(p, t, pi, ti, star),
    ensures
        wild_from(p, t, pi, ti, star) == state_value(p, t, pi, ti, star),
    decreases crate::search::wild_measure(t, star), t.len() - ti + p.len() - pi,
{
    if ti < t.len() {
        assert(t[ti] != '*') by {
            if t[ti] == '*' {
                assert(t.contains('*'));
            }
        }
        if pi < p.len() && (p[pi] == '?' || p[pi] == t[ti]) {
            lemma_run(p, t, pi + 1, ti + 1, star);
        } else if pi < p.len() && p[pi] == '*' {
            lemma_run(p, t, pi + 1, ti, Some((pi, ti)));
            // the new star covers every match the old one allowed
            assert(glob(p, t, pi, ti) == glob_some(p, t, pi + 1, ti)) by {
                if glob(p, t, pi, ti) {
                    lemma_star_to_some(p, t, pi, ti);
                }
                if glob_some(p, t, pi + 1, ti) {
                    let k = choose|k: int| ti <= k <= t.len() && #[trigger] glob(p, t, pi + 1, k);
                    assert(glob(p, t, pi, k));
                    lemma_star_absorbs(p, t, pi, ti, k);
                }
            }
            assert(glob_some(p, t, pi + 1, ti) == (glob(p, t, pi + 1, ti) || glob_some(p, t, pi + 1, ti + 1))) by {
                if glob_some(p, t, pi + 1, ti) {
                    let k = choose|k: int| ti <= k <= t.len() && #[trigger] glob(p, t, pi + 1, k);
                    if k > ti {
                        assert(glob_some(p, t, pi + 1, ti + 1));
                    }
                }
                if glob_some(p, t, pi + 1, ti + 1) {
                    let k = choose|k: int| ti + 1 <= k <= t.len() && #[trigger] glob(p, t, pi + 1, k);
                    assert(glob_some(p, t, pi + 1, ti));
                }
            }
            if let Some((sp, st)) = star {
                if glob_some(p, t, sp + 1, st + 1) {
                    let k = choose|k: int| st + 1 <= k <= t.len() && #[trigger] glob(p, t, sp + 1, k);
                    lemma_glob_literal(p, t, sp + 1, k, pi - sp - 1);
                    lemma_star_absorbs(p, t, pi, ti, k + pi - sp - 1);
                }
            }
        } else {
            match star {
                Some((sp, st)) => {
                    lemma_run(p, t, sp + 1, st + 1, Some((sp, st + 1)));
                    assert(glob_some(p, t, sp + 1, st + 1) == (glob(p, t, sp + 1, st + 1) || glob_some(p, t, sp + 1, st + 2))) by {
                        if glob_some(p, t, sp + 1, st + 1) {
                            let k = choose|k: int| st + 1 <= k <= t.len() && #[trigger] glob(p, t, sp + 1, k);
                            if k > st + 1 {
                                assert(glob_some(p, t, sp + 1, st + 2));
                            }
                        }
                        if glob_some(p, t, sp + 1, st + 2) {
                            let k = choose|k: int| st + 2 <= k <= t.len() && #[trigger] glob(p, t, sp + 1, k);
                            assert(glob_some(p, t, sp + 1, st + 1));
                        }
                    }
                    assert(!glob(p, t, pi, ti));
                },
                None => {
                    assert(!glob(p, t, pi, ti));
                },
            }
        }
    } else {
        lemma_glob_end(p, t, pi);
        if let Some((sp, st)) = star {
            if glob_some(p, t, sp + 1, st + 1) {
                let k = choose|k: int| st + 1 <= k <= t.len() && #[trigger] glob(p, t, sp + 1, k);
                lemma_glob_literal(p, t, sp + 1, k, pi - sp - 1);
            }
        }
    }
}

/// A match of a star from `j` is a match of what follows it from `j` on.
proof fn lemma_star_to_some(p: Seq<char>, t: Seq<char>, i: int, j: int)
    requires
        0 <= i < p.len(),
        p[i] == '*',
        0 <= j <= t.len(),
        glob(p, t, i, j),
    ensures
        glob_some(p, t, i + 1, j),
    decreases t.len() - j,
{
    if glob(p, t, i + 1, j) {
        assert(glob(p, t, i + 1, j));
    } else {
        lemma_star_to_some(p, t, i, j + 1);
        let k = choose|k: int| j + 1 <= k <= t.len() && #[trigger] glob(p, t, i + 1, k);
        assert(glob(p, t, i + 1, k));
    }
}

/// On names without `*` (no Windows file name has one), the wildcard
/// matcher decides glob matching: `*` any run, `?` any one character,
/// every other character itself, over the whole name.
pub proof fn law_wild_glob(p: Seq<char>, t: Seq<char>)
    requires
        !t.contains('*'),
    ensures
        wild_matches(p, t) == glob_matches(p, t),
{
    lemma_run(p, t, 0, 0, None);
}

/// Glob matching stated on the texts themselves: an empty pattern matches
/// only the empty text; a leading `*` matches when the rest of the pattern
/// matches the text with some prefix dropped (see `glob_drop`); a leading
/// `?` takes any one character, any other character itself.
pub open spec fn glob_seq(p: Seq<char>, t: Seq<char>) -> bool
    decreases p.len(), 0nat, 0nat,
{
    if p.len() == 0 {
        t.len() == 0
    } else if p[0] == '*' {
        glob_drop(p.skip(1), t, 0)
    } else {
        t.len() > 0 && (p[0] == '?' || p[0] == t[0]) && glob_seq(p.skip(1), t.skip(1))
    }
}

/// `r` matches `t` with its first `k` characters, or more, dropped.
pub open spec fn glob_drop(r: Seq<char>, t: Seq<char>, k: int) -> bool
    decreases r.len(), 1nat, t.len() - k,
    when 0 <= k <= t.len()
{
    glob_seq(r, t.skip(k)) || (k < t.len() && glob_drop(r, t, k + 1))
}

/// `glob_drop` is some number of dropped characters.
pub proof fn law_glob_drop(r: Seq<char>, t: Seq<char>, k: int)
    requires
        0 <= k <= t.len(),
    ensures
        glob_drop(r, t, k) == exists|m: int| k <= m <= t.len() && #[trigger] glob_seq(r, t.skip(m)),
    decreases t.len() - k,
{
    assert(glob_drop(r, t, k) == (glob_seq(r, t.skip(k)) || (k < t.len() && glob_drop(r, t, k + 1))));
    if glob_seq(r, t.skip(k)) {
        assert(exists|m: int| k <= m <= t.len() && #[trigger] glob_seq(r, t.skip(m)));
    }
    if k < t.len() {
        law_glob_drop(r, t, k + 1);
        if glob_drop(r, t, k + 1) {
            let m = choose|m: int| k + 1 <= m <= t.len() && #[trigger] glob_seq(r, t.skip(m));
            assert(exists|m2: int| k <= m2 <= t.len() && #[trigger] glob_seq(r, t.skip(m2)));
        }
        if exists|m: int| k <= m <= t.len() && #[trigger] glob_seq(r, t.skip(m)) {
            let m = choose|m: int| k <= m <= t.len() && #[trigger] glob_seq(r, t.skip(m));
            if m > k {
                assert(exists|m2: int| k + 1 <= m2 <= t.len() && #[trigger] glob_seq(r, t.skip(m2)));
            }
        }
    } else {
        if exists|m: int| k <= m <= t.len() && #[trigger] glob_seq(r, t.skip(m)) {
            let m = choose|m: int| k <= m <= t.len() && #[trigger] glob_seq(r, t.skip(m));
            assert(m == k);
        }
    }
}

/// A star at `i` matches from `j` exactly when the rest matches from some
/// later position.
proof fn lemma_star_some(p: Seq<char>, t: Seq<char>, i: int, j: int)
    requires
        0 <= i < p.len(),
        p[i] == '*',
        0 <= j <= t.len(),
    ensures
        glob(p, t, i, j) == glob_some(p, t, i + 1, j),
    decreases t.len() - j,
{
    assert(glob(p, t, i, j) == (glob(p, t, i + 1, j) || (j < t.len() && glob(p, t, i, j + 1))));
    if glob(p, t, i + 1, j) {
        assert(glob_some(p, t, i + 1, j));
    }
    if j < t.len() {
        lemma_star_some(p, t, i, j + 1);
        if glob_some(p, t, i + 1, j) {
            let k = choose|k: int| j <= k <= t.len() && #[trigger] glob(p, t, i + 1, k);
            if k > j {
                assert(glob_some(p, t, i + 1, j + 1));
            }
        }
        if glob_some(p, t, i + 1, j + 1) {
            let k = choose|k: int| j + 1 <= k <= t.len() && #[trigger] glob(p, t, i + 1, k);
            assert(glob_some(p, t, i + 1, j));
        }
    } else {
        if glob_some(p, t, i + 1, j) {
            let k = choose|k: int| j <= k <= t.len() && #[trigger] glob(p, t, i + 1, k);
            assert(k == j);
        }
    }
}

proof fn lemma_glob_seq(p: Seq<char>, t: Seq<char>, i: int, j: int)
    requires
        0 <= i <= p.len(),
        0 <= j <= t.len(),
    ensures
        glob(p, t, i, j) == glob_seq(p.skip(i), t.skip(j)),
    decreases p.len() - i, t.len() - j,
{
    let ps = p.skip(i);
    let ts = t.skip(j);
    if i == p.len() {
        assert(ps.len() == 0);
    } else if p[i] == '*' {
        assert(ps[0] == '*');
        assert(ps.skip(1) =~= p.skip(i + 1));
        lemma_star_some(p, t, i, j);
        law_glob_drop(p.skip(i + 1), ts, 0);
        assert forall|k: int| j <= k <= t.len() implies glob(p, t, i + 1, k) == glob_seq(p.skip(i + 1), t.skip(k)) by {
            lemma_glob_seq(p, t, i + 1, k);
        }
        if glob(p, t, i, j) {
            let k = choose|k: int| j <= k <= t.len() && #[trigger] glob(p, t, i + 1, k);
            assert(ts.skip(k - j) =~= t.skip(k));
            assert(glob_seq(p.skip(i + 1), ts.skip(k - j)));
        }
        if glob_seq(ps, ts) {
            let m = choose|m: int| 0 <= m <= ts.len() && #[trigger] glob_seq(p.skip(i + 1), ts.skip(m));
            assert(ts.skip(m) =~= t.skip(j + m));
            assert(glob(p, t, i + 1, j + m));
            assert(glob_some(p, t, i + 1, j));
        }
    } else {
        assert(ps[0] == p[i]);
        assert(ps.skip(1) =~= p.skip(i + 1));
        if j < t.len() {
            assert(ts[0] == t[j]);
            assert(ts.skip(1) =~= t.skip(j + 1));
            lemma_glob_seq(p, t, i + 1, j + 1);
        }
    }
}

/// `glob_matches` is glob matching stated on the texts themselves.
pub proof fn law_glob_seq(p: Seq<char>, t: Seq<char>)
    ensures
        glob_matches(p, t) == glob_seq(p, t),
{
    lemma_glob_seq(p, t, 0, 0);
    assert(p.skip(0) =~= p);
    assert(t.skip(0) =~= t);
}

/// On a name without `*`, the wildcard matcher decides glob matching stated
/// on the texts themselves.
pub proof fn law_wild_seq(p: Seq<char>, t: Seq<char>)
    requires
        !t.contains('*'),
    ensures
        wild_matches(p, t) == glob_seq(p, t),
{
    law_wild_glob(p, t);
    law_glob_seq(p, t);
}

/// A lone `*` matches every name without `*`; the empty pattern matches
/// only the empty name.
pub proof fn law_wild_star_and_empty(t: Seq<char>)
    ensures
        !t.contains('*') ==> wild_matches(seq!['*'], t),
        wild_matches(Seq::<char>::empty(), t) == (t.len() == 0),
{
    if !t.contains('*') {
        law_wild_glob(seq!['*'], t);
        law_glob_seq(seq!['*'], t);
        let p = seq!['*'];
        assert(p.skip(1) =~= Seq::<char>::empty());
        assert(t.skip(t.len() as int) =~= Seq::<char>::empty());
        law_glob_drop(p.skip(1), t, 0);
        assert(glob_seq(p.skip(1), t.skip(t.len() as int)));
    }
}

proof fn lemma_wild_literal(p: Seq<char>, t: Seq<char>, i: int)
    requires
        !p.contains('*'),
        !p.contains('?'),
        0 <= i <= p.len(),
        i <= t.len(),
        p.take(i) == t.take(i),
    ensures
        wild_from(p, t, i, i, None) == (p == t),
    decreases t.len() - i,
{
    if i < t.len() {
        if i < p.len() {
            assert(p[i] != '*' && p[i] != '?') by {
                if p[i] == '*' || p[i] == '?' {
                    assert(p.contains(p[i]));
                }
            }
            if p[i] == t[i] {
                assert(p.take(i + 1) =~= p.take(i).push(p[i]));
                assert(t.take(i + 1) =~= t.take(i).push(t[i]));
                lemma_wild_literal(p, t, i + 1);
            } else {
                assert(p[i] != t[i]);
            }
        } else {
            assert(p.len() != t.len());
        }
    } else {
        if i < p.len() {
            assert(p[i] != '*') by {
                if p[i] == '*' {
                    assert(p.contains(p[i]));
                }
            }
            assert(!only_stars(p, i));
        } else {
            assert(p =~= p.take(i));
            assert(t =~= t.take(i));
        }
    }
}

/// A pattern with neither `*` nor `?` matches exactly the name it spells.
pub proof fn law_wild_literal(p: Seq<char>, t: Seq<char>)
    requires
        !p.contains('*'),
        !p.contains('?'),
    ensures
        wild_matches(p, t) == (p == t),
{
    assert(p.take(0) =~= t.take(0));
    lemma_wild_literal(p, t, 0);
}

} // verus!
