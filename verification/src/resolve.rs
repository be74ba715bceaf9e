//! Why a node's path finds the node again: splitting a joined path gives
//! back the components it was joined from, and each name picks out the one
//! child that carries it.
use vstd::prelude::*;
use crate::model::{
    ancestry, chain, chain_ok, depth, first_match, join_all, lemma_chain_ok_bounds,
    lemma_chain_prefix, lemma_chain_shape, lookup, reaches_top, resolve, in_bounds, names_of, node_path, walk, wf, NodeId,
    NodeView, TreeView,
};
use crate::paths::{
    after_prefix, flush, has_disk_prefix, is_sep, needs_sep, normals, path_components,
    push_component, scan_segments, tok_text, Tok,
};
use crate::text::eq_ignore_ascii_case;

verus! {

/// A name that stands for itself as one path component: not empty, not
/// `.`, without separators and without `:`.
pub open spec fn plain_name(c: Seq<char>) -> bool {
    &&& c.len() > 0
    &&& c != seq!['.']
    &&& forall|i: int| 0 <= i < c.len() ==> !is_sep(#[trigger] c[i]) && c[i] != ':'
}

/// Every node below the root has a plain name.
pub open spec fn plain_names(t: TreeView) -> bool {
    forall|i: int| 0 <= i < t.nodes.len() && i != t.root ==> plain_name(#[trigger] t.nodes[i].name)
}

/// No two children of a node have names equal ignoring ASCII case, as in a
/// Windows directory.
pub open spec fn distinct_siblings(t: TreeView) -> bool {
    forall|i: int, a: int, b: int|
        0 <= i < t.nodes.len() && 0 <= a < b < t.nodes[i].children.len() ==> !eq_ignore_ascii_case(
            t.nodes[#[trigger] t.nodes[i].children[a] as int].name,
            t.nodes[#[trigger] t.nodes[i].children[b] as int].name,
        )
}

/// Appending separator-free text only extends the segment being read.
proof fn lemma_scan_append(r: Seq<char>, c: Seq<char>)
    requires
        forall|i: int| 0 <= i < c.len() ==> !is_sep(#[trigger] c[i]),
    ensures
        scan_segments(r + c) == (scan_segments(r).0, scan_segments(r).1 + c),
    decreases c.len(),
{
    if c.len() == 0 {
        assert(r + c =~= r);
        assert(scan_segments(r).1 + c =~= scan_segments(r).1);
    } else {
        let f = c.drop_last();
        lemma_scan_append(r, f);
        assert((r + c).drop_last() =~= r + f);
        assert((r + c).last() == c.last());
        assert(scan_segments(r).1 + f.push(c.last()) =~= scan_segments(r).1 + c);
        assert((scan_segments(r).1 + f).push(c.last()) =~= scan_segments(r).1 + c);
    }
}

/// The named components of `r`, a separator, then a plain name.
proof fn lemma_normals_sep_name(r: Seq<char>, c: Seq<char>)
    requires
        plain_name(c),
    ensures
        normals(r.push('\\') + c) == normals(r).push(Tok::Normal(c)),
{
    let (t0, s0) = scan_segments(r);
    assert(r.push('\\').drop_last() =~= r);
    assert(scan_segments(r.push('\\')) == (t0 + flush(s0), Seq::<char>::empty()));
    lemma_scan_append(r.push('\\'), c);
    assert(Seq::<char>::empty() + c =~= c);
    assert(flush(c) == seq![Tok::Normal(c)]);
    assert(normals(r.push('\\') + c) =~= t0 + flush(s0) + seq![Tok::Normal(c)]);
}

/// The named components of `r`, which ends in a separator, then a plain
/// name.
proof fn lemma_normals_after_sep(r: Seq<char>, c: Seq<char>)
    requires
        plain_name(c),
        r.len() > 0,
        is_sep(r.last()),
    ensures
        normals(r + c) == normals(r).push(Tok::Normal(c)),
{
    let (t0, s0) = scan_segments(r.drop_last());
    assert(r.drop_last().push(r.last()) =~= r);
    assert(scan_segments(r) == (t0 + flush(s0), Seq::<char>::empty()));
    lemma_scan_append(r, c);
    assert(Seq::<char>::empty() + c =~= c);
    assert(flush(Seq::<char>::empty()) =~= Seq::<Tok>::empty());
    assert(normals(r) =~= t0 + flush(s0));
    assert(normals(r + c) =~= t0 + flush(s0) + seq![Tok::Normal(c)]);
}

/// `after_prefix` of a non-empty text with a tail whose components extend
/// those of the text by one name.
proof fn lemma_after_prefix_extend(r: Seq<char>, tail: Seq<char>, c: Seq<char>)
    requires
        r.len() > 0,
        normals(r + tail) == normals(r).push(Tok::Normal(c)),
    ensures
        after_prefix(r + tail) == after_prefix(r).push(Tok::Normal(c)),
{
    assert((r + tail)[0] == r[0]);
    if is_sep(r[0]) {
        assert(seq![Tok::RootDir] + normals(r).push(Tok::Normal(c)) =~= (seq![Tok::RootDir]
            + normals(r)).push(Tok::Normal(c)));
    }
}

/// Pushing a plain name onto a path adds exactly that name to its
/// components.
pub proof fn lemma_push_components(b: Seq<char>, c: Seq<char>)
    requires
        plain_name(c),
    ensures
        path_components(push_component(b, c)) == path_components(b).push(Tok::Normal(c)),
{
    let s = push_component(b, c);
    if needs_sep(b) {
        assert(s == b.push('\\') + c);
        if has_disk_prefix(b) {
            let r = b.skip(2);
            assert(r.len() > 0);
            assert(s.skip(2) =~= r.push('\\') + c);
            assert(has_disk_prefix(s));
            lemma_normals_sep_name(r, c);
            assert(r.push('\\') + c =~= r + (seq!['\\'] + c));
            lemma_after_prefix_extend(r, seq!['\\'] + c, c);
            assert(seq![Tok::Disk(crate::text::upper_ascii(s[0]))] + after_prefix(r).push(Tok::Normal(c))
                =~= (seq![Tok::Disk(crate::text::upper_ascii(b[0]))] + after_prefix(r)).push(
                Tok::Normal(c),
            ));
        } else {
            assert(!has_disk_prefix(s)) by {
                if b.len() == 1 {
                    assert(s[1] == '\\');
                } else {
                    assert(s[0] == b[0] && s[1] == b[1]);
                }
            }
            lemma_normals_sep_name(b, c);
            assert(b.push('\\') + c =~= b + (seq!['\\'] + c));
            lemma_after_prefix_extend(b, seq!['\\'] + c, c);
        }
    } else if b.len() == 0 {
        assert(s =~= c);
        assert(!has_disk_prefix(c)) by {
            if c.len() >= 2 {
                assert(c[1] != ':');
            }
        }
        assert(!is_sep(c[0]));
        assert(c.drop_last().push(c.last()) =~= c);
        lemma_scan_append(Seq::<char>::empty(), c);
        assert(Seq::<char>::empty() + c =~= c);
        assert(scan_segments(c) == (Seq::<Tok>::empty(), c));
        assert(normals(c) =~= seq![Tok::Normal(c)]);
        assert(scan_segments(Seq::<char>::empty()) == (Seq::<Tok>::empty(), Seq::<char>::empty()));
        assert(path_components(b) =~= Seq::<Tok>::empty());
        assert(path_components(b).push(Tok::Normal(c)) =~= seq![Tok::Normal(c)]);
    } else if is_sep(b.last()) {
        assert(s == b + c);
        if has_disk_prefix(b) {
            let r = b.skip(2);
            assert(b[1] == ':');
            assert(b.len() >= 3);
            assert(r.last() == b.last());
            assert(s.skip(2) =~= r + c);
            assert(has_disk_prefix(s));
            lemma_normals_after_sep(r, c);
            lemma_after_prefix_extend(r, c, c);
            assert(seq![Tok::Disk(crate::text::upper_ascii(s[0]))] + after_prefix(r).push(Tok::Normal(c))
                =~= (seq![Tok::Disk(crate::text::upper_ascii(b[0]))] + after_prefix(r)).push(
                Tok::Normal(c),
            ));
        } else {
            assert(!has_disk_prefix(s)) by {
                if b.len() == 1 {
                    assert(s[1] == c[0]);
                } else {
                    assert(s[0] == b[0] && s[1] == b[1]);
                }
            }
            lemma_normals_after_sep(b, c);
            lemma_after_prefix_extend(b, c, c);
        }
    } else {
        // a bare drive such as `C:`
        assert(b.len() == 2 && has_disk_prefix(b));
        assert(s == b + c);
        assert(has_disk_prefix(s));
        assert(s.skip(2) =~= c);
        assert(b.skip(2) =~= Seq::<char>::empty());
        assert(!is_sep(c[0]));
        lemma_scan_append(Seq::<char>::empty(), c);
        assert(Seq::<char>::empty() + c =~= c);
        assert(normals(c) =~= seq![Tok::Normal(c)]);
        assert(scan_segments(Seq::<char>::empty()) == (Seq::<Tok>::empty(), Seq::<char>::empty()));
        assert(after_prefix(Seq::<char>::empty()) =~= Seq::<Tok>::empty());
        assert(after_prefix(c) =~= seq![Tok::Normal(c)]);
        assert(seq![Tok::Disk(crate::text::upper_ascii(s[0]))] + seq![Tok::Normal(c)] =~= (seq![
            Tok::Disk(crate::text::upper_ascii(b[0])),
        ] + Seq::<Tok>::empty()).push(Tok::Normal(c)));
    }
}

/// The components of `base` with plain names joined on are those of `base`
/// followed by the names.
pub proof fn lemma_join_components(base: Seq<char>, names: Seq<Seq<char>>)
    requires
        forall|j: int| 0 <= j < names.len() ==> plain_name(#[trigger] names[j]),
    ensures
        path_components(join_all(base, names)) == path_components(base) + names.map_values(
            |n: Seq<char>| Tok::Normal(n),
        ),
    decreases names.len(),
{
    if names.len() == 0 {
        assert(path_components(base) + names.map_values(|n: Seq<char>| Tok::Normal(n)) =~= path_components(base));
    } else {
        let f = names.drop_last();
        lemma_join_components(base, f);
        assert(plain_name(names[names.len() - 1]));
        lemma_push_components(join_all(base, f), names.last());
        assert(path_components(base) + names.map_values(|n: Seq<char>| Tok::Normal(n)) =~= (
        path_components(base) + f.map_values(|n: Seq<char>| Tok::Normal(n))).push(Tok::Normal(names.last())));
    }
}

/// Among siblings with distinct names, a sibling's own name picks it out.
proof fn lemma_first_match_own(nodes: Seq<NodeView>, kids: Seq<NodeId>, x: int)
    requires
        0 <= x < kids.len(),
        forall|a: int, b: int|
            0 <= a < b < kids.len() ==> !eq_ignore_ascii_case(
                nodes[#[trigger] kids[a] as int].name,
                nodes[#[trigger] kids[b] as int].name,
            ),
    ensures
        first_match(nodes, kids, nodes[kids[x] as int].name) == Some(kids[x]),
    decreases x,
{
    let want = nodes[kids[x] as int].name;
    if x == 0 {
        assert(eq_ignore_ascii_case(want, want));
    } else {
        assert(!eq_ignore_ascii_case(nodes[kids[0] as int].name, want));
        let rest = kids.drop_first();
        assert forall|a: int, b: int| 0 <= a < b < rest.len() implies !eq_ignore_ascii_case(
            nodes[#[trigger] rest[a] as int].name,
            nodes[#[trigger] rest[b] as int].name,
        ) by {
            assert(rest[a] == kids[a + 1] && rest[b] == kids[b + 1]);
        }
        lemma_first_match_own(nodes, rest, x - 1);
        assert(rest[x - 1] == kids[x]);
    }
}

/// Walking the names of the chain below its `k`-th node ends at the node
/// the chain ends in.
proof fn lemma_walk_chain(t: TreeView, anc: Seq<NodeId>, k: int)
    requires
        wf(t),
        plain_names(t),
        distinct_siblings(t),
        anc.len() > 0,
        0 <= k < anc.len(),
        forall|j: int| 0 <= j < anc.len() ==> (#[trigger] anc[j] as int) < t.nodes.len(),
        forall|j: int| 0 < j < anc.len() ==> t.nodes[#[trigger] anc[j] as int].parent == Some(anc[j - 1]),
    ensures
        walk(
            t.nodes,
            anc[k],
            names_of(t.nodes, anc.skip(k + 1)).map_values(|n: Seq<char>| Tok::Normal(n)),
        ) == Some(anc.last()),
    decreases anc.len() - k,
{
    let rel = names_of(t.nodes, anc.skip(k + 1)).map_values(|n: Seq<char>| Tok::Normal(n));
    if k == anc.len() - 1 {
        assert(rel.len() == 0);
    } else {
        let x = anc[k + 1];
        let p = anc[k];
        assert(t.nodes[x as int].parent == Some(p));
        assert(x != t.root) by {
            assert(t.nodes[t.root as int].parent is None);
        }
        assert(t.nodes[p as int].children.contains(x));
        let kids = t.nodes[p as int].children;
        let xi = choose|i: int| 0 <= i < kids.len() && kids[i] == x;
        assert forall|a: int, b: int| 0 <= a < b < kids.len() implies !eq_ignore_ascii_case(
            t.nodes[#[trigger] kids[a] as int].name,
            t.nodes[#[trigger] kids[b] as int].name,
        ) by {
            assert(t.nodes[p as int].children[a] == kids[a]);
        }
        lemma_first_match_own(t.nodes, kids, xi);
        assert(rel[0] == Tok::Normal(t.nodes[x as int].name));
        assert(tok_text(rel[0]) == t.nodes[x as int].name);
        lemma_walk_chain(t, anc, k + 1);
        assert(rel.drop_first() =~= names_of(t.nodes, anc.skip(k + 2)).map_values(
            |n: Seq<char>| Tok::Normal(n),
        ));
    }
}

/// The ancestors of a node of a well-formed tree run from the root down to
/// the node, each the parent of the next.
pub proof fn law_ancestry(t: TreeView, id: int)
    requires
        wf(t),
        0 <= id < t.nodes.len(),
    ensures
        ancestry(t.nodes, id).len() >= 1,
        ancestry(t.nodes, id)[0] == t.root,
        ancestry(t.nodes, id).last() == id as NodeId,
        forall|j: int|
            0 <= j < ancestry(t.nodes, id).len() ==> (#[trigger] ancestry(t.nodes, id)[j] as int) < t.nodes.len(),
        forall|j: int|
            0 < j < ancestry(t.nodes, id).len() ==> t.nodes[#[trigger] ancestry(t.nodes, id)[j] as int].parent
                == Some(ancestry(t.nodes, id)[j - 1]),
{
    let nodes = t.nodes;
    let d = depth(nodes, id);
    let anc = ancestry(nodes, id);
    assert(chain_ok(nodes, id));
    lemma_chain_ok_bounds(nodes, id);
    lemma_chain_shape(nodes, id, d);
    assert(anc[0] == t.root) by {
        let top = anc[0] as int;
        if top != t.root as int {
            assert(0 <= top < nodes.len());
            assert(nodes[top].parent is Some);
        }
    }
    assert forall|j: int| 0 < j < anc.len() implies nodes[#[trigger] anc[j] as int].parent == Some(
        anc[j - 1],
    ) by {
        lemma_chain_prefix(nodes, id, d, j as nat);
        lemma_chain_prefix(nodes, id, d, (j - 1) as nat);
        let x = anc[j] as int;
        assert(chain(nodes, x, j as nat) == anc.take(j + 1));
        assert(reaches_top(nodes, x, j as nat));
        let p = nodes[x].parent.unwrap() as int;
        assert(chain(nodes, x, j as nat) == chain(nodes, p, (j - 1) as nat).push(x as NodeId));
        lemma_chain_shape(nodes, p, (j - 1) as nat);
        assert(chain(nodes, p, (j - 1) as nat) =~= anc.take(j));
        assert(anc.take(j).last() == anc[j - 1]);
    }
}

/// Lookup by a node's full path finds the node: when every name below the
/// root is a plain name and no two siblings share a name ignoring ASCII
/// case, `find_by_path(&path(id))` is `Some(id)` and
/// `resolve_nearest(&path(id))` is `id`.
pub proof fn law_find_path(t: TreeView, id: int)
    requires
        wf(t),
        0 <= id < t.nodes.len(),
        plain_names(t),
        distinct_siblings(t),
    ensures
        lookup(t, path_components(node_path(t, id))) == Some(id as NodeId),
        resolve(t, path_components(node_path(t, id))) == id as NodeId,
{
    let nodes = t.nodes;
    let anc = ancestry(nodes, id);
    law_ancestry(t, id);
    let names = names_of(nodes, anc.drop_first());
    assert forall|j: int| 0 <= j < names.len() implies plain_name(#[trigger] names[j]) by {
        let x = anc[j + 1] as int;
        assert(nodes[x].parent is Some);
        assert(x != t.root as int);
    }
    lemma_join_components(nodes[t.root as int].name, names);
    let base = path_components(nodes[t.root as int].name);
    let rel = names.map_values(|n: Seq<char>| Tok::Normal(n));
    let toks = base + rel;
    assert(toks.take(base.len() as int) =~= base);
    assert(toks.skip(base.len() as int) =~= rel);
    assert(anc.skip(1) =~= anc.drop_first());
    lemma_walk_chain(t, anc, 0);
}

/// A match among `kids` is one of them.
proof fn lemma_first_match_in(nodes: Seq<NodeView>, kids: Seq<NodeId>, want: Seq<char>)
    ensures
        first_match(nodes, kids, want) matches Some(c) ==> kids.contains(c),
    decreases kids.len(),
{
    if kids.len() > 0 && !eq_ignore_ascii_case(nodes[kids[0] as int].name, want) {
        lemma_first_match_in(nodes, kids.drop_first(), want);
        if first_match(nodes, kids, want) is Some {
            let c = first_match(nodes, kids, want).unwrap();
            let k = choose|k: int| 0 <= k < kids.drop_first().len() && kids.drop_first()[k] == c;
            assert(kids[k + 1] == c);
        }
    } else if kids.len() > 0 {
        assert(kids[0] == kids[0]);
    }
}

proof fn lemma_walk_in_bounds(t: TreeView, cur: NodeId, rel: Seq<Tok>)
    requires
        in_bounds(t),
        (cur as int) < t.nodes.len(),
    ensures
        walk(t.nodes, cur, rel) matches Some(x) ==> (x as int) < t.nodes.len(),
    decreases rel.len(),
{
    if rel.len() > 0 {
        let kids = t.nodes[cur as int].children;
        lemma_first_match_in(t.nodes, kids, tok_text(rel[0]));
        match first_match(t.nodes, kids, tok_text(rel[0])) {
            Some(c) => {
                let k = choose|k: int| 0 <= k < kids.len() && kids[k] == c;
                assert((t.nodes[cur as int].children[k] as int) < t.nodes.len());
                lemma_walk_in_bounds(t, c, rel.drop_first());
            },
            None => {},
        }
    }
}

/// What a lookup finds is a node of the tree.
pub proof fn lemma_lookup_in_bounds(t: TreeView, toks: Seq<Tok>)
    requires
        in_bounds(t),
    ensures
        lookup(t, toks) matches Some(x) ==> (x as int) < t.nodes.len(),
{
    let base = path_components(t.nodes[t.root as int].name);
    lemma_walk_in_bounds(t, t.root, toks.skip(base.len() as int));
}

/// What a resolution lands on is a node of the tree.
pub proof fn lemma_resolve_in_bounds(t: TreeView, toks: Seq<Tok>)
    requires
        in_bounds(t),
    ensures
        (resolve(t, toks) as int) < t.nodes.len(),
    decreases toks.len(),
{
    lemma_lookup_in_bounds(t, toks);
    if lookup(t, toks) is None && toks.len() > 0 && toks.last() is Normal {
        lemma_resolve_in_bounds(t, toks.drop_last());
    }
}

/// A non-root node's parent is a node of the tree.
pub proof fn lemma_parent_in_tree(t: TreeView, id: int)
    requires
        wf(t),
        0 <= id < t.nodes.len(),
        t.nodes[id].parent is Some,
    ensures
        (t.nodes[id].parent.unwrap() as int) < t.nodes.len(),
{
    assert(chain_ok(t.nodes, id));
    crate::model::lemma_parent_depth(t.nodes, id);
    lemma_chain_ok_bounds(t.nodes, t.nodes[id].parent.unwrap() as int);
}

/// Two names equal to a third ignoring ASCII case are equal to each other
/// ignoring ASCII case.
proof fn lemma_eq_case_trans(a: Seq<char>, b: Seq<char>, w: Seq<char>)
    requires
        eq_ignore_ascii_case(a, w),
        eq_ignore_ascii_case(b, w),
    ensures
        eq_ignore_ascii_case(a, b),
{
    assert forall|k: int| 0 <= k < a.len() implies crate::text::lower_ascii(#[trigger] a[k]) == crate::text::lower_ascii(b[k]) by {
        assert(crate::text::lower_ascii(a[k]) == crate::text::lower_ascii(w[k]));
        assert(crate::text::lower_ascii(b[k]) == crate::text::lower_ascii(w[k]));
    }
}

/// Among siblings with names distinct ignoring ASCII case, a name matching
/// one sibling's picks that sibling out.
proof fn lemma_first_match_eq(nodes: Seq<NodeView>, kids: Seq<NodeId>, x: int, want: Seq<char>)
    requires
        0 <= x < kids.len(),
        eq_ignore_ascii_case(nodes[kids[x] as int].name, want),
        forall|a: int, b: int|
            0 <= a < b < kids.len() ==> !eq_ignore_ascii_case(
                nodes[#[trigger] kids[a] as int].name,
                nodes[#[trigger] kids[b] as int].name,
            ),
    ensures
        first_match(nodes, kids, want) == Some(kids[x]),
    decreases x,
{
    if x > 0 {
        if eq_ignore_ascii_case(nodes[kids[0] as int].name, want) {
            lemma_eq_case_trans(nodes[kids[0] as int].name, nodes[kids[x] as int].name, want);
            assert(false);
        }
        let rest = kids.drop_first();
        assert forall|a: int, b: int| 0 <= a < b < rest.len() implies !eq_ignore_ascii_case(
            nodes[#[trigger] rest[a] as int].name,
            nodes[#[trigger] rest[b] as int].name,
        ) by {
            assert(rest[a] == kids[a + 1] && rest[b] == kids[b + 1]);
        }
        assert(rest[x - 1] == kids[x]);
        lemma_first_match_eq(nodes, rest, x - 1, want);
    }
}

/// What a match picks has a name equal to the one wanted, ignoring ASCII
/// case.
proof fn lemma_first_match_hit(nodes: Seq<NodeView>, kids: Seq<NodeId>, want: Seq<char>)
    ensures
        first_match(nodes, kids, want) matches Some(c) ==> eq_ignore_ascii_case(nodes[c as int].name, want),
    decreases kids.len(),
{
    if kids.len() > 0 && !eq_ignore_ascii_case(nodes[kids[0] as int].name, want) {
        lemma_first_match_hit(nodes, kids.drop_first(), want);
    }
}

/// The names of `rel` spell the chain `anc` below its `k`-th node: the
/// chain goes exactly `rel.len()` steps further down, and each component
/// equals, ignoring ASCII case, the name of the node at its step.
pub open spec fn spells(t: TreeView, anc: Seq<NodeId>, k: int, rel: Seq<Tok>) -> bool {
    &&& anc.len() == k + 1 + rel.len()
    &&& forall|m: int|
        0 <= m < rel.len() ==> eq_ignore_ascii_case(t.nodes[#[trigger] anc[k + 1 + m] as int].name, tok_text(rel[m]))
}

/// Walking `rel` down from `cur` reaches `id` exactly when `cur` is on the
/// chain of `id` and `rel` spells the rest of that chain.
proof fn lemma_walk_iff(t: TreeView, cur: NodeId, rel: Seq<Tok>, id: int)
    requires
        wf(t),
        distinct_siblings(t),
        (cur as int) < t.nodes.len(),
        0 <= id < t.nodes.len(),
    ensures
        walk(t.nodes, cur, rel) == Some(id as NodeId) <==> {
            let d = depth(t.nodes, cur as int) as int;
            let anc = ancestry(t.nodes, id);
            &&& d < anc.len()
            &&& anc[d] == cur
            &&& spells(t, anc, d, rel)
        },
    decreases rel.len(),
{
    let nodes = t.nodes;
    let d = depth(nodes, cur as int) as int;
    let anc = ancestry(nodes, id);
    law_ancestry(t, id);
    assert(chain_ok(nodes, id));
    lemma_chain_ok_bounds(nodes, id);
    lemma_chain_shape(nodes, id, depth(nodes, id));
    if rel.len() == 0 {
        if walk(nodes, cur, rel) == Some(id as NodeId) {
            assert(cur as int == id);
            assert(anc[anc.len() - 1] == id as NodeId);
        }
        if d < anc.len() && anc[d] == cur && spells(t, anc, d, rel) {
            assert(anc[anc.len() - 1] == id as NodeId);
        }
    } else {
        let w = tok_text(rel[0]);
        let kids = nodes[cur as int].children;
        let rest = rel.drop_first();
        assert forall|a: int, b: int| 0 <= a < b < kids.len() implies !eq_ignore_ascii_case(
            nodes[#[trigger] kids[a] as int].name,
            nodes[#[trigger] kids[b] as int].name,
        ) by {
            assert(nodes[cur as int].children[a] == kids[a]);
        }
        lemma_first_match_in(nodes, kids, w);
        lemma_first_match_hit(nodes, kids, w);
        if walk(nodes, cur, rel) == Some(id as NodeId) {
            let c = first_match(nodes, kids, w).unwrap();
            assert(kids.contains(c));
            crate::subtree::lemma_child(t, cur as int, c);
            lemma_walk_iff(t, c, rest, id);
            assert(anc[d + 1] == c);
            assert(nodes[anc[d + 1] as int].parent == Some(anc[d]));
            assert(anc[d] == cur);
            assert forall|m: int| 0 <= m < rel.len() implies eq_ignore_ascii_case(
                nodes[#[trigger] anc[d + 1 + m] as int].name,
                tok_text(rel[m]),
            ) by {
                if m > 0 {
                    assert(rel[m] == rest[m - 1]);
                    assert(anc[(d + 1) + 1 + (m - 1)] == anc[d + 1 + m]);
                }
            }
        }
        if d < anc.len() && anc[d] == cur && spells(t, anc, d, rel) {
            let c = anc[d + 1];
            assert(nodes[c as int].parent == Some(cur));
            assert(c != t.root) by {
                assert(nodes[t.root as int].parent is None);
            }
            assert(nodes[cur as int].children.contains(c));
            let x = choose|x: int| 0 <= x < kids.len() && kids[x] == c;
            assert(eq_ignore_ascii_case(nodes[anc[d + 1 + 0] as int].name, tok_text(rel[0])));
            lemma_first_match_eq(nodes, kids, x, w);
            crate::subtree::lemma_child(t, cur as int, c);
            assert forall|m: int| 0 <= m < rest.len() implies eq_ignore_ascii_case(
                nodes[#[trigger] anc[(d + 1) + 1 + m] as int].name,
                tok_text(rest[m]),
            ) by {
                assert(rest[m] == rel[m + 1]);
                assert(eq_ignore_ascii_case(nodes[anc[d + 1 + (m + 1)] as int].name, tok_text(rel[m + 1])));
            }
            lemma_walk_iff(t, c, rest, id);
        }
    }
}

/// Lookup by path finds a node exactly when the path starts with the
/// root's components and the rest, component by component, names the
/// node's ancestors below the root and then the node (ignoring ASCII case),
/// in a tree whose siblings have names distinct ignoring ASCII case.
pub proof fn law_find_path_iff(t: TreeView, toks: Seq<Tok>, id: int)
    requires
        wf(t),
        distinct_siblings(t),
        0 <= id < t.nodes.len(),
    ensures
        lookup(t, toks) == Some(id as NodeId) <==> {
            let base = path_components(t.nodes[t.root as int].name);
            &&& base.len() <= toks.len()
            &&& toks.take(base.len() as int) == base
            &&& spells(t, ancestry(t.nodes, id), 0, toks.skip(base.len() as int))
        },
{
    let base = path_components(t.nodes[t.root as int].name);
    law_ancestry(t, id);
    assert(chain_ok(t.nodes, t.root as int));
    lemma_chain_ok_bounds(t.nodes, t.root as int);
    lemma_walk_iff(t, t.root, toks.skip(base.len() as int), id);
}

} // verus!
