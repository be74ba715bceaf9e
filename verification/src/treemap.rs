//! The integer side of the treemap: which children get a rectangle, the
//! range of file sizes the colors spread over, directory shades, the hover
//! tint, and which of the rectangles under the pointer wins.
use vstd::prelude::*;
use crate::model::{in_bounds, NodeId, Tree, TreeView};

verus! {

/// The children of `id` with a non-zero size, in order: the ones that get
/// a rectangle.
pub open spec fn shown_children(t: TreeView, kids: Seq<NodeId>) -> Seq<NodeId>
    decreases kids.len(),
{
    if kids.len() == 0 {
        Seq::empty()
    } else {
        let rest = shown_children(t, kids.drop_last());
        if t.nodes[kids.last() as int].size > 0 {
            rest.push(kids.last())
        } else {
            rest
        }
    }
}

impl Tree {
    /// The children of `id` that take up space, in order.
    pub fn visible_children(&self, id: NodeId) -> (r: Vec<NodeId>)
        requires
            in_bounds(self@),
            (id as int) < self@.nodes.len(),
        ensures
            r@ == shown_children(self@, self@.nodes[id as int].children),
    {
        let kids = &self.nodes[id as usize].children;
        let mut out: Vec<NodeId> = Vec::new();
        let mut k: usize = 0;
        while k < kids.len()
            invariant
                in_bounds(self@),
                (id as int) < self@.nodes.len(),
                *kids == self.nodes@[id as int].children,
                k <= kids@.len(),
                out@ == shown_children(self@, kids@.take(k as int)),
            decreases kids@.len() - k,
        {
            let c = kids[k];
            assert(kids@.take(k + 1 as int).drop_last() =~= kids@.take(k as int));
            assert((self@.nodes[id as int].children[k as int] as int) < self@.nodes.len());
            if self.nodes[c as usize].size > 0 {
                out.push(c);
            }
            k += 1;
        }
        assert(kids@.take(kids@.len() as int) =~= kids@);
        out
    }
}

/// The smallest of `s`.
pub open spec fn seq_min(s: Seq<u64>) -> u64
    decreases s.len(),
{
    if s.len() <= 1 {
        if s.len() == 1 { s[0] } else { u64::MAX }
    } else if s.last() < seq_min(s.drop_last()) {
        s.last()
    } else {
        seq_min(s.drop_last())
    }
}

/// The largest of `s`, 0 for none.
pub open spec fn seq_max(s: Seq<u64>) -> u64
    decreases s.len(),
{
    if s.len() == 0 {
        0
    } else if s.last() > seq_max(s.drop_last()) {
        s.last()
    } else {
        seq_max(s.drop_last())
    }
}

/// The sizes the file colors spread over: the smallest and largest of the
/// shown files, `(0, 0)` when none is shown.
pub fn file_size_range(sizes: &Vec<u64>) -> (r: (u64, u64))
    ensures
        sizes@.len() == 0 ==> r == (0u64, 0u64),
        sizes@.len() > 0 ==> r == (seq_min(sizes@), seq_max(sizes@)),
{
    let mut lo: u64 = u64::MAX;
    let mut hi: u64 = 0;
    let mut k: usize = 0;
    while k < sizes.len()
        invariant
            k <= sizes@.len(),
            lo == seq_min(sizes@.take(k as int)),
            hi == seq_max(sizes@.take(k as int)),
        decreases sizes@.len() - k,
    {
        let ghost pre = sizes@.take(k as int);
        assert(sizes@.take(k + 1 as int).drop_last() =~= pre);
        let s = sizes[k];
        if k == 0 {
            assert(sizes@.take(1) =~= seq![s]);
            lo = s;
        } else if s < lo {
            lo = s;
        }
        if s > hi {
            hi = s;
        }
        k += 1;
    }
    assert(sizes@.take(sizes@.len() as int) =~= sizes@);
    if sizes.len() == 0 {
        (0, 0)
    } else {
        (lo, hi)
    }
}

/// Gray level of a directory at `depth`: deeper directories are lighter,
/// up to six levels.
pub open spec fn shade(depth: u8) -> u8 {
    (48 + (if depth < 6 { depth } else { 6u8 }) * 10) as u8
}

/// RGB of a directory rectangle at `depth`: its gray with a touch of blue.
pub fn dir_rgb(depth: u8) -> (c: (u8, u8, u8))
    ensures
        c == (shade(depth), (shade(depth) + 4) as u8, (shade(depth) + 10) as u8),
{
    let d: u8 = if depth < 6 { depth } else { 6 };
    let g: u8 = 48 + d * 10;
    (g, g + 4, g + 10)
}

/// `u8::saturating_add`.
pub open spec fn sat_add8(a: u8, b: u8) -> u8 {
    if a + b > 255 { 255 } else { (a + b) as u8 }
}

/// A color lightened by `amt` in every channel, saturating at 255.
pub fn lighten_rgb(c: (u8, u8, u8), amt: u8) -> (r: (u8, u8, u8))
    ensures
        r == (sat_add8(c.0, amt), sat_add8(c.1, amt), sat_add8(c.2, amt)),
{
    (c.0.saturating_add(amt), c.1.saturating_add(amt), c.2.saturating_add(amt))
}

/// Index of the first of the deepest candidates, if any.
pub open spec fn deepest_index(depths: Seq<u8>) -> Option<int>
    decreases depths.len(),
{
    if depths.len() == 0 {
        None
    } else {
        match deepest_index(depths.drop_last()) {
            Some(b) => if depths.last() > depths[b] { Some(depths.len() - 1) } else { Some(b) },
            None => Some(depths.len() - 1),
        }
    }
}

/// The pick among candidate depths is the first of the greatest: none only
/// when there is no candidate; otherwise no candidate is deeper than the
/// one picked, and every candidate before it is shallower.
pub proof fn law_deepest(depths: Seq<u8>)
    ensures
        deepest_index(depths) is None <==> depths.len() == 0,
        deepest_index(depths) matches Some(b) ==> {
            &&& 0 <= b < depths.len()
            &&& forall|k: int| 0 <= k < depths.len() ==> #[trigger] depths[k] <= depths[b]
            &&& forall|k: int| 0 <= k < b ==> #[trigger] depths[k] < depths[b]
        },
    decreases depths.len(),
{
    if depths.len() > 0 {
        let f = depths.drop_last();
        let n = depths.len() - 1;
        law_deepest(f);
        assert forall|k: int| 0 <= k < f.len() implies #[trigger] f[k] == depths[k] by {}
        match deepest_index(f) {
            Some(b) => {
                if depths[n] > depths[b] {
                    assert forall|k: int| 0 <= k < depths.len() implies #[trigger] depths[k] <= depths[n] by {
                        if k < n {
                            assert(f[k] <= f[b]);
                        }
                    }
                    assert forall|k: int| 0 <= k < n implies #[trigger] depths[k] < depths[n] by {
                        assert(f[k] <= f[b]);
                    }
                } else {
                    assert forall|k: int| 0 <= k < depths.len() implies #[trigger] depths[k] <= depths[b] by {
                        if k < n {
                            assert(f[k] <= f[b]);
                        }
                    }
                    assert forall|k: int| 0 <= k < b implies #[trigger] depths[k] < depths[b] by {
                        assert(f[k] < f[b]);
                    }
                }
            },
            None => {
                assert(f.len() == 0);
            },
        }
    }
}

/// Among the rectangles under the pointer, given as (depth, node) in
/// layout order, the first of the deepest.
pub fn pick_deepest(hits: &Vec<(u8, NodeId)>) -> (r: Option<NodeId>)
    ensures
        r == match deepest_index(hits@.map_values(|h: (u8, NodeId)| h.0)) {
            Some(b) => Some(hits@[b].1),
            None => None,
        },
{
    let ghost depths = hits@.map_values(|h: (u8, NodeId)| h.0);
    let mut best: Option<usize> = None;
    let mut k: usize = 0;
    while k < hits.len()
        invariant
            k <= hits@.len(),
            depths == hits@.map_values(|h: (u8, NodeId)| h.0),
            match best {
                Some(b) => deepest_index(depths.take(k as int)) == Some(b as int) && b < k,
                None => deepest_index(depths.take(k as int)) is None,
            },
        decreases hits@.len() - k,
    {
        assert(depths.take(k + 1 as int).drop_last() =~= depths.take(k as int));
        assert(depths.take(k + 1 as int).last() == hits@[k as int].0);
        match best {
            Some(b) => {
                assert(depths.take(k + 1 as int)[b as int] == hits@[b as int].0);
                if hits[k].0 > hits[b].0 {
                    best = Some(k);
                }
            },
            None => {
                best = Some(k);
            },
        }
        k += 1;
    }
    assert(depths.take(hits@.len() as int) =~= depths);
    match best {
        Some(b) => Some(hits[b].1),
        None => None,
    }
}

} // verus!
