//! Windows-style path text: joining a component onto a path and splitting a
//! path into components. Both `\` and `/` separate components; a leading
//! `X:` is a drive prefix whose letter compares case-insensitively.
use vstd::prelude::*;
use crate::text::{is_ascii_alpha, is_ascii_alpha_exec, upper_ascii, upper_ascii_exec};

verus! {

/// `\` and `/` separate path components.
pub open spec fn is_sep(c: char) -> bool {
    c == '\\' || c == '/'
}

/// Whether `c` separates path components.
pub fn is_sep_exec(c: char) -> (b: bool)
    ensures
        b == is_sep(c),
{
    c == '\\' || c == '/'
}

/// `s` starts with a drive prefix such as `C:`.
pub open spec fn has_disk_prefix(s: Seq<char>) -> bool {
    s.len() >= 2 && s[1] == ':' && is_ascii_alpha(s[0])
}

/// Pushing onto `base` inserts a `\` first: `base` is not empty, does not
/// already end in a separator, and is not a bare drive prefix like `C:`.
pub open spec fn needs_sep(base: Seq<char>) -> bool {
    &&& base.len() > 0
    &&& !is_sep(base.last())
    &&& !(base.len() == 2 && has_disk_prefix(base))
}

/// `PathBuf::push` of a plain component (a file name).
pub open spec fn push_component(base: Seq<char>, comp: Seq<char>) -> Seq<char> {
    if needs_sep(base) {
        base.push('\\') + comp
    } else {
        base + comp
    }
}

/// Pushes a plain component onto a path held as characters.
pub fn push_component_exec(buf: &mut Vec<char>, comp: &[char])
    ensures
        final(buf)@ == push_component(old(buf)@, comp@),
{
    let n = buf.len();
    let sep = n > 0 && !is_sep_exec(buf[n - 1]) && !(n == 2 && buf[1] == ':'
        && is_ascii_alpha_exec(buf[0]));
    if sep {
        buf.push('\\');
    }
    let ghost mid = buf@;
    let mut k: usize = 0;
    while k < comp.len()
        invariant
            k <= comp@.len(),
            buf@ == mid + comp@.take(k as int),
        decreases comp@.len() - k,
    {
        buf.push(comp[k]);
        k += 1;
        assert(buf@ =~= mid + comp@.take(k as int));
    }
    assert(comp@.take(comp@.len() as int) =~= comp@);
}

/// One component of a parsed path.
pub enum Tok {
    Disk(char),
    RootDir,
    Normal(Seq<char>),
}

/// One component of a parsed path, as a value.
pub enum Component {
    /// Drive prefix; the letter is stored in uppercase.
    Disk(char),
    RootDir,
    Normal(Vec<char>),
}

impl View for Component {
    type V = Tok;

    open spec fn view(&self) -> Tok {
        match self {
            Component::Disk(c) => Tok::Disk(*c),
            Component::RootDir => Tok::RootDir,
            Component::Normal(v) => Tok::Normal(v@),
        }
    }
}

/// The views of a list of components.
pub open spec fn toks_of(v: Seq<Component>) -> Seq<Tok> {
    v.map_values(|c: Component| c@)
}

/// A finished segment becomes a component unless it is empty or `.`.
pub open spec fn flush(seg: Seq<char>) -> Seq<Tok> {
    if seg.len() == 0 || seg == seq!['.'] {
        Seq::empty()
    } else {
        seq![Tok::Normal(seg)]
    }
}

/// Scanning `r` left to right: the components finished so far and the
/// segment still being read.
pub open spec fn scan_segments(r: Seq<char>) -> (Seq<Tok>, Seq<char>)
    decreases r.len(),
{
    if r.len() == 0 {
        (Seq::empty(), Seq::empty())
    } else {
        let (toks, seg) = scan_segments(r.drop_last());
        if is_sep(r.last()) {
            (toks + flush(seg), Seq::empty())
        } else {
            (toks, seg.push(r.last()))
        }
    }
}

/// The named components of `r`: the text between separators, without empty
/// and `.` segments.
pub open spec fn normals(r: Seq<char>) -> Seq<Tok> {
    scan_segments(r).0 + flush(scan_segments(r).1)
}

/// Components after an optional drive prefix.
pub open spec fn after_prefix(r: Seq<char>) -> Seq<Tok> {
    if r.len() > 0 && is_sep(r[0]) {
        seq![Tok::RootDir] + normals(r)
    } else {
        normals(r)
    }
}

/// The components of a path.
pub open spec fn path_components(s: Seq<char>) -> Seq<Tok> {
    if has_disk_prefix(s) {
        seq![Tok::Disk(upper_ascii(s[0]))] + after_prefix(s.skip(2))
    } else {
        after_prefix(s)
    }
}

/// The text a component shows when looked up by name.
pub open spec fn tok_text(t: Tok) -> Seq<char> {
    match t {
        Tok::Disk(c) => seq![c, ':'],
        Tok::RootDir => seq!['\\'],
        Tok::Normal(s) => s,
    }
}

fn flush_exec(out: &mut Vec<Component>, seg: Vec<char>)
    ensures
        toks_of(final(out)@) == toks_of(old(out)@) + flush(seg@),
{
    let dot = seg.len() == 1 && seg[0] == '.';
    if seg.len() == 0 || dot {
        assert(seg@.len() == 0 || seg@ =~= seq!['.']);
        assert(toks_of(out@) =~= toks_of(out@) + flush(seg@));
    } else {
        assert(seg@ != seq!['.']) by {
            if seg@ == seq!['.'] {
                assert(seg@[0] == '.');
            }
        }
        out.push(Component::Normal(seg));
        assert(toks_of(out@) =~= toks_of(old(out)@) + flush(seg@));
    }
}

/// Splits a path into its components.
pub fn components(s: &[char]) -> (r: Vec<Component>)
    ensures
        toks_of(r@) == path_components(s@),
{
    let mut out: Vec<Component> = Vec::new();
    let mut start: usize = 0;
    let disk = s.len() >= 2 && s[1] == ':' && is_ascii_alpha_exec(s[0]);
    if disk {
        out.push(Component::Disk(upper_ascii_exec(s[0])));
        start = 2;
    }
    let ghost rest = s@.skip(start as int);
    if start < s.len() && is_sep_exec(s[start]) {
        out.push(Component::RootDir);
    }
    let ghost head = toks_of(out@);
    assert(head == (if disk { seq![Tok::Disk(upper_ascii(s@[0]))] } else { Seq::<Tok>::empty() }) + (if rest.len() > 0 && is_sep(rest[0]) { seq![Tok::RootDir] } else { Seq::<Tok>::empty() }));
    let mut seg: Vec<char> = Vec::new();
    let mut i: usize = start;
    while i < s.len()
        invariant
            start <= i <= s@.len(),
            rest == s@.skip(start as int),
            toks_of(out@) == head + scan_segments(s@.subrange(start as int, i as int)).0,
            seg@ == scan_segments(s@.subrange(start as int, i as int)).1,
        decreases s@.len() - i,
    {
        let c = s[i];
        assert(s@.subrange(start as int, i + 1 as int).drop_last() =~= s@.subrange(start as int, i as int));
        if is_sep_exec(c) {
            let full = seg;
            seg = Vec::new();
            flush_exec(&mut out, full);
            assert(toks_of(out@) =~= head + scan_segments(s@.subrange(start as int, i + 1 as int)).0);
        } else {
            seg.push(c);
        }
        i += 1;
    }
    assert(s@.subrange(start as int, s@.len() as int) =~= rest);
    flush_exec(&mut out, seg);
    let ghost norm = normals(rest);
    assert(toks_of(out@) =~= head + norm);
    let ghost root_tok = if rest.len() > 0 && is_sep(rest[0]) { seq![Tok::RootDir] } else { Seq::<Tok>::empty() };
    assert(after_prefix(rest) =~= root_tok + norm);
    if !disk {
        assert(rest =~= s@);
    }
    assert(toks_of(out@) =~= path_components(s@));
    out
}

} // verus!
