//! Unix path handling as `std::path` does it: joining, components, and the
//! final file name, over the characters of the path.
use vstd::prelude::*;
use crate::text::{
    chars_of, lemma_split_after_sep, lemma_split_append, lemma_split_len, lemma_split_pieces,
    lemma_split_single,
    push_char, push_chars, seq_eq, slice_chars, split_chars, split_spec, string_of,
};

verus! {

/// `base.join(name)`: an absolute `name` replaces `base`; otherwise a `/` is put
/// between them unless `base` is empty or already ends with one.
pub open spec fn join_spec(base: Seq<char>, name: Seq<char>) -> Seq<char> {
    if name.len() > 0 && name[0] == '/' {
        name
    } else if base.len() == 0 || base.last() == '/' {
        base + name
    } else {
        base + seq!['/'] + name
    }
}

/// `Path::new(base).join(name)`, as a string.
pub fn join(base: &str, name: &str) -> (r: String)
    ensures
        r@ == join_spec(base@, name@),
{
    let b = chars_of(base);
    let n = chars_of(name);
    if n.len() > 0 && n[0] == '/' {
        return string_of(&n);
    }
    let mut r = string_of(&b);
    if b.len() > 0 && b[b.len() - 1] != '/' {
        push_char(&mut r, '/');
    }
    push_chars(&mut r, &n);
    r
}

/// One component of a path, as `std::path::Component` names them on Unix.
pub ghost enum PartView {
    Root,
    Cur,
    Parent,
    Normal(Seq<char>),
}

/// One component of a path.
pub enum PathPart {
    Root,
    Cur,
    Parent,
    Normal(Vec<char>),
}

impl PathPart {
    pub open spec fn view(&self) -> PartView {
        match self {
            PathPart::Root => PartView::Root,
            PathPart::Cur => PartView::Cur,
            PathPart::Parent => PartView::Parent,
            PathPart::Normal(v) => PartView::Normal(v@),
        }
    }
}

/// The components that the segments `segs` contribute: empty and `.` segments
/// are skipped, `..` is the parent, anything else a normal component.
pub open spec fn segment_parts(segs: Seq<Seq<char>>) -> Seq<PartView>
    decreases segs.len(),
{
    if segs.len() == 0 {
        Seq::empty()
    } else {
        let r = segment_parts(segs.drop_last());
        let g = segs.last();
        if g.len() == 0 || g == seq!['.'] {
            r
        } else if g == seq!['.', '.'] {
            r.push(PartView::Parent)
        } else {
            r.push(PartView::Normal(g))
        }
    }
}

/// `Path::components` on Unix: a leading `/` gives the root, a leading `.`
/// segment of a relative path the current directory, and the segments between
/// `/` the rest.
pub open spec fn components_spec(s: Seq<char>) -> Seq<PartView> {
    let segs = split_spec(s, '/');
    let head = if s.len() > 0 && s[0] == '/' {
        seq![PartView::Root]
    } else if segs[0] == seq!['.'] {
        seq![PartView::Cur]
    } else {
        Seq::<PartView>::empty()
    };
    head + segment_parts(segs)
}

/// `Path::file_name`: the last component, when it is a normal one.
pub open spec fn file_name_spec(s: Seq<char>) -> Option<Seq<char>> {
    let c = components_spec(s);
    if c.len() > 0 && c.last() is Normal {
        Some(c.last()->Normal_0)
    } else {
        None
    }
}

/// Two paths are the same path when their components are equal.
pub open spec fn same_path_spec(a: Seq<char>, b: Seq<char>) -> bool {
    components_spec(a) == components_spec(b)
}

/// The components of a path.
pub fn components(s: &str) -> (r: Vec<PathPart>)
    ensures
        r@.len() == components_spec(s@).len(),
        forall|k: int| 0 <= k < r@.len() ==> #[trigger] r@[k].view() == components_spec(s@)[k],
{
    let cs = chars_of(s);
    let segs = split_chars(&cs, '/');
    proof {
        lemma_split_len(cs@, '/');
    }
    let ghost gsegs = split_spec(s@, '/');
    let mut r: Vec<PathPart> = Vec::new();
    let dot: Vec<char> = vec!['.'];
    let dotdot: Vec<char> = vec!['.', '.'];
    assert(dot@ =~= seq!['.']);
    assert(dotdot@ =~= seq!['.', '.']);
    let ghost head: Seq<PartView>;
    if cs.len() > 0 && cs[0] == '/' {
        r.push(PathPart::Root);
        proof {
            head = seq![PartView::Root];
        }
    } else if seq_eq(&segs[0], &dot) {
        r.push(PathPart::Cur);
        proof {
            head = seq![PartView::Cur];
        }
    } else {
        proof {
            head = Seq::<PartView>::empty();
        }
    }
    assert(r@.map_values(|p: PathPart| p.view()) =~= head);
    let n = segs.len();
    for i in 0..n
        invariant
            n == segs.len() == gsegs.len(),
            gsegs == split_spec(s@, '/'),
            forall|k: int| 0 <= k < n ==> #[trigger] segs@[k]@ == gsegs[k],
            dot@ == seq!['.'],
            dotdot@ == seq!['.', '.'],
            r@.map_values(|p: PathPart| p.view()) == head + segment_parts(gsegs.take(i as int)),
    {
        let ghost before = r@.map_values(|p: PathPart| p.view());
        proof {
            assert(gsegs.take(i + 1).drop_last() =~= gsegs.take(i as int));
            assert(gsegs.take(i + 1).last() == gsegs[i as int]);
        }
        let g = &segs[i];
        if g.len() == 0 || seq_eq(g, &dot) {
        } else if seq_eq(g, &dotdot) {
            r.push(PathPart::Parent);
            assert(r@.map_values(|p: PathPart| p.view()) =~= before.push(PartView::Parent));
        } else {
            let copy = slice_chars(g, 0, g.len());
            assert(copy@ =~= g@);
            r.push(PathPart::Normal(copy));
            assert(r@.map_values(|p: PathPart| p.view()) =~= before.push(
                PartView::Normal(gsegs[i as int]),
            ));
        }
    }
    assert(gsegs.take(n as int) =~= gsegs);
    proof {
        assert forall|k: int| 0 <= k < r@.len() implies #[trigger] r@[k].view()
            == components_spec(s@)[k] by {
            assert(r@.map_values(|p: PathPart| p.view())[k] == r@[k].view());
        }
    }
    r
}

fn part_eq(a: &PathPart, b: &PathPart) -> (r: bool)
    ensures
        r == (a.view() == b.view()),
{
    match (a, b) {
        (PathPart::Root, PathPart::Root) => true,
        (PathPart::Cur, PathPart::Cur) => true,
        (PathPart::Parent, PathPart::Parent) => true,
        (PathPart::Normal(x), PathPart::Normal(y)) => seq_eq(x, y),
        _ => false,
    }
}

/// Whether two paths have the same components (`a.components().eq(b.components())`).
pub fn same_path(a: &str, b: &str) -> (r: bool)
    ensures
        r == same_path_spec(a@, b@),
{
    let x = components(a);
    let y = components(b);
    if x.len() != y.len() {
        return false;
    }
    let n = x.len();
    for i in 0..n
        invariant
            n == x.len() == y.len(),
            x@.len() == components_spec(a@).len(),
            y@.len() == components_spec(b@).len(),
            forall|k: int| 0 <= k < x@.len() ==> #[trigger] x@[k].view() == components_spec(a@)[k],
            forall|k: int| 0 <= k < y@.len() ==> #[trigger] y@[k].view() == components_spec(b@)[k],
            forall|k: int| 0 <= k < i ==> components_spec(a@)[k] == components_spec(b@)[k],
    {
        if !part_eq(&x[i], &y[i]) {
            return false;
        }
    }
    assert(components_spec(a@) =~= components_spec(b@));
    true
}

/// The final file name of a path, if it ends in a normal component.
pub fn file_name(s: &str) -> (r: Option<String>)
    ensures
        match r {
            Some(f) => file_name_spec(s@) == Some(f@),
            None => file_name_spec(s@) is None,
        },
{
    let parts = components(s);
    if parts.len() == 0 {
        return None;
    }
    let k = parts.len() - 1;
    let last = &parts[k];
    assert(last.view() == components_spec(s@)[k as int]);
    assert(components_spec(s@).last() == components_spec(s@)[k as int]);
    match last {
        PathPart::Normal(v) => Some(string_of(v)),
        _ => None,
    }
}

// ---------------------------------------------------------------------------
// Lemmas and laws
// ---------------------------------------------------------------------------

/// A name that is one normal path component: not empty, no `/`, neither `.` nor `..`.
pub open spec fn plain_name(f: Seq<char>) -> bool {
    &&& f.len() > 0
    &&& forall|i: int| 0 <= i < f.len() ==> #[trigger] f[i] != '/'
    &&& f != seq!['.']
    &&& f != seq!['.', '.']
}

/// A normal component stands for one of the segments, which is neither empty,
/// `.` nor `..`.
pub proof fn lemma_normal_part(segs: Seq<Seq<char>>)
    requires
        segment_parts(segs).len() > 0,
        segment_parts(segs).last() is Normal,
    ensures
        exists|j: int|
            0 <= j < segs.len() && #[trigger] segs[j] == segment_parts(segs).last()->Normal_0
                && segs[j].len() > 0 && segs[j] != seq!['.'] && segs[j] != seq!['.', '.'],
    decreases segs.len(),
{
    let d = segs.drop_last();
    let g = segs.last();
    if g.len() == 0 || g == seq!['.'] {
        lemma_normal_part(d);
        let j = choose|j: int|
            0 <= j < d.len() && #[trigger] d[j] == segment_parts(d).last()->Normal_0 && d[j].len()
                > 0 && d[j] != seq!['.'] && d[j] != seq!['.', '.'];
        assert(segs[j] == d[j]);
    } else if g == seq!['.', '.'] {
    } else {
        assert(segs[segs.len() - 1] == g);
    }
}

/// A file name is a plain name.
pub proof fn lemma_file_name_plain(p: Seq<char>)
    requires
        file_name_spec(p) is Some,
    ensures
        plain_name(file_name_spec(p)->0),
{
    let segs = split_spec(p, '/');
    let c = components_spec(p);
    let parts = segment_parts(segs);
    let head = c.subrange(0, c.len() - parts.len());
    assert(c.len() > 0 && c.last() is Normal);
    assert(head.len() <= 1);
    if parts.len() == 0 {
        assert(c.last() == c[0]);
        assert(c[0] is Root || c[0] is Cur);
    } else {
        assert(c.last() == parts.last());
        lemma_normal_part(segs);
        lemma_split_pieces(p, '/');
        let j = choose|j: int|
            0 <= j < segs.len() && #[trigger] segs[j] == parts.last()->Normal_0 && segs[j].len() > 0
                && segs[j] != seq!['.'] && segs[j] != seq!['.', '.'];
        assert forall|i: int| 0 <= i < segs[j].len() implies #[trigger] segs[j][i] != '/' by {
            assert(split_spec(p, '/')[j][i] != '/');
        }
    }
}

/// Joining a plain name onto a directory gives a path whose file name is that name.
pub proof fn lemma_join_file_name(d: Seq<char>, f: Seq<char>)
    requires
        plain_name(f),
    ensures
        file_name_spec(join_spec(d, f)) == Some(f),
{
    let q = join_spec(d, f);
    assert(f[0] != '/');
    let segs = split_spec(q, '/');
    lemma_split_len(d, '/');
    if d.len() == 0 {
        assert(q =~= f);
        lemma_split_single(f, '/');
        assert(segs == seq![f]);
        assert(seq![f].drop_last() =~= Seq::<Seq<char>>::empty());
        assert(segs.last() == f);
        assert(segment_parts(Seq::<Seq<char>>::empty()) =~= Seq::<PartView>::empty());
        assert(segment_parts(segs) =~= seq![PartView::Normal(f)]);
    } else if d.last() == '/' {
        assert(q =~= d + f);
        lemma_split_append(d, f, '/');
        let r = split_spec(d.drop_last(), '/');
        lemma_split_len(d.drop_last(), '/');
        assert(d.drop_last().push('/') =~= d);
        assert(split_spec(d, '/') == r.push(Seq::<char>::empty()));
        assert(Seq::<char>::empty() + f =~= f);
        assert(segs =~= r.push(f));
        assert(segs.drop_last() =~= r);
    } else {
        assert(q =~= d.push('/') + f);
        lemma_split_after_sep(d, f, '/');
        assert(segs.drop_last() =~= split_spec(d, '/'));
    }
    let c = components_spec(q);
    assert(segment_parts(segs).last() == PartView::Normal(f));
    assert(c.last() == segment_parts(segs).last());
}

/// Moving a file into another directory keeps its file name: `dir` joined with
/// the file name of `p` has that same file name.
pub proof fn law_join_keeps_file_name(dir: Seq<char>, p: Seq<char>)
    requires
        file_name_spec(p) is Some,
    ensures
        file_name_spec(join_spec(dir, file_name_spec(p)->0)) == file_name_spec(p),
{
    lemma_file_name_plain(p);
    lemma_join_file_name(dir, file_name_spec(p)->0);
}

} // verus!
