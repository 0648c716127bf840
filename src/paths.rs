use vstd::prelude::*;
use vstd::utf8::encode_utf8;

verus! {

/// The path separator `/`.
pub const SEP: u8 = 47;

/// The name that marks a dependency directory: `node_modules`.
pub open spec fn marker() -> Seq<u8> {
    seq![110u8, 111, 100, 101, 95, 109, 111, 100, 117, 108, 101, 115]
}

fn marker_bytes() -> (r: Vec<u8>)
    ensures
        r@ == marker(),
{
    vec![110u8, 111, 100, 101, 95, 109, 111, 100, 117, 108, 101, 115]
}

/// `cur` as a component, or nothing when it is empty.
pub open spec fn piece(cur: Seq<u8>) -> Seq<Seq<u8>> {
    if cur.len() == 0 {
        seq![]
    } else {
        seq![cur]
    }
}

/// The components of `b`, where `cur` holds the bytes of the component
/// already begun: the pieces between separators, empty pieces dropped.
pub open spec fn split_from(b: Seq<u8>, cur: Seq<u8>) -> Seq<Seq<u8>>
    decreases b.len(),
{
    if b.len() == 0 {
        piece(cur)
    } else if b[0] == SEP {
        piece(cur) + split_from(b.drop_first(), seq![])
    } else {
        split_from(b.drop_first(), cur.push(b[0]))
    }
}

/// The components of a path given as bytes.
pub open spec fn components(b: Seq<u8>) -> Seq<Seq<u8>> {
    split_from(b, seq![])
}

/// The components of `path` after those of `root`, when `root`'s
/// components begin `path`'s; otherwise all of `path`'s components.
pub open spec fn relative_components(path: Seq<u8>, root: Seq<u8>) -> Seq<Seq<u8>> {
    let pc = components(path);
    let rc = components(root);
    if rc.len() <= pc.len() && pc.subrange(0, rc.len() as int) == rc {
        pc.subrange(rc.len() as int, pc.len() as int)
    } else {
        pc
    }
}

/// The marker name stands among the components before the last one.
pub open spec fn marker_before_last(rel: Seq<Seq<u8>>) -> bool {
    exists|i: int| 0 <= i < rel.len() - 1 && rel[i] == marker()
}

/// `path` lies inside the tree of a marker directory below `root`.
pub open spec fn nested_under_marker(path: Seq<char>, root: Seq<char>) -> bool {
    marker_before_last(relative_components(encode_utf8(path), encode_utf8(root)))
}

/// A walked entry is reported: it is a directory named by the marker and
/// not nested under another marker directory below `root`.
pub open spec fn is_candidate_spec(path: Seq<char>, root: Seq<char>, is_dir: bool) -> bool {
    let pc = components(encode_utf8(path));
    is_dir && pc.len() > 0 && pc.last() == marker() && !nested_under_marker(path, root)
}

pub open spec fn views_of(v: Seq<Vec<u8>>) -> Seq<Seq<u8>> {
    v.map_values(|c: Vec<u8>| c@)
}

/// The nesting rule: a directory named by the marker is reported exactly
/// when the marker is not among its components relative to `root` before
/// the last one; where the last relative component is the only occurrence,
/// it is reported.
pub proof fn lemma_nesting_rule(path: Seq<char>, root: Seq<char>)
    ensures
        ({
            let rel = relative_components(encode_utf8(path), encode_utf8(root));
            (rel.len() > 0 && rel.last() == marker() && (forall|i: int|
                0 <= i < rel.len() - 1 ==> rel[i] != marker())) ==> is_candidate_spec(
                path,
                root,
                true,
            )
        }),
        (exists|i: int|
            0 <= i < relative_components(encode_utf8(path), encode_utf8(root)).len() - 1
                && relative_components(encode_utf8(path), encode_utf8(root))[i] == marker())
            ==> !is_candidate_spec(path, root, true),
{
    let pc = components(encode_utf8(path));
    let rel = relative_components(encode_utf8(path), encode_utf8(root));
    if rel.len() > 0 {
        assert(pc.len() > 0);
        assert(rel.last() == pc.last());
    }
}

/// Splits a path, given as bytes, into its components.
pub fn split_components(b: &[u8]) -> (r: Vec<Vec<u8>>)
    ensures
        views_of(r@) == components(b@),
{
    let mut out: Vec<Vec<u8>> = Vec::new();
    let mut cur: Vec<u8> = Vec::new();
    let mut i: usize = 0;
    assert(b@.subrange(0, b@.len() as int) =~= b@);
    while i < b.len()
        invariant
            i <= b@.len(),
            views_of(out@) + split_from(b@.subrange(i as int, b@.len() as int), cur@)
                == components(b@),
        decreases b.len() - i,
    {
        let ghost rest = b@.subrange(i as int, b@.len() as int);
        let ghost before = views_of(out@);
        assert(rest.drop_first() =~= b@.subrange(i + 1, b@.len() as int));
        if b[i] == SEP {
            if cur.len() > 0 {
                let ghost c = cur@;
                out.push(cur);
                assert(views_of(out@) =~= before.push(c));
                assert(before + (piece(c) + split_from(rest.drop_first(), seq![]))
                    =~= before.push(c) + split_from(rest.drop_first(), seq![]));
            } else {
                assert(before + (piece(cur@) + split_from(rest.drop_first(), seq![]))
                    =~= before + split_from(rest.drop_first(), seq![]));
            }
            cur = Vec::new();
        } else {
            cur.push(b[i]);
        }
        i = i + 1;
    }
    assert(b@.subrange(i as int, b@.len() as int) =~= Seq::<u8>::empty());
    if cur.len() > 0 {
        let ghost before = views_of(out@);
        let ghost c = cur@;
        out.push(cur);
        assert(views_of(out@) =~= before + piece(c));
    } else {
        assert(views_of(out@) =~= views_of(out@) + piece(cur@));
    }
    out
}

/// One entry met while walking a tree: its path and whether it is a directory.
pub struct WalkEntry {
    pub path: String,
    pub is_dir: bool,
}

impl View for WalkEntry {
    type V = (Seq<char>, bool);

    open spec fn view(&self) -> (Seq<char>, bool) {
        (self.path@, self.is_dir)
    }
}

/// The paths of the entries that are reported, in walk order.
pub open spec fn candidates(entries: Seq<(Seq<char>, bool)>, root: Seq<char>) -> Seq<Seq<char>>
    decreases entries.len(),
{
    if entries.len() == 0 {
        seq![]
    } else {
        let rest = candidates(entries.drop_last(), root);
        let e = entries.last();
        if is_candidate_spec(e.0, root, e.1) {
            rest.push(e.0)
        } else {
            rest
        }
    }
}

/// Keeps, in walk order, the paths of the entries below `root` that are
/// dependency directories of their own.
pub fn select_candidates(root: &str, entries: &Vec<WalkEntry>) -> (r: Vec<String>)
    ensures
        r@.map_values(|s: String| s@) == candidates(entries@.map_values(|e: WalkEntry| e@), root@),
{
    let ghost ev = entries@.map_values(|e: WalkEntry| e@);
    let mut out: Vec<String> = Vec::new();
    let mut i: usize = 0;
    assert(ev.subrange(0, 0) =~= Seq::<(Seq<char>, bool)>::empty());
    assert(out@.map_values(|s: String| s@) =~= Seq::<Seq<char>>::empty());
    while i < entries.len()
        invariant
            i <= entries@.len(),
            ev == entries@.map_values(|e: WalkEntry| e@),
            out@.map_values(|s: String| s@) == candidates(ev.subrange(0, i as int), root@),
        decreases entries.len() - i,
    {
        let ghost before = out@.map_values(|s: String| s@);
        assert(ev.subrange(0, i + 1).drop_last() =~= ev.subrange(0, i as int));
        assert(ev.subrange(0, i + 1).last() == entries@[i as int]@);
        let e = &entries[i];
        if is_candidate(e.path.as_str(), root, e.is_dir) {
            out.push(e.path.clone());
            assert(out@.map_values(|s: String| s@) =~= before.push(e.path@));
        }
        i = i + 1;
    }
    assert(ev.subrange(0, i as int) =~= ev);
    out
}

/// Byte-wise equality of two sequences.
pub fn bytes_equal(a: &[u8], b: &[u8]) -> (r: bool)
    ensures
        r == (a@ == b@),
{
    if a.len() != b.len() {
        return false;
    }
    let mut i: usize = 0;
    while i < a.len()
        invariant
            a@.len() == b@.len(),
            i <= a@.len(),
            forall|j: int| 0 <= j < i ==> a@[j] == b@[j],
        decreases a.len() - i,
    {
        if a[i] != b[i] {
            return false;
        }
        i = i + 1;
    }
    assert(a@ =~= b@);
    true
}

/// Whether `path` lies inside another marker directory's tree, seen from
/// `root`: the marker name is one of its components relative to `root`,
/// other than the last.
pub fn is_inside_node_modules(path: &str, root: &str) -> (r: bool)
    ensures
        r == nested_under_marker(path@, root@),
{
    let pc = split_components(path.as_bytes());
    let rc = split_components(root.as_bytes());
    let ghost pcv = views_of(pc@);
    let ghost rcv = views_of(rc@);
    let mut is_prefix = rc.len() <= pc.len();
    let mut k: usize = 0;
    while is_prefix && k < rc.len()
        invariant
            is_prefix ==> rc@.len() <= pc@.len(),
            k <= rc@.len(),
            pcv == views_of(pc@),
            rcv == views_of(rc@),
            is_prefix ==> forall|j: int| 0 <= j < k ==> pcv[j] == rcv[j],
            !is_prefix ==> !(rcv.len() <= pcv.len() && pcv.subrange(0, rcv.len() as int) == rcv),
        decreases rc.len() - k + (if is_prefix { 1int } else { 0int }),
    {
        if !bytes_equal(pc[k].as_slice(), rc[k].as_slice()) {
            assert(pcv.subrange(0, rcv.len() as int)[k as int] != rcv[k as int]);
            is_prefix = false;
        } else {
            k = k + 1;
        }
    }
    if is_prefix {
        assert(pcv.subrange(0, rcv.len() as int) =~= rcv);
    }
    let start: usize = if is_prefix { rc.len() } else { 0 };
    let ghost rel = relative_components(encode_utf8(path@), encode_utf8(root@));
    assert(rel =~= pcv.subrange(start as int, pcv.len() as int));
    let m = marker_bytes();
    let mut i: usize = start;
    while i < pc.len() && i + 1 < pc.len()
        invariant
            start <= i,
            start <= pc@.len(),
            i <= pc@.len(),
            pcv == views_of(pc@),
            rel == pcv.subrange(start as int, pcv.len() as int),
            rel == relative_components(encode_utf8(path@), encode_utf8(root@)),
            m@ == marker(),
            forall|j: int| start <= j < i ==> pcv[j] != marker(),
        decreases pc.len() - i,
    {
        assert(pcv[i as int] == pc@[i as int]@);
        if bytes_equal(pc[i].as_slice(), m.as_slice()) {
            assert(pcv[i as int] == pc@[i as int]@);
            assert(rel[i - start] == marker());
            assert(0 <= i - start < rel.len() - 1);
            return true;
        }
        i = i + 1;
    }
    assert forall|j: int| 0 <= j < rel.len() - 1 implies rel[j] != marker() by {
        assert(rel[j] == pcv[j + start]);
    }
    false
}

/// Whether a walked entry is reported as a dependency directory: a
/// directory named by the marker, not nested under another one.
pub fn is_candidate(path: &str, root: &str, is_dir: bool) -> (r: bool)
    ensures
        r == is_candidate_spec(path@, root@, is_dir),
{
    if !is_dir {
        return false;
    }
    let pc = split_components(path.as_bytes());
    if pc.len() == 0 {
        return false;
    }
    let m = marker_bytes();
    if !bytes_equal(pc[pc.len() - 1].as_slice(), m.as_slice()) {
        return false;
    }
    !is_inside_node_modules(path, root)
}

} // verus!
