use vstd::prelude::*;
use vstd::utf8::encode_utf8;

verus! {

/// One discovered dependency directory and its size in bytes.
#[derive(Clone, Debug)]
pub struct NodeModulesInfo {
    pub path: String,
    pub size: u64,
}

impl View for NodeModulesInfo {
    type V = (Seq<char>, u64);

    open spec fn view(&self) -> (Seq<char>, u64) {
        (self.path@, self.size)
    }
}

impl NodeModulesInfo {
    /// A result for `path` of `size` bytes.
    pub fn new(path: String, size: u64) -> (r: NodeModulesInfo)
        ensures
            r@ == (path@, size),
    {
        NodeModulesInfo { path, size }
    }

    /// A copy with the same path and size.
    pub fn duplicate(&self) -> (r: NodeModulesInfo)
        ensures
            r@ == self@,
    {
        NodeModulesInfo { path: self.path.clone(), size: self.size }
    }
}

pub open spec fn views(v: Seq<NodeModulesInfo>) -> Seq<(Seq<char>, u64)> {
    v.map_values(|x: NodeModulesInfo| x@)
}

/// Lexicographic order of byte strings from position `i` on: a proper
/// prefix comes first.
pub open spec fn lex_le_from(a: Seq<u8>, b: Seq<u8>, i: int) -> bool
    decreases a.len() - i,
{
    if i >= a.len() {
        true
    } else if i >= b.len() {
        false
    } else if a[i] < b[i] {
        true
    } else if a[i] > b[i] {
        false
    } else {
        lex_le_from(a, b, i + 1)
    }
}

pub open spec fn lex_le(a: Seq<u8>, b: Seq<u8>) -> bool {
    lex_le_from(a, b, 0)
}

/// Path order: the lexicographic order of the paths' UTF-8 bytes.
pub open spec fn path_le(a: Seq<char>, b: Seq<char>) -> bool {
    lex_le(encode_utf8(a), encode_utf8(b))
}

/// The results stand in ascending path order.
pub open spec fn sorted_by_path(v: Seq<(Seq<char>, u64)>) -> bool {
    forall|i: int, j: int| 0 <= i < j < v.len() ==> path_le(v[i].0, v[j].0)
}

proof fn lemma_lex_transitive(a: Seq<u8>, b: Seq<u8>, c: Seq<u8>, i: int)
    requires
        0 <= i,
        lex_le_from(a, b, i),
        lex_le_from(b, c, i),
    ensures
        lex_le_from(a, c, i),
    decreases a.len() - i,
{
    if i < a.len() && i < b.len() && i < c.len() && a[i] == b[i] && b[i] == c[i] {
        lemma_lex_transitive(a, b, c, i + 1);
    }
}

proof fn lemma_lex_total(a: Seq<u8>, b: Seq<u8>, i: int)
    requires
        0 <= i,
    ensures
        lex_le_from(a, b, i) || lex_le_from(b, a, i),
    decreases a.len() - i,
{
    if i < a.len() && i < b.len() && a[i] == b[i] {
        lemma_lex_total(a, b, i + 1);
    }
}

proof fn lemma_lex_reflexive(a: Seq<u8>, i: int)
    requires
        0 <= i,
    ensures
        lex_le_from(a, a, i),
    decreases a.len() - i,
{
    if i < a.len() {
        lemma_lex_reflexive(a, i + 1);
    }
}

proof fn lemma_lex_antisymmetric(a: Seq<u8>, b: Seq<u8>, i: int)
    requires
        0 <= i <= a.len(),
        i <= b.len(),
        lex_le_from(a, b, i),
        lex_le_from(b, a, i),
    ensures
        a.len() == b.len(),
        forall|j: int| i <= j < a.len() ==> a[j] == b[j],
    decreases a.len() - i,
{
    if i < a.len() {
        lemma_lex_antisymmetric(a, b, i + 1);
    }
}

/// Paths in both orders are the same path.
proof fn lemma_path_le_antisymmetric(x: Seq<char>, y: Seq<char>)
    requires
        path_le(x, y),
        path_le(y, x),
    ensures
        x == y,
{
    let a = encode_utf8(x);
    let b = encode_utf8(y);
    lemma_lex_antisymmetric(a, b, 0);
    assert(a =~= b);
    vstd::utf8::encode_utf8_decode_utf8(x);
    vstd::utf8::encode_utf8_decode_utf8(y);
}

/// No two results have the same path.
pub open spec fn paths_distinct(v: Seq<(Seq<char>, u64)>) -> bool {
    forall|i: int, j: int| 0 <= i < j < v.len() ==> #[trigger] v[i].0 != #[trigger] v[j].0
}

/// The sorted order is unique: two path-sorted sequences of the same
/// results, no path twice, are equal. So a scan's output does not depend
/// on the order in which the walk met the directories.
pub proof fn lemma_sorted_results_unique(a: Seq<(Seq<char>, u64)>, b: Seq<(Seq<char>, u64)>)
    requires
        sorted_by_path(a),
        sorted_by_path(b),
        paths_distinct(a),
        a.to_multiset() == b.to_multiset(),
    ensures
        a == b,
    decreases a.len(),
{
    a.to_multiset_ensures();
    b.to_multiset_ensures();
    if a.len() == 0 {
        assert(a =~= b);
    } else {
        assert(a.contains(a[0]));
        assert(a.to_multiset().count(a[0]) > 0);
        assert(b.to_multiset().count(a[0]) > 0);
        assert(b.contains(a[0]));
        let k = choose|k: int| 0 <= k < b.len() && b[k] == a[0];
        assert(b.contains(b[0]));
        assert(b.to_multiset().count(b[0]) > 0);
        assert(a.to_multiset().count(b[0]) > 0);
        assert(a.contains(b[0]));
        let m = choose|m: int| 0 <= m < a.len() && a[m] == b[0];
        lemma_lex_reflexive(encode_utf8(a[0].0), 0);
        lemma_lex_reflexive(encode_utf8(b[0].0), 0);
        assert(path_le(b[0].0, b[k].0));
        assert(path_le(a[0].0, a[m].0));
        lemma_path_le_antisymmetric(a[0].0, b[0].0);
        if m != 0 {
            assert(a[0].0 != a[m].0);
        }
        assert(a[0] == b[0]);
        let a1 = a.drop_first();
        let b1 = b.drop_first();
        assert(a.remove(0) =~= a1);
        assert(b.remove(0) =~= b1);
        assert(a1.to_multiset() == b1.to_multiset());
        assert(sorted_by_path(a1)) by {
            assert forall|i: int, j: int| 0 <= i < j < a1.len() implies path_le(a1[i].0, a1[j].0) by {
                assert(a1[i] == a[i + 1] && a1[j] == a[j + 1]);
            }
        }
        assert(sorted_by_path(b1)) by {
            assert forall|i: int, j: int| 0 <= i < j < b1.len() implies path_le(b1[i].0, b1[j].0) by {
                assert(b1[i] == b[i + 1] && b1[j] == b[j + 1]);
            }
        }
        assert(paths_distinct(a1)) by {
            assert forall|i: int, j: int| 0 <= i < j < a1.len() implies #[trigger] a1[i].0
                != #[trigger] a1[j].0 by {
                assert(a1[i] == a[i + 1] && a1[j] == a[j + 1]);
            }
        }
        lemma_sorted_results_unique(a1, b1);
        assert(a =~= b) by {
            assert forall|i: int| 0 <= i < a.len() implies a[i] == b[i] by {
                if i > 0 {
                    assert(a[i] == a1[i - 1] && b[i] == b1[i - 1]);
                }
            }
        }
    }
}

/// Whether `a` comes no later than `b` in path order.
pub fn path_precedes(a: &str, b: &str) -> (r: bool)
    ensures
        r == path_le(a@, b@),
{
    let x = a.as_bytes();
    let y = b.as_bytes();
    let mut i: usize = 0;
    while i < x.len()
        invariant
            x@ == encode_utf8(a@),
            y@ == encode_utf8(b@),
            0 <= i <= x@.len(),
            lex_le_from(x@, y@, 0) == lex_le_from(x@, y@, i as int),
        decreases x.len() - i,
    {
        if i >= y.len() {
            return false;
        }
        if x[i] < y[i] {
            return true;
        }
        if x[i] > y[i] {
            return false;
        }
        i = i + 1;
    }
    true
}

/// Sorts results by path, ascending.
pub fn sort_by_path(items: Vec<NodeModulesInfo>) -> (r: Vec<NodeModulesInfo>)
    ensures
        sorted_by_path(views(r@)),
        views(r@).to_multiset() == views(items@).to_multiset(),
{
    let mut rest = items;
    let mut out: Vec<NodeModulesInfo> = Vec::new();
    proof {
        views(out@).to_multiset_ensures();
        vstd::multiset::lemma_multiset_empty_len(views(out@).to_multiset());
    }
    assert(views(out@).to_multiset().add(views(rest@).to_multiset()) =~= views(
        items@,
    ).to_multiset());
    while rest.len() > 0
        invariant
            sorted_by_path(views(out@)),
            views(out@).to_multiset().add(views(rest@).to_multiset())
                == views(items@).to_multiset(),
        decreases rest.len(),
    {
        let ghost before_rest = views(rest@);
        let x = rest.pop().unwrap();
        assert(before_rest =~= views(rest@).push(x@));
        proof {
            views(rest@).to_multiset_ensures();
        }
        let ghost ov = views(out@);
        let mut p: usize = 0;
        let mut found = false;
        while p < out.len() && !found
            invariant
                p <= out@.len(),
                found ==> p < ov.len() && path_le(x.path@, ov[p as int].0),
                ov == views(out@),
                sorted_by_path(ov),
                before_rest == views(rest@).push(x@),
                before_rest.to_multiset() == views(rest@).to_multiset().insert(x@),
                ov.to_multiset().add(before_rest.to_multiset()) == views(items@).to_multiset(),
                forall|j: int| 0 <= j < p ==> path_le(ov[j].0, x.path@),
            decreases out.len() - p + (if found { 0int } else { 1int }),
        {
            if path_precedes(x.path.as_str(), out[p].path.as_str()) {
                found = true;
            } else {
                proof {
                    lemma_lex_total(encode_utf8(x.path@), encode_utf8(ov[p as int].0), 0);
                }
                p = p + 1;
            }
        }
        proof {
            if p < ov.len() {
                assert forall|j: int| p < j < ov.len() implies path_le(x.path@, ov[j].0) by {
                    assert(path_le(ov[p as int].0, ov[j].0));
                    lemma_lex_transitive(
                        encode_utf8(x.path@),
                        encode_utf8(ov[p as int].0),
                        encode_utf8(ov[j].0),
                        0,
                    );
                }
            }
        }
        out.insert(p, x);
        proof {
            let nv = views(out@);
            assert(nv =~= ov.insert(p as int, x@));
            ov.insert_ensures(p as int, x@);
            vstd::seq_lib::to_multiset_insert(ov, p as int, x@);
            assert(nv.to_multiset().add(views(rest@).to_multiset()) =~= ov.to_multiset().add(
                before_rest.to_multiset(),
            ));
            assert forall|i: int, j: int| 0 <= i < j < nv.len() implies path_le(
                nv[i].0,
                nv[j].0,
            ) by {
                if j < p {
                } else if j == p {
                } else if i < p {
                    lemma_lex_transitive(
                        encode_utf8(nv[i].0),
                        encode_utf8(x.path@),
                        encode_utf8(nv[j].0),
                        0,
                    );
                } else if i == p {
                } else {
                }
            }
        }
    }
    proof {
        views(rest@).to_multiset_ensures();
        vstd::multiset::lemma_multiset_empty_len(views(rest@).to_multiset());
    }
    assert(views(out@).to_multiset().add(views(rest@).to_multiset()) =~= views(
        out@,
    ).to_multiset());
    out
}

/// The sized results that a scan of `paths` with these sizes gives, in the
/// order of `paths`; defined where every size is known.
pub open spec fn sized(paths: Seq<Seq<char>>, sizes: Seq<Option<u64>>) -> Seq<(Seq<char>, u64)> {
    Seq::new(paths.len(), |i: int| (paths[i], sizes[i].unwrap()))
}

/// Puts a scan together from the candidates and their sizes: fails where
/// any size could not be computed (no partial result), else gives every
/// candidate with its size, sorted by path.
pub fn finish_scan(paths: Vec<String>, sizes: Vec<Option<u64>>) -> (r: Option<
    Vec<NodeModulesInfo>,
>)
    requires
        paths@.len() == sizes@.len(),
    ensures
        r is None <==> exists|i: int| 0 <= i < sizes@.len() && sizes@[i] is None,
        r matches Some(v) ==> sorted_by_path(views(v@)) && views(v@).to_multiset() == sized(
            paths@.map_values(|s: String| s@),
            sizes@,
        ).to_multiset(),
{
    let ghost pv = paths@.map_values(|s: String| s@);
    let mut items: Vec<NodeModulesInfo> = Vec::new();
    let mut i: usize = 0;
    while i < paths.len()
        invariant
            i <= paths@.len(),
            paths@.len() == sizes@.len(),
            pv == paths@.map_values(|s: String| s@),
            forall|j: int| 0 <= j < i ==> sizes@[j] is Some,
            views(items@) == sized(pv, sizes@).subrange(0, i as int),
        decreases paths.len() - i,
    {
        match sizes[i] {
            Some(n) => {
                let ghost before = views(items@);
                let p = paths[i].clone();
                assert(pv[i as int] == p@);
                items.push(NodeModulesInfo { path: p, size: n });
                assert(views(items@) =~= before.push((p@, n)));
                assert(views(items@) =~= sized(pv, sizes@).subrange(0, i + 1));
            },
            None => {
                return None;
            },
        }
        i = i + 1;
    }
    assert(sized(pv, sizes@).subrange(0, i as int) =~= sized(pv, sizes@));
    Some(sort_by_path(items))
}

} // verus!
