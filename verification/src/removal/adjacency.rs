//! The adjacency index of a bifiltered graph: for every vertex, a sorted map
//! from its neighbours to the grade of the connecting edge.

use vstd::prelude::*;

use crate::edges::{BareEdge, FilteredEdge};
use crate::OneCriticalGrade;

verus! {

/// The contents of a per-vertex neighbour map: its key-value pairs in
/// increasing key order, as litemap keeps them.
pub uninterp spec fn nbr_entries(m: litemap::LiteMap<usize, (u64, u64)>) -> Seq<
    (usize, (u64, u64)),
>;

#[verifier::external_type_specification]
#[verifier::external_body]
#[verifier::reject_recursive_types(K)]
#[verifier::reject_recursive_types(V)]
#[verifier::reject_recursive_types(S)]
pub struct ExLiteMap<K: ?Sized, V: ?Sized, S>(litemap::LiteMap<K, V, S>);

/// Whether the keys of an entry sequence are strictly increasing.
pub open spec fn kv_sorted(s: Seq<(usize, (u64, u64))>) -> bool {
    forall|i: int, j: int| 0 <= i < j < s.len() ==> (#[trigger] s[i]).0 < (#[trigger] s[j]).0
}

/// The entry sequence that results from inserting `(k, v)` into `s`,
/// overwriting the value at `k` if the key is there, and else putting the
/// pair at its place in the key order.
pub open spec fn kv_insert(
    s: Seq<(usize, (u64, u64))>,
    k: usize,
    v: (u64, u64),
) -> Seq<(usize, (u64, u64))>
    decreases s.len(),
{
    if s.len() == 0 {
        seq![(k, v)]
    } else if s[0].0 < k {
        seq![s[0]] + kv_insert(s.drop_first(), k, v)
    } else if s[0].0 == k {
        seq![(k, v)] + s.drop_first()
    } else {
        seq![(k, v)] + s
    }
}

/// The entry sequence that results from removing the key `k` from `s`; `s`
/// itself when the key is not there.
pub open spec fn kv_remove(s: Seq<(usize, (u64, u64))>, k: usize) -> Seq<(usize, (u64, u64))>
    decreases s.len(),
{
    if s.len() == 0 {
        s
    } else if s[0].0 == k {
        s.drop_first()
    } else {
        seq![s[0]] + kv_remove(s.drop_first(), k)
    }
}

/// The grade held by an entry value.
pub open spec fn grade_of(p: (u64, u64)) -> OneCriticalGrade {
    OneCriticalGrade(p.0, p.1)
}

/// The neighbour map described by an entry sequence.
pub open spec fn map_of(s: Seq<(usize, (u64, u64))>) -> Map<usize, OneCriticalGrade>
    decreases s.len(),
{
    if s.len() == 0 {
        Map::empty()
    } else {
        map_of(s.drop_first()).insert(s[0].0, grade_of(s[0].1))
    }
}

/// `kv_insert` keeps the key order, and describes exactly a map insertion.
proof fn lemma_kv_insert(s: Seq<(usize, (u64, u64))>, k: usize, v: (u64, u64))
    requires
        kv_sorted(s),
    ensures
        kv_sorted(kv_insert(s, k, v)),
        map_of(kv_insert(s, k, v)) == map_of(s).insert(k, grade_of(v)),
        forall|j: int|
            0 <= j < kv_insert(s, k, v).len() ==> (#[trigger] kv_insert(s, k, v)[j]).0 == k
                || exists|i: int| 0 <= i < s.len() && (#[trigger] s[i]).0 == kv_insert(s, k, v)[j].0,
    decreases s.len(),
{
    let res = kv_insert(s, k, v);
    if s.len() == 0 {
        assert(map_of(res.drop_first()) == Map::<usize, OneCriticalGrade>::empty());
        assert(map_of(res) =~= map_of(s).insert(k, grade_of(v)));
    } else if s[0].0 < k {
        let rest = s.drop_first();
        assert(kv_sorted(rest));
        lemma_kv_insert(rest, k, v);
        let inner = kv_insert(rest, k, v);
        assert(res == seq![s[0]] + inner);
        assert(res.len() == 1 + inner.len());
        assert(res[0] == s[0]);
        assert forall|j: int| 0 <= j < res.len() implies (#[trigger] res[j]).0 == k || exists|i: int|
            0 <= i < s.len() && (#[trigger] s[i]).0 == res[j].0 by {
            if j == 0 {
                assert(s[0].0 == res[0].0);
            } else {
                assert(res[j] == inner[j - 1]);
                if inner[j - 1].0 != k {
                    let key = inner[j - 1].0;
                    let i0 = choose|i: int| 0 <= i < rest.len() && (#[trigger] rest[i]).0 == key;
                    assert(s[i0 + 1].0 == res[j].0);
                }
            }
        }
        assert forall|a: int, b: int| 0 <= a < b < res.len() implies (#[trigger] res[a]).0 < (
        #[trigger] res[b]).0 by {
            if a == 0 {
                let p = res[b];
                assert(p == inner[b - 1]);
                if p.0 == k {
                    assert(s[0].0 < k);
                } else {
                    let i0 = choose|i: int| 0 <= i < rest.len() && (#[trigger] rest[i]).0 == p.0;
                    assert(s[0].0 < rest[i0].0);
                }
            } else {
                assert(inner[a - 1].0 < inner[b - 1].0);
            }
        }
        assert(res.drop_first() =~= inner);
        assert(map_of(res) == map_of(inner).insert(s[0].0, grade_of(s[0].1)));
        assert(map_of(inner) == map_of(rest).insert(k, grade_of(v)));
        assert(map_of(res) =~= map_of(s).insert(k, grade_of(v))) by {
            assert(map_of(s) == map_of(rest).insert(s[0].0, grade_of(s[0].1)));
            assert(s[0].0 != k);
        }
    } else if s[0].0 == k {
        let rest = s.drop_first();
        assert(res == seq![(k, v)] + rest);
        assert(res.drop_first() =~= rest);
        assert(res[0] == (k, v));
        assert forall|a: int, b: int| 0 <= a < b < res.len() implies (#[trigger] res[a]).0 < (
        #[trigger] res[b]).0 by {
            if a == 0 {
                assert(res[b] == rest[b - 1]);
                assert(s[0].0 < s[b].0);
            } else {
                assert(s[a].0 < s[b].0);
            }
        }
        assert(map_of(res) == map_of(rest).insert(k, grade_of(v)));
        assert(map_of(res) =~= map_of(s).insert(k, grade_of(v)));
        assert forall|j: int| 0 <= j < res.len() implies (#[trigger] res[j]).0 == k || exists|i: int|
            0 <= i < s.len() && (#[trigger] s[i]).0 == res[j].0 by {
            if j > 0 {
                assert(s[j].0 == res[j].0);
            }
        }
    } else {
        assert(res == seq![(k, v)] + s);
        assert(res.drop_first() =~= s);
        assert forall|a: int, b: int| 0 <= a < b < res.len() implies (#[trigger] res[a]).0 < (
        #[trigger] res[b]).0 by {
            if a == 0 {
                if b == 1 {
                    assert(res[b] == s[0]);
                } else {
                    assert(res[b] == s[b - 1]);
                    assert(s[0].0 < s[b - 1].0);
                }
            } else {
                assert(s[a - 1].0 < s[b - 1].0);
            }
        }
        assert(map_of(res) == map_of(s).insert(k, grade_of(v)));
        assert forall|j: int| 0 <= j < res.len() implies (#[trigger] res[j]).0 == k || exists|i: int|
            0 <= i < s.len() && (#[trigger] s[i]).0 == res[j].0 by {
            if j > 0 {
                assert(s[j - 1].0 == res[j].0);
            }
        }
    }
}

/// `kv_remove` keeps the key order, and describes exactly a map removal.
proof fn lemma_kv_remove(s: Seq<(usize, (u64, u64))>, k: usize)
    requires
        kv_sorted(s),
    ensures
        kv_sorted(kv_remove(s, k)),
        map_of(kv_remove(s, k)) == map_of(s).remove(k),
        forall|j: int|
            0 <= j < kv_remove(s, k).len() ==> exists|i: int|
                0 <= i < s.len() && (#[trigger] s[i]).0 == (#[trigger] kv_remove(s, k)[j]).0,
    decreases s.len(),
{
    let res = kv_remove(s, k);
    if s.len() == 0 {
        assert(map_of(res) =~= map_of(s).remove(k));
    } else if s[0].0 == k {
        let rest = s.drop_first();
        assert(res == rest);
        lemma_map_of_no_key(rest, k);
        assert(map_of(s) == map_of(rest).insert(k, grade_of(s[0].1)));
        assert(map_of(res) =~= map_of(s).remove(k));
        assert forall|j: int| 0 <= j < res.len() implies exists|i: int| 0 <= i < s.len() && (
        #[trigger] s[i]).0 == (#[trigger] res[j]).0 by {
            assert(s[j + 1].0 == res[j].0);
        }
    } else {
        let rest = s.drop_first();
        assert(kv_sorted(rest));
        lemma_kv_remove(rest, k);
        let inner = kv_remove(rest, k);
        assert(res == seq![s[0]] + inner);
        assert(res.drop_first() =~= inner);
        assert(res[0] == s[0]);
        assert forall|j: int| 0 <= j < res.len() implies exists|i: int| 0 <= i < s.len() && (
        #[trigger] s[i]).0 == (#[trigger] res[j]).0 by {
            if j == 0 {
                assert(s[0].0 == res[0].0);
            } else {
                let key = inner[j - 1].0;
                let i0 = choose|i: int| 0 <= i < rest.len() && (#[trigger] rest[i]).0 == key;
                assert(s[i0 + 1].0 == res[j].0);
            }
        }
        assert forall|a: int, b: int| 0 <= a < b < res.len() implies (#[trigger] res[a]).0 < (
        #[trigger] res[b]).0 by {
            if a == 0 {
                let key = inner[b - 1].0;
                let i0 = choose|i: int| 0 <= i < rest.len() && (#[trigger] rest[i]).0 == key;
                assert(s[0].0 < rest[i0].0);
            } else {
                assert(inner[a - 1].0 < inner[b - 1].0);
            }
        }
        assert(map_of(res) == map_of(inner).insert(s[0].0, grade_of(s[0].1)));
        assert(map_of(res) =~= map_of(s).remove(k)) by {
            assert(map_of(s) == map_of(rest).insert(s[0].0, grade_of(s[0].1)));
            assert(map_of(inner) == map_of(rest).remove(k));
            assert(s[0].0 != k);
        }
    }
}

/// A key below every key of a sorted entry sequence is not in its map.
proof fn lemma_map_of_no_key(s: Seq<(usize, (u64, u64))>, k: usize)
    requires
        forall|i: int| 0 <= i < s.len() ==> (#[trigger] s[i]).0 != k,
    ensures
        !map_of(s).dom().contains(k),
    decreases s.len(),
{
    if s.len() > 0 {
        lemma_map_of_no_key(s.drop_first(), k);
    }
}

/// The map of a sorted entry sequence holds exactly the sequence's pairs.
proof fn lemma_map_of_entries(s: Seq<(usize, (u64, u64))>)
    requires
        kv_sorted(s),
    ensures
        forall|i: int|
            0 <= i < s.len() ==> map_of(s).contains_pair((#[trigger] s[i]).0, grade_of(s[i].1)),
        forall|k: usize|
            map_of(s).dom().contains(k) ==> exists|i: int|
                0 <= i < s.len() && (#[trigger] s[i]).0 == k,
    decreases s.len(),
{
    if s.len() > 0 {
        let rest = s.drop_first();
        assert(kv_sorted(rest));
        lemma_map_of_entries(rest);
        assert(map_of(s) == map_of(rest).insert(s[0].0, grade_of(s[0].1)));
        assert forall|i: int| 0 <= i < s.len() implies map_of(s).contains_pair(
            (#[trigger] s[i]).0,
            grade_of(s[i].1),
        ) by {
            if i > 0 {
                assert(map_of(rest).contains_pair(rest[i - 1].0, grade_of(rest[i - 1].1)));
                assert(s[0].0 < s[i].0);
            }
        }
        assert forall|k: usize| map_of(s).dom().contains(k) implies exists|i: int|
            0 <= i < s.len() && (#[trigger] s[i]).0 == k by {
            if k != s[0].0 {
                let i0 = choose|i: int| 0 <= i < rest.len() && (#[trigger] rest[i]).0 == k;
                assert(s[i0 + 1].0 == k);
            } else {
                assert(s[0].0 == k);
            }
        }
    }
}

/// Relies on litemap's `LiteMap::new_vec`: the new map is empty.
#[verifier::external_body]
fn lm_new() -> (r: litemap::LiteMap<usize, (u64, u64)>)
    ensures
        nbr_entries(r) == Seq::<(usize, (u64, u64))>::empty(),
{
    litemap::LiteMap::new_vec()
}

/// Relies on litemap's `LiteMap::insert`: the store is kept sorted by key;
/// inserting overwrites the value at an existing key, and else puts the pair
/// at its place in the key order.
#[verifier::external_body]
fn lm_insert(m: &mut litemap::LiteMap<usize, (u64, u64)>, k: usize, v: (u64, u64))
    ensures
        kv_sorted(nbr_entries(*old(m))) ==> nbr_entries(*final(m)) == kv_insert(
            nbr_entries(*old(m)),
            k,
            v,
        ),
{
    m.insert(k, v);
}

/// Relies on litemap's `LiteMap::remove`: removing takes the key's pair out
/// of the sorted store, and is a no-op when the key is absent.
#[verifier::external_body]
fn lm_remove(m: &mut litemap::LiteMap<usize, (u64, u64)>, k: usize)
    ensures
        kv_sorted(nbr_entries(*old(m))) ==> nbr_entries(*final(m)) == kv_remove(
            nbr_entries(*old(m)),
            k,
        ),
{
    m.remove(&k);
}

/// Relies on litemap's `LiteMap::iter`: it yields the key-value pairs in
/// increasing key order, which is the order of the store.
#[verifier::external_body]
fn lm_entries(m: &litemap::LiteMap<usize, (u64, u64)>) -> (r: Vec<(usize, (u64, u64))>)
    ensures
        r@ == nbr_entries(*m),
{
    m.iter().map(|(k, v)| (*k, *v)).collect()
}

/// A graph's adjacency index, seen as one neighbour map per vertex: the map
/// of vertex `u` sends each neighbour `w` to the grade of the edge `{u, w}`.
pub struct AdjacencyMatrix {
    matrix: Vec<litemap::LiteMap<usize, (u64, u64)>>,
}

impl View for AdjacencyMatrix {
    type V = Seq<Map<usize, OneCriticalGrade>>;

    closed spec fn view(&self) -> Seq<Map<usize, OneCriticalGrade>> {
        Seq::new(self.matrix@.len(), |i: int| map_of(nbr_entries(self.matrix@[i])))
    }
}

/// Whether a sequence of neighbour maps is symmetric and free of self-loops:
/// every neighbour `w` of `u` is a vertex other than `u` whose own map sends
/// `u` to the same grade.
pub open spec fn adj_symmetric(a: Seq<Map<usize, OneCriticalGrade>>) -> bool {
    forall|u: usize, w: usize|
        u < a.len() && (#[trigger] a[u as int].dom().contains(w)) ==> w < a.len() && w != u && a[
            w as int
        ].dom().contains(u) && a[w as int][u] == a[u as int][w]
}

impl AdjacencyMatrix {
    /// The representation invariant: every per-vertex map is sorted by key,
    /// and the maps are symmetric.
    pub closed spec fn wf(self) -> bool {
        &&& forall|u: int|
            0 <= u < self.matrix@.len() ==> kv_sorted(
                nbr_entries(#[trigger] self.matrix@[u]),
            )
        &&& adj_symmetric(self@)
    }

    /// Symmetry is part of the invariant.
    pub proof fn lemma_wf_symmetric(self)
        requires
            self.wf(),
        ensures
            adj_symmetric(self@),
    {
    }

    /// An adjacency index on `n_vertices` vertices with no edges.
    pub fn new(n_vertices: usize) -> (r: Self)
        ensures
            r@.len() == n_vertices,
            forall|u: int| 0 <= u < n_vertices ==> r@[u] == Map::<usize, OneCriticalGrade>::empty(),
            r.wf(),
    {
        let mut matrix: Vec<litemap::LiteMap<usize, (u64, u64)>> = Vec::new();
        let mut i: usize = 0;
        while i < n_vertices
            invariant
                matrix@.len() == i <= n_vertices,
                forall|u: int|
                    0 <= u < i ==> nbr_entries(#[trigger] matrix@[u]) == Seq::<
                        (usize, (u64, u64)),
                    >::empty(),
            decreases n_vertices - i,
        {
            matrix.push(lm_new());
            i = i + 1;
        }
        let r = Self { matrix };
        proof {
            assert forall|u: int| 0 <= u < n_vertices implies r@[u] == Map::<
                usize,
                OneCriticalGrade,
            >::empty() by {
                assert(nbr_entries(r.matrix@[u]).len() == 0);
            }
        }
        r
    }

    /// Adds an edge to the index: each endpoint becomes a neighbour of the
    /// other, at the edge's grade. Re-insertion overwrites the grade.
    pub fn add_edge(&mut self, edge: FilteredEdge)
        requires
            old(self).wf(),
            edge.edge.0 != edge.edge.1,
            edge.edge.0 < old(self)@.len(),
            edge.edge.1 < old(self)@.len(),
        ensures
            final(self).wf(),
            final(self)@ == old(self)@.update(
                edge.edge.0 as int,
                old(self)@[edge.edge.0 as int].insert(edge.edge.1, edge.grade),
            ).update(
                edge.edge.1 as int,
                old(self)@[edge.edge.1 as int].insert(edge.edge.0, edge.grade),
            ),
    {
        let BareEdge(u, v) = edge.edge;
        let g = (edge.grade.0, edge.grade.1);
        proof {
            lemma_kv_insert(nbr_entries(self.matrix@[u as int]), v, g);
        }
        let row_u = vstd::std_specs::vec::vec_index_mut(&mut self.matrix, u);
        lm_insert(row_u, v, g);
        proof {
            lemma_kv_insert(nbr_entries(self.matrix@[v as int]), u, g);
        }
        let row_v = vstd::std_specs::vec::vec_index_mut(&mut self.matrix, v);
        lm_insert(row_v, u, g);
        proof {
            assert(grade_of(g) == edge.grade);
            let a0 = old(self)@;
            let a2 = self@;
            let target = a0.update(u as int, a0[u as int].insert(v, edge.grade)).update(
                v as int,
                a0[v as int].insert(u, edge.grade),
            );
            assert(a2 =~= target);
            assert(adj_symmetric(a2)) by {
                assert forall|x: usize, w: usize|
                    x < a2.len() && (#[trigger] a2[x as int].dom().contains(w)) implies w
                    < a2.len() && w != x && a2[w as int].dom().contains(x) && a2[w as int][x] == a2[
                    x as int
                ][w] by {
                    if x == u && w == v {
                        assert(a2[v as int].contains_pair(u, edge.grade));
                        assert(a2[u as int].contains_pair(v, edge.grade));
                    } else if x == v && w == u {
                        assert(a2[v as int].contains_pair(u, edge.grade));
                        assert(a2[u as int].contains_pair(v, edge.grade));
                    } else {
                        assert(a0[x as int].dom().contains(w));
                        assert(w < a0.len() && w != x && a0[w as int].dom().contains(x) && a0[
                            w as int
                        ][x] == a0[x as int][w]);
                        if x == u {
                            assert(a2[x as int][w] == a0[x as int][w]);
                        }
                        if x == v {
                            assert(a2[x as int][w] == a0[x as int][w]);
                        }
                        if w == u {
                            assert(a2[w as int].dom().contains(x) && a2[w as int][x] == a0[
                                w as int
                            ][x]);
                        }
                        if w == v {
                            assert(a2[w as int].dom().contains(x) && a2[w as int][x] == a0[
                                w as int
                            ][x]);
                        }
                    }
                }
            }
        }
    }

    /// Deletes an edge from the index: each endpoint stops being a neighbour
    /// of the other. Deleting a missing edge is a no-op.
    pub fn delete_edge(&mut self, edge: &FilteredEdge)
        requires
            old(self).wf(),
            edge.edge.0 != edge.edge.1,
            edge.edge.0 < old(self)@.len(),
            edge.edge.1 < old(self)@.len(),
        ensures
            final(self).wf(),
            final(self)@ == old(self)@.update(
                edge.edge.0 as int,
                old(self)@[edge.edge.0 as int].remove(edge.edge.1),
            ).update(edge.edge.1 as int, old(self)@[edge.edge.1 as int].remove(edge.edge.0)),
    {
        let u = edge.edge.0;
        let v = edge.edge.1;
        proof {
            lemma_kv_remove(nbr_entries(self.matrix@[u as int]), v);
        }
        let row_u = vstd::std_specs::vec::vec_index_mut(&mut self.matrix, u);
        lm_remove(row_u, v);
        proof {
            lemma_kv_remove(nbr_entries(self.matrix@[v as int]), u);
        }
        let row_v = vstd::std_specs::vec::vec_index_mut(&mut self.matrix, v);
        lm_remove(row_v, u);
        proof {
            let a0 = old(self)@;
            let a2 = self@;
            let target = a0.update(u as int, a0[u as int].remove(v)).update(
                v as int,
                a0[v as int].remove(u),
            );
            assert(a2 =~= target);
            assert(adj_symmetric(a2)) by {
                assert forall|x: usize, w: usize|
                    x < a2.len() && (#[trigger] a2[x as int].dom().contains(w)) implies w
                    < a2.len() && w != x && a2[w as int].dom().contains(x) && a2[w as int][x] == a2[
                    x as int
                ][w] by {
                    assert(a0[x as int].dom().contains(w));
                    assert(w < a0.len() && w != x && a0[w as int].dom().contains(x) && a0[
                        w as int
                    ][x] == a0[x as int][w]);
                    assert(!(x == u && w == v));
                    assert(!(x == v && w == u));
                    if w == u {
                        assert(a2[w as int].dom().contains(x) && a2[w as int][x] == a0[w as int][
                            x
                        ]);
                    }
                    if w == v {
                        assert(a2[w as int].dom().contains(x) && a2[w as int][x] == a0[w as int][
                            x
                        ]);
                    }
                }
            }
        }
    }
}

/// Whether the keys of a neighbour list are strictly increasing.
pub open spec fn gr_sorted(s: Seq<(usize, OneCriticalGrade)>) -> bool {
    forall|i: int, j: int| 0 <= i < j < s.len() ==> (#[trigger] s[i]).0 < (#[trigger] s[j]).0
}

/// Whether `s` lists exactly the entries of the neighbour map `m`, sorted by
/// vertex.
pub open spec fn entry_list_of(
    s: Seq<(usize, OneCriticalGrade)>,
    m: Map<usize, OneCriticalGrade>,
) -> bool {
    &&& gr_sorted(s)
    &&& forall|i: int| 0 <= i < s.len() ==> m.contains_pair((#[trigger] s[i]).0, s[i].1)
    &&& forall|k: usize|
        #[trigger] m.dom().contains(k) ==> exists|i: int|
            0 <= i < s.len() && (#[trigger] s[i]).0 == k
}

/// The map that sends each common neighbour `w` of `u` and `v` to the join
/// of the grades of the edges `{u, w}` and `{v, w}`.
pub open spec fn common_map(
    a: Seq<Map<usize, OneCriticalGrade>>,
    u: usize,
    v: usize,
) -> Map<usize, OneCriticalGrade> {
    Map::new(
        |w: usize| a[u as int].dom().contains(w) && a[v as int].dom().contains(w),
        |w: usize| a[u as int][w].spec_join(a[v as int][w]),
    )
}

/// The closed neighbourhood of `u`: its open neighbourhood together with `u`
/// itself at the grade `val`.
pub open spec fn closed_nb_map(
    a: Seq<Map<usize, OneCriticalGrade>>,
    u: usize,
    val: OneCriticalGrade,
) -> Map<usize, OneCriticalGrade> {
    a[u as int].insert(u, val)
}

/// The closed neighbourhood of the edge `e = {u, v}`: every common neighbour
/// at its joined grade further joined with the edge's grade, and `u` and `v`
/// themselves at the edge's grade.
pub open spec fn closed_edge_map(
    a: Seq<Map<usize, OneCriticalGrade>>,
    e: FilteredEdge,
) -> Map<usize, OneCriticalGrade> {
    let cm = common_map(a, e.edge.0, e.edge.1);
    Map::new(
        |w: usize| cm.dom().contains(w) || w == e.edge.0 || w == e.edge.1,
        |w: usize|
            if w == e.edge.0 || w == e.edge.1 {
                e.grade
            } else {
                cm[w].spec_join(e.grade)
            },
    )
}

/// Inserts `(k, g)` into a sorted neighbour list, overwriting the entry at
/// `k` if the key is there, and else keeping the key order.
fn entry_insert(list: Vec<(usize, OneCriticalGrade)>, k: usize, g: OneCriticalGrade) -> (r: Vec<
    (usize, OneCriticalGrade),
>)
    requires
        gr_sorted(list@),
    ensures
        gr_sorted(r@),
        forall|p: (usize, OneCriticalGrade)|
            #[trigger] r@.contains(p) <==> ((p.0 == k && p.1 == g) || (list@.contains(p) && p.0
                != k)),
{
    let mut list = list;
    let n = list.len();
    let mut pos: usize = 0;
    while pos < n && list[pos].0 < k
        invariant
            n == list@.len(),
            gr_sorted(list@),
            pos <= n,
            forall|i: int| 0 <= i < pos ==> (#[trigger] list@[i]).0 < k,
        decreases n - pos,
    {
        pos = pos + 1;
    }
    let ghost s = list@;
    if pos < n && list[pos].0 == k {
        list.set(pos, (k, g));
        proof {
            assert forall|p: (usize, OneCriticalGrade)| #[trigger] list@.contains(p) implies ((p.0
                == k && p.1 == g) || (s.contains(p) && p.0 != k)) by {
                let idx = choose|idx: int| 0 <= idx < list@.len() && list@[idx] == p;
                if idx != pos {
                    assert(s[idx] == p);
                    assert(s.contains(p));
                    if idx < pos {
                        assert(s[idx].0 < k);
                    } else {
                        assert(s[pos as int].0 < s[idx].0);
                    }
                }
            }
            assert forall|p: (usize, OneCriticalGrade)|
                ((p.0 == k && p.1 == g) || (s.contains(p) && p.0 != k)) implies #[trigger]
                list@.contains(p) by {
                if p.0 == k && p.1 == g {
                    assert(list@[pos as int] == p);
                } else {
                    let idx = choose|idx: int| 0 <= idx < s.len() && s[idx] == p;
                    assert(idx != pos);
                    assert(list@[idx] == p);
                }
            }
        }
    } else {
        list.insert(pos, (k, g));
        proof {
            assert forall|a: int, b: int| 0 <= a < b < list@.len() implies (
            #[trigger] list@[a]).0 < (#[trigger] list@[b]).0 by {
                if a == pos {
                    assert(list@[b] == s[b - 1]);
                    if pos < n {
                        assert(s[pos as int].0 > k || s[pos as int].0 < k);
                        assert(s[pos as int].0 != k);
                        assert(k < s[pos as int].0);
                        assert(s[pos as int].0 <= s[b - 1].0);
                    }
                } else if b == pos {
                    assert(list@[a] == s[a]);
                    assert(s[a].0 < k);
                } else if a < pos && b > pos {
                    assert(list@[a] == s[a]);
                    assert(list@[b] == s[b - 1]);
                    assert(s[a].0 < k);
                    if pos < n {
                        assert(k < s[pos as int].0);
                        assert(s[pos as int].0 <= s[b - 1].0);
                    }
                } else if b < pos {
                    assert(list@[a] == s[a]);
                    assert(list@[b] == s[b]);
                } else {
                    assert(list@[a] == s[a - 1]);
                    assert(list@[b] == s[b - 1]);
                }
            }
            assert forall|p: (usize, OneCriticalGrade)| #[trigger] list@.contains(p) implies ((p.0
                == k && p.1 == g) || (s.contains(p) && p.0 != k)) by {
                let idx = choose|idx: int| 0 <= idx < list@.len() && list@[idx] == p;
                if idx < pos {
                    assert(s[idx] == p);
                    assert(s.contains(p));
                    assert(s[idx].0 < k);
                } else if idx > pos {
                    assert(s[idx - 1] == p);
                    assert(s.contains(p));
                    if idx - 1 < pos {
                        assert(s[idx - 1].0 < k);
                    } else {
                        assert(pos < n);
                        assert(s[pos as int].0 != k);
                        assert(k < s[pos as int].0);
                        assert(s[pos as int].0 <= s[idx - 1].0);
                    }
                }
            }
            assert forall|p: (usize, OneCriticalGrade)|
                ((p.0 == k && p.1 == g) || (s.contains(p) && p.0 != k)) implies #[trigger]
                list@.contains(p) by {
                if p.0 == k && p.1 == g {
                    assert(list@[pos as int] == p);
                } else {
                    let idx = choose|idx: int| 0 <= idx < s.len() && s[idx] == p;
                    if idx < pos {
                        assert(list@[idx] == p);
                    } else {
                        assert(list@[idx + 1] == p);
                    }
                }
            }
        }
    }
    list
}

/// A sorted list with the membership of `m.insert(k, g)` built from one with
/// the membership of `m` lists the entries of `m.insert(k, g)`.
proof fn lemma_entry_insert_map(
    s1: Seq<(usize, OneCriticalGrade)>,
    s2: Seq<(usize, OneCriticalGrade)>,
    m: Map<usize, OneCriticalGrade>,
    k: usize,
    g: OneCriticalGrade,
)
    requires
        entry_list_of(s1, m),
        gr_sorted(s2),
        forall|p: (usize, OneCriticalGrade)|
            #[trigger] s2.contains(p) <==> ((p.0 == k && p.1 == g) || (s1.contains(p) && p.0
                != k)),
    ensures
        entry_list_of(s2, m.insert(k, g)),
{
    assert forall|i: int| 0 <= i < s2.len() implies m.insert(k, g).contains_pair(
        (#[trigger] s2[i]).0,
        s2[i].1,
    ) by {
        let p = s2[i];
        assert(s2.contains(p));
        if p.0 == k && p.1 == g {
        } else {
            let i1 = choose|i1: int| 0 <= i1 < s1.len() && s1[i1] == p;
            assert(m.contains_pair(s1[i1].0, s1[i1].1));
        }
    }
    assert forall|k2: usize| #[trigger] m.insert(k, g).dom().contains(k2) implies exists|i: int|
        0 <= i < s2.len() && (#[trigger] s2[i]).0 == k2 by {
        if k2 == k {
            assert(s2.contains((k, g)));
            let idx = choose|idx: int| 0 <= idx < s2.len() && s2[idx] == (k, g);
            assert(s2[idx].0 == k2);
        } else {
            assert(m.dom().contains(k2));
            let i1 = choose|i1: int| 0 <= i1 < s1.len() && (#[trigger] s1[i1]).0 == k2;
            assert(m.contains_pair(s1[i1].0, s1[i1].1));
            assert(s1[i1].1 == m[k2]);
            assert(s1.contains(s1[i1]));
            assert(s2.contains(s1[i1]));
            let idx = choose|idx: int| 0 <= idx < s2.len() && s2[idx] == s1[i1];
            assert(s2[idx].0 == k2);
        }
    }
}

impl AdjacencyMatrix {
    /// Returns the open neighbours of the vertex `u`, each with the grade of
    /// the edge that connects it to `u`, sorted by vertex.
    pub fn open_neighbours(&self, u: usize) -> (r: Vec<(usize, OneCriticalGrade)>)
        requires
            self.wf(),
            u < self@.len(),
        ensures
            entry_list_of(r@, self@[u as int]),
    {
        let raw = lm_entries(&self.matrix[u]);
        let ghost s = nbr_entries(self.matrix@[u as int]);
        proof {
            lemma_map_of_entries(s);
        }
        let mut r: Vec<(usize, OneCriticalGrade)> = Vec::new();
        let n = raw.len();
        for idx in 0..n
            invariant
                n == raw@.len(),
                raw@ == s,
                r@.len() == idx,
                forall|t: int| 0 <= t < idx ==> #[trigger] r@[t] == (s[t].0, grade_of(s[t].1)),
        {
            let (k, p) = raw[idx];
            r.push((k, OneCriticalGrade(p.0, p.1)));
        }
        proof {
            let m = map_of(s);
            assert(self@[u as int] == m);
            assert forall|k2: usize| #[trigger] m.dom().contains(k2) implies exists|i: int|
                0 <= i < r@.len() && (#[trigger] r@[i]).0 == k2 by {
                let i0 = choose|i: int| 0 <= i < s.len() && (#[trigger] s[i]).0 == k2;
                assert(r@[i0].0 == k2);
            }
        }
        r
    }

    /// Returns the closed neighbours of the vertex `u`: its open neighbours
    /// and `u` itself at the grade `u_value`, sorted by vertex.
    pub fn closed_neighbours(&self, u: usize, u_value: OneCriticalGrade) -> (r: Vec<
        (usize, OneCriticalGrade),
    >)
        requires
            self.wf(),
            u < self@.len(),
        ensures
            entry_list_of(r@, closed_nb_map(self@, u, u_value)),
    {
        let open = self.open_neighbours(u);
        let ghost s1 = open@;
        let r = entry_insert(open, u, u_value);
        proof {
            lemma_entry_insert_map(s1, r@, self@[u as int], u, u_value);
        }
        r
    }

    /// Returns the common neighbours of the endpoints of `edge`, each with
    /// the join of the grades of its edges to the two endpoints, sorted by
    /// vertex.
    pub fn common_neighbours(&self, edge: &FilteredEdge) -> (r: Vec<(usize, OneCriticalGrade)>)
        requires
            self.wf(),
            edge.edge.0 < self@.len(),
            edge.edge.1 < self@.len(),
        ensures
            entry_list_of(r@, common_map(self@, edge.edge.0, edge.edge.1)),
    {
        let u = edge.edge.0;
        let v = edge.edge.1;
        let lu = self.open_neighbours(u);
        let lv = self.open_neighbours(v);
        let ghost mu = self@[u as int];
        let ghost mv = self@[v as int];
        let ghost cm = common_map(self@, u, v);
        let mut r: Vec<(usize, OneCriticalGrade)> = Vec::new();
        let mut i: usize = 0;
        let mut j: usize = 0;
        let nu = lu.len();
        let nv = lv.len();
        while i < nu && j < nv
            invariant
                nu == lu@.len(),
                nv == lv@.len(),
                entry_list_of(lu@, mu),
                entry_list_of(lv@, mv),
                cm == common_map(self@, u, v),
                mu == self@[u as int],
                mv == self@[v as int],
                i <= nu,
                j <= nv,
                gr_sorted(r@),
                forall|t: int| 0 <= t < r@.len() ==> cm.contains_pair((#[trigger] r@[t]).0, r@[t].1),
                forall|i2: int, j2: int|
                    0 <= i2 < i && 0 <= j2 < j && (#[trigger] lu@[i2]).0 == (#[trigger] lv@[j2]).0
                        ==> exists|t: int| 0 <= t < r@.len() && (#[trigger] r@[t]).0 == lu@[i2].0,
                forall|i2: int| 0 <= i2 < i && j < nv ==> (#[trigger] lu@[i2]).0 < lv@[j as int].0,
                forall|j2: int| 0 <= j2 < j && i < nu ==> (#[trigger] lv@[j2]).0 < lu@[i as int].0,
                forall|t: int|
                    0 <= t < r@.len() && i < nu ==> (#[trigger] r@[t]).0 < lu@[i as int].0,
                forall|t: int|
                    0 <= t < r@.len() && j < nv ==> (#[trigger] r@[t]).0 < lv@[j as int].0,
            decreases nu - i + nv - j,
        {
            let (wu, gu) = lu[i];
            let (wv, gv) = lv[j];
            if wu < wv {
                i = i + 1;
                proof {
                    assert forall|i2: int, j2: int|
                        0 <= i2 < i && 0 <= j2 < j && (#[trigger] lu@[i2]).0 == (
                        #[trigger] lv@[j2]).0 implies exists|t: int|
                        0 <= t < r@.len() && (#[trigger] r@[t]).0 == lu@[i2].0 by {
                        if i2 == i - 1 {
                            assert(lv@[j2].0 < lu@[i2].0);
                            assert(false);
                        }
                    }
                }
            } else if wu > wv {
                j = j + 1;
                proof {
                    assert forall|i2: int, j2: int|
                        0 <= i2 < i && 0 <= j2 < j && (#[trigger] lu@[i2]).0 == (
                        #[trigger] lv@[j2]).0 implies exists|t: int|
                        0 <= t < r@.len() && (#[trigger] r@[t]).0 == lu@[i2].0 by {
                        if j2 == j - 1 {
                            assert(lu@[i2].0 < lv@[j2].0);
                            assert(false);
                        }
                    }
                }
            } else {
                proof {
                    assert(mu.contains_pair(lu@[i as int].0, lu@[i as int].1));
                    assert(mv.contains_pair(lv@[j as int].0, lv@[j as int].1));
                }
                let ghost r_old = r@;
                r.push((wu, gu.join(&gv)));
                i = i + 1;
                j = j + 1;
                proof {
                    assert forall|i2: int, j2: int|
                        0 <= i2 < i && 0 <= j2 < j && (#[trigger] lu@[i2]).0 == (
                        #[trigger] lv@[j2]).0 implies exists|t: int|
                        0 <= t < r@.len() && (#[trigger] r@[t]).0 == lu@[i2].0 by {
                        if i2 == i - 1 || j2 == j - 1 {
                            assert(r@[r@.len() - 1].0 == wu);
                            if i2 == i - 1 && j2 < j - 1 {
                                assert(lv@[j2].0 < lv@[j - 1].0);
                            }
                            if j2 == j - 1 && i2 < i - 1 {
                                assert(lu@[i2].0 < lu@[i - 1].0);
                            }
                        } else {
                            let t0 = choose|t: int|
                                0 <= t < r_old.len() && (#[trigger] r_old[t]).0 == lu@[i2].0;
                            assert(r@[t0] == r_old[t0]);
                            assert(r@[t0].0 == lu@[i2].0);
                        }
                    }
                }
            }
        }
        proof {
            assert forall|k2: usize| #[trigger] cm.dom().contains(k2) implies exists|t: int|
                0 <= t < r@.len() && (#[trigger] r@[t]).0 == k2 by {
                assert(mu.dom().contains(k2));
                assert(mv.dom().contains(k2));
                let i2 = choose|t: int| 0 <= t < lu@.len() && (#[trigger] lu@[t]).0 == k2;
                let j2 = choose|t: int| 0 <= t < lv@.len() && (#[trigger] lv@[t]).0 == k2;
                if i2 >= i {
                    assert(i < nu);
                    assert(j == nv);
                    assert(lv@[j2].0 < lu@[i as int].0);
                    assert(lu@[i as int].0 <= lu@[i2].0);
                    assert(false);
                } else if j2 >= j {
                    assert(j < nv);
                    assert(i == nu);
                    assert(lu@[i2].0 < lv@[j as int].0);
                    assert(lv@[j as int].0 <= lv@[j2].0);
                    assert(false);
                }
            }
        }
        r
    }

    /// Returns the closed neighbourhood of `edge`, sorted by vertex: each
    /// common neighbour at its joined grade further joined with the grade of
    /// `edge`, and the two endpoints at the grade of `edge`.
    pub fn closed_neighbours_edge(&self, edge: &FilteredEdge) -> (r: Vec<
        (usize, OneCriticalGrade),
    >)
        requires
            self.wf(),
            edge.edge.0 != edge.edge.1,
            edge.edge.0 < self@.len(),
            edge.edge.1 < self@.len(),
        ensures
            entry_list_of(r@, closed_edge_map(self@, *edge)),
    {
        let u = edge.edge.0;
        let v = edge.edge.1;
        let ghost cm = common_map(self@, u, v);
        let ghost cj = Map::<usize, OneCriticalGrade>::new(
            |w: usize| cm.dom().contains(w),
            |w: usize| cm[w].spec_join(edge.grade),
        );
        let mut r = self.common_neighbours(edge);
        let n = r.len();
        let ghost s0 = r@;
        for idx in 0..n
            invariant
                n == r@.len(),
                s0.len() == n,
                cm == common_map(self@, u, v),
                cj == Map::<usize, OneCriticalGrade>::new(
                    |w: usize| cm.dom().contains(w),
                    |w: usize| cm[w].spec_join(edge.grade),
                ),
                entry_list_of(s0, cm),
                forall|t: int| 0 <= t < idx ==> #[trigger] r@[t] == (
                    s0[t].0,
                    s0[t].1.spec_join(edge.grade),
                ),
                forall|t: int| idx <= t < n ==> #[trigger] r@[t] == s0[t],
        {
            let (w, g) = r[idx];
            r.set(idx, (w, g.join(&edge.grade)));
        }
        proof {
            assert(gr_sorted(r@));
            assert forall|t: int| 0 <= t < r@.len() implies cj.contains_pair(
                (#[trigger] r@[t]).0,
                r@[t].1,
            ) by {
                assert(cm.contains_pair(s0[t].0, s0[t].1));
            }
            assert forall|k2: usize| #[trigger] cj.dom().contains(k2) implies exists|t: int|
                0 <= t < r@.len() && (#[trigger] r@[t]).0 == k2 by {
                let t0 = choose|t: int| 0 <= t < s0.len() && (#[trigger] s0[t]).0 == k2;
                assert(r@[t0].0 == k2);
            }
            assert(entry_list_of(r@, cj));
        }
        let ghost s1 = r@;
        let r2 = entry_insert(r, u, edge.grade);
        proof {
            lemma_entry_insert_map(s1, r2@, cj, u, edge.grade);
        }
        let ghost s2 = r2@;
        let r3 = entry_insert(r2, v, edge.grade);
        proof {
            lemma_entry_insert_map(s2, r3@, cj.insert(u, edge.grade), v, edge.grade);
            assert(!cm.dom().contains(u));
            assert(!cm.dom().contains(v)) by {
                if cm.dom().contains(v) {
                    assert(self@[v as int].dom().contains(v));
                }
            }
            assert(cj.insert(u, edge.grade).insert(v, edge.grade) =~= closed_edge_map(
                self@,
                *edge,
            ));
        }
        r3
    }
}

} // verus!
