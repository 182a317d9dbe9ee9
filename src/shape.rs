//! How the entries of the staging map hang together, and what that means for
//! the leaves of the realized tree.
use vstd::prelude::*;
use crate::pending::{
    Pending, PendingNodeMap, ancestors_ok, attach, base_title, distinct, realize_at, realize_all,
    realize_roots, leaves, leaves_list, lemma_attach_files,
};
use crate::tree::Tree;
use crate::order::{sort_seq, sort_tree, sort_trees, insert_by, lemma_insert_position, lemma_sort_members, lemma_sort_trees_index};

verus! {

/// Every entry that is not a root is listed by its parent directory, which
/// is an entry; no directory lists a child twice or lists a root.
pub open spec fn linked(m: Map<Seq<Seq<char>>, Pending>, rs: Seq<Seq<Seq<char>>>) -> bool {
    &&& forall|k: Seq<Seq<char>>| #[trigger] m.contains_key(k) && !rs.contains(k) ==> {
        &&& k.len() > 0
        &&& m.contains_key(k.drop_last())
        &&& m[k.drop_last()] is Dir
        &&& m[k.drop_last()]->Dir_1.contains(k)
    }
    &&& forall|k: Seq<Seq<char>>| #[trigger] m.contains_key(k) && m[k] is Dir ==> distinct(m[k]->Dir_1)
    &&& forall|k: Seq<Seq<char>>, j: int|
        m.contains_key(k) && m[k] is Dir && 0 <= j < m[k]->Dir_1.len() ==> !rs.contains(#[trigger] m[k]->Dir_1[j])
}

/// Registering a path that has no entry keeps the map linked, and leaves the
/// path listed by its parent directory.
pub proof fn lemma_attach_linked(m: Map<Seq<Seq<char>>, Pending>, rs: Seq<Seq<Seq<char>>>, p: Seq<Seq<char>>)
    requires
        linked(m, rs),
        PendingNodeMap::children_ok_but(m, None),
        ancestors_ok(m, p),
        !m.contains_key(p),
        forall|j: int| 0 <= j < rs.len() ==> m.contains_key(#[trigger] rs[j]),
    ensures
        linked(attach(m, p), rs),
        attach(m, p).contains_key(p.drop_last()),
        attach(m, p)[p.drop_last()] is Dir,
        attach(m, p)[p.drop_last()]->Dir_1.contains(p),
        !attach(m, p).contains_key(p),
        forall|k: Seq<Seq<char>>| #[trigger] m.contains_key(k) ==> attach(m, p).contains_key(k),
        forall|k: Seq<Seq<char>>| #[trigger] attach(m, p).contains_key(k) && !m.contains_key(k) ==> reach(rs, p, k),
    decreases p.len(),
{
    lemma_attach_files(m, p);
    let q = p.drop_last();
    assert(!rs.contains(p)) by {
        if rs.contains(p) {
            let j = choose|j: int| 0 <= j < rs.len() && rs[j] == p;
            assert(m.contains_key(rs[j]));
        }
    }
    if m.contains_key(q) {
        let m2 = attach(m, p);
        let cs = m[q]->Dir_1;
        assert(m2 == m.insert(q, Pending::Dir(m[q]->Dir_0, cs.push(p))));
        assert(m2[q]->Dir_1[cs.len() as int] == p);
        assert forall|k: Seq<Seq<char>>| #[trigger] m2.contains_key(k) && !rs.contains(k) implies {
            &&& k.len() > 0
            &&& m2.contains_key(k.drop_last())
            &&& m2[k.drop_last()] is Dir
            &&& m2[k.drop_last()]->Dir_1.contains(k)
        } by {
            assert(m.contains_key(k));
            let par = k.drop_last();
            if par == q {
                let j = choose|j: int| 0 <= j < cs.len() && cs[j] == k;
                assert(m2[q]->Dir_1[j] == k);
            }
        }
        assert forall|k: Seq<Seq<char>>| #[trigger] m2.contains_key(k) && m2[k] is Dir implies distinct(m2[k]->Dir_1) by {
            if k == q {
                assert(distinct(cs));
                assert forall|a: int| 0 <= a < cs.len() implies cs[a] != p by {
                    assert(m[q]->Dir_1[a] == cs[a]);
                }
                let ns = cs.push(p);
                assert forall|a: int, b: int| 0 <= a < ns.len() && 0 <= b < ns.len() && a != b implies ns[a] != ns[b] by {
                    if a < cs.len() && b < cs.len() {
                        assert(ns[a] == cs[a] && ns[b] == cs[b]);
                    }
                }
            }
        }
        assert forall|k: Seq<Seq<char>>, j: int|
            m2.contains_key(k) && m2[k] is Dir && 0 <= j < m2[k]->Dir_1.len() implies !rs.contains(#[trigger] m2[k]->Dir_1[j]) by {
            if k == q && j < cs.len() {
                assert(m[q]->Dir_1[j] == m2[k]->Dir_1[j]);
            } else if k != q {
                assert(m[k]->Dir_1[j] == m2[k]->Dir_1[j]);
            }
        }
    } else {
        lemma_attach_linked(m, rs, q);
        let m1 = attach(m, q);
        let m2 = attach(m, p);
        assert(m2 == m1.insert(q, Pending::Dir(base_title(q), seq![p])));
        assert(!rs.contains(q)) by {
            if rs.contains(q) {
                let j = choose|j: int| 0 <= j < rs.len() && rs[j] == q;
                assert(m.contains_key(rs[j]));
            }
        }
        assert(m2[q]->Dir_1[0] == p);
        assert forall|k: Seq<Seq<char>>| #[trigger] m2.contains_key(k) && !rs.contains(k) implies {
            &&& k.len() > 0
            &&& m2.contains_key(k.drop_last())
            &&& m2[k.drop_last()] is Dir
            &&& m2[k.drop_last()]->Dir_1.contains(k)
        } by {
            if k == q {
                assert(ancestors_ok(m, q));
            } else {
                assert(m1.contains_key(k));
                if k.drop_last() == q {
                    assert(m1.contains_key(q));
                }
            }
        }
        assert forall|k: Seq<Seq<char>>| #[trigger] m2.contains_key(k) && m2[k] is Dir implies distinct(m2[k]->Dir_1) by {
            if k != q {
                assert(m1.contains_key(k));
            }
        }
        assert forall|k: Seq<Seq<char>>, j: int|
            m2.contains_key(k) && m2[k] is Dir && 0 <= j < m2[k]->Dir_1.len() implies !rs.contains(#[trigger] m2[k]->Dir_1[j]) by {
            if k != q {
                assert(m1[k]->Dir_1[j] == m2[k]->Dir_1[j]);
            }
        }
        assert(reach(rs, q, q));
        assert forall|k: Seq<Seq<char>>| #[trigger] m2.contains_key(k) && !m.contains_key(k) implies reach(rs, p, k) by {
            if k != q {
                assert(m1.contains_key(k));
                assert(reach(rs, q, k));
                assert(k.len() < p.len());
            }
        }
    }
}


/// Walking up from `f`, one component at a time, reaches `k` before any
/// root other than `k`.
pub open spec fn reach(rs: Seq<Seq<Seq<char>>>, f: Seq<Seq<char>>, k: Seq<Seq<char>>) -> bool
    decreases f.len(),
{
    f == k || (f.len() > k.len() && !rs.contains(f) && reach(rs, f.drop_last(), k))
}

/// Some file entry with index `i` lies below `k`.
pub open spec fn file_below(m: Map<Seq<Seq<char>>, Pending>, rs: Seq<Seq<Seq<char>>>, k: Seq<Seq<char>>, i: nat) -> bool {
    exists|f: Seq<Seq<char>>| #[trigger] m.contains_key(f) && m[f] is File && m[f]->File_0 == i && reach(rs, f, k)
}

/// No file index is carried by two file entries.
pub open spec fn unique_indices(m: Map<Seq<Seq<char>>, Pending>) -> bool {
    forall|k1: Seq<Seq<char>>, k2: Seq<Seq<char>>|
        #[trigger] m.contains_key(k1) && #[trigger] m.contains_key(k2) && m[k1] is File && m[k2] is File
            && m[k1]->File_0 == m[k2]->File_0 ==> k1 == k2
}

pub open spec fn no_dup(s: Seq<nat>) -> bool {
    forall|a: int, b: int| 0 <= a < s.len() && 0 <= b < s.len() && a != b ==> s[a] != s[b]
}

proof fn lemma_reach_prefix(rs: Seq<Seq<Seq<char>>>, f: Seq<Seq<char>>, k: Seq<Seq<char>>)
    requires
        reach(rs, f, k),
    ensures
        k.len() <= f.len(),
        f.subrange(0, k.len() as int) == k,
        forall|l: int| k.len() < l <= f.len() ==> !rs.contains(#[trigger] f.subrange(0, l)),
    decreases f.len(),
{
    if f != k {
        let g = f.drop_last();
        lemma_reach_prefix(rs, g, k);
        assert(f.subrange(0, k.len() as int) =~= g.subrange(0, k.len() as int));
        assert forall|l: int| k.len() < l <= f.len() implies !rs.contains(#[trigger] f.subrange(0, l)) by {
            if l == f.len() {
                assert(f.subrange(0, l) =~= f);
            } else {
                assert(f.subrange(0, l) =~= g.subrange(0, l));
            }
        }
    } else {
        assert(f.subrange(0, k.len() as int) =~= f);
    }
}

proof fn lemma_reach_child(m: Map<Seq<Seq<char>>, Pending>, rs: Seq<Seq<Seq<char>>>, f: Seq<Seq<char>>, k: Seq<Seq<char>>)
    requires
        linked(m, rs),
        m.contains_key(f),
        reach(rs, f, k),
        f != k,
    ensures
        ({
            let c = f.subrange(0, k.len() as int + 1);
            &&& reach(rs, f, c)
            &&& m.contains_key(c)
            &&& c.len() == k.len() + 1
            &&& c.drop_last() == k
            &&& m.contains_key(k)
            &&& m[k] is Dir
            &&& m[k]->Dir_1.contains(c)
        }),
    decreases f.len(),
{
    let g = f.drop_last();
    lemma_reach_prefix(rs, f, k);
    assert(m.contains_key(f) && !rs.contains(f));
    if g == k {
        assert(f.subrange(0, k.len() as int + 1) =~= f);
    } else {
        lemma_reach_child(m, rs, g, k);
        assert(g.subrange(0, k.len() as int + 1) =~= f.subrange(0, k.len() as int + 1));
        lemma_reach_prefix(rs, g, k);
    }
}

proof fn lemma_reach_extend(rs: Seq<Seq<Seq<char>>>, f: Seq<Seq<char>>, c: Seq<Seq<char>>, k: Seq<Seq<char>>)
    requires
        reach(rs, f, c),
        c.len() == k.len() + 1,
        c.drop_last() == k,
        !rs.contains(c),
    ensures
        reach(rs, f, k),
    decreases f.len(),
{
    if f != c {
        lemma_reach_extend(rs, f.drop_last(), c, k);
    } else {
        assert(reach(rs, k, k));
    }
}

proof fn lemma_reach_root(m: Map<Seq<Seq<char>>, Pending>, rs: Seq<Seq<Seq<char>>>, f: Seq<Seq<char>>)
    requires
        linked(m, rs),
        m.contains_key(f),
    ensures
        exists|r: Seq<Seq<char>>| #[trigger] rs.contains(r) && reach(rs, f, r),
    decreases f.len(),
{
    if rs.contains(f) {
        assert(reach(rs, f, f));
    } else {
        lemma_reach_root(m, rs, f.drop_last());
        let r = choose|r: Seq<Seq<char>>| #[trigger] rs.contains(r) && reach(rs, f.drop_last(), r);
        lemma_reach_prefix(rs, f.drop_last(), r);
        assert(reach(rs, f, r));
    }
}

proof fn lemma_no_dup_concat(a: Seq<nat>, b: Seq<nat>)
    requires
        no_dup(a),
        no_dup(b),
        forall|i: nat| a.contains(i) ==> !b.contains(i),
    ensures
        no_dup(a + b),
        forall|i: nat| (a + b).contains(i) <==> (a.contains(i) || b.contains(i)),
{
    let s = a + b;
    assert forall|x: int, y: int| 0 <= x < s.len() && 0 <= y < s.len() && x != y implies s[x] != s[y] by {
        if x < a.len() && y >= a.len() {
            assert(a.contains(s[x]));
            assert(b.contains(s[y]));
        } else if y < a.len() && x >= a.len() {
            assert(a.contains(s[y]));
            assert(b.contains(s[x]));
        } else if x >= a.len() {
            assert(s[x] == b[x - a.len()] && s[y] == b[y - a.len()]);
        }
    }
    assert forall|i: nat| (a + b).contains(i) <==> (a.contains(i) || b.contains(i)) by {
        if (a + b).contains(i) {
            let x = choose|x: int| 0 <= x < s.len() && s[x] == i;
            if x < a.len() {
                assert(a[x] == i);
            } else {
                assert(b[x - a.len()] == i);
            }
        }
        if a.contains(i) {
            let x = choose|x: int| 0 <= x < a.len() && a[x] == i;
            assert(s[x] == i);
        }
        if b.contains(i) {
            let x = choose|x: int| 0 <= x < b.len() && b[x] == i;
            assert(s[x + a.len()] == i);
        }
    }
}

/// The leaves realized from the entry `k` are the file entries below it,
/// each once.
pub(crate) proof fn lemma_leaves_at(m: Map<Seq<Seq<char>>, Pending>, rs: Seq<Seq<Seq<char>>>, k: Seq<Seq<char>>, fuel: nat, b: nat)
    requires
        linked(m, rs),
        PendingNodeMap::children_ok_but(m, None),
        unique_indices(m),
        m.contains_key(k),
        forall|x: Seq<Seq<char>>| #[trigger] m.contains_key(x) ==> x.len() <= b,
        k.len() + fuel >= b,
    ensures
        no_dup(leaves(realize_at(m, k, fuel))),
        forall|i: nat| #[trigger] leaves(realize_at(m, k, fuel)).contains(i) <==> file_below(m, rs, k, i),
    decreases fuel, 0nat, 0nat,
{
    match m[k] {
        Pending::File(i0, n) => {
            assert(leaves(realize_at(m, k, fuel)) == seq![i0]);
            assert forall|i: nat| #[trigger] leaves(realize_at(m, k, fuel)).contains(i) <==> file_below(m, rs, k, i) by {
                if file_below(m, rs, k, i) {
                    let f = choose|f: Seq<Seq<char>>| #[trigger] m.contains_key(f) && m[f] is File && m[f]->File_0 == i && reach(rs, f, k);
                    if f != k {
                        lemma_reach_child(m, rs, f, k);
                    }
                    assert(seq![i0][0] == i);
                }
                if leaves(realize_at(m, k, fuel)).contains(i) {
                    assert(seq![i0][0] == i0);
                    assert(m.contains_key(k) && m[k] is File && m[k]->File_0 == i && reach(rs, k, k));
                }
            }
        },
        Pending::Dir(t, cs) => {
            assert forall|j: int| 0 <= j < cs.len() implies m.contains_key(#[trigger] cs[j]) && cs[j].drop_last() == k
                && cs[j].len() == k.len() + 1 && !rs.contains(cs[j]) by {
                assert(m[k]->Dir_1[j] == cs[j]);
            }
            if fuel > 0 {
                lemma_leaves_all(m, rs, k, cs, (fuel - 1) as nat, b);
                assert(leaves(realize_at(m, k, fuel)) == leaves_list(realize_all(m, cs, (fuel - 1) as nat)));
            } else {
                assert(leaves(realize_at(m, k, fuel)) == leaves_list(Seq::<Tree>::empty()));
                assert(leaves(realize_at(m, k, fuel)) =~= Seq::<nat>::empty());
            }
            assert forall|i: nat| #[trigger] leaves(realize_at(m, k, fuel)).contains(i) <==> file_below(m, rs, k, i) by {
                if file_below(m, rs, k, i) {
                    let f = choose|f: Seq<Seq<char>>| #[trigger] m.contains_key(f) && m[f] is File && m[f]->File_0 == i && reach(rs, f, k);
                    lemma_reach_child(m, rs, f, k);
                    let c = f.subrange(0, k.len() as int + 1);
                    let j = choose|j: int| 0 <= j < cs.len() && cs[j] == c;
                    assert(file_below(m, rs, cs[j], i));
                }
                if leaves(realize_at(m, k, fuel)).contains(i) {
                    let j = choose|j: int| 0 <= j < cs.len() && #[trigger] file_below(m, rs, cs[j], i);
                    let f = choose|f: Seq<Seq<char>>| #[trigger] m.contains_key(f) && m[f] is File && m[f]->File_0 == i && reach(rs, f, cs[j]);
                    lemma_reach_extend(rs, f, cs[j], k);
                }
            }
        },
    }
}

/// The leaves realized from the children `cs` of `k`, one after the other:
/// the file entries below any of them, each once.
proof fn lemma_leaves_all(
    m: Map<Seq<Seq<char>>, Pending>,
    rs: Seq<Seq<Seq<char>>>,
    k: Seq<Seq<char>>,
    cs: Seq<Seq<Seq<char>>>,
    fuel: nat,
    b: nat,
)
    requires
        linked(m, rs),
        PendingNodeMap::children_ok_but(m, None),
        unique_indices(m),
        distinct(cs),
        forall|j: int| 0 <= j < cs.len() ==> m.contains_key(#[trigger] cs[j]) && cs[j].drop_last() == k
            && cs[j].len() == k.len() + 1 && !rs.contains(cs[j]),
        forall|x: Seq<Seq<char>>| #[trigger] m.contains_key(x) ==> x.len() <= b,
        k.len() + 1 + fuel >= b,
    ensures
        no_dup(leaves_list(realize_all(m, cs, fuel))),
        forall|i: nat| #[trigger] leaves_list(realize_all(m, cs, fuel)).contains(i) <==> exists|j: int|
            0 <= j < cs.len() && #[trigger] file_below(m, rs, cs[j], i),
    decreases fuel, 1nat, cs.len(),
{
    if cs.len() == 0 {
        assert(leaves_list(realize_all(m, cs, fuel)) =~= Seq::<nat>::empty());
    } else {
        let d = cs.drop_last();
        let c = cs.last();
        assert(distinct(d));
        assert(m.contains_key(cs[cs.len() - 1]));
        lemma_leaves_all(m, rs, k, d, fuel, b);
        lemma_leaves_at(m, rs, c, fuel, b);
        let a = leaves_list(realize_all(m, d, fuel));
        let e = leaves(realize_at(m, c, fuel));
        assert(realize_all(m, cs, fuel).drop_last() =~= realize_all(m, d, fuel));
        assert(leaves_list(realize_all(m, cs, fuel)) == a + e);
        assert forall|i: nat| a.contains(i) implies !e.contains(i) by {
            let j = choose|j: int| 0 <= j < d.len() && #[trigger] file_below(m, rs, d[j], i);
            if e.contains(i) {
                let f1 = choose|f: Seq<Seq<char>>| #[trigger] m.contains_key(f) && m[f] is File && m[f]->File_0 == i && reach(rs, f, d[j]);
                let f2 = choose|f: Seq<Seq<char>>| #[trigger] m.contains_key(f) && m[f] is File && m[f]->File_0 == i && reach(rs, f, c);
                assert(f1 == f2);
                lemma_reach_prefix(rs, f1, d[j]);
                lemma_reach_prefix(rs, f1, c);
                assert(cs[j] == d[j]);
                assert(cs[cs.len() - 1] == c);
            }
        }
        lemma_no_dup_concat(a, e);
        assert forall|i: nat| #[trigger] leaves_list(realize_all(m, cs, fuel)).contains(i) <==> exists|j: int|
            0 <= j < cs.len() && #[trigger] file_below(m, rs, cs[j], i) by {
            if a.contains(i) {
                let j = choose|j: int| 0 <= j < d.len() && #[trigger] file_below(m, rs, d[j], i);
                assert(cs[j] == d[j]);
            }
            if e.contains(i) {
                assert(file_below(m, rs, cs[cs.len() - 1], i));
            }
            if exists|j: int| 0 <= j < cs.len() && #[trigger] file_below(m, rs, cs[j], i) {
                let j = choose|j: int| 0 <= j < cs.len() && #[trigger] file_below(m, rs, cs[j], i);
                if j < cs.len() - 1 {
                    assert(d[j] == cs[j]);
                }
            }
        }
    }
}


/// The leaves realized from the first roots `ps` of `rs`: the file entries
/// below any of them, each once.
proof fn lemma_leaves_roots(m: Map<Seq<Seq<char>>, Pending>, rs: Seq<Seq<Seq<char>>>, n: int, b: nat)
    requires
        linked(m, rs),
        PendingNodeMap::children_ok_but(m, None),
        unique_indices(m),
        distinct(rs),
        0 <= n <= rs.len(),
        forall|j: int| 0 <= j < rs.len() ==> m.contains_key(#[trigger] rs[j]),
        forall|x: Seq<Seq<char>>| #[trigger] m.contains_key(x) ==> x.len() <= b,
    ensures
        no_dup(leaves_list(realize_roots(m, rs.take(n), b))),
        forall|i: nat| #[trigger] leaves_list(realize_roots(m, rs.take(n), b)).contains(i) <==> exists|j: int|
            0 <= j < n && #[trigger] file_below(m, rs, rs[j], i),
    decreases n,
{
    let ps = rs.take(n);
    if n == 0 {
        assert(leaves_list(realize_roots(m, ps, b)) =~= Seq::<nat>::empty());
    } else {
        let r = rs[n - 1];
        assert(ps.drop_last() =~= rs.take(n - 1));
        assert(ps.last() == r);
        assert(m.contains_key(r));
        lemma_leaves_roots(m, rs, n - 1, b);
        lemma_leaves_at(m, rs, r, (b - r.len()) as nat, b);
        let a = leaves_list(realize_roots(m, rs.take(n - 1), b));
        let e = leaves(realize_at(m, r, (b - r.len()) as nat));
        assert(realize_roots(m, ps, b).drop_last() =~= realize_roots(m, rs.take(n - 1), b));
        assert(leaves_list(realize_roots(m, ps, b)) == a + e);
        assert forall|i: nat| a.contains(i) implies !e.contains(i) by {
            let j = choose|j: int| 0 <= j < n - 1 && #[trigger] file_below(m, rs, rs[j], i);
            if e.contains(i) {
                let f1 = choose|f: Seq<Seq<char>>| #[trigger] m.contains_key(f) && m[f] is File && m[f]->File_0 == i && reach(rs, f, rs[j]);
                let f2 = choose|f: Seq<Seq<char>>| #[trigger] m.contains_key(f) && m[f] is File && m[f]->File_0 == i && reach(rs, f, r);
                assert(f1 == f2);
                lemma_reach_prefix(rs, f1, rs[j]);
                lemma_reach_prefix(rs, f1, r);
                assert(rs[j] != r);
                if rs[j].len() < r.len() {
                    assert(f1.subrange(0, r.len() as int) == r);
                    assert(rs.contains(r));
                } else if r.len() < rs[j].len() {
                    assert(f1.subrange(0, rs[j].len() as int) == rs[j]);
                    assert(rs.contains(rs[j]));
                }
            }
        }
        lemma_no_dup_concat(a, e);
        assert forall|i: nat| #[trigger] leaves_list(realize_roots(m, ps, b)).contains(i) <==> exists|j: int|
            0 <= j < n && #[trigger] file_below(m, rs, rs[j], i) by {
            if e.contains(i) {
                assert(file_below(m, rs, rs[n - 1], i));
            }
        }
    }
}

/// The leaves of the tree realized from a linked map are exactly its file
/// entries' indices, each once, when no root is given twice.
pub proof fn lemma_realized_leaves_exact(m: Map<Seq<Seq<char>>, Pending>, rs: Seq<Seq<Seq<char>>>, b: nat)
    requires
        linked(m, rs),
        PendingNodeMap::children_ok_but(m, None),
        unique_indices(m),
        distinct(rs),
        forall|j: int| 0 <= j < rs.len() ==> m.contains_key(#[trigger] rs[j]),
        forall|x: Seq<Seq<char>>| #[trigger] m.contains_key(x) ==> x.len() <= b,
    ensures
        no_dup(leaves_list(realize_roots(m, rs, b))),
        forall|i: nat| #[trigger] leaves_list(realize_roots(m, rs, b)).contains(i) <==> exists|f: Seq<Seq<char>>|
            #[trigger] m.contains_key(f) && m[f] is File && m[f]->File_0 == i,
{
    lemma_leaves_roots(m, rs, rs.len() as int, b);
    assert(rs.take(rs.len() as int) =~= rs);
    assert forall|i: nat| #[trigger] leaves_list(realize_roots(m, rs, b)).contains(i) <==> exists|f: Seq<Seq<char>>|
        #[trigger] m.contains_key(f) && m[f] is File && m[f]->File_0 == i by {
        if exists|f: Seq<Seq<char>>| #[trigger] m.contains_key(f) && m[f] is File && m[f]->File_0 == i {
            let f = choose|f: Seq<Seq<char>>| #[trigger] m.contains_key(f) && m[f] is File && m[f]->File_0 == i;
            lemma_reach_root(m, rs, f);
            let r = choose|r: Seq<Seq<char>>| #[trigger] rs.contains(r) && reach(rs, f, r);
            let j = choose|j: int| 0 <= j < rs.len() && rs[j] == r;
            assert(file_below(m, rs, rs[j], i));
        }
    }
}


/// Some file entry hangs below `k`.
pub open spec fn file_reaches(m: Map<Seq<Seq<char>>, Pending>, rs: Seq<Seq<Seq<char>>>, k: Seq<Seq<char>>) -> bool {
    exists|f: Seq<Seq<char>>| #[trigger] m.contains_key(f) && m[f] is File && reach(rs, f, k)
}

/// Every directory entry is a root or has a file entry hanging below it.
pub open spec fn no_orphans(m: Map<Seq<Seq<char>>, Pending>, rs: Seq<Seq<Seq<char>>>) -> bool {
    forall|k: Seq<Seq<char>>| #[trigger] m.contains_key(k) && m[k] is Dir ==> rs.contains(k) || file_reaches(m, rs, k)
}

/// Every directory of the tree has at least one leaf below it.
pub open spec fn dirs_hold_leaves(t: Tree) -> bool
    decreases t,
{
    match t {
        Tree::Leaf(_, _) => true,
        Tree::Dir(_, cs) => leaves(t).len() > 0 && all_dirs_hold_leaves(cs),
    }
}

pub open spec fn all_dirs_hold_leaves(s: Seq<Tree>) -> bool
    decreases s,
{
    s.len() == 0 || (all_dirs_hold_leaves(s.drop_last()) && dirs_hold_leaves(s.last()))
}

proof fn lemma_dirs_at(m: Map<Seq<Seq<char>>, Pending>, rs: Seq<Seq<Seq<char>>>, k: Seq<Seq<char>>, fuel: nat, b: nat)
    requires
        linked(m, rs),
        no_orphans(m, rs),
        PendingNodeMap::children_ok_but(m, None),
        unique_indices(m),
        m.contains_key(k),
        !rs.contains(k),
        forall|x: Seq<Seq<char>>| #[trigger] m.contains_key(x) ==> x.len() <= b,
        k.len() + fuel >= b,
    ensures
        dirs_hold_leaves(realize_at(m, k, fuel)),
    decreases fuel, 0nat, 0nat,
{
    match m[k] {
        Pending::File(_, _) => {},
        Pending::Dir(t, cs) => {
            assert(file_reaches(m, rs, k));
            let f = choose|f: Seq<Seq<char>>| #[trigger] m.contains_key(f) && m[f] is File && reach(rs, f, k);
            lemma_leaves_at(m, rs, k, fuel, b);
            assert(file_below(m, rs, k, m[f]->File_0));
            let l = leaves(realize_at(m, k, fuel));
            assert(l.contains(m[f]->File_0));
            assert forall|j: int| 0 <= j < cs.len() implies m.contains_key(#[trigger] cs[j]) && !rs.contains(cs[j])
                && cs[j].len() == k.len() + 1 by {
                assert(m[k]->Dir_1[j] == cs[j]);
            }
            if fuel > 0 {
                lemma_dirs_all(m, rs, k, cs, (fuel - 1) as nat, b);
                assert(realize_at(m, k, fuel) == Tree::Dir(t, realize_all(m, cs, (fuel - 1) as nat)));
            } else {
                assert(realize_at(m, k, fuel) == Tree::Dir(t, Seq::<Tree>::empty()));
            }
        },
    }
}

proof fn lemma_dirs_all(
    m: Map<Seq<Seq<char>>, Pending>,
    rs: Seq<Seq<Seq<char>>>,
    k: Seq<Seq<char>>,
    cs: Seq<Seq<Seq<char>>>,
    fuel: nat,
    b: nat,
)
    requires
        linked(m, rs),
        no_orphans(m, rs),
        PendingNodeMap::children_ok_but(m, None),
        unique_indices(m),
        forall|j: int| 0 <= j < cs.len() ==> m.contains_key(#[trigger] cs[j]) && !rs.contains(cs[j])
            && cs[j].len() == k.len() + 1,
        forall|x: Seq<Seq<char>>| #[trigger] m.contains_key(x) ==> x.len() <= b,
        k.len() + 1 + fuel >= b,
    ensures
        all_dirs_hold_leaves(realize_all(m, cs, fuel)),
    decreases fuel, 1nat, cs.len(),
{
    if cs.len() > 0 {
        assert(m.contains_key(cs[cs.len() - 1]));
        lemma_dirs_all(m, rs, k, cs.drop_last(), fuel, b);
        lemma_dirs_at(m, rs, cs.last(), fuel, b);
        assert(realize_all(m, cs, fuel).drop_last() =~= realize_all(m, cs.drop_last(), fuel));
    }
}

pub(crate) proof fn lemma_roots_index(m: Map<Seq<Seq<char>>, Pending>, ps: Seq<Seq<Seq<char>>>, b: nat, j: int)
    requires
        0 <= j < ps.len(),
    ensures
        realize_roots(m, ps, b).len() == ps.len(),
        realize_roots(m, ps, b)[j] == realize_at(m, ps[j], (b - ps[j].len()) as nat),
    decreases ps.len(),
{
    lemma_roots_len(m, ps, b);
    if j < ps.len() - 1 {
        lemma_roots_index(m, ps.drop_last(), b, j);
        assert(ps.drop_last()[j] == ps[j]);
    }
}

pub(crate) proof fn lemma_roots_len(m: Map<Seq<Seq<char>>, Pending>, ps: Seq<Seq<Seq<char>>>, b: nat)
    ensures
        realize_roots(m, ps, b).len() == ps.len(),
    decreases ps.len(),
{
    if ps.len() > 0 {
        lemma_roots_len(m, ps.drop_last(), b);
    }
}

/// Below the roots, every directory of the realized tree has a leaf.
pub proof fn lemma_realized_dirs(m: Map<Seq<Seq<char>>, Pending>, rs: Seq<Seq<Seq<char>>>, b: nat, j: int)
    requires
        linked(m, rs),
        no_orphans(m, rs),
        PendingNodeMap::children_ok_but(m, None),
        unique_indices(m),
        forall|x: Seq<Seq<char>>| #[trigger] m.contains_key(x) ==> x.len() <= b,
        forall|i: int| 0 <= i < rs.len() ==> m.contains_key(#[trigger] rs[i]),
        0 <= j < rs.len(),
    ensures
        realize_roots(m, rs, b)[j] is Dir ==> all_dirs_hold_leaves(realize_roots(m, rs, b)[j]->Dir_1),
{
    lemma_roots_index(m, rs, b, j);
    let r = rs[j];
    assert(m.contains_key(r));
    let fuel = (b - r.len()) as nat;
    match m[r] {
        Pending::File(_, _) => {},
        Pending::Dir(t, cs) => {
            assert forall|i: int| 0 <= i < cs.len() implies m.contains_key(#[trigger] cs[i]) && !rs.contains(cs[i])
                && cs[i].len() == r.len() + 1 by {
                assert(m[r]->Dir_1[i] == cs[i]);
            }
            if fuel > 0 {
                lemma_dirs_all(m, rs, r, cs, (fuel - 1) as nat, b);
            } else {
                assert(all_dirs_hold_leaves(Seq::<Tree>::empty()));
            }
        },
    }
}


proof fn lemma_leaves_insert(s: Seq<Tree>, p: int, x: Tree)
    requires
        0 <= p <= s.len(),
    ensures
        leaves_list(s.insert(p, x)).len() == leaves_list(s).len() + leaves(x).len(),
    decreases s.len(),
{
    if p == s.len() {
        assert(s.insert(p, x).drop_last() =~= s);
    } else {
        let d = s.drop_last();
        lemma_leaves_insert(d, p, x);
        assert(s.insert(p, x).drop_last() =~= d.insert(p, x));
        assert(s.insert(p, x).last() == s.last());
    }
}

proof fn lemma_leaves_sort_seq(s: Seq<Tree>)
    ensures
        leaves_list(sort_seq(s)).len() == leaves_list(s).len(),
    decreases s.len(),
{
    if s.len() > 0 {
        let d = s.drop_last();
        lemma_leaves_sort_seq(d);
        lemma_insert_position(sort_seq(d), s.last());
        let p = choose|p: int| 0 <= p <= sort_seq(d).len() && insert_by(sort_seq(d), s.last()) == sort_seq(d).insert(p, s.last());
        lemma_sort_members(d);
        lemma_leaves_insert(sort_seq(d), p, s.last());
    }
}

proof fn lemma_leaves_sort_tree(t: Tree)
    ensures
        leaves(sort_tree(t)).len() == leaves(t).len(),
    decreases t,
{
    match t {
        Tree::Dir(ti, cs) => {
            lemma_leaves_sort_trees(cs);
            lemma_leaves_sort_seq(sort_trees(cs));
        },
        Tree::Leaf(_, _) => {},
    }
}

proof fn lemma_leaves_sort_trees(s: Seq<Tree>)
    ensures
        leaves_list(sort_trees(s)).len() == leaves_list(s).len(),
    decreases s,
{
    if s.len() > 0 {
        lemma_leaves_sort_trees(s.drop_last());
        lemma_leaves_sort_tree(s.last());
        assert(sort_trees(s).drop_last() =~= sort_trees(s.drop_last()));
    }
}

proof fn lemma_all_dirs_index(s: Seq<Tree>)
    ensures
        all_dirs_hold_leaves(s) <==> forall|j: int| 0 <= j < s.len() ==> dirs_hold_leaves(#[trigger] s[j]),
    decreases s.len(),
{
    if s.len() > 0 {
        lemma_all_dirs_index(s.drop_last());
        if forall|j: int| 0 <= j < s.len() ==> dirs_hold_leaves(#[trigger] s[j]) {
            assert forall|j: int| 0 <= j < s.drop_last().len() implies dirs_hold_leaves(#[trigger] s.drop_last()[j]) by {
                assert(s.drop_last()[j] == s[j]);
            }
            assert(dirs_hold_leaves(s[s.len() - 1]));
        }
        if all_dirs_hold_leaves(s) {
            assert forall|j: int| 0 <= j < s.len() implies dirs_hold_leaves(#[trigger] s[j]) by {
                if j < s.len() - 1 {
                    assert(s.drop_last()[j] == s[j]);
                }
            }
        }
    }
}

proof fn lemma_dirs_sort_seq(s: Seq<Tree>)
    requires
        all_dirs_hold_leaves(s),
    ensures
        all_dirs_hold_leaves(sort_seq(s)),
{
    lemma_all_dirs_index(s);
    lemma_sort_members(s);
    let r = sort_seq(s);
    assert forall|j: int| 0 <= j < r.len() implies dirs_hold_leaves(#[trigger] r[j]) by {
        assert(r.contains(r[j]));
        let m = choose|m: int| 0 <= m < s.len() && s[m] == r[j];
    }
    lemma_all_dirs_index(r);
}

proof fn lemma_dirs_sort_tree(t: Tree)
    requires
        dirs_hold_leaves(t),
    ensures
        dirs_hold_leaves(sort_tree(t)),
    decreases t,
{
    match t {
        Tree::Dir(ti, cs) => {
            lemma_dirs_sort_trees(cs);
            lemma_dirs_sort_seq(sort_trees(cs));
            lemma_leaves_sort_tree(t);
        },
        Tree::Leaf(_, _) => {},
    }
}

proof fn lemma_dirs_sort_trees(s: Seq<Tree>)
    requires
        all_dirs_hold_leaves(s),
    ensures
        all_dirs_hold_leaves(sort_trees(s)),
    decreases s,
{
    if s.len() > 0 {
        lemma_dirs_sort_trees(s.drop_last());
        lemma_dirs_sort_tree(s.last());
        assert(sort_trees(s).drop_last() =~= sort_trees(s.drop_last()));
    }
}

/// Sorting keeps every directory below the top level holding a leaf.
pub proof fn lemma_sorted_dirs(r: Seq<Tree>, j: int)
    requires
        forall|i: int| 0 <= i < r.len() && #[trigger] r[i] is Dir ==> all_dirs_hold_leaves(r[i]->Dir_1),
        0 <= j < r.len(),
    ensures
        sort_seq(sort_trees(r))[j] is Dir ==> all_dirs_hold_leaves(sort_seq(sort_trees(r))[j]->Dir_1),
{
    let x = sort_trees(r);
    let y = sort_seq(x);
    lemma_sort_trees_index(r);
    lemma_sort_members(x);
    if 0 <= j < y.len() && y[j] is Dir {
        assert(y.contains(y[j]));
        let m = choose|m: int| 0 <= m < x.len() && x[m] == y[j];
        assert(x[m] == sort_tree(r[m]));
        let cs = r[m]->Dir_1;
        lemma_dirs_sort_trees(cs);
        lemma_dirs_sort_seq(sort_trees(cs));
    }
}

} // verus!
