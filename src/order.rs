//! Ordering of sibling nodes and the recursive, stable sort of a playlist tree.
use vstd::prelude::*;
use vstd::utf8::encode_utf8;
use std::cmp::Ordering;
use crate::tree::{PlaylistNode, Tree, view_list, lemma_view_list};

verus! {

/// Ordinal comparison of two byte strings (lexicographic, a prefix first).
pub open spec fn bytes_cmp(a: Seq<u8>, b: Seq<u8>) -> Ordering
    decreases a.len(),
{
    if a.len() == 0 {
        if b.len() == 0 { Ordering::Equal } else { Ordering::Less }
    } else if b.len() == 0 {
        Ordering::Greater
    } else if a[0] < b[0] {
        Ordering::Less
    } else if a[0] > b[0] {
        Ordering::Greater
    } else {
        bytes_cmp(a.drop_first(), b.drop_first())
    }
}

/// Sibling order: every directory before every file; directories by title and
/// files by name, both compared byte-wise on their UTF-8 encoding. A file's
/// track index plays no part.
pub open spec fn key_cmp(x: Tree, y: Tree) -> Ordering {
    match (x, y) {
        (Tree::Dir(_, _), Tree::Leaf(_, _)) => Ordering::Less,
        (Tree::Leaf(_, _), Tree::Dir(_, _)) => Ordering::Greater,
        (Tree::Dir(t1, _), Tree::Dir(t2, _)) => bytes_cmp(encode_utf8(t1), encode_utf8(t2)),
        (Tree::Leaf(_, n1), Tree::Leaf(_, n2)) => bytes_cmp(encode_utf8(n1), encode_utf8(n2)),
    }
}

pub open spec fn key_le(x: Tree, y: Tree) -> bool {
    key_cmp(x, y) != Ordering::Greater
}

/// Inserts `x` after the last element of `s` that is not greater than it,
/// scanning from the end; on a sorted `s` this keeps equal keys in arrival order.
pub open spec fn insert_by(s: Seq<Tree>, x: Tree) -> Seq<Tree>
    decreases s.len(),
{
    if s.len() == 0 {
        seq![x]
    } else if key_le(s.last(), x) {
        s.push(x)
    } else {
        insert_by(s.drop_last(), x).push(s.last())
    }
}

/// Stable insertion sort of one sibling level.
pub open spec fn sort_seq(s: Seq<Tree>) -> Seq<Tree>
    decreases s.len(),
{
    if s.len() == 0 {
        Seq::empty()
    } else {
        insert_by(sort_seq(s.drop_last()), s.last())
    }
}

/// A tree with every sibling level sorted.
pub open spec fn sort_tree(t: Tree) -> Tree
    decreases t,
{
    match t {
        Tree::Dir(title, cs) => Tree::Dir(title, sort_seq(sort_trees(cs))),
        Tree::Leaf(i, n) => Tree::Leaf(i, n),
    }
}

/// Each tree of `s` sorted, the sequence itself left in place.
pub open spec fn sort_trees(s: Seq<Tree>) -> Seq<Tree>
    decreases s,
{
    if s.len() == 0 {
        Seq::empty()
    } else {
        sort_trees(s.drop_last()).push(sort_tree(s.last()))
    }
}

fn bytes_compare(a: &[u8], b: &[u8]) -> (r: Ordering)
    ensures
        r == bytes_cmp(a@, b@),
{
    let mut i: usize = 0;
    assert(a@.skip(0) =~= a@);
    assert(b@.skip(0) =~= b@);
    while i < a.len() && i < b.len()
        invariant
            0 <= i <= a@.len(),
            i <= b@.len(),
            bytes_cmp(a@, b@) == bytes_cmp(a@.skip(i as int), b@.skip(i as int)),
        decreases a@.len() - i,
    {
        if a[i] < b[i] {
            return Ordering::Less;
        } else if a[i] > b[i] {
            return Ordering::Greater;
        }
        assert(a@.skip(i as int).drop_first() =~= a@.skip(i + 1));
        assert(b@.skip(i as int).drop_first() =~= b@.skip(i + 1));
        i = i + 1;
    }
    if i < a.len() {
        Ordering::Greater
    } else if i < b.len() {
        Ordering::Less
    } else {
        Ordering::Equal
    }
}

impl PlaylistNode {
    /// Whether `self` may stand before `other` among siblings.
    pub fn le(&self, other: &Self) -> (r: bool)
        ensures
            r == key_le(self@, other@),
    {
        match self.partial_cmp(other) {
            Some(Ordering::Greater) => false,
            _ => true,
        }
    }

    /// Compares two siblings: directories first, then by title or file name.
    pub fn partial_cmp(&self, other: &Self) -> (r: Option<Ordering>)
        ensures
            r == Some(key_cmp(self@, other@)),
    {
        match (self, other) {
            (PlaylistNode::Dir { .. }, PlaylistNode::File(_, _)) => Some(Ordering::Less),
            (PlaylistNode::File(_, _), PlaylistNode::Dir { .. }) => Some(Ordering::Greater),
            (PlaylistNode::Dir { title, .. }, PlaylistNode::Dir { title: title2, .. }) => {
                Some(bytes_compare(title.as_str().as_bytes(), title2.as_str().as_bytes()))
            },
            (PlaylistNode::File(_, n1), PlaylistNode::File(_, n2)) => {
                Some(bytes_compare(n1.as_str().as_bytes(), n2.as_str().as_bytes()))
            },
        }
    }
}

/// Inserts `x` into `v` as `insert_by` does.
fn insert_sorted(v: &mut Vec<PlaylistNode>, x: PlaylistNode)
    ensures
        view_list(final(v)@) == insert_by(view_list(old(v)@), x@),
{
    let ghost s = old(v)@;
    proof {
        lemma_view_list(s);
    }
    let mut pos: usize = v.len();
    proof {
        lemma_view_list(s.subrange(pos as int, s.len() as int));
        assert(s.subrange(0, pos as int) =~= s);
        assert(view_list(s.subrange(pos as int, s.len() as int)) =~= Seq::<Tree>::empty());
        assert(insert_by(view_list(s), x@) =~= insert_by(view_list(s.subrange(0, pos as int)), x@)
            + view_list(s.subrange(pos as int, s.len() as int)));
    }
    while pos > 0 && !v[pos - 1].le(&x)
        invariant
            pos <= v@.len(),
            v@ == s,
            view_list(s) == s.map_values(|n: PlaylistNode| n@),
            insert_by(view_list(s), x@) == insert_by(view_list(s.subrange(0, pos as int)), x@)
                + view_list(s.subrange(pos as int, s.len() as int)),
        decreases pos,
    {
        proof {
            let pre = s.subrange(0, pos as int);
            lemma_view_list(pre);
            lemma_view_list(s.subrange(0, pos - 1));
            lemma_view_list(s.subrange(pos - 1, s.len() as int));
            lemma_view_list(s.subrange(pos as int, s.len() as int));
            assert(view_list(pre).drop_last() =~= view_list(s.subrange(0, pos - 1)));
            assert(view_list(pre).last() == s[pos - 1]@);
            assert(insert_by(view_list(pre), x@) == insert_by(view_list(pre).drop_last(), x@).push(
                view_list(pre).last()));
            assert(view_list(s.subrange(pos - 1, s.len() as int)) =~= seq![s[pos - 1]@]
                + view_list(s.subrange(pos as int, s.len() as int)));
        }
        pos = pos - 1;
    }
    proof {
        let pre = s.subrange(0, pos as int);
        lemma_view_list(pre);
        lemma_view_list(s.subrange(pos as int, s.len() as int));
        if pos > 0 {
            assert(view_list(pre).last() == s[pos - 1]@);
            assert(key_le(view_list(pre).last(), x@));
        }
        assert(insert_by(view_list(pre), x@) =~= view_list(pre).push(x@));
    }
    v.insert(pos, x);
    proof {
        lemma_view_list(v@);
        assert(view_list(v@) =~= view_list(s.subrange(0, pos as int)).push(x@)
            + view_list(s.subrange(pos as int, s.len() as int)));
        assert(view_list(v@) =~= insert_by(view_list(s), x@));
    }
}

/// Stable sort of one sibling level.
fn sort_level(v: Vec<PlaylistNode>) -> (r: Vec<PlaylistNode>)
    ensures
        view_list(r@) == sort_seq(view_list(v@)),
{
    let ghost s = v@;
    let mut rest = v;
    let mut out: Vec<PlaylistNode> = Vec::new();
    let mut i: usize = 0;
    let n = rest.len();
    proof {
        lemma_view_list(s);
        lemma_view_list(s.subrange(0, 0));
        assert(rest@ =~= s.subrange(0, s.len() as int));
    }
    while rest.len() > 0
        invariant
            i + rest@.len() == s.len(),
            s.len() == n,
            rest@ == s.subrange(i as int, s.len() as int),
            view_list(out@) == sort_seq(view_list(s.subrange(0, i as int))),
            view_list(s) == s.map_values(|n: PlaylistNode| n@),
        decreases rest@.len(),
    {
        let x = rest.remove(0);
        proof {
            lemma_view_list(s.subrange(0, i as int));
            lemma_view_list(s.subrange(0, i + 1));
            assert(view_list(s.subrange(0, i + 1)).drop_last() =~= view_list(s.subrange(0, i as int)));
        }
        insert_sorted(&mut out, x);
        i = i + 1;
        assert(rest@ =~= s.subrange(i as int, s.len() as int));
    }
    proof {
        assert(s.subrange(0, i as int) =~= s);
    }
    out
}

impl PlaylistNode {
    /// This node with every sibling level below it sorted.
    pub fn into_sorted(self) -> (r: PlaylistNode)
        ensures
            r@ == sort_tree(self@),
        decreases self,
    {
        match self {
            PlaylistNode::Dir { title, nodes } => {
                let ghost s = nodes@;
                let mut rest = nodes;
                let mut done: Vec<PlaylistNode> = Vec::new();
                let mut i: usize = 0;
                let n = rest.len();
                proof {
                    broadcast use vstd::std_specs::vec::axiom_vec_index_decreases;
                    assert forall|j: int| 0 <= j < s.len() implies decreases_to!(self => s[j]) by {
                        assert(decreases_to!(self => nodes));
                        assert(decreases_to!(nodes => nodes[j]));
                    }
                    lemma_view_list(s);
                    assert(rest@ =~= s.subrange(0, s.len() as int));
                    assert(view_list(done@) =~= sort_trees(view_list(s.subrange(0, 0))));
                }
                while rest.len() > 0
                    invariant
                        i + rest@.len() == s.len(),
                        s.len() == n,
                        forall|j: int| 0 <= j < s.len() ==> decreases_to!(self => s[j]),
                        rest@ == s.subrange(i as int, s.len() as int),
                        view_list(done@) == sort_trees(view_list(s.subrange(0, i as int))),
                    decreases rest@.len(),
                {
                    let c = rest.remove(0);
                    proof {
                        assert(c == s[i as int]);
                    }
                    let sc = c.into_sorted();
                    proof {
                        let pre = s.subrange(0, i + 1);
                        lemma_view_list(pre);
                        lemma_view_list(s.subrange(0, i as int));
                        assert(view_list(pre).drop_last() =~= view_list(s.subrange(0, i as int)));
                    }
                    let ghost before = done@;
                    done.push(sc);
                    proof {
                        let pre = s.subrange(0, i + 1);
                        assert(done@.drop_last() =~= before);
                        assert(view_list(pre).last() == c@);
                        assert(view_list(done@) == view_list(before).push(sc@));
                    }
                    i = i + 1;
                    assert(rest@ =~= s.subrange(i as int, s.len() as int));
                }
                proof {
                    assert(s.subrange(0, i as int) =~= s);
                }
                let sorted = sort_level(done);
                PlaylistNode::Dir { title, nodes: sorted }
            },
            PlaylistNode::File(i, name) => PlaylistNode::File(i, name),
        }
    }

    /// Sorts every sibling level of this node in place.
    pub fn sort(&mut self)
        ensures
            final(self)@ == sort_tree(old(self)@),
    {
        let mut taken = PlaylistNode::File(0, String::new());
        std::mem::swap(self, &mut taken);
        *self = taken.into_sorted();
    }
}

/// Sorts a top-level sequence of nodes: the level itself, then each node.
pub fn sort_nodes(nodes: Vec<PlaylistNode>) -> (r: Vec<PlaylistNode>)
    ensures
        view_list(r@) == sort_seq(sort_trees(view_list(nodes@))),
{
    let top = PlaylistNode::Dir { title: String::new(), nodes };
    match top.into_sorted() {
        PlaylistNode::Dir { nodes, .. } => nodes,
        PlaylistNode::File(_, _) => Vec::new(),
    }
}


/// Every pair of a sequence is in sibling order.
pub open spec fn sorted(s: Seq<Tree>) -> bool {
    forall|i: int, j: int| 0 <= i < j < s.len() ==> key_le(#[trigger] s[i], #[trigger] s[j])
}

proof fn lemma_bytes_flip(a: Seq<u8>, b: Seq<u8>)
    ensures
        bytes_cmp(a, b) == Ordering::Less <==> bytes_cmp(b, a) == Ordering::Greater,
        bytes_cmp(a, b) == Ordering::Equal <==> bytes_cmp(b, a) == Ordering::Equal,
    decreases a.len(),
{
    if a.len() > 0 && b.len() > 0 && a[0] == b[0] {
        lemma_bytes_flip(a.drop_first(), b.drop_first());
    }
}

proof fn lemma_bytes_trans(a: Seq<u8>, b: Seq<u8>, c: Seq<u8>)
    requires
        bytes_cmp(a, b) != Ordering::Greater,
        bytes_cmp(b, c) != Ordering::Greater,
    ensures
        bytes_cmp(a, c) != Ordering::Greater,
    decreases a.len(),
{
    if a.len() > 0 && b.len() > 0 && c.len() > 0 && a[0] == b[0] && b[0] == c[0] {
        lemma_bytes_trans(a.drop_first(), b.drop_first(), c.drop_first());
    }
}

proof fn lemma_key_total(x: Tree, y: Tree)
    ensures
        key_le(x, y) || key_le(y, x),
{
    match (x, y) {
        (Tree::Dir(t1, _), Tree::Dir(t2, _)) => lemma_bytes_flip(encode_utf8(t1), encode_utf8(t2)),
        (Tree::Leaf(_, n1), Tree::Leaf(_, n2)) => lemma_bytes_flip(encode_utf8(n1), encode_utf8(n2)),
        _ => {},
    }
}

proof fn lemma_key_trans(x: Tree, y: Tree, z: Tree)
    requires
        key_le(x, y),
        key_le(y, z),
    ensures
        key_le(x, z),
{
    match (x, y, z) {
        (Tree::Dir(a, _), Tree::Dir(b, _), Tree::Dir(c, _)) => lemma_bytes_trans(
            encode_utf8(a),
            encode_utf8(b),
            encode_utf8(c),
        ),
        (Tree::Leaf(_, a), Tree::Leaf(_, b), Tree::Leaf(_, c)) => lemma_bytes_trans(
            encode_utf8(a),
            encode_utf8(b),
            encode_utf8(c),
        ),
        _ => {},
    }
}

proof fn lemma_insert_members(s: Seq<Tree>, x: Tree)
    ensures
        insert_by(s, x).len() == s.len() + 1,
        forall|y: Tree| #[trigger] insert_by(s, x).contains(y) ==> y == x || s.contains(y),
    decreases s.len(),
{
    if s.len() > 0 && !key_le(s.last(), x) {
        lemma_insert_members(s.drop_last(), x);
        assert forall|y: Tree| #[trigger] insert_by(s, x).contains(y) implies y == x || s.contains(y) by {
            let r = insert_by(s, x);
            let k = choose|k: int| 0 <= k < r.len() && r[k] == y;
            if k < r.len() - 1 {
                assert(insert_by(s.drop_last(), x).contains(y));
                if y != x {
                    let m = choose|m: int| 0 <= m < s.drop_last().len() && s.drop_last()[m] == y;
                    assert(s[m] == y);
                }
            } else {
                assert(s[s.len() - 1] == y);
            }
        }
    } else if s.len() > 0 {
        assert forall|y: Tree| #[trigger] insert_by(s, x).contains(y) implies y == x || s.contains(y) by {
            let r = insert_by(s, x);
            let k = choose|k: int| 0 <= k < r.len() && r[k] == y;
            if k < s.len() {
                assert(s[k] == y);
            }
        }
    } else {
        assert forall|y: Tree| #[trigger] insert_by(s, x).contains(y) implies y == x || s.contains(y) by {
            assert(insert_by(s, x) == seq![x]);
        }
    }
}

pub(crate) proof fn lemma_sort_members(s: Seq<Tree>)
    ensures
        sort_seq(s).len() == s.len(),
        forall|y: Tree| #[trigger] sort_seq(s).contains(y) ==> s.contains(y),
    decreases s.len(),
{
    if s.len() > 0 {
        lemma_sort_members(s.drop_last());
        lemma_insert_members(sort_seq(s.drop_last()), s.last());
        assert forall|y: Tree| #[trigger] sort_seq(s).contains(y) implies s.contains(y) by {
            if y == s.last() {
                assert(s[s.len() - 1] == y);
            } else {
                assert(sort_seq(s.drop_last()).contains(y));
                let m = choose|m: int| 0 <= m < s.drop_last().len() && s.drop_last()[m] == y;
                assert(s[m] == y);
            }
        }
    }
}

proof fn lemma_insert_sorted(s: Seq<Tree>, x: Tree)
    requires
        sorted(s),
    ensures
        sorted(insert_by(s, x)),
    decreases s.len(),
{
    if s.len() == 0 {
    } else if key_le(s.last(), x) {
        let r = insert_by(s, x);
        assert forall|i: int, j: int| 0 <= i < j < r.len() implies key_le(#[trigger] r[i], #[trigger] r[j]) by {
            if j == r.len() - 1 && i < s.len() - 1 {
                lemma_key_trans(s[i], s.last(), x);
            }
        }
    } else {
        lemma_key_total(s.last(), x);
        let d = s.drop_last();
        lemma_insert_sorted(d, x);
        lemma_insert_members(d, x);
        let r = insert_by(s, x);
        let q = insert_by(d, x);
        assert forall|i: int, j: int| 0 <= i < j < r.len() implies key_le(#[trigger] r[i], #[trigger] r[j]) by {
            if j == r.len() - 1 {
                assert(q.contains(q[i]));
                if q[i] != x {
                    let m = choose|m: int| 0 <= m < d.len() && d[m] == q[i];
                    assert(s[m] == q[i]);
                }
            } else {
                assert(r[i] == q[i] && r[j] == q[j]);
            }
        }
    }
}

/// The sorted level is in sibling order.
pub proof fn lemma_sort_sorted(s: Seq<Tree>)
    ensures
        sorted(sort_seq(s)),
    decreases s.len(),
{
    if s.len() > 0 {
        lemma_sort_sorted(s.drop_last());
        lemma_insert_sorted(sort_seq(s.drop_last()), s.last());
    }
}

proof fn lemma_sorted_fixed(s: Seq<Tree>)
    requires
        sorted(s),
    ensures
        sort_seq(s) == s,
    decreases s.len(),
{
    if s.len() > 0 {
        let d = s.drop_last();
        assert(sorted(d)) by {
            assert forall|i: int, j: int| 0 <= i < j < d.len() implies key_le(#[trigger] d[i], #[trigger] d[j]) by {
                assert(d[i] == s[i] && d[j] == s[j]);
            }
        }
        lemma_sorted_fixed(d);
        if d.len() > 0 {
            assert(key_le(s[d.len() - 1], s[s.len() - 1]));
        }
        assert(insert_by(d, s.last()) =~= s);
    }
}

pub(crate) proof fn lemma_sort_trees_index(s: Seq<Tree>)
    ensures
        sort_trees(s).len() == s.len(),
        forall|j: int| 0 <= j < s.len() ==> #[trigger] sort_trees(s)[j] == sort_tree(s[j]),
    decreases s.len(),
{
    if s.len() > 0 {
        lemma_sort_trees_index(s.drop_last());
        assert forall|j: int| 0 <= j < s.len() implies #[trigger] sort_trees(s)[j] == sort_tree(s[j]) by {
            if j < s.len() - 1 {
                assert(s.drop_last()[j] == s[j]);
            }
        }
    }
}

/// A sequence whose trees are all unchanged by sorting is unchanged by
/// sorting each of them.
proof fn lemma_sort_trees_fixed(s: Seq<Tree>)
    requires
        forall|j: int| 0 <= j < s.len() ==> sort_tree(#[trigger] s[j]) == s[j],
    ensures
        sort_trees(s) == s,
{
    lemma_sort_trees_index(s);
    assert(sort_trees(s) =~= s);
}

/// Sorting a tree that is already sorted gives the same tree.
pub proof fn lemma_sort_tree_idempotent(t: Tree)
    ensures
        sort_tree(sort_tree(t)) == sort_tree(t),
    decreases t,
{
    match t {
        Tree::Dir(title, cs) => {
            assert forall|j: int| 0 <= j < cs.len() implies sort_tree(sort_tree(#[trigger] cs[j]))
                == sort_tree(cs[j]) by {
                lemma_sort_tree_idempotent(cs[j]);
            }
            lemma_sort_trees_list_idempotent_from(cs);
        },
        Tree::Leaf(_, _) => {},
    }
}

/// Given that each tree of `cs` sorts idempotently, the sorted level of
/// sorted trees is a fixed point.
proof fn lemma_sort_trees_list_idempotent_from(cs: Seq<Tree>)
    requires
        forall|j: int| 0 <= j < cs.len() ==> sort_tree(sort_tree(#[trigger] cs[j])) == sort_tree(cs[j]),
    ensures
        sort_seq(sort_trees(sort_seq(sort_trees(cs)))) == sort_seq(sort_trees(cs)),
{
    let x = sort_trees(cs);
    let y = sort_seq(x);
    lemma_sort_trees_index(cs);
    lemma_sort_members(x);
    assert forall|j: int| 0 <= j < y.len() implies sort_tree(#[trigger] y[j]) == y[j] by {
        assert(y.contains(y[j]));
        let m = choose|m: int| 0 <= m < x.len() && x[m] == y[j];
        assert(x[m] == sort_tree(cs[m]));
    }
    lemma_sort_trees_fixed(y);
    lemma_sort_sorted(x);
    lemma_sorted_fixed(y);
}

/// Sorting a sorted top-level sequence of nodes gives the same sequence.
pub proof fn lemma_sort_nodes_idempotent(s: Seq<Tree>)
    ensures
        sort_seq(sort_trees(sort_seq(sort_trees(s)))) == sort_seq(sort_trees(s)),
{
    assert forall|j: int| 0 <= j < s.len() implies sort_tree(sort_tree(#[trigger] s[j])) == sort_tree(s[j]) by {
        lemma_sort_tree_idempotent(s[j]);
    }
    lemma_sort_trees_list_idempotent_from(s);
}


/// No two positions of `s` hold nodes of equal sibling key.
pub open spec fn distinct_keys(s: Seq<Tree>) -> bool {
    forall|i: int, j: int| 0 <= i < s.len() && 0 <= j < s.len() && i != j ==> key_cmp(#[trigger] s[i], #[trigger] s[j]) != Ordering::Equal
}

pub(crate) proof fn lemma_insert_position(s: Seq<Tree>, x: Tree)
    ensures
        exists|p: int| 0 <= p <= s.len() && insert_by(s, x) == s.insert(p, x),
    decreases s.len(),
{
    if s.len() == 0 {
        assert(insert_by(s, x) =~= s.insert(0, x));
    } else if key_le(s.last(), x) {
        assert(insert_by(s, x) =~= s.insert(s.len() as int, x));
    } else {
        let d = s.drop_last();
        lemma_insert_position(d, x);
        let p = choose|p: int| 0 <= p <= d.len() && insert_by(d, x) == d.insert(p, x);
        assert(insert_by(s, x) =~= s.insert(p, x));
    }
}

/// The sorted level holds the same nodes as the level it came from, each as
/// many times.
pub proof fn lemma_sort_multiset(s: Seq<Tree>)
    ensures
        sort_seq(s).to_multiset() == s.to_multiset(),
    decreases s.len(),
{
    broadcast use vstd::seq_lib::group_to_multiset_ensures;
    if s.len() > 0 {
        let d = s.drop_last();
        lemma_sort_multiset(d);
        lemma_insert_position(sort_seq(d), s.last());
        let p = choose|p: int| 0 <= p <= sort_seq(d).len() && insert_by(sort_seq(d), s.last()) == sort_seq(d).insert(p, s.last());
        vstd::seq_lib::to_multiset_insert(sort_seq(d), p, s.last());
        assert(d.push(s.last()) =~= s);
    }
}

proof fn lemma_sort_distinct_keys(s: Seq<Tree>)
    requires
        distinct_keys(s),
    ensures
        distinct_keys(sort_seq(s)),
    decreases s.len(),
{
    if s.len() > 0 {
        let d = s.drop_last();
        let x = s.last();
        assert(distinct_keys(d)) by {
            assert forall|i: int, j: int| 0 <= i < d.len() && 0 <= j < d.len() && i != j implies key_cmp(#[trigger] d[i], #[trigger] d[j]) != Ordering::Equal by {
                assert(d[i] == s[i] && d[j] == s[j]);
            }
        }
        lemma_sort_distinct_keys(d);
        lemma_sort_members(d);
        let t = sort_seq(d);
        lemma_insert_position(t, x);
        let p = choose|p: int| 0 <= p <= t.len() && insert_by(t, x) == t.insert(p, x);
        let r = t.insert(p, x);
        assert forall|i: int| 0 <= i < t.len() implies key_cmp(#[trigger] t[i], x) != Ordering::Equal && key_cmp(x, t[i]) != Ordering::Equal by {
            assert(t.contains(t[i]));
            let m = choose|m: int| 0 <= m < d.len() && d[m] == t[i];
            assert(s[m] == t[i]);
            assert(s[s.len() - 1] == x);
        }
        assert forall|i: int, j: int| 0 <= i < r.len() && 0 <= j < r.len() && i != j implies key_cmp(#[trigger] r[i], #[trigger] r[j]) != Ordering::Equal by {
            if i < p && j < p {
                assert(r[i] == t[i] && r[j] == t[j]);
            } else if i < p && j == p {
                assert(r[i] == t[i]);
            } else if i < p && j > p {
                assert(r[i] == t[i] && r[j] == t[j - 1]);
            } else if i == p && j < p {
                assert(r[j] == t[j]);
            } else if i == p && j > p {
                assert(r[j] == t[j - 1]);
            } else if i > p && j < p {
                assert(r[i] == t[i - 1] && r[j] == t[j]);
            } else if i > p && j == p {
                assert(r[i] == t[i - 1]);
            } else {
                assert(r[i] == t[i - 1] && r[j] == t[j - 1]);
            }
        }
    }
}

proof fn lemma_last_equal(t1: Seq<Tree>, t2: Seq<Tree>)
    requires
        t1.len() > 0,
        t1.len() == t2.len(),
        sorted(t1),
        sorted(t2),
        distinct_keys(t1),
        t1.to_multiset() == t2.to_multiset(),
    ensures
        t1.last() == t2.last(),
{
    let n = t1.len() - 1;
    let a = t1[n];
    let b = t2[n];
    vstd::seq_lib::to_multiset_contains(t1, a);
    vstd::seq_lib::to_multiset_contains(t2, a);
    vstd::seq_lib::to_multiset_contains(t1, b);
    vstd::seq_lib::to_multiset_contains(t2, b);
    assert(t1.contains(a));
    assert(t2.contains(b));
    let i = choose|i: int| 0 <= i < t1.len() && t1[i] == b;
    let j = choose|j: int| 0 <= j < t2.len() && t2[j] == a;
    if a != b {
        assert(i != n && j != n);
        assert(key_le(t1[i], t1[n]));
        assert(key_le(t2[j], t2[n]));
        lemma_key_equal(a, b);
        assert(key_cmp(t1[i], t1[n]) != Ordering::Equal);
    }
}

proof fn lemma_multiset_cancel(d1: Seq<Tree>, d2: Seq<Tree>, a: Tree)
    requires
        d1.push(a).to_multiset() == d2.push(a).to_multiset(),
    ensures
        d1.to_multiset() == d2.to_multiset(),
{
    vstd::seq_lib::to_multiset_build(d1, a);
    vstd::seq_lib::to_multiset_build(d2, a);
    assert forall|v: Tree| d1.to_multiset().count(v) == d2.to_multiset().count(v) by {
        assert(d1.to_multiset().insert(a).count(v) == d2.to_multiset().insert(a).count(v));
    }
    assert(d1.to_multiset() =~= d2.to_multiset());
}

proof fn lemma_drop_last_keeps(t: Seq<Tree>)
    requires
        t.len() > 0,
        sorted(t),
        distinct_keys(t),
    ensures
        sorted(t.drop_last()),
        distinct_keys(t.drop_last()),
{
    let d = t.drop_last();
    assert forall|x: int, y: int| 0 <= x < y < d.len() implies key_le(#[trigger] d[x], #[trigger] d[y]) by {
        assert(d[x] == t[x] && d[y] == t[y]);
    }
    assert forall|x: int, y: int| 0 <= x < d.len() && 0 <= y < d.len() && x != y implies key_cmp(#[trigger] d[x], #[trigger] d[y]) != Ordering::Equal by {
        assert(d[x] == t[x] && d[y] == t[y]);
    }
}

proof fn lemma_sorted_unique(t1: Seq<Tree>, t2: Seq<Tree>)
    requires
        sorted(t1),
        sorted(t2),
        distinct_keys(t1),
        distinct_keys(t2),
        t1.to_multiset() == t2.to_multiset(),
    ensures
        t1 == t2,
    decreases t1.len(),
{
    vstd::seq_lib::to_multiset_len(t1);
    vstd::seq_lib::to_multiset_len(t2);
    if t1.len() > 0 {
        lemma_last_equal(t1, t2);
        let a = t1.last();
        let d1 = t1.drop_last();
        let d2 = t2.drop_last();
        assert(d1.push(a) =~= t1);
        assert(d2.push(a) =~= t2);
        lemma_multiset_cancel(d1, d2, a);
        lemma_drop_last_keeps(t1);
        lemma_drop_last_keeps(t2);
        lemma_sorted_unique(d1, d2);
    } else {
        assert(t1 =~= t2);
    }
}

proof fn lemma_key_equal(x: Tree, y: Tree)
    requires
        key_le(x, y),
        key_le(y, x),
    ensures
        key_cmp(x, y) == Ordering::Equal,
        key_cmp(y, x) == Ordering::Equal,
{
    match (x, y) {
        (Tree::Dir(t1, _), Tree::Dir(t2, _)) => lemma_bytes_flip(encode_utf8(t1), encode_utf8(t2)),
        (Tree::Leaf(_, n1), Tree::Leaf(_, n2)) => lemma_bytes_flip(encode_utf8(n1), encode_utf8(n2)),
        _ => {},
    }
}

/// When no two siblings share a key, the sorted level depends only on which
/// siblings there are, not on the order in which they arrived.
pub proof fn lemma_sort_order_independent(s1: Seq<Tree>, s2: Seq<Tree>)
    requires
        s1.to_multiset() == s2.to_multiset(),
        distinct_keys(s1),
        distinct_keys(s2),
    ensures
        sort_seq(s1) == sort_seq(s2),
{
    lemma_sort_multiset(s1);
    lemma_sort_multiset(s2);
    lemma_sort_sorted(s1);
    lemma_sort_sorted(s2);
    lemma_sort_distinct_keys(s1);
    lemma_sort_distinct_keys(s2);
    lemma_sorted_unique(sort_seq(s1), sort_seq(s2));
}


/// `t` with every leaf's track index `i` replaced by `f(i)`.
pub open spec fn relabel(t: Tree, f: spec_fn(nat) -> nat) -> Tree
    decreases t,
{
    match t {
        Tree::Leaf(i, n) => Tree::Leaf(f(i), n),
        Tree::Dir(title, cs) => Tree::Dir(title, relabel_list(cs, f)),
    }
}

pub open spec fn relabel_list(s: Seq<Tree>, f: spec_fn(nat) -> nat) -> Seq<Tree>
    decreases s,
{
    if s.len() == 0 {
        Seq::empty()
    } else {
        relabel_list(s.drop_last(), f).push(relabel(s.last(), f))
    }
}

proof fn lemma_relabel_len(s: Seq<Tree>, f: spec_fn(nat) -> nat)
    ensures
        relabel_list(s, f).len() == s.len(),
    decreases s.len(),
{
    if s.len() > 0 {
        lemma_relabel_len(s.drop_last(), f);
    }
}

proof fn lemma_relabel_key(x: Tree, y: Tree, f: spec_fn(nat) -> nat)
    ensures
        key_cmp(relabel(x, f), relabel(y, f)) == key_cmp(x, y),
{
}

proof fn lemma_relabel_insert(s: Seq<Tree>, x: Tree, f: spec_fn(nat) -> nat)
    ensures
        insert_by(relabel_list(s, f), relabel(x, f)) == relabel_list(insert_by(s, x), f),
    decreases s.len(),
{
    lemma_relabel_len(s, f);
    if s.len() > 0 {
        let rs = relabel_list(s, f);
        assert(rs.last() == relabel(s.last(), f));
        assert(rs.drop_last() =~= relabel_list(s.drop_last(), f));
        lemma_relabel_key(s.last(), x, f);
        if key_le(s.last(), x) {
            assert(s.push(x).drop_last() =~= s);
        } else {
            lemma_relabel_insert(s.drop_last(), x, f);
            let q = insert_by(s.drop_last(), x);
            assert(q.push(s.last()).drop_last() =~= q);
        }
    } else {
        let one = seq![x];
        assert(one.drop_last() =~= Seq::<Tree>::empty());
        assert(relabel_list(one.drop_last(), f) == Seq::<Tree>::empty());
        assert(relabel_list(one, f) == Seq::<Tree>::empty().push(relabel(x, f)));
        assert(relabel_list(one, f) =~= seq![relabel(x, f)]);
        assert(relabel_list(s, f) =~= Seq::<Tree>::empty());
    }
}

proof fn lemma_relabel_sort_seq(s: Seq<Tree>, f: spec_fn(nat) -> nat)
    ensures
        sort_seq(relabel_list(s, f)) == relabel_list(sort_seq(s), f),
    decreases s.len(),
{
    lemma_relabel_len(s, f);
    if s.len() > 0 {
        let rs = relabel_list(s, f);
        assert(rs.drop_last() =~= relabel_list(s.drop_last(), f));
        lemma_relabel_sort_seq(s.drop_last(), f);
        lemma_relabel_insert(sort_seq(s.drop_last()), s.last(), f);
    }
}

/// Sorting never looks at track indices: renaming them before sorting gives
/// the same tree as renaming them after.
pub proof fn lemma_sort_relabel(t: Tree, f: spec_fn(nat) -> nat)
    ensures
        sort_tree(relabel(t, f)) == relabel(sort_tree(t), f),
    decreases t,
{
    match t {
        Tree::Dir(title, cs) => {
            lemma_sort_relabel_list(cs, f);
            lemma_relabel_sort_seq(sort_trees(cs), f);
        },
        Tree::Leaf(_, _) => {},
    }
}

/// The same for a sequence of trees, each sorted in place.
pub proof fn lemma_sort_relabel_list(s: Seq<Tree>, f: spec_fn(nat) -> nat)
    ensures
        sort_trees(relabel_list(s, f)) == relabel_list(sort_trees(s), f),
    decreases s,
{
    if s.len() > 0 {
        lemma_sort_relabel_list(s.drop_last(), f);
        lemma_sort_relabel(s.last(), f);
        lemma_relabel_len(s, f);
        let rs = relabel_list(s, f);
        assert(rs.drop_last() =~= relabel_list(s.drop_last(), f));
        assert(sort_trees(s).drop_last() =~= sort_trees(s.drop_last()));
    }
}

} // verus!
