//! The staging structure that collects discovered files under their
//! directories, keyed by path, and its conversion into a playlist tree.
//!
//! A path is the sequence of its components, outermost first.
use vstd::prelude::*;
use crate::tree::{PlaylistNode, Tree, view_list, lemma_view_list};

verus! {

/// Model of a path: its components.
pub open spec fn path_of(p: Vec<String>) -> Seq<Seq<char>> {
    p@.map_values(|s: String| s@)
}

/// A staging node: a directory with the paths of its children registered so
/// far, or a file with its track index and base name.
pub enum PendingNode {
    Dir { title: String, node_paths: Vec<Vec<String>> },
    File(usize, String),
}

/// Model of a staging node.
pub enum Pending {
    Dir(Seq<char>, Seq<Seq<Seq<char>>>),
    File(nat, Seq<char>),
}

impl PendingNode {
    pub open spec fn view(&self) -> Pending {
        match self {
            PendingNode::Dir { title, node_paths } => Pending::Dir(
                title@,
                node_paths@.map_values(|p: Vec<String>| path_of(p)),
            ),
            PendingNode::File(i, name) => Pending::File(*i as nat, name@),
        }
    }
}

/// The map whose entries are the pairs of `ks` and `vs`, later pairs winning.
pub open spec fn map_of(ks: Seq<Seq<Seq<char>>>, vs: Seq<Pending>) -> Map<Seq<Seq<char>>, Pending>
    decreases ks.len(),
{
    if ks.len() == 0 || vs.len() == 0 {
        Map::empty()
    } else {
        map_of(ks.drop_last(), vs.drop_last()).insert(ks.last(), vs.last())
    }
}

pub open spec fn distinct<A>(s: Seq<A>) -> bool {
    forall|i: int, j: int| 0 <= i < s.len() && 0 <= j < s.len() && i != j ==> s[i] != s[j]
}

proof fn lemma_map_of_dom(ks: Seq<Seq<Seq<char>>>, vs: Seq<Pending>, k: Seq<Seq<char>>)
    requires
        ks.len() == vs.len(),
    ensures
        map_of(ks, vs).contains_key(k) <==> ks.contains(k),
    decreases ks.len(),
{
    if ks.len() > 0 {
        lemma_map_of_dom(ks.drop_last(), vs.drop_last(), k);
        if ks.drop_last().contains(k) {
            let j = choose|j: int| 0 <= j < ks.drop_last().len() && ks.drop_last()[j] == k;
            assert(ks[j] == k);
        }
        if ks.contains(k) && k != ks.last() {
            let j = choose|j: int| 0 <= j < ks.len() && ks[j] == k;
            assert(ks.drop_last()[j] == k);
        }
    }
}

proof fn lemma_map_of_index(ks: Seq<Seq<Seq<char>>>, vs: Seq<Pending>, i: int)
    requires
        ks.len() == vs.len(),
        distinct(ks),
        0 <= i < ks.len(),
    ensures
        map_of(ks, vs)[ks[i]] == vs[i],
    decreases ks.len(),
{
    if i < ks.len() - 1 {
        lemma_map_of_index(ks.drop_last(), vs.drop_last(), i);
    }
}

proof fn lemma_map_of_update(ks: Seq<Seq<Seq<char>>>, vs: Seq<Pending>, i: int, v: Pending)
    requires
        ks.len() == vs.len(),
        distinct(ks),
        0 <= i < ks.len(),
    ensures
        map_of(ks, vs.update(i, v)) == map_of(ks, vs).insert(ks[i], v),
    decreases ks.len(),
{
    if i == ks.len() - 1 {
        assert(vs.update(i, v).drop_last() =~= vs.drop_last());
        lemma_map_of_dom(ks.drop_last(), vs.drop_last(), ks[i]);
        assert(!ks.drop_last().contains(ks[i]));
    } else {
        lemma_map_of_update(ks.drop_last(), vs.drop_last(), i, v);
        assert(vs.update(i, v).drop_last() =~= vs.drop_last().update(i, v));
    }
    assert(map_of(ks, vs.update(i, v)) =~= map_of(ks, vs).insert(ks[i], v));
}

proof fn lemma_map_of_push(ks: Seq<Seq<Seq<char>>>, vs: Seq<Pending>, k: Seq<Seq<char>>, v: Pending)
    requires
        ks.len() == vs.len(),
    ensures
        map_of(ks.push(k), vs.push(v)) == map_of(ks, vs).insert(k, v),
{
    assert(ks.push(k).drop_last() =~= ks);
    assert(vs.push(v).drop_last() =~= vs);
}

/// The title of a directory: its last component, empty for the empty path.
pub open spec fn base_title(p: Seq<Seq<char>>) -> Seq<char> {
    if p.len() == 0 {
        Seq::empty()
    } else {
        p.last()
    }
}

/// `n` with child `c` appended, when `n` is a directory.
pub open spec fn add_child(n: Pending, c: Seq<Seq<char>>) -> Pending {
    match n {
        Pending::Dir(t, cs) => Pending::Dir(t, cs.push(c)),
        Pending::File(i, s) => Pending::File(i, s),
    }
}

/// Walking up from `p`, the first ancestor already in `m` exists and is a
/// directory.
pub open spec fn ancestors_ok(m: Map<Seq<Seq<char>>, Pending>, p: Seq<Seq<char>>) -> bool
    decreases p.len(),
{
    &&& p.len() > 0
    &&& if m.contains_key(p.drop_last()) {
        m[p.drop_last()] is Dir
    } else {
        ancestors_ok(m, p.drop_last())
    }
}

/// `m` after `p` is registered as a child of its parent directory, each
/// missing ancestor created as a directory titled by its base name and
/// registered with its own parent the same way.
pub open spec fn attach(m: Map<Seq<Seq<char>>, Pending>, p: Seq<Seq<char>>) -> Map<
    Seq<Seq<char>>,
    Pending,
>
    decreases p.len(),
{
    if p.len() == 0 {
        m
    } else {
        let q = p.drop_last();
        if m.contains_key(q) {
            m.insert(q, add_child(m[q], p))
        } else {
            attach(m, q).insert(q, Pending::Dir(base_title(q), seq![p]))
        }
    }
}

/// The directories for a list of roots, each with no children yet.
pub open spec fn roots_map(rs: Seq<Seq<Seq<char>>>) -> Map<Seq<Seq<char>>, Pending>
    decreases rs.len(),
{
    if rs.len() == 0 {
        Map::empty()
    } else {
        roots_map(rs.drop_last()).insert(rs.last(), Pending::Dir(base_title(rs.last()), Seq::empty()))
    }
}

/// The staging map: entries keyed by path, and the configured roots.
pub struct PendingNodeMap {
    paths: Vec<Vec<String>>,
    nodes: Vec<PendingNode>,
    roots: Vec<Vec<String>>,
}

impl PendingNodeMap {
    pub closed spec fn keys(&self) -> Seq<Seq<Seq<char>>> {
        self.paths@.map_values(|p: Vec<String>| path_of(p))
    }

    pub closed spec fn vals(&self) -> Seq<Pending> {
        self.nodes@.map_values(|n: PendingNode| n@)
    }

    /// The entries, by path.
    pub closed spec fn view(&self) -> Map<Seq<Seq<char>>, Pending> {
        map_of(self.keys(), self.vals())
    }

    /// The configured roots, in order.
    pub closed spec fn root_paths(&self) -> Seq<Seq<Seq<char>>> {
        self.roots@.map_values(|p: Vec<String>| path_of(p))
    }

    /// Every child registered with a directory is one component longer than
    /// it and extends it; every such child is itself an entry, but maybe `c`.
    pub open spec fn children_ok_but(m: Map<Seq<Seq<char>>, Pending>, c: Option<Seq<Seq<char>>>) -> bool {
        forall|k: Seq<Seq<char>>, j: int|
            #![trigger m[k]->Dir_1[j]]
            m.contains_key(k) && m[k] is Dir && 0 <= j < m[k]->Dir_1.len() ==> {
                let ch = m[k]->Dir_1[j];
                &&& ch.len() > 0
                &&& ch.drop_last() == k
                &&& (m.contains_key(ch) || c == Some(ch))
            }
    }

    /// Well-formed, but that child `c` may not be an entry yet.
    pub closed spec fn wf_but(&self, c: Option<Seq<Seq<char>>>) -> bool {
        &&& self.paths@.len() == self.nodes@.len()
        &&& distinct(self.keys())
        &&& Self::children_ok_but(self@, c)
        &&& forall|i: int| 0 <= i < self.root_paths().len() ==> self@.contains_key(#[trigger] self.root_paths()[i])
    }

    pub open spec fn wf(&self) -> bool {
        self.wf_but(None)
    }
}


/// Whether two paths have the same components.
pub(crate) fn paths_equal(a: &Vec<String>, b: &Vec<String>) -> (r: bool)
    ensures
        r == (path_of(*a) == path_of(*b)),
{
    if a.len() != b.len() {
        return false;
    }
    let mut i: usize = 0;
    while i < a.len()
        invariant
            a@.len() == b@.len(),
            i <= a@.len(),
            forall|j: int| 0 <= j < i ==> a@[j]@ == b@[j]@,
        decreases a@.len() - i,
    {
        if a[i] != b[i] {
            assert(path_of(*a)[i as int] != path_of(*b)[i as int]);
            return false;
        }
        i = i + 1;
    }
    assert(path_of(*a) =~= path_of(*b));
    true
}

/// The first `n` components of `p`.
fn prefix(p: &Vec<String>, n: usize) -> (r: Vec<String>)
    requires
        n <= p@.len(),
    ensures
        path_of(r) == path_of(*p).subrange(0, n as int),
{
    let mut r: Vec<String> = Vec::new();
    let mut i: usize = 0;
    while i < n
        invariant
            i <= n <= p@.len(),
            r@.len() == i,
            path_of(r) == path_of(*p).subrange(0, i as int),
        decreases n - i,
    {
        let c: String = p[i].clone();
        let ghost before = r@;
        let ghost old_view = path_of(r);
        r.push(c);
        assert(r@ == before.push(p@[i as int]));
        assert forall|j: int| 0 <= j < i implies path_of(r)[j] == old_view[j] by {
            assert(r@[j] == before[j]);
        }
        i = i + 1;
        assert(path_of(r) =~= path_of(*p).subrange(0, i as int));
    }
    r
}

fn copy_path(p: &Vec<String>) -> (r: Vec<String>)
    ensures
        path_of(r) == path_of(*p),
{
    let r = prefix(p, p.len());
    assert(path_of(*p).subrange(0, p@.len() as int) =~= path_of(*p));
    r
}

impl PendingNodeMap {
    /// The index of the entry for `p`, if there is one.
    fn find(&self, p: &Vec<String>) -> (r: Option<usize>)
        requires
            self.paths@.len() == self.nodes@.len(),
        ensures
            match r {
                Some(i) => i < self.paths@.len() && self.keys()[i as int] == path_of(*p),
                None => !self.keys().contains(path_of(*p)),
            },
    {
        let mut i: usize = 0;
        while i < self.paths.len()
            invariant
                i <= self.paths@.len(),
                forall|j: int| 0 <= j < i ==> self.keys()[j] != path_of(*p),
            decreases self.paths@.len() - i,
        {
            if paths_equal(&self.paths[i], p) {
                return Some(i);
            }
            i = i + 1;
        }
        None
    }

    proof fn lemma_found(&self, i: int)
        requires
            self.paths@.len() == self.nodes@.len(),
            distinct(self.keys()),
            0 <= i < self.keys().len(),
        ensures
            self@.contains_key(self.keys()[i]),
            self@[self.keys()[i]] == self.nodes@[i]@,
    {
        lemma_map_of_dom(self.keys(), self.vals(), self.keys()[i]);
        lemma_map_of_index(self.keys(), self.vals(), i);
    }

    proof fn lemma_absent(&self, k: Seq<Seq<char>>)
        requires
            self.paths@.len() == self.nodes@.len(),
            !self.keys().contains(k),
        ensures
            !self@.contains_key(k),
    {
        lemma_map_of_dom(self.keys(), self.vals(), k);
    }

    /// Replaces the entry at index `i`, returning the one it held.
    fn set_entry(&mut self, i: usize, n: PendingNode) -> (prev: PendingNode)
        requires
            old(self).paths@.len() == old(self).nodes@.len(),
            distinct(old(self).keys()),
            i < old(self).paths@.len(),
        ensures
            final(self)@ == old(self)@.insert(old(self).keys()[i as int], n@),
            final(self).paths == old(self).paths,
            final(self).nodes@.len() == old(self).nodes@.len(),
            final(self).roots == old(self).roots,
            prev == old(self).nodes@[i as int],
    {
        proof {
            lemma_map_of_update(self.keys(), self.vals(), i as int, n@);
        }
        let prev = self.nodes.remove(i);
        self.nodes.insert(i, n);
        assert(self.vals() =~= old(self).vals().update(i as int, n@));
        prev
    }

    /// Adds an entry for a path that has none.
    fn push_entry(&mut self, p: Vec<String>, n: PendingNode)
        requires
            old(self).paths@.len() == old(self).nodes@.len(),
            distinct(old(self).keys()),
            !old(self).keys().contains(path_of(p)),
        ensures
            final(self)@ == old(self)@.insert(path_of(p), n@),
            final(self).paths@.len() == final(self).nodes@.len(),
            distinct(final(self).keys()),
            final(self).roots == old(self).roots,
    {
        proof {
            lemma_map_of_push(self.keys(), self.vals(), path_of(p), n@);
        }
        self.paths.push(p);
        self.nodes.push(n);
        assert(self.keys() =~= old(self).keys().push(path_of(p)));
        assert(self.vals() =~= old(self).vals().push(n@));
        assert forall|a: int, b: int|
            0 <= a < self.keys().len() && 0 <= b < self.keys().len() && a != b implies
            self.keys()[a] != self.keys()[b] by {
            if a == self.keys().len() - 1 {
                assert(old(self).keys().contains(self.keys()[b]) ==> self.keys()[a] != self.keys()[b]);
                assert(old(self).keys()[b] == self.keys()[b]);
            }
            if b == self.keys().len() - 1 {
                assert(old(self).keys()[a] == self.keys()[a]);
            }
        }
    }

    /// A map that holds each root as a directory with no children.
    pub fn new(roots: Vec<Vec<String>>) -> (r: Self)
        ensures
            r.wf(),
            r@ == roots_map(roots@.map_values(|p: Vec<String>| path_of(p))),
            r.root_paths() == roots@.map_values(|p: Vec<String>| path_of(p)),
    {
        let ghost rs = roots@.map_values(|p: Vec<String>| path_of(p));
        let mut m = PendingNodeMap { paths: Vec::new(), nodes: Vec::new(), roots: Vec::new() };
        let mut i: usize = 0;
        proof {
            assert(m@ == map_of(Seq::empty(), Seq::empty()));
            assert(rs.subrange(0, 0) =~= Seq::<Seq<Seq<char>>>::empty());
        }
        while i < roots.len()
            invariant
                i <= roots@.len(),
                rs == roots@.map_values(|p: Vec<String>| path_of(p)),
                m.paths@.len() == m.nodes@.len(),
                distinct(m.keys()),
                m@ == roots_map(rs.subrange(0, i as int)),
                m.roots@.len() == 0,
                forall|k: Seq<Seq<char>>| #[trigger] m@.contains_key(k) ==> m@[k] == Pending::Dir(base_title(k), Seq::empty()),
            decreases roots@.len() - i,
        {
            let p = &roots[i];
            let title = if p.len() == 0 {
                String::new()
            } else {
                p[p.len() - 1].clone()
            };
            assert(title@ == base_title(path_of(*p)));
            let node_paths: Vec<Vec<String>> = Vec::new();
            assert(node_paths@.map_values(|q: Vec<String>| path_of(q)) =~= Seq::<Seq<Seq<char>>>::empty());
            let node = PendingNode::Dir { title, node_paths };
            match m.find(p) {
                Some(j) => {
                    m.set_entry(j, node);
                },
                None => {
                    let c = copy_path(p);
                    m.push_entry(c, node);
                },
            }
            proof {
                assert(rs.subrange(0, i + 1).drop_last() =~= rs.subrange(0, i as int));
            }
            i = i + 1;
        }
        proof {
            assert(rs.subrange(0, i as int) =~= rs);
        }
        m.roots = roots;
        assert(m@ == roots_map(rs));
        proof {
            assert forall|a: int| 0 <= a < m.root_paths().len() implies m@.contains_key(
                #[trigger] m.root_paths()[a]) by {
                lemma_roots_map_dom(rs, a);
            }
        }
        m
    }
}

proof fn lemma_roots_map_dom(rs: Seq<Seq<Seq<char>>>, a: int)
    requires
        0 <= a < rs.len(),
    ensures
        roots_map(rs).contains_key(rs[a]),
    decreases rs.len(),
{
    if a < rs.len() - 1 {
        lemma_roots_map_dom(rs.drop_last(), a);
    }
}


impl PendingNodeMap {
    /// Registers `path` as a child of its parent directory, creating each
    /// missing ancestor as a directory registered with its own parent.
    fn node_for_dir_of(&mut self, path: &Vec<String>)
        requires
            old(self).wf(),
            ancestors_ok(old(self)@, path_of(*path)),
        ensures
            final(self).wf_but(Some(path_of(*path))),
            final(self)@ == attach(old(self)@, path_of(*path)),
            final(self).root_paths() == old(self).root_paths(),
            forall|k: Seq<Seq<char>>| #[trigger] final(self)@.contains_key(k) ==>
                old(self)@.contains_key(k) || k.len() < path@.len(),
        decreases path@.len(),
    {
        let ghost p = path_of(*path);
        let ghost m = self@;
        let q = prefix(path, path.len() - 1);
        assert(path_of(q) =~= p.drop_last());
        match self.find(&q) {
            Some(i) => {
                proof {
                    self.lemma_found(i as int);
                }
                let placeholder = PendingNode::File(0, String::new());
                let prev = self.set_entry(i, placeholder);
                let updated = match prev {
                    PendingNode::Dir { title, node_paths } => {
                        let mut node_paths = node_paths;
                        let ghost before = node_paths@;
                        node_paths.push(copy_path(path));
                        assert(node_paths@.map_values(|x: Vec<String>| path_of(x)) =~= before.map_values(
                            |x: Vec<String>| path_of(x),
                        ).push(p));
                        PendingNode::Dir { title, node_paths }
                    },
                    PendingNode::File(a, b) => PendingNode::File(a, b),
                };
                let _ = self.set_entry(i, updated);
                proof {
                    assert(self@ =~= m.insert(p.drop_last(), add_child(m[p.drop_last()], p)));
                    let m2 = self@;
                    assert forall|k: Seq<Seq<char>>, j: int|
                        m2.contains_key(k) && m2[k] is Dir && 0 <= j < m2[k]->Dir_1.len() implies {
                            let ch = #[trigger] m2[k]->Dir_1[j];
                            &&& ch.len() > 0
                            &&& ch.drop_last() == k
                            &&& (m2.contains_key(ch) || Some(p) == Some(ch))
                        } by {
                        if k != p.drop_last() {
                            assert(m[k]->Dir_1[j] == m2[k]->Dir_1[j]);
                        } else if j < m[k]->Dir_1.len() {
                            assert(m[k]->Dir_1[j] == m2[k]->Dir_1[j]);
                        }
                    }
                    assert(self.root_paths() =~= old(self).root_paths());
                    assert(self.wf_but(Some(p)));
                }
            },
            None => {
                proof {
                    self.lemma_absent(path_of(q));
                }
                self.node_for_dir_of(&q);
                let ghost m1 = self@;
                assert(ancestors_ok(m, p.drop_last()));
                assert(q@.len() == path_of(q).len());
                let title = q[q.len() - 1].clone();
                let mut node_paths: Vec<Vec<String>> = Vec::new();
                node_paths.push(copy_path(path));
                assert(node_paths@.map_values(|x: Vec<String>| path_of(x)) =~= seq![p]);
                let node = PendingNode::Dir { title, node_paths };
                proof {
                    lemma_map_of_dom(self.keys(), self.vals(), path_of(q));
                }
                self.push_entry(q, node);
                proof {
                    let m2 = self@;
                    assert(m2 == m1.insert(p.drop_last(), Pending::Dir(base_title(p.drop_last()), seq![p])));
                    assert forall|k: Seq<Seq<char>>, j: int|
                        m2.contains_key(k) && m2[k] is Dir && 0 <= j < m2[k]->Dir_1.len() implies {
                            let ch = #[trigger] m2[k]->Dir_1[j];
                            &&& ch.len() > 0
                            &&& ch.drop_last() == k
                            &&& (m2.contains_key(ch) || Some(p) == Some(ch))
                        } by {
                        if k != p.drop_last() {
                            assert(m1[k]->Dir_1[j] == m2[k]->Dir_1[j]);
                        }
                    }
                    assert(self.root_paths() == old(self).root_paths());
                    assert(self.wf_but(Some(p)));
                }
            },
        }
    }

    /// Registers a file: its missing ancestors become directories, and the
    /// file becomes an entry of its own with the given track index and its
    /// base name.
    pub fn push_file(&mut self, path: &Vec<String>, index: usize)
        requires
            old(self).wf(),
            ancestors_ok(old(self)@, path_of(*path)),
        ensures
            final(self).wf(),
            final(self)@ == attach(old(self)@, path_of(*path)).insert(
                path_of(*path),
                Pending::File(index as nat, path_of(*path).last()),
            ),
            final(self).root_paths() == old(self).root_paths(),
    {
        self.node_for_dir_of(path);
        let name = path[path.len() - 1].clone();
        let node = PendingNode::File(index, name);
        match self.find(path) {
            Some(i) => {
                let _ = self.set_entry(i, node);
            },
            None => {
                let c = copy_path(path);
                self.push_entry(c, node);
            },
        }
        proof {
            let m2 = self@;
            assert forall|k: Seq<Seq<char>>, j: int|
                m2.contains_key(k) && m2[k] is Dir && 0 <= j < m2[k]->Dir_1.len() implies {
                    let ch = #[trigger] m2[k]->Dir_1[j];
                    &&& ch.len() > 0
                    &&& ch.drop_last() == k
                    &&& (m2.contains_key(ch) || None::<Seq<Seq<char>>> == Some(ch))
                } by {
            }
        }
    }
}


/// The playlist node that the entry for `p` stands for, looking at most
/// `fuel` levels down.
pub open spec fn realize_at(m: Map<Seq<Seq<char>>, Pending>, p: Seq<Seq<char>>, fuel: nat) -> Tree
    decreases fuel, 0nat, 0nat,
{
    match m[p] {
        Pending::Dir(t, cs) => Tree::Dir(
            t,
            if fuel == 0 {
                Seq::empty()
            } else {
                realize_all(m, cs, (fuel - 1) as nat)
            },
        ),
        Pending::File(i, n) => Tree::Leaf(i, n),
    }
}

/// The playlist nodes for the entries of `cs`, in order.
pub open spec fn realize_all(m: Map<Seq<Seq<char>>, Pending>, cs: Seq<Seq<Seq<char>>>, fuel: nat) -> Seq<Tree>
    decreases fuel, 1nat, cs.len(),
{
    if cs.len() == 0 {
        Seq::empty()
    } else {
        realize_all(m, cs.drop_last(), fuel).push(realize_at(m, cs.last(), fuel))
    }
}

/// The playlist nodes for the roots `rs`, each looked at down to depth `b`.
pub open spec fn realize_roots(m: Map<Seq<Seq<char>>, Pending>, rs: Seq<Seq<Seq<char>>>, b: nat) -> Seq<Tree>
    decreases rs.len(),
{
    if rs.len() == 0 {
        Seq::empty()
    } else {
        realize_roots(m, rs.drop_last(), b).push(realize_at(m, rs.last(), (b - rs.last().len()) as nat))
    }
}

/// The largest number of components among `ks`.
pub open spec fn max_len(ks: Seq<Seq<Seq<char>>>) -> nat
    decreases ks.len(),
{
    if ks.len() == 0 {
        0
    } else {
        let d = max_len(ks.drop_last());
        if ks.last().len() > d { ks.last().len() } else { d }
    }
}

proof fn lemma_max_len(ks: Seq<Seq<Seq<char>>>, i: int)
    requires
        0 <= i < ks.len(),
    ensures
        ks[i].len() <= max_len(ks),
    decreases ks.len(),
{
    if i < ks.len() - 1 {
        lemma_max_len(ks.drop_last(), i);
    }
}

impl PendingNodeMap {
    /// The depth of the deepest entry.
    pub closed spec fn depth(&self) -> nat {
        max_len(self.keys())
    }

    /// The playlist tree that the map stands for: one node per root, in the
    /// order the roots were given.
    pub open spec fn realized(&self) -> Seq<Tree> {
        realize_roots(self@, self.root_paths(), self.depth())
    }

    proof fn lemma_depth(&self, k: Seq<Seq<char>>)
        requires
            self.paths@.len() == self.nodes@.len(),
            self@.contains_key(k),
        ensures
            k.len() <= self.depth(),
    {
        lemma_map_of_dom(self.keys(), self.vals(), k);
        let i = choose|i: int| 0 <= i < self.keys().len() && self.keys()[i] == k;
        lemma_max_len(self.keys(), i);
    }

    fn compute_depth(&self) -> (r: usize)
        ensures
            r == self.depth(),
    {
        let mut d: usize = 0;
        let mut i: usize = 0;
        while i < self.paths.len()
            invariant
                i <= self.paths@.len(),
                d == max_len(self.keys().subrange(0, i as int)),
            decreases self.paths@.len() - i,
        {
            assert(self.keys().subrange(0, i + 1).drop_last() =~= self.keys().subrange(0, i as int));
            if self.paths[i].len() > d {
                d = self.paths[i].len();
            }
            i = i + 1;
        }
        assert(self.keys().subrange(0, i as int) =~= self.keys());
        d
    }

    fn realize(&self, p: &Vec<String>, Ghost(fuel): Ghost<nat>, Ghost(b): Ghost<nat>) -> (r: PlaylistNode)
        requires
            self.wf(),
            self@.contains_key(path_of(*p)),
            path_of(*p).len() + fuel == b,
            b == self.depth(),
        ensures
            r@ == realize_at(self@, path_of(*p), fuel),
        decreases fuel,
    {
        let ghost m = self@;
        let ghost k = path_of(*p);
        let i = match self.find(p) {
            Some(i) => i,
            None => {
                proof {
                    self.lemma_absent(k);
                }
                return PlaylistNode::File(0, String::new());
            },
        };
        proof {
            self.lemma_found(i as int);
        }
        match &self.nodes[i] {
            PendingNode::Dir { title, node_paths } => {
                let ghost cs = m[k]->Dir_1;
                let mut out: Vec<PlaylistNode> = Vec::new();
                let mut j: usize = 0;
                assert(cs.subrange(0, 0) =~= Seq::<Seq<Seq<char>>>::empty());
                while j < node_paths.len()
                    invariant
                        j <= node_paths@.len(),
                        cs == node_paths@.map_values(|x: Vec<String>| path_of(x)),
                        m == self@,
                        self.wf(),
                        m.contains_key(k),
                        m[k] is Dir,
                        m[k]->Dir_1 == cs,
                        k.len() + fuel == b,
                        b == self.depth(),
                        fuel > 0 ==> view_list(out@) == realize_all(m, cs.subrange(0, j as int), (fuel - 1) as nat),
                        fuel == 0 ==> out@.len() == 0,
                    decreases node_paths@.len() - j,
                {
                    let ghost c = cs[j as int];
                    assert(c == path_of(node_paths@[j as int]));
                    assert(c.len() > 0 && c.drop_last() == k && m.contains_key(c));
                    proof {
                        self.lemma_depth(c);
                    }
                    let child = self.realize(&node_paths[j], Ghost((fuel - 1) as nat), Ghost(b));
                    let ghost before = out@;
                    out.push(child);
                    proof {
                        assert(out@.drop_last() =~= before);
                        assert(cs.subrange(0, j + 1).drop_last() =~= cs.subrange(0, j as int));
                    }
                    j = j + 1;
                }
                proof {
                    assert(cs.subrange(0, j as int) =~= cs);
                    if fuel == 0 {
                        assert(view_list(out@) =~= Seq::<Tree>::empty());
                    }
                }
                PlaylistNode::Dir { title: title.clone(), nodes: out }
            },
            PendingNode::File(idx, name) => PlaylistNode::File(*idx, name.clone()),
        }
    }

    /// Resolves every root into a playlist node, in the order of the roots.
    pub fn into_nodes(self) -> (r: Vec<PlaylistNode>)
        requires
            self.wf(),
        ensures
            view_list(r@) == self.realized(),
    {
        let b = self.compute_depth();
        let ghost rs = self.root_paths();
        let mut out: Vec<PlaylistNode> = Vec::new();
        let mut i: usize = 0;
        assert(rs.subrange(0, 0) =~= Seq::<Seq<Seq<char>>>::empty());
        while i < self.roots.len()
            invariant
                i <= self.roots@.len(),
                rs == self.root_paths(),
                self.wf(),
                b == self.depth(),
                view_list(out@) == realize_roots(self@, rs.subrange(0, i as int), b as nat),
            decreases self.roots@.len() - i,
        {
            let ghost k = rs[i as int];
            assert(k == path_of(self.roots@[i as int]));
            assert(self@.contains_key(k));
            proof {
                self.lemma_depth(k);
            }
            let node = self.realize(&self.roots[i], Ghost((b - k.len()) as nat), Ghost(b as nat));
            let ghost before = out@;
            out.push(node);
            proof {
                assert(out@.drop_last() =~= before);
                assert(rs.subrange(0, i + 1).drop_last() =~= rs.subrange(0, i as int));
            }
            i = i + 1;
        }
        assert(rs.subrange(0, i as int) =~= rs);
        out
    }
}


impl PendingNodeMap {
    /// What well-formedness says of the entries: the roots are entries, and
    /// each child is one component longer than its directory and an entry.
    pub proof fn lemma_wf_facts(&self)
        requires
            self.wf(),
        ensures
            forall|j: int| 0 <= j < self.root_paths().len() ==> self@.contains_key(#[trigger] self.root_paths()[j]),
            Self::children_ok_but(self@, None),
    {
    }

    /// No entry is deeper than the depth used to realize the tree.
    pub proof fn lemma_depth_bound(&self)
        requires
            self.wf(),
        ensures
            forall|k: Seq<Seq<char>>| #[trigger] self@.contains_key(k) ==> k.len() <= self.depth(),
    {
        assert forall|k: Seq<Seq<char>>| #[trigger] self@.contains_key(k) implies k.len() <= self.depth() by {
            self.lemma_depth(k);
        }
    }

    /// Whether `path` has an entry.
    pub fn contains(&self, path: &Vec<String>) -> (r: bool)
        requires
            self.wf(),
        ensures
            r == self@.contains_key(path_of(*path)),
    {
        match self.find(path) {
            Some(i) => {
                proof {
                    self.lemma_found(i as int);
                }
                true
            },
            None => {
                proof {
                    self.lemma_absent(path_of(*path));
                }
                false
            },
        }
    }

    /// Whether `path` can be registered: walking up from it, the first
    /// ancestor that has an entry exists and is a directory.
    pub fn can_push(&self, path: &Vec<String>) -> (r: bool)
        requires
            self.wf(),
        ensures
            r == ancestors_ok(self@, path_of(*path)),
    {
        let ghost p = path_of(*path);
        let ghost m = self@;
        let n = path.len();
        if n == 0 {
            return false;
        }
        let mut i: usize = n - 1;
        assert(p.subrange(0, n as int) =~= p);
        loop
            invariant
                i < n,
                n == path@.len(),
                p == path_of(*path),
                m == self@,
                self.wf(),
                ancestors_ok(m, p) == ancestors_ok(m, p.subrange(0, i + 1)),
            decreases i,
        {
            let q = prefix(path, i);
            assert(p.subrange(0, i + 1).drop_last() =~= p.subrange(0, i as int));
            match self.find(&q) {
                Some(j) => {
                    proof {
                        self.lemma_found(j as int);
                    }
                    return match &self.nodes[j] {
                        PendingNode::Dir { .. } => true,
                        PendingNode::File(_, _) => false,
                    };
                },
                None => {
                    proof {
                        self.lemma_absent(path_of(q));
                    }
                    if i == 0 {
                        assert(!ancestors_ok(m, p.subrange(0, 0)));
                        return false;
                    }
                    i = i - 1;
                },
            }
        }
    }
}


/// Registering a path changes no file entry and creates none.
pub proof fn lemma_attach_files(m: Map<Seq<Seq<char>>, Pending>, p: Seq<Seq<char>>)
    requires
        ancestors_ok(m, p),
    ensures
        forall|k: Seq<Seq<char>>| #[trigger] attach(m, p).contains_key(k) ==> m.contains_key(k) || (k.len()
            < p.len() && p.subrange(0, k.len() as int) == k),
        forall|k: Seq<Seq<char>>| #[trigger] attach(m, p).contains_key(k) && attach(m, p)[k] is File
            ==> m.contains_key(k) && m[k] == attach(m, p)[k],
        forall|k: Seq<Seq<char>>| m.contains_key(k) && #[trigger] m[k] is File
            ==> attach(m, p).contains_key(k) && attach(m, p)[k] == m[k],
    decreases p.len(),
{
    let q = p.drop_last();
    if !m.contains_key(q) {
        lemma_attach_files(m, q);
        assert forall|k: Seq<Seq<char>>| #[trigger] attach(m, p).contains_key(k) implies m.contains_key(k) || (k.len()
            < p.len() && p.subrange(0, k.len() as int) == k) by {
            if k != q && !m.contains_key(k) {
                assert(q.subrange(0, k.len() as int) == k);
                assert(p.subrange(0, k.len() as int) =~= q.subrange(0, k.len() as int));
            } else if k == q {
                assert(p.subrange(0, k.len() as int) =~= q);
            }
        }
    } else {
        assert(p.subrange(0, q.len() as int) =~= q);
    }
}

/// Each root of the list maps to a directory, and nothing else is there.
pub proof fn lemma_roots_map_dirs(rs: Seq<Seq<Seq<char>>>)
    ensures
        forall|k: Seq<Seq<char>>| #[trigger] roots_map(rs).contains_key(k) ==> roots_map(rs)[k] is Dir
            && roots_map(rs)[k]->Dir_1.len() == 0,
    decreases rs.len(),
{
    if rs.len() > 0 {
        lemma_roots_map_dirs(rs.drop_last());
    }
}


/// The track indices of the leaves of a tree, left to right.
pub open spec fn leaves(t: Tree) -> Seq<nat>
    decreases t,
{
    match t {
        Tree::Leaf(i, _) => seq![i],
        Tree::Dir(_, cs) => leaves_list(cs),
    }
}

pub open spec fn leaves_list(s: Seq<Tree>) -> Seq<nat>
    decreases s,
{
    if s.len() == 0 {
        Seq::empty()
    } else {
        leaves_list(s.drop_last()) + leaves(s.last())
    }
}

/// Some file entry of `m` carries index `i`.
pub open spec fn file_index(m: Map<Seq<Seq<char>>, Pending>, i: nat) -> bool {
    exists|k: Seq<Seq<char>>| #[trigger] m.contains_key(k) && m[k] is File && m[k]->File_0 == i
}

proof fn lemma_realize_at_leaves(m: Map<Seq<Seq<char>>, Pending>, k: Seq<Seq<char>>, fuel: nat)
    requires
        PendingNodeMap::children_ok_but(m, None),
        m.contains_key(k),
    ensures
        forall|j: int| 0 <= j < leaves(realize_at(m, k, fuel)).len() ==> file_index(m, #[trigger] leaves(realize_at(m, k, fuel))[j]),
    decreases fuel, 0nat, 0nat,
{
    match m[k] {
        Pending::Dir(t, cs) => {
            assert forall|j: int| 0 <= j < cs.len() implies m.contains_key(#[trigger] cs[j]) by {
                assert(m[k]->Dir_1[j] == cs[j]);
            }
            if fuel > 0 {
                lemma_realize_all_leaves(m, k, cs, (fuel - 1) as nat);
                assert(realize_at(m, k, fuel) == Tree::Dir(t, realize_all(m, cs, (fuel - 1) as nat)));
                assert(leaves(realize_at(m, k, fuel)) == leaves_list(realize_all(m, cs, (fuel - 1) as nat)));
            } else {
                assert(realize_at(m, k, fuel) == Tree::Dir(t, Seq::empty()));
                assert(leaves(realize_at(m, k, fuel)) == leaves_list(Seq::empty()));
            }
        },
        Pending::File(i, n) => {
            assert(leaves(realize_at(m, k, fuel)) == seq![i]);
            assert(m.contains_key(k) && m[k] is File && m[k]->File_0 == i);
            assert(file_index(m, i));
        },
    }
}

proof fn lemma_realize_all_leaves(m: Map<Seq<Seq<char>>, Pending>, k: Seq<Seq<char>>, cs: Seq<Seq<Seq<char>>>, fuel: nat)
    requires
        PendingNodeMap::children_ok_but(m, None),
        forall|j: int| 0 <= j < cs.len() ==> m.contains_key(#[trigger] cs[j]),
    ensures
        forall|j: int| 0 <= j < leaves_list(realize_all(m, cs, fuel)).len() ==> file_index(m, #[trigger] leaves_list(realize_all(m, cs, fuel))[j]),
    decreases fuel, 1nat, cs.len(),
{
    if cs.len() > 0 {
        assert(m.contains_key(cs[cs.len() - 1]));
        lemma_realize_all_leaves(m, k, cs.drop_last(), fuel);
        lemma_realize_at_leaves(m, cs.last(), fuel);
        let a = leaves_list(realize_all(m, cs.drop_last(), fuel));
        let b = leaves(realize_at(m, cs.last(), fuel));
        assert(realize_all(m, cs, fuel).drop_last() =~= realize_all(m, cs.drop_last(), fuel));
        assert(leaves_list(realize_all(m, cs, fuel)) == a + b);
        assert forall|j: int| 0 <= j < (a + b).len() implies file_index(m, #[trigger] (a + b)[j]) by {
            if j < a.len() {
                assert((a + b)[j] == a[j]);
            } else {
                assert((a + b)[j] == b[j - a.len()]);
            }
        }
    }
}

impl PendingNodeMap {
    /// Every leaf of the realized tree carries the index of a file entry.
    pub proof fn lemma_realized_leaves(&self)
        requires
            self.wf(),
        ensures
            forall|j: int| 0 <= j < leaves_list(self.realized()).len() ==> file_index(self@, #[trigger] leaves_list(self.realized())[j]),
    {
        lemma_realize_roots_leaves(self@, self.root_paths(), self.depth());
    }
}

proof fn lemma_realize_roots_leaves(m: Map<Seq<Seq<char>>, Pending>, rs: Seq<Seq<Seq<char>>>, b: nat)
    requires
        PendingNodeMap::children_ok_but(m, None),
        forall|j: int| 0 <= j < rs.len() ==> m.contains_key(#[trigger] rs[j]),
    ensures
        forall|j: int| 0 <= j < leaves_list(realize_roots(m, rs, b)).len() ==> file_index(m, #[trigger] leaves_list(realize_roots(m, rs, b))[j]),
    decreases rs.len(),
{
    if rs.len() > 0 {
        assert(m.contains_key(rs[rs.len() - 1]));
        lemma_realize_roots_leaves(m, rs.drop_last(), b);
        lemma_realize_at_leaves(m, rs.last(), (b - rs.last().len()) as nat);
        let a = leaves_list(realize_roots(m, rs.drop_last(), b));
        let c = leaves(realize_at(m, rs.last(), (b - rs.last().len()) as nat));
        assert(realize_roots(m, rs, b).drop_last() =~= realize_roots(m, rs.drop_last(), b));
        assert(leaves_list(realize_roots(m, rs, b)) == a + c);
        assert forall|j: int| 0 <= j < (a + c).len() implies file_index(m, #[trigger] (a + c)[j]) by {
            if j < a.len() {
                assert((a + c)[j] == a[j]);
            } else {
                assert((a + c)[j] == c[j - a.len()]);
            }
        }
    }
}

} // verus!
