//! The decisions taken while walking the roots, and the pipeline that turns
//! accepted files into a sorted playlist.
use vstd::prelude::*;
use vstd::string::StringExecFns;
use crate::pending::{PendingNodeMap, Pending, path_of, ancestors_ok, attach, roots_map, lemma_attach_files, lemma_roots_map_dirs, leaves_list, file_index};
use crate::track::{Track, Playlist};
use crate::pending::distinct;
use crate::tree::view_list;
use crate::shape::{linked, lemma_attach_linked, lemma_realized_leaves_exact, no_dup, no_orphans, file_reaches, reach, lemma_realized_dirs, all_dirs_hold_leaves, lemma_sorted_dirs, lemma_roots_len, lemma_roots_index, lemma_leaves_at, file_below};
use crate::pending::leaves;
use crate::order::{sort_nodes, sort_seq, sort_trees};

verus! {

/// The container formats that can be probed.
#[derive(PartialEq, Eq, Structural, Clone, Copy, Debug)]
pub enum MediaKind {
    Mkv,
    Mp4,
}

/// The format named by a file extension: exactly `mkv` and `mp4`.
pub fn media_kind(ext: &str) -> (r: Option<MediaKind>)
    ensures
        ext@ == "mkv"@ ==> r == Some(MediaKind::Mkv),
        ext@ == "mp4"@ ==> r == Some(MediaKind::Mp4),
        ext@ != "mkv"@ && ext@ != "mp4"@ ==> r is None,
{
    let e = <String as StringExecFns>::from_str(ext);
    let mkv = <String as StringExecFns>::from_str("mkv");
    let mp4 = <String as StringExecFns>::from_str("mp4");
    proof {
        reveal_strlit("mkv");
        reveal_strlit("mp4");
        assert("mkv"@[1] != "mp4"@[1]);
    }
    if e == mkv {
        Some(MediaKind::Mkv)
    } else if e == mp4 {
        Some(MediaKind::Mp4)
    } else {
        None
    }
}


/// Whether a directory met on the walk is one of the directories to skip,
/// compared by exact path.
pub fn is_skipped(skip: &Vec<Vec<String>>, path: &Vec<String>) -> (r: bool)
    ensures
        r == exists|i: int| 0 <= i < skip@.len() && path_of(#[trigger] skip@[i]) == path_of(*path),
{
    let mut i: usize = 0;
    while i < skip.len()
        invariant
            i <= skip@.len(),
            forall|j: int| 0 <= j < i ==> path_of(#[trigger] skip@[j]) != path_of(*path),
        decreases skip@.len() - i,
    {
        if crate::pending::paths_equal(&skip[i], path) {
            return true;
        }
        i = i + 1;
    }
    false
}

/// The title of a track: the title embedded in the file if there is one,
/// else the file's base name, else a fixed placeholder.
pub open spec fn title_of(embedded: Option<Seq<char>>, file_name: Option<Seq<char>>) -> Seq<char> {
    match embedded {
        Some(t) => t,
        None => match file_name {
            Some(n) => n,
            None => "<No title available>"@,
        },
    }
}

/// Builds the track for a probed file; an unknown duration counts as zero.
pub fn make_track(location: String, embedded: Option<String>, file_name: Option<String>, duration_ms: Option<usize>) -> (r: Track)
    ensures
        r.location@ == location@,
        r.title@ == title_of(
            match embedded { Some(t) => Some(t@), None => None },
            match file_name { Some(n) => Some(n@), None => None },
        ),
        r.duration == match duration_ms { Some(d) => d, None => 0 },
{
    let title = match embedded {
        Some(t) => t,
        None => match file_name {
            Some(n) => n,
            None => <String as StringExecFns>::from_str("<No title available>"),
        },
    };
    let duration = match duration_ms {
        Some(d) => d,
        None => 0,
    };
    Track::new(location, title, duration)
}

/// The track registry and the staging map, filled together while walking.
pub struct Catalog {
    pub tracks: Vec<Track>,
    pub pending: PendingNodeMap,
}

/// Some file entry of `m` carries index `i`.
pub open spec fn has_file(m: Map<Seq<Seq<char>>, Pending>, i: nat) -> bool {
    exists|k: Seq<Seq<char>>| #[trigger] m.contains_key(k) && m[k] == Pending::File(i, k.last())
}

/// The file entries of `m` carry the indices `0 .. n`, each exactly once.
pub open spec fn indices_exact(m: Map<Seq<Seq<char>>, Pending>, n: nat) -> bool {
    &&& forall|k: Seq<Seq<char>>| #[trigger] m.contains_key(k) && m[k] is File ==> m[k]->File_0 < n
    &&& forall|i: nat| i < n ==> #[trigger] has_file(m, i)
    &&& forall|k1: Seq<Seq<char>>, k2: Seq<Seq<char>>|
        #[trigger] m.contains_key(k1) && #[trigger] m.contains_key(k2) && m[k1] is File && m[k2] is File
            && m[k1]->File_0 == m[k2]->File_0 ==> k1 == k2
}

impl Catalog {
    /// The staging map is well formed, its file entries are exactly the
    /// tracks of the registry, by index, each directory in it is a root or an
    /// ancestor of a file, and each entry but a root is listed by its parent.
    pub open spec fn wf(&self) -> bool {
        &&& self.pending.wf()
        &&& indices_exact(self.pending@, self.tracks@.len())
        &&& no_orphans(self.pending@, self.pending.root_paths())
        &&& linked(self.pending@, self.pending.root_paths())
    }

    /// An empty registry, and a staging map that holds the roots.
    pub fn new(roots: Vec<Vec<String>>) -> (r: Catalog)
        ensures
            r.wf(),
            r.tracks@.len() == 0,
            r.pending@ == roots_map(roots@.map_values(|p: Vec<String>| path_of(p))),
            r.pending.root_paths() == roots@.map_values(|p: Vec<String>| path_of(p)),
    {
        let c = Catalog { tracks: Vec::new(), pending: PendingNodeMap::new(roots) };
        proof {
            let rs = roots@.map_values(|p: Vec<String>| path_of(p));
            lemma_roots_map_dirs(rs);
            lemma_roots_map_keys(rs);
            let m = roots_map(rs);
            assert forall|k: Seq<Seq<char>>| #[trigger] m.contains_key(k) && !rs.contains(k) implies {
                &&& k.len() > 0
                &&& m.contains_key(k.drop_last())
                &&& m[k.drop_last()] is Dir
                &&& m[k.drop_last()]->Dir_1.contains(k)
            } by {}
        }
        c
    }

    /// Whether a file at `path` can be placed in the tree: it has no entry
    /// yet, and the first ancestor with an entry is a directory.
    pub fn can_accept(&self, path: &Vec<String>) -> (r: bool)
        requires
            self.wf(),
        ensures
            r == (ancestors_ok(self.pending@, path_of(*path)) && !self.pending@.contains_key(path_of(*path))),
    {
        self.pending.can_push(path) && !self.pending.contains(path)
    }

    /// Appends a probed track to the registry and registers its file in the
    /// staging map under the track's index.
    pub fn accept(&mut self, path: &Vec<String>, track: Track)
        requires
            old(self).wf(),
            ancestors_ok(old(self).pending@, path_of(*path)),
            !old(self).pending@.contains_key(path_of(*path)),
        ensures
            final(self).wf(),
            final(self).tracks@ == old(self).tracks@.push(track),
            final(self).pending@ == attach(old(self).pending@, path_of(*path)).insert(
                path_of(*path),
                Pending::File(old(self).tracks@.len(), path_of(*path).last()),
            ),
            final(self).pending.root_paths() == old(self).pending.root_paths(),
    {
        let ghost m = self.pending@;
        let ghost n = self.tracks@.len();
        let ghost p = path_of(*path);
        proof {
            self.pending.lemma_wf_facts();
        }
        self.pending.push_file(path, self.tracks.len());
        self.tracks.push(track);
        proof {
            lemma_attach_files(m, p);
            let rs = self.pending.root_paths();
            lemma_attach_linked(m, rs, p);
            let a = attach(m, p);
            let m3 = self.pending@;
            assert forall|k: Seq<Seq<char>>| #[trigger] m3.contains_key(k) && !rs.contains(k) implies {
                &&& k.len() > 0
                &&& m3.contains_key(k.drop_last())
                &&& m3[k.drop_last()] is Dir
                &&& m3[k.drop_last()]->Dir_1.contains(k)
            } by {
                if k != p {
                    assert(a.contains_key(k));
                    assert(a.contains_key(k.drop_last()));
                }
            }
            assert forall|k: Seq<Seq<char>>| #[trigger] m3.contains_key(k) && m3[k] is Dir implies distinct(m3[k]->Dir_1) by {
                assert(a.contains_key(k));
            }
            assert forall|k: Seq<Seq<char>>, j: int|
                m3.contains_key(k) && m3[k] is Dir && 0 <= j < m3[k]->Dir_1.len() implies !rs.contains(#[trigger] m3[k]->Dir_1[j]) by {
                assert(a.contains_key(k));
                assert(a[k]->Dir_1[j] == m3[k]->Dir_1[j]);
            }
            let m2 = self.pending@;
            assert(!a.contains_key(p));
            assert forall|i: nat| i < n + 1 implies #[trigger] has_file(m2, i) by {
                if i < n {
                    assert(has_file(m, i));
                    let k = choose|k: Seq<Seq<char>>| #[trigger] m.contains_key(k) && m[k] == Pending::File(i, k.last());
                    assert(k != p);
                    assert(m2.contains_key(k) && m2[k] == Pending::File(i, k.last()));
                } else {
                    assert(m2.contains_key(p) && m2[p] == Pending::File(i, p.last()));
                }
            }
            let rs = self.pending.root_paths();
            assert forall|k: Seq<Seq<char>>| #[trigger] m2.contains_key(k) && m2[k] is Dir implies rs.contains(k)
                || file_reaches(m2, rs, k) by {
                assert(k != p);
                if m.contains_key(k) {
                    assert(m[k] is Dir);
                    if !rs.contains(k) {
                        assert(file_reaches(m, rs, k));
                        let f = choose|f: Seq<Seq<char>>| #[trigger] m.contains_key(f) && m[f] is File && reach(rs, f, k);
                        assert(f != p);
                        assert(m2.contains_key(f) && m2[f] is File);
                    }
                } else {
                    assert(reach(rs, p, k));
                    assert(m2.contains_key(p) && m2[p] is File);
                }
            }
            assert forall|k1: Seq<Seq<char>>, k2: Seq<Seq<char>>|
                #[trigger] m2.contains_key(k1) && #[trigger] m2.contains_key(k2) && m2[k1] is File && m2[k2] is File
                    && m2[k1]->File_0 == m2[k2]->File_0 implies k1 == k2 by {
                if k1 != p && k2 != p {
                    assert(m.contains_key(k1) && m.contains_key(k2));
                } else if k1 != p {
                    assert(m.contains_key(k1));
                } else if k2 != p {
                    assert(m.contains_key(k2));
                }
            }
        }
    }

    /// The playlist: the registry as it is, and the realized tree with every
    /// sibling level sorted.
    pub fn finish(self) -> (r: Playlist)
        requires
            self.wf(),
        ensures
            r.tracks@ == self.tracks@,
            view_list(r.nodes@) == sort_seq(sort_trees(self.pending.realized())),
    {
        let nodes = self.pending.into_nodes();
        let nodes = sort_nodes(nodes);
        Playlist { tracks: self.tracks, nodes }
    }
}


proof fn lemma_roots_map_keys(rs: Seq<Seq<Seq<char>>>)
    ensures
        forall|k: Seq<Seq<char>>| #[trigger] roots_map(rs).contains_key(k) ==> rs.contains(k),
    decreases rs.len(),
{
    if rs.len() > 0 {
        lemma_roots_map_keys(rs.drop_last());
        assert forall|k: Seq<Seq<char>>| #[trigger] roots_map(rs).contains_key(k) implies rs.contains(k) by {
            if k == rs.last() {
                assert(rs[rs.len() - 1] == k);
            } else {
                assert(roots_map(rs.drop_last()).contains_key(k));
                assert(rs.drop_last().contains(k));
                let j = choose|j: int| 0 <= j < rs.drop_last().len() && rs.drop_last()[j] == k;
                assert(rs[j] == k);
            }
        }
    }
}


/// Every leaf of the realized tree names a track of the registry: no index
/// in the tree is out of range.
pub proof fn lemma_leaves_are_tracks(c: &Catalog)
    requires
        c.wf(),
    ensures
        forall|j: int| 0 <= j < leaves_list(c.pending.realized()).len()
            ==> #[trigger] leaves_list(c.pending.realized())[j] < c.tracks@.len(),
{
    c.pending.lemma_realized_leaves();
    let m = c.pending@;
    assert forall|j: int| 0 <= j < leaves_list(c.pending.realized()).len()
        implies #[trigger] leaves_list(c.pending.realized())[j] < c.tracks@.len() by {
        let i = leaves_list(c.pending.realized())[j];
        assert(file_index(m, i));
        let k = choose|k: Seq<Seq<char>>| #[trigger] m.contains_key(k) && m[k] is File && m[k]->File_0 == i;
        assert(m.contains_key(k) && m[k] is File);
    }
}


/// Unless a root is given twice, the leaves of the realized tree carry the
/// indices `0 .. n` of the registry, each exactly once.
pub proof fn lemma_leaves_exact(c: &Catalog)
    requires
        c.wf(),
        distinct(c.pending.root_paths()),
    ensures
        no_dup(leaves_list(c.pending.realized())),
        forall|i: nat| #[trigger] leaves_list(c.pending.realized()).contains(i) <==> i < c.tracks@.len(),
{
    let m = c.pending@;
    c.pending.lemma_wf_facts();
    c.pending.lemma_depth_bound();
    lemma_realized_leaves_exact(m, c.pending.root_paths(), c.pending.depth());
    assert forall|i: nat| #[trigger] leaves_list(c.pending.realized()).contains(i) <==> i < c.tracks@.len() by {
        if i < c.tracks@.len() {
            assert(has_file(m, i));
            let k = choose|k: Seq<Seq<char>>| #[trigger] m.contains_key(k) && m[k] == Pending::File(i, k.last());
            assert(m.contains_key(k) && m[k] is File && m[k]->File_0 == i);
        }
    }
}


/// Below each root of the realized tree, every directory holds at least one
/// leaf: a directory appears only as an ancestor of an accepted file, and
/// only a root can be empty.
pub proof fn lemma_no_empty_dirs(c: &Catalog, j: int)
    requires
        c.wf(),
        0 <= j < c.pending.root_paths().len(),
    ensures
        c.pending.realized()[j] is Dir ==> all_dirs_hold_leaves(c.pending.realized()[j]->Dir_1),
{
    c.pending.lemma_wf_facts();
    c.pending.lemma_depth_bound();
    lemma_realized_dirs(c.pending@, c.pending.root_paths(), c.pending.depth(), j);
}


/// The same holds of the sorted tree that [`Catalog::finish`] hands out.
pub proof fn lemma_no_empty_dirs_sorted(c: &Catalog, j: int)
    requires
        c.wf(),
        0 <= j < c.pending.root_paths().len(),
    ensures
        sort_seq(sort_trees(c.pending.realized()))[j] is Dir ==> all_dirs_hold_leaves(
            sort_seq(sort_trees(c.pending.realized()))[j]->Dir_1,
        ),
{
    let r = c.pending.realized();
    lemma_roots_len(c.pending@, c.pending.root_paths(), c.pending.depth());
    assert forall|i: int| 0 <= i < r.len() && #[trigger] r[i] is Dir implies all_dirs_hold_leaves(r[i]->Dir_1) by {
        lemma_no_empty_dirs(c, i);
    }
    lemma_sorted_dirs(r, j);
}


/// A root with a file entry hanging below it (reached from the file without
/// passing another root) is realized with at least one leaf.
pub proof fn lemma_root_with_file_has_leaves(c: &Catalog, j: int, f: Seq<Seq<char>>)
    requires
        c.wf(),
        0 <= j < c.pending.root_paths().len(),
        c.pending@.contains_key(f),
        c.pending@[f] is File,
        reach(c.pending.root_paths(), f, c.pending.root_paths()[j]),
    ensures
        leaves(c.pending.realized()[j]).len() > 0,
{
    let m = c.pending@;
    let rs = c.pending.root_paths();
    let r = rs[j];
    let b = c.pending.depth();
    c.pending.lemma_wf_facts();
    c.pending.lemma_depth_bound();
    lemma_roots_index(m, rs, b, j);
    lemma_leaves_at(m, rs, r, (b - r.len()) as nat, b);
    let i = m[f]->File_0;
    assert(file_below(m, rs, r, i));
    assert(leaves(c.pending.realized()[j]).contains(i));
}

} // verus!
