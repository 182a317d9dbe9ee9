//! Rendering of a playlist as an XSPF document with VLC's tree extension.
use vstd::prelude::*;
use vstd::string::StringExecFns;
use crate::escape::{escape_text, uri_component_of, percent_decode, unescape_text, lemma_location_round_trip, lemma_unescape_escape, encode_quoted_attribute, encode_component};
use crate::track::{Track, Playlist};
use crate::tree::{PlaylistNode, Tree, view_list};

verus! {

pub open spec fn digit(d: nat) -> Seq<char> {
    if d == 0 {
        "0"@
    } else if d == 1 {
        "1"@
    } else if d == 2 {
        "2"@
    } else if d == 3 {
        "3"@
    } else if d == 4 {
        "4"@
    } else if d == 5 {
        "5"@
    } else if d == 6 {
        "6"@
    } else if d == 7 {
        "7"@
    } else if d == 8 {
        "8"@
    } else {
        "9"@
    }
}

/// The decimal digits of `n`, without leading zeros.
pub open spec fn decimal(n: nat) -> Seq<char>
    decreases n,
{
    if n < 10 {
        digit(n)
    } else {
        decimal(n / 10) + digit(n % 10)
    }
}

/// `n` tab characters.
pub open spec fn tabs(n: nat) -> Seq<char> {
    Seq::new(n, |i: int| '\t')
}

/// One entry of the flat track list, given the encoded location.
pub open spec fn track_xml(uri: Seq<char>, t: Track, idx: nat) -> Seq<char> {
    "\t\t<track>\n"@
        + "\t\t\t<location>file://"@ + uri + "</location>\n"@
        + "\t\t\t<title>"@ + escape_text(t.title@) + "</title>\n"@
        + "\t\t\t<duration>"@ + decimal(t.duration as nat) + "</duration>\n"@
        + "\t\t\t<extension application=\"http://www.videolan.org/vlc/playlist/0\">\n"@
        + "\t\t\t\t<vlc:id>"@ + decimal(idx) + "</vlc:id>\n"@
        + "\t\t\t</extension>\n"@
        + "\t\t</track>\n"@
}

/// The flat track list, each track numbered by its position.
pub open spec fn tracks_xml(uris: Seq<Seq<char>>, ts: Seq<Track>) -> Seq<char>
    decreases ts.len(),
{
    if ts.len() == 0 || uris.len() < ts.len() {
        Seq::empty()
    } else {
        tracks_xml(uris, ts.drop_last()) + track_xml(uris[ts.len() - 1], ts.last(), (ts.len() - 1) as nat)
    }
}

/// One node of the hierarchical view, indented by `indent` tabs.
pub open spec fn node_xml(t: Tree, indent: nat) -> Seq<char>
    decreases t,
{
    match t {
        Tree::Leaf(i, _) => tabs(indent) + "<vlc:item tid=\""@ + decimal(i) + "\"/>\n"@,
        Tree::Dir(title, cs) => tabs(indent) + "<vlc:node title=\""@ + escape_text(title) + "\">\n"@
            + nodes_xml(cs, indent + 1) + tabs(indent) + "</vlc:node>\n"@,
    }
}

/// Sibling nodes, one after the other.
pub open spec fn nodes_xml(s: Seq<Tree>, indent: nat) -> Seq<char>
    decreases s,
{
    if s.len() == 0 {
        Seq::empty()
    } else {
        nodes_xml(s.drop_last(), indent) + node_xml(s.last(), indent)
    }
}

/// The whole document, given the encoded location of each track.
pub open spec fn document_with(uris: Seq<Seq<char>>, ts: Seq<Track>, nodes: Seq<Tree>) -> Seq<char> {
    "<?xml version=\"1.0\" encoding=\"UTF-8\"?>\n"@
        + "<playlist xmlns=\"http://xspf.org/ns/0/\" xmlns:vlc=\"http://www.videolan.org/vlc/playlist/ns/0/\" version=\"1\">\n"@
        + "\t<title>Media Library</title>\n"@
        + "\t<trackList>\n"@
        + tracks_xml(uris, ts)
        + "\t</trackList>\n"@
        + "\t<extension application=\"http://www.videolan.org/vlc/playlist/0\">\n"@
        + nodes_xml(nodes, 2)
        + "\t</extension>\n"@
        + "</playlist>\n"@
}

/// The location URI component of each track.
pub open spec fn uris_of(ts: Seq<Track>) -> Seq<Seq<char>> {
    ts.map_values(|t: Track| uri_component_of(t.location@))
}

/// The whole document for a track registry and a tree.
pub open spec fn document(ts: Seq<Track>, nodes: Seq<Tree>) -> Seq<char> {
    document_with(uris_of(ts), ts, nodes)
}

fn digit_str(d: usize) -> (r: &'static str)
    requires
        d < 10,
    ensures
        r@ == digit(d as nat),
{
    if d == 0 {
        "0"
    } else if d == 1 {
        "1"
    } else if d == 2 {
        "2"
    } else if d == 3 {
        "3"
    } else if d == 4 {
        "4"
    } else if d == 5 {
        "5"
    } else if d == 6 {
        "6"
    } else if d == 7 {
        "7"
    } else if d == 8 {
        "8"
    } else {
        "9"
    }
}

fn push_decimal(out: &mut String, n: usize)
    ensures
        final(out)@ == old(out)@ + decimal(n as nat),
    decreases n,
{
    if n >= 10 {
        push_decimal(out, n / 10);
    }
    out.append(digit_str(n % 10));
    proof {
        assert(old(out)@ + decimal(n as nat) =~= if n >= 10 {
            old(out)@ + decimal((n / 10) as nat) + digit((n % 10) as nat)
        } else {
            old(out)@ + digit(n as nat)
        });
    }
}

fn push_tabs(out: &mut String, n: usize)
    ensures
        final(out)@ == old(out)@ + tabs(n as nat),
{
    let mut i: usize = 0;
    while i < n
        invariant
            i <= n,
            out@ == old(out)@ + tabs(i as nat),
        decreases n - i,
    {
        out.append("\t");
        proof {
            reveal_strlit("\t");
        }
        i = i + 1;
        assert(out@ =~= old(out)@ + tabs(i as nat));
    }
}

fn push_track(out: &mut String, uri: &str, t: &Track, idx: usize)
    ensures
        final(out)@ == old(out)@ + track_xml(uri@, *t, idx as nat),
{
    out.append("\t\t<track>\n");
    out.append("\t\t\t<location>file://");
    out.append(uri);
    out.append("</location>\n");
    out.append("\t\t\t<title>");
    let title = encode_quoted_attribute(t.title());
    out.append(title.as_str());
    out.append("</title>\n");
    out.append("\t\t\t<duration>");
    push_decimal(out, t.duration());
    out.append("</duration>\n");
    out.append("\t\t\t<extension application=\"http://www.videolan.org/vlc/playlist/0\">\n");
    out.append("\t\t\t\t<vlc:id>");
    push_decimal(out, idx);
    out.append("</vlc:id>\n");
    out.append("\t\t\t</extension>\n");
    out.append("\t\t</track>\n");
    assert(out@ =~= old(out)@ + track_xml(uri@, *t, idx as nat));
}

/// Appends the hierarchical view of `nodes`, each indented by `indent` tabs
/// and its children by one more.
pub fn nodes_into_xml(out: &mut String, nodes: &Vec<PlaylistNode>, indent: usize)
    requires
        indent + depth_list(view_list(nodes@)) <= usize::MAX,
    ensures
        final(out)@ == old(out)@ + nodes_xml(view_list(nodes@), indent as nat),
    decreases nodes@,
{
    let ghost s = nodes@;
    proof {
        crate::tree::lemma_view_list(s);
    }
    let mut i: usize = 0;
    assert(out@ =~= old(out)@ + nodes_xml(view_list(s.subrange(0, 0)), indent as nat));
    while i < nodes.len()
        invariant
            i <= s.len(),
            s == nodes@,
            view_list(s) == s.map_values(|n: PlaylistNode| n@),
            indent + depth_list(view_list(s)) <= usize::MAX,
            out@ == old(out)@ + nodes_xml(view_list(s.subrange(0, i as int)), indent as nat),
        decreases s.len() - i,
    {
        let ghost before = out@;
        proof {
            crate::tree::lemma_view_list(s.subrange(0, i + 1));
            crate::tree::lemma_view_list(s.subrange(0, i as int));
            assert(view_list(s.subrange(0, i + 1)).drop_last() =~= view_list(s.subrange(0, i as int)));
            lemma_depth_list(view_list(s), i as int);
        }
        match &nodes[i] {
            PlaylistNode::File(idx, _) => {
                push_tabs(out, indent);
                out.append("<vlc:item tid=\"");
                push_decimal(out, *idx);
                out.append("\"/>\n");
                assert(out@ =~= before + node_xml(s[i as int]@, indent as nat));
            },
            PlaylistNode::Dir { title, nodes: children } => {
                proof {
                    assert(decreases_to!(nodes => nodes[i as int])) by {
                        broadcast use vstd::std_specs::vec::axiom_vec_index_decreases;
                    }
                    assert(depth_list(view_list(children@)) + 1 <= depth_list(view_list(s)));
                }
                push_tabs(out, indent);
                out.append("<vlc:node title=\"");
                let escaped = encode_quoted_attribute(title.as_str());
                out.append(escaped.as_str());
                out.append("\">\n");
                nodes_into_xml(out, children, indent + 1);
                push_tabs(out, indent);
                out.append("</vlc:node>\n");
                assert(out@ =~= before + node_xml(s[i as int]@, indent as nat));
            },
        }
        i = i + 1;
    }
    assert(s.subrange(0, i as int) =~= s);
}

/// How many levels of directories a node holds.
pub open spec fn depth_of(t: Tree) -> nat
    decreases t,
{
    match t {
        Tree::Leaf(_, _) => 0,
        Tree::Dir(_, cs) => depth_list(cs) + 1,
    }
}

pub open spec fn depth_list(s: Seq<Tree>) -> nat
    decreases s,
{
    if s.len() == 0 {
        0
    } else {
        let a = depth_list(s.drop_last());
        let b = depth_of(s.last());
        if a > b { a } else { b }
    }
}

proof fn lemma_depth_list(s: Seq<Tree>, i: int)
    requires
        0 <= i < s.len(),
    ensures
        depth_of(s[i]) <= depth_list(s),
    decreases s.len(),
{
    if i < s.len() - 1 {
        lemma_depth_list(s.drop_last(), i);
    }
}

/// Renders the document, given the encoded location of each track.
pub fn render_with(uris: &Vec<String>, tracks: &Vec<Track>, nodes: &Vec<PlaylistNode>) -> (r: String)
    requires
        uris@.len() == tracks@.len(),
        2 + depth_list(view_list(nodes@)) <= usize::MAX,
    ensures
        r@ == document_with(uris@.map_values(|u: String| u@), tracks@, view_list(nodes@)),
{
    let ghost us = uris@.map_values(|u: String| u@);
    let mut out = String::new();
    out.append("<?xml version=\"1.0\" encoding=\"UTF-8\"?>\n");
    out.append("<playlist xmlns=\"http://xspf.org/ns/0/\" xmlns:vlc=\"http://www.videolan.org/vlc/playlist/ns/0/\" version=\"1\">\n");
    out.append("\t<title>Media Library</title>\n");
    out.append("\t<trackList>\n");
    let ghost head = out@;
    let mut i: usize = 0;
    assert(tracks@.subrange(0, 0) =~= Seq::<Track>::empty());
    assert(out@ =~= head + tracks_xml(us, tracks@.subrange(0, 0)));
    while i < tracks.len()
        invariant
            i <= tracks@.len(),
            uris@.len() == tracks@.len(),
            us == uris@.map_values(|u: String| u@),
            out@ == head + tracks_xml(us, tracks@.subrange(0, i as int)),
        decreases tracks@.len() - i,
    {
        push_track(&mut out, uris[i].as_str(), &tracks[i], i);
        proof {
            let pre = tracks@.subrange(0, i + 1);
            assert(pre.drop_last() =~= tracks@.subrange(0, i as int));
            assert(us[i as int] == uris@[i as int]@);
        }
        i = i + 1;
    }
    assert(tracks@.subrange(0, i as int) =~= tracks@);
    out.append("\t</trackList>\n");
    out.append("\t<extension application=\"http://www.videolan.org/vlc/playlist/0\">\n");
    nodes_into_xml(&mut out, nodes, 2);
    out.append("\t</extension>\n");
    out.append("</playlist>\n");
    out
}

/// Renders the playlist: the flat track list in registry order, then the
/// tree, each leaf naming its track by index.
pub fn into_xml(playlist: &Playlist) -> (r: String)
    requires
        2 + depth_list(view_list(playlist.nodes@)) <= usize::MAX,
    ensures
        r@ == document(playlist.tracks@, view_list(playlist.nodes@)),
{
    let tracks = playlist.tracks();
    let mut uris: Vec<String> = Vec::new();
    let mut i: usize = 0;
    while i < tracks.len()
        invariant
            i <= tracks@.len(),
            tracks == &playlist.tracks,
            uris@.len() == i,
            forall|j: int| 0 <= j < i ==> uris@[j]@ == uri_component_of(tracks@[j].location@),
        decreases tracks@.len() - i,
    {
        uris.push(encode_component(tracks[i].location()));
        i = i + 1;
    }
    assert(uris@.map_values(|u: String| u@) =~= uris_of(tracks@));
    render_with(&uris, tracks, playlist.nodes())
}


/// The number of directory levels in `nodes`, when it fits in a `usize`.
pub fn nesting_depth(nodes: &Vec<PlaylistNode>) -> (r: Option<usize>)
    ensures
        match r {
            Some(d) => d == depth_list(view_list(nodes@)),
            None => depth_list(view_list(nodes@)) > usize::MAX,
        },
    decreases nodes@,
{
    let ghost s = nodes@;
    let mut best: usize = 0;
    let mut i: usize = 0;
    assert(view_list(s.subrange(0, 0)) =~= Seq::<Tree>::empty());
    while i < nodes.len()
        invariant
            i <= s.len(),
            s == nodes@,
            best == depth_list(view_list(s.subrange(0, i as int))),
        decreases s.len() - i,
    {
        proof {
            crate::tree::lemma_view_list(s.subrange(0, i + 1));
            crate::tree::lemma_view_list(s.subrange(0, i as int));
            assert(view_list(s.subrange(0, i + 1)).drop_last() =~= view_list(s.subrange(0, i as int)));
        }
        let here: usize = match &nodes[i] {
            PlaylistNode::File(_, _) => 0,
            PlaylistNode::Dir { nodes: children, .. } => {
                proof {
                    assert(decreases_to!(nodes => nodes[i as int])) by {
                        broadcast use vstd::std_specs::vec::axiom_vec_index_decreases;
                    }
                }
                match nesting_depth(children) {
                    Some(d) => {
                        if d == usize::MAX {
                            proof {
                                lemma_depth_prefix(s, i as int);
                            }
                            return None;
                        }
                        d + 1
                    },
                    None => {
                        proof {
                            lemma_depth_prefix(s, i as int);
                        }
                        return None;
                    },
                }
            },
        };
        assert(here == depth_of(s[i as int]@));
        assert(view_list(s.subrange(0, i + 1)).last() == s[i as int]@);
        if here > best {
            best = here;
        }
        i = i + 1;
    }
    assert(s.subrange(0, i as int) =~= s);
    Some(best)
}

proof fn lemma_depth_prefix(s: Seq<PlaylistNode>, i: int)
    requires
        0 <= i < s.len(),
    ensures
        depth_of(s[i]@) <= depth_list(view_list(s)),
{
    crate::tree::lemma_view_list(s);
    lemma_depth_list(view_list(s), i);
}


proof fn lemma_digit(d: nat)
    requires
        d < 10,
    ensures
        digit(d).len() == 1,
        forall|e: nat| e < 10 && #[trigger] digit(e) == digit(d) ==> e == d,
{
    reveal_strlit("0");
    reveal_strlit("1");
    reveal_strlit("2");
    reveal_strlit("3");
    reveal_strlit("4");
    reveal_strlit("5");
    reveal_strlit("6");
    reveal_strlit("7");
    reveal_strlit("8");
    reveal_strlit("9");
    assert forall|e: nat| e < 10 && #[trigger] digit(e) == digit(d) implies e == d by {
        assert(digit(e)[0] == digit(d)[0]);
    }
}

proof fn lemma_decimal_len(n: nat)
    ensures
        decimal(n).len() >= 1,
        n >= 10 ==> decimal(n).len() >= 2,
    decreases n,
{
    lemma_digit(n % 10);
    if n >= 10 {
        lemma_decimal_len(n / 10);
    }
}

/// Distinct numbers are written differently, so the index that names a
/// track is never written for another.
pub proof fn lemma_decimal_injective(a: nat, b: nat)
    ensures
        decimal(a) == decimal(b) ==> a == b,
    decreases a,
{
    lemma_decimal_len(a);
    lemma_decimal_len(b);
    lemma_digit(a % 10);
    lemma_digit(b % 10);
    if decimal(a) == decimal(b) {
        if a >= 10 && b >= 10 {
            let da = decimal(a / 10);
            let db = decimal(b / 10);
            lemma_digit(a % 10);
            assert(decimal(a) == da + digit(a % 10));
            assert(da =~= decimal(a).subrange(0, decimal(a).len() - 1));
            assert(db =~= decimal(b).subrange(0, decimal(b).len() - 1));
            assert(digit(a % 10) =~= decimal(a).subrange(decimal(a).len() - 1, decimal(a).len() as int));
            assert(digit(b % 10) =~= decimal(b).subrange(decimal(b).len() - 1, decimal(b).len() as int));
            lemma_decimal_injective(a / 10, b / 10);
        } else if a < 10 && b < 10 {
        } else {
            assert(decimal(a).len() != decimal(b).len());
        }
    }
}

/// The entries of the first `k` tracks are where the track list starts.
proof fn lemma_tracks_prefix(uris: Seq<Seq<char>>, ts: Seq<Track>, k: int)
    requires
        uris.len() >= ts.len(),
        0 <= k <= ts.len(),
    ensures
        tracks_xml(uris, ts.take(k)) =~= tracks_xml(uris, ts).take(tracks_xml(uris, ts.take(k)).len() as int),
        tracks_xml(uris, ts.take(k)).len() <= tracks_xml(uris, ts).len(),
    decreases ts.len(),
{
    if k == ts.len() {
        assert(ts.take(k) =~= ts);
    } else {
        lemma_tracks_prefix(uris, ts.drop_last(), k);
        assert(ts.drop_last().take(k) =~= ts.take(k));
    }
}

/// In the track list, the entry that carries `vlc:id` `i` is the `i`-th
/// track's: its location, title and duration, and it follows the entries of
/// the tracks before it.
pub proof fn lemma_track_entry(uris: Seq<Seq<char>>, ts: Seq<Track>, i: int)
    requires
        uris.len() >= ts.len(),
        0 <= i < ts.len(),
    ensures
        tracks_xml(uris, ts).take(tracks_xml(uris, ts.take(i + 1)).len() as int)
            == tracks_xml(uris, ts.take(i)) + track_xml(uris[i], ts[i], i as nat),
{
    lemma_tracks_prefix(uris, ts, i + 1);
    let p = ts.take(i + 1);
    assert(p.drop_last() =~= ts.take(i));
    assert(p.last() == ts[i]);
    assert(tracks_xml(uris, p) == tracks_xml(uris, ts.take(i)) + track_xml(uris[i], ts[i], i as nat));
}


/// In the document's track list, the entry with `vlc:id` `i` follows the
/// entries of the tracks before it, and reading its location and title back
/// gives the `i`-th track's location and title.
pub proof fn lemma_document_track(ts: Seq<Track>, i: int)
    requires
        0 <= i < ts.len(),
    ensures
        tracks_xml(uris_of(ts), ts).take(tracks_xml(uris_of(ts), ts.take(i + 1)).len() as int)
            == tracks_xml(uris_of(ts), ts.take(i)) + track_xml(uri_component_of(ts[i].location@), ts[i], i as nat),
        vstd::utf8::decode_utf8(percent_decode(uri_component_of(ts[i].location@))) == ts[i].location@,
        unescape_text(escape_text(ts[i].title@)) == ts[i].title@,
{
    lemma_track_entry(uris_of(ts), ts, i);
    lemma_location_round_trip(ts[i].location@);
    lemma_unescape_escape(ts[i].title@);
}

} // verus!
