use vlc_library::catalog::{is_skipped, make_track, media_kind, Catalog, MediaKind};
use vlc_library::track::{Playlist, Track};
use vlc_library::tree::PlaylistNode;
use vlc_library::xml::{into_xml, nesting_depth, render_with};
use std::cmp::Ordering;

fn path(parts: &[&str]) -> Vec<String> {
    parts.iter().map(|s| s.to_string()).collect()
}

fn track(loc: &str, title: &str, ms: usize) -> Track {
    Track::new(loc.to_string(), title.to_string(), ms)
}

fn build(roots: &[&[&str]], files: &[&[&str]]) -> Playlist {
    let mut c = Catalog::new(roots.iter().map(|r| path(r)).collect());
    for f in files {
        let p = path(f);
        assert!(c.can_accept(&p));
        let loc = format!("/{}", f.join("/"));
        c.accept(&p, track(&loc, f[f.len() - 1], 1000));
    }
    c.finish()
}

fn names(nodes: &[PlaylistNode]) -> Vec<String> {
    nodes
        .iter()
        .map(|n| match n {
            PlaylistNode::Dir { title, .. } => format!("dir:{}", title),
            PlaylistNode::File(_, name) => format!("file:{}", name),
        })
        .collect()
}

fn children(n: &PlaylistNode) -> &[PlaylistNode] {
    match n {
        PlaylistNode::Dir { nodes, .. } => nodes,
        PlaylistNode::File(_, _) => panic!("not a directory"),
    }
}

fn leaf_indices(nodes: &[PlaylistNode], out: &mut Vec<usize>) {
    for n in nodes {
        match n {
            PlaylistNode::Dir { nodes, .. } => leaf_indices(nodes, out),
            PlaylistNode::File(i, _) => out.push(*i),
        }
    }
}

#[test]
fn three_files_sorted_by_name() {
    let p = build(&[&["m"]], &[&["m", "b.mkv"], &["m", "a.mp4"], &["m", "c.mkv"]]);
    assert_eq!(names(p.nodes()), vec!["dir:m"]);
    assert_eq!(
        names(children(&p.nodes()[0])),
        vec!["file:a.mp4", "file:b.mkv", "file:c.mkv"]
    );
}

#[test]
fn directory_before_file_either_order() {
    for files in [
        vec![&["r", "x.mkv"][..], &["r", "sub", "y.mp4"][..]],
        vec![&["r", "sub", "y.mp4"][..], &["r", "x.mkv"][..]],
    ] {
        let p = build(&[&["r"]], &files);
        let top = children(&p.nodes()[0]);
        assert_eq!(names(top), vec!["dir:sub", "file:x.mkv"]);
        assert_eq!(names(children(&top[0])), vec!["file:y.mp4"]);
    }
}

#[test]
fn rejected_file_leaves_no_trace() {
    let mut c = Catalog::new(vec![path(&["r"])]);
    // the probe of r/bad/broken.mkv failed, so it is never accepted
    c.accept(&path(&["r", "good.mkv"]), track("/r/good.mkv", "good", 5));
    let p = c.finish();
    assert_eq!(p.tracks().len(), 1);
    assert_eq!(names(children(&p.nodes()[0])), vec!["file:good.mkv"]);
    let xml = into_xml(&p);
    assert!(!xml.contains("bad"));
}

#[test]
fn leaf_indices_are_dense_and_unique() {
    let p = build(
        &[&["a"], &["b"]],
        &[
            &["a", "d", "e", "1.mkv"],
            &["b", "2.mp4"],
            &["a", "d", "3.mkv"],
            &["a", "d", "e", "4.mkv"],
            &["b", "f", "5.mkv"],
        ],
    );
    let mut idx = vec![];
    leaf_indices(p.nodes(), &mut idx);
    idx.sort();
    assert_eq!(idx, vec![0, 1, 2, 3, 4]);
    assert_eq!(p.tracks().len(), 5);
}

fn shape(nodes: &[PlaylistNode]) -> String {
    nodes
        .iter()
        .map(|n| match n {
            PlaylistNode::Dir { title, nodes } => format!("{}[{}]", title, shape(nodes)),
            PlaylistNode::File(i, name) => format!("{}#{}", name, i),
        })
        .collect::<Vec<_>>()
        .join(",")
}

#[test]
fn sorting_twice_changes_nothing() {
    let p = build(
        &[&["r"]],
        &[&["r", "z.mkv"], &["r", "B", "k.mkv"], &["r", "a", "j.mkv"], &["r", "a.mkv"], &["r", "a", "i.mkv"]],
    );
    let once = shape(p.nodes());
    assert_eq!(once, "r[B[k.mkv#1],a[i.mkv#4,j.mkv#2],a.mkv#3,z.mkv#0]");
    let mut again = PlaylistNode::Dir { title: "top".to_string(), nodes: p.nodes };
    again.sort();
    assert_eq!(shape(children(&again)), once);
}

#[test]
fn discovery_order_does_not_change_tree_shape() {
    let files: Vec<&[&str]> = vec![&["r", "q", "1.mkv"], &["r", "2.mkv"], &["r", "p", "3.mp4"]];
    let rev: Vec<&[&str]> = files.iter().rev().cloned().collect();
    let a = build(&[&["r"]], &files);
    let b = build(&[&["r"]], &rev);
    assert_eq!(names(children(&a.nodes()[0])), names(children(&b.nodes()[0])));
    assert_eq!(names(children(&a.nodes()[0])), vec!["dir:p", "dir:q", "file:2.mkv"]);
}

#[test]
fn empty_root_stays_a_directory() {
    let p = build(&[&["empty"]], &[]);
    assert_eq!(names(p.nodes()), vec!["dir:empty"]);
    assert!(children(&p.nodes()[0]).is_empty());
}

#[test]
fn file_outside_roots_is_refused() {
    let c = Catalog::new(vec![path(&["r"])]);
    assert!(!c.can_accept(&path(&["s", "x.mkv"])));
    assert!(!c.can_accept(&path(&[])));
    assert!(c.can_accept(&path(&["r", "deep", "er", "x.mkv"])));
}

#[test]
fn file_under_a_file_is_refused() {
    let mut c = Catalog::new(vec![path(&["r"])]);
    c.accept(&path(&["r", "x.mkv"]), track("/r/x.mkv", "x", 0));
    assert!(!c.can_accept(&path(&["r", "x.mkv", "y.mkv"])));
}

#[test]
fn byte_order_puts_upper_case_first() {
    let a = PlaylistNode::File(0, "a.mkv".to_string());
    let b = PlaylistNode::File(1, "B.mkv".to_string());
    let d = PlaylistNode::Dir { title: "zzz".to_string(), nodes: vec![] };
    assert_eq!(b.partial_cmp(&a), Some(Ordering::Less));
    assert_eq!(a.partial_cmp(&b), Some(Ordering::Greater));
    assert_eq!(d.partial_cmp(&b), Some(Ordering::Less));
    assert_eq!(a.partial_cmp(&PlaylistNode::File(9, "a.mkv".to_string())), Some(Ordering::Equal));
    assert_eq!(
        PlaylistNode::File(0, "ab".to_string()).partial_cmp(&PlaylistNode::File(0, "a".to_string())),
        Some(Ordering::Greater)
    );
}

#[test]
fn equal_names_keep_discovery_order() {
    let p = build(&[&["r"]], &[&["r", "x", "s.mkv"], &["r", "y", "s.mkv"]]);
    let mut nodes = vec![
        PlaylistNode::File(7, "s.mkv".to_string()),
        PlaylistNode::File(3, "s.mkv".to_string()),
    ];
    let mut top = PlaylistNode::Dir { title: "t".to_string(), nodes: std::mem::take(&mut nodes) };
    top.sort();
    match &children(&top)[0] {
        PlaylistNode::File(i, _) => assert_eq!(*i, 7),
        _ => panic!(),
    }
    assert_eq!(p.tracks().len(), 2);
}

#[test]
fn extensions() {
    assert_eq!(media_kind("mkv"), Some(MediaKind::Mkv));
    assert_eq!(media_kind("mp4"), Some(MediaKind::Mp4));
    assert_eq!(media_kind("MKV"), None);
    assert_eq!(media_kind("avi"), None);
    assert_eq!(media_kind(""), None);
}

#[test]
fn skip_list_matches_exact_paths() {
    let skip = vec![path(&["r", "tmp"])];
    assert!(is_skipped(&skip, &path(&["r", "tmp"])));
    assert!(!is_skipped(&skip, &path(&["r", "tmp", "x"])));
    assert!(!is_skipped(&skip, &path(&["r"])));
    assert!(!is_skipped(&vec![], &path(&["r"])));
}

#[test]
fn title_falls_back_to_file_name() {
    let t = make_track("/a/b.mkv".to_string(), Some("Film".to_string()), Some("b.mkv".to_string()), Some(42));
    assert_eq!((t.title(), t.duration()), ("Film", 42));
    let t = make_track("/a/b.mkv".to_string(), None, Some("b.mkv".to_string()), None);
    assert_eq!((t.title(), t.duration(), t.location()), ("b.mkv", 0, "/a/b.mkv"));
    let t = make_track("/a/b.mkv".to_string(), None, None, None);
    assert_eq!(t.title(), "<No title available>");
}

#[test]
fn document_is_rendered_exactly() {
    let p = build(&[&["m"]], &[&["m", "s", "b.mkv"], &["m", "a.mp4"]]);
    let xml = into_xml(&p);
    let expected = "<?xml version=\"1.0\" encoding=\"UTF-8\"?>\n\
<playlist xmlns=\"http://xspf.org/ns/0/\" xmlns:vlc=\"http://www.videolan.org/vlc/playlist/ns/0/\" version=\"1\">\n\
\t<title>Media Library</title>\n\
\t<trackList>\n\
\t\t<track>\n\
\t\t\t<location>file://%2Fm%2Fs%2Fb.mkv</location>\n\
\t\t\t<title>b.mkv</title>\n\
\t\t\t<duration>1000</duration>\n\
\t\t\t<extension application=\"http://www.videolan.org/vlc/playlist/0\">\n\
\t\t\t\t<vlc:id>0</vlc:id>\n\
\t\t\t</extension>\n\
\t\t</track>\n\
\t\t<track>\n\
\t\t\t<location>file://%2Fm%2Fa.mp4</location>\n\
\t\t\t<title>a.mp4</title>\n\
\t\t\t<duration>1000</duration>\n\
\t\t\t<extension application=\"http://www.videolan.org/vlc/playlist/0\">\n\
\t\t\t\t<vlc:id>1</vlc:id>\n\
\t\t\t</extension>\n\
\t\t</track>\n\
\t</trackList>\n\
\t<extension application=\"http://www.videolan.org/vlc/playlist/0\">\n\
\t\t<vlc:node title=\"m\">\n\
\t\t\t<vlc:node title=\"s\">\n\
\t\t\t\t<vlc:item tid=\"0\"/>\n\
\t\t\t</vlc:node>\n\
\t\t\t<vlc:item tid=\"1\"/>\n\
\t\t</vlc:node>\n\
\t</extension>\n\
</playlist>\n";
    assert_eq!(xml, expected);
}

#[test]
fn title_markup_is_escaped() {
    let p = Playlist {
        tracks: vec![track("/x y/é.mkv", "Tom & Jerry <live> \"1\"", 12345678)],
        nodes: vec![],
    };
    let xml = into_xml(&p);
    assert!(xml.contains("<title>Tom &amp; Jerry &lt;live&gt; &quot;1&quot;</title>"));
    assert!(xml.contains("<location>file://%2Fx%20y%2F%C3%A9.mkv</location>"));
    assert!(xml.contains("<duration>12345678</duration>"));
}

#[test]
fn render_uses_given_locations() {
    let tracks = vec![track("/a", "t", 0), track("/b", "u", 10)];
    let uris = vec!["A".to_string(), "B".to_string()];
    let xml = render_with(&uris, &tracks, &vec![PlaylistNode::File(1, "b".to_string())]);
    assert!(xml.contains("<location>file://A</location>"));
    assert!(xml.contains("<location>file://B</location>"));
    assert!(xml.contains("<vlc:id>1</vlc:id>"));
    assert!(xml.contains("\t\t<vlc:item tid=\"1\"/>\n"));
}

#[test]
fn empty_playlist_document() {
    let p = Playlist { tracks: vec![], nodes: vec![] };
    assert_eq!(
        into_xml(&p),
        "<?xml version=\"1.0\" encoding=\"UTF-8\"?>\n\
<playlist xmlns=\"http://xspf.org/ns/0/\" xmlns:vlc=\"http://www.videolan.org/vlc/playlist/ns/0/\" version=\"1\">\n\
\t<title>Media Library</title>\n\
\t<trackList>\n\
\t</trackList>\n\
\t<extension application=\"http://www.videolan.org/vlc/playlist/0\">\n\
\t</extension>\n\
</playlist>\n"
    );
}

#[test]
fn ids_name_their_own_tracks() {
    let p = build(&[&["r"]], &[&["r", "b.mkv"], &["r", "a.mkv"], &["r", "c", "d.mp4"]]);
    let xml = into_xml(&p);
    for (i, t) in p.tracks().iter().enumerate() {
        let id = format!("<vlc:id>{}</vlc:id>", i);
        assert_eq!(xml.matches(&id).count(), 1);
        let entry = xml.split("<track>").nth(i + 1).unwrap();
        assert!(entry.contains(&id));
        assert!(entry.contains(&format!("<title>{}</title>", t.title())));
        let tid = format!("<vlc:item tid=\"{}\"/>", i);
        assert_eq!(xml.matches(&tid).count(), 1);
    }
}

#[test]
fn nested_and_sibling_roots() {
    let p = build(&[&["a"], &["a", "b"]], &[&["a", "b", "x.mkv"], &["a", "y.mkv"]]);
    assert_eq!(names(p.nodes()), vec!["dir:a", "dir:b"]);
    assert_eq!(names(children(&p.nodes()[0])), vec!["file:y.mkv"]);
    assert_eq!(names(children(&p.nodes()[1])), vec!["file:x.mkv"]);
}

#[test]
fn nesting_depth_counts_directories() {
    let p = build(&[&["r"]], &[&["r", "a", "b", "x.mkv"]]);
    assert_eq!(nesting_depth(p.nodes()), Some(3));
    assert_eq!(nesting_depth(&vec![]), Some(0));
}

#[test]
fn directory_titles_are_escaped() {
    let p = build(&[&["R&D"]], &[&["R&D", "a\"b'<c>", "x.mkv"]]);
    let xml = into_xml(&p);
    assert!(xml.contains("\t\t<vlc:node title=\"R&amp;D\">\n"));
    assert!(xml.contains("\t\t\t<vlc:node title=\"a&quot;b&#x27;&lt;c&gt;\">\n"));
    assert!(!xml.contains("R&D"));
}

#[test]
fn track_title_quotes_are_escaped() {
    let p = Playlist { tracks: vec![track("/a", "it's \"x\"", 0)], nodes: vec![] };
    assert!(into_xml(&p).contains("<title>it&#x27;s &quot;x&quot;</title>"));
}

#[test]
fn location_keeps_only_unreserved_bytes() {
    let p = Playlist { tracks: vec![track("/a-_.!~*'()$,&+=?#é", "t", 0)], nodes: vec![] };
    assert!(into_xml(&p)
        .contains("<location>file://%2Fa-_.!~*'()%24%2C%26%2B%3D%3F%23%C3%A9</location>"));
}
