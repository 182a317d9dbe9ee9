//! The realized playlist tree and its mathematical model.
use vstd::prelude::*;

verus! {

/// A node of the realized playlist: a directory with ordered children, or a
/// file that refers to a track of the registry by its index.
pub enum PlaylistNode {
    Dir { title: String, nodes: Vec<PlaylistNode> },
    File(usize, String),
}

/// Mathematical model of a playlist node.
pub enum Tree {
    Dir(Seq<char>, Seq<Tree>),
    Leaf(nat, Seq<char>),
}

impl PlaylistNode {
    pub open spec fn view(&self) -> Tree
        decreases self,
    {
        match self {
            PlaylistNode::Dir { title, nodes } => Tree::Dir(title@, view_list(nodes@)),
            PlaylistNode::File(idx, name) => Tree::Leaf(*idx as nat, name@),
        }
    }
}

/// The models of a sequence of nodes, in order.
pub open spec fn view_list(s: Seq<PlaylistNode>) -> Seq<Tree>
    decreases s,
{
    if s.len() == 0 {
        Seq::empty()
    } else {
        view_list(s.drop_last()).push(s.last().view())
    }
}

} // verus!

verus! {

/// The model of a sequence of nodes is the model of each.
pub proof fn lemma_view_list(s: Seq<PlaylistNode>)
    ensures
        view_list(s) == s.map_values(|n: PlaylistNode| n@),
    decreases s.len(),
{
    if s.len() > 0 {
        lemma_view_list(s.drop_last());
    }
    assert(view_list(s) =~= s.map_values(|n: PlaylistNode| n@));
}

} // verus!
