//! The family tree on top of the graph: its nodes are characters and
//! families, and connecting two characters side by side makes them
//! partners through a new family node.

use vstd::prelude::*;

use crate::assets::data::AssetsData;
use crate::assets::asset_path::AssetPathView;
use crate::assets::io::holds_all_below;
use crate::assets::kind::{Asset, AssetHandle, AssetKind, AssetsError, AssetView};
use crate::assets::character::{Character, CharacterView};
use crate::graph::connections::{Connection, Edge};
use crate::graph::data::{GraphData, NodeView};
use crate::text::concat;

verus! {

/// A node of the family tree.
#[derive(Debug, Clone, Copy, PartialEq, Eq, Structural)]
pub enum Node {
    /// A character, by the handle of its asset.
    Character(AssetHandle),
    /// A family: partners above it, children below.
    Family,
}

/// What a request to connect two attachments becomes.
#[derive(Debug, Clone, Copy, PartialEq, Eq, Structural)]
pub enum ConnectPlan {
    /// Nothing is connected.
    Ignore,
    /// The two attachments are connected as they are.
    Direct,
    /// The two characters become partners: a new family node hangs by its
    /// top from this side of the first one, and the second one is
    /// connected to the family's top.
    Partners(Edge),
}

/// Whether an attachment on this edge is on a side of its node.
pub open spec fn is_side(edge: Option<Edge>) -> bool {
    edge == Some(Edge::Left) || edge == Some(Edge::Right)
}

/// What connecting node `a` at `a_edge` to node `b` at `b_edge` becomes
/// (an edge is `None` for an attachment that is on no edge). A family
/// takes no connection on its sides; an attachment on no edge takes none;
/// a family takes any other; two characters take one only from the left
/// side of the first to the right side of the second, or the other way
/// round, which makes them partners.
pub open spec fn spec_plan(a_node: Node, a_edge: Option<Edge>, b_node: Node, b_edge: Option<Edge>) -> ConnectPlan {
    if (a_node is Family && is_side(a_edge)) || (b_node is Family && is_side(b_edge)) {
        ConnectPlan::Ignore
    } else if a_edge is None || b_edge is None {
        ConnectPlan::Ignore
    } else if a_node is Family || b_node is Family {
        ConnectPlan::Direct
    } else if a_edge == Some(Edge::Left) && b_edge == Some(Edge::Right) {
        ConnectPlan::Partners(Edge::Left)
    } else if a_edge == Some(Edge::Right) && b_edge == Some(Edge::Left) {
        ConnectPlan::Partners(Edge::Right)
    } else {
        ConnectPlan::Ignore
    }
}

/// Decides what connecting node `a` at `a_edge` to node `b` at `b_edge` becomes.
pub fn plan_connection(a_node: Node, a_edge: Option<Edge>, b_node: Node, b_edge: Option<Edge>) -> (res:
    ConnectPlan)
    ensures
        res == spec_plan(a_node, a_edge, b_node, b_edge),
{
    let a_side = a_edge == Some(Edge::Left) || a_edge == Some(Edge::Right);
    let b_side = b_edge == Some(Edge::Left) || b_edge == Some(Edge::Right);
    let a_family = a_node == Node::Family;
    let b_family = b_node == Node::Family;
    if (a_family && a_side) || (b_family && b_side) {
        return ConnectPlan::Ignore;
    }
    let (ae, be) = match (a_edge, b_edge) {
        (Some(ae), Some(be)) => (ae, be),
        _ => {
            return ConnectPlan::Ignore;
        },
    };
    if a_family || b_family {
        return ConnectPlan::Direct;
    }
    match (ae, be) {
        (Edge::Left, Edge::Right) => ConnectPlan::Partners(Edge::Left),
        (Edge::Right, Edge::Left) => ConnectPlan::Partners(Edge::Right),
        _ => ConnectPlan::Ignore,
    }
}

/// The attachments that a new family node is connected by: its top, and
/// the left and right sides of a character.
#[derive(Debug, Clone, Copy)]
pub struct FamilyAttachments<A> {
    pub top: A,
    pub left: A,
    pub right: A,
}

/// Connects attachment `a_attachment` (on edge `a_edge`) of node `a` to
/// attachment `b_attachment` (on edge `b_edge`) of node `b` as
/// `plan_connection` decides; a new family node is placed at `halfway`.
/// Returns the plan that was carried out.
pub fn connect_nodes<P: Copy, A: Copy + PartialEq>(
    graph: &mut GraphData<Node, P, A>,
    a: usize,
    a_attachment: A,
    a_edge: Option<Edge>,
    b: usize,
    b_attachment: A,
    b_edge: Option<Edge>,
    halfway: P,
    family: FamilyAttachments<A>,
) -> (res: ConnectPlan)
    requires
        a < old(graph)@.nodes.len(),
        b < old(graph)@.nodes.len(),
    ensures
        res == spec_plan(
            old(graph)@.nodes[a as int].data,
            a_edge,
            old(graph)@.nodes[b as int].data,
            b_edge,
        ),
        res is Ignore ==> final(graph)@ == old(graph)@,
        res is Direct ==> {
            &&& final(graph)@.nodes == old(graph)@.nodes
            &&& a != b ==> final(graph)@.connections == old(graph)@.connections.push(
                Connection::spec_new(a, a_attachment, b, b_attachment),
            )
            &&& final(graph)@.connections == old(graph)@.connections
                || final(graph)@.connections == old(graph)@.connections.push(
                Connection::spec_new(a, a_attachment, b, b_attachment),
            )
        },
        res matches ConnectPlan::Partners(side) ==> {
            let n = old(graph)@.nodes.len() as usize;
            let a_side = if side == Edge::Left {
                family.left
            } else {
                family.right
            };
            &&& final(graph)@.nodes == old(graph)@.nodes.push(
                NodeView { position: halfway, data: Node::Family, selected: false },
            )
            &&& final(graph)@.connections == old(graph)@.connections.push(
                Connection::spec_new(n, family.top, a, a_side),
            ).push(Connection::spec_new(b, b_attachment, n, family.top))
        },
{
    let a_node = *graph.get(a).unwrap().data();
    let b_node = *graph.get(b).unwrap().data();
    let plan = plan_connection(a_node, a_edge, b_node, b_edge);
    match plan {
        ConnectPlan::Ignore => {},
        ConnectPlan::Direct => {
            let _ = graph.connect(a, a_attachment, b, b_attachment);
        },
        ConnectPlan::Partners(side) => {
            let a_side = match side {
                Edge::Left => family.left,
                _ => family.right,
            };
            let _ = graph.attach_new(Node::Family, halfway, family.top, a, a_side);
            let family_node = graph.num_nodes() - 1;
            let _ = graph.connect(b, b_attachment, family_node, family.top);
        },
    }
    plan
}

/// What adding an asset to the tree asks for.
#[derive(Debug)]
pub enum AddToTree {
    /// Place a node for this character.
    Character(AssetHandle),
    /// A character could not be made for the image.
    Failed(AssetsError),
    /// The handle leads to no asset.
    Missing,
}

/// Adds the asset that `handle` leads to to the tree. A character is
/// placed as it is. For an image, a character named after the image's
/// file (up to its first `.`) is first added, in the file
/// `<name>.chara.ron`, and placed; `file_exists` tells whether that file
/// is in the characters folder.
pub fn add_asset_to_tree(assets: &mut AssetsData, handle: AssetHandle, file_exists: bool) -> (res:
    AddToTree)
    requires
        old(assets)@.index.len() < u32::MAX,
    ensures
        match old(assets)@.lookup(handle.spec_id()) {
            None => res is Missing && final(assets)@ == old(assets)@,
            Some(AssetView::Character(_)) => {
                &&& res == AddToTree::Character(handle)
                &&& final(assets)@ == old(assets)@
            },
            Some(AssetView::Image(_)) => {
                let name = crate::text::before_first(old(assets)@.index[handle.spec_id()].name, '.');
                &&& old(assets)@.folder is None ==> res == AddToTree::Failed(
                    AssetsError::NoFolderLoaded,
                )
                &&& old(assets)@.folder is Some && !file_exists ==> res == AddToTree::Failed(
                    AssetsError::FileNotFound,
                )
                &&& res is Failed ==> final(assets)@ == old(assets)@
                &&& old(assets)@.folder is Some && file_exists ==> res is Character
                &&& res matches AddToTree::Character(h) ==> {
                    let path = AssetPathView { kind: AssetKind::Character, name: name + ".chara.ron"@ };
                    let character = AssetView::Character(CharacterView { name: name, img: handle });
                    &&& final(assets)@.lookup(h.spec_id()) == Some(character)
                    &&& final(assets)@.index[h.spec_id()].name == name + ".chara.ron"@
                    &&& !old(assets)@.index.contains_key(h.spec_id())
                    &&& holds_all_below(old(assets)@.index.dom(), h.spec_id() as int)
                    &&& final(assets)@.index == old(assets)@.index.insert(h.spec_id(), path)
                    &&& final(assets)@.assets == old(assets)@.assets.insert(path, character)
                    &&& final(assets)@.folder == old(assets)@.folder
                    &&& final(assets)@.failed == old(assets)@.failed
                }
            },
        },
{
    let is_image = match assets.get(handle) {
        None => {
            return AddToTree::Missing;
        },
        Some(Asset::Character(_)) => {
            return AddToTree::Character(handle);
        },
        Some(Asset::Image(_)) => true,
    };
    let name = String::from_str(assets.path(handle).unwrap().name());
    let file_name = concat(name.as_str(), ".chara.ron");
    let character = Character { name, img: handle };
    match assets.add(file_name, Asset::Character(character), file_exists) {
        Ok(h) => AddToTree::Character(h),
        Err(err) => AddToTree::Failed(err),
    }
}

} // verus!
