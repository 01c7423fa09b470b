use family_tree::assets::AssetHandle;
use family_tree::family::{
    connect_nodes, plan_connection, ConnectPlan, FamilyAttachments, Node,
};
use family_tree::graph::deletion::deletion_indices;
use family_tree::graph::cursor::{cursor_step, CursorStep, DragAction, MouseButton, Pointed};
use family_tree::graph::gestures::{ConnectRequest, SelectionToggle};
use family_tree::graph::layout::LayoutStep;
use family_tree::graph::line_styles::{AxisAligned, Bezier, Direct};
use family_tree::graph::{Edge, GraphData, GraphError, GraphNode};

type Graph = GraphData<&'static str, (i32, i32), u8>;

fn chain() -> Graph {
    // 0 - 1, 0 - 2, 1 - 3
    let mut g: Graph = GraphData::new();
    g.add("a", (0, 0));
    g.add("b", (1, 0));
    g.add("c", (2, 0));
    g.add("d", (3, 0));
    g.connect(0, 1, 1, 2).unwrap();
    g.connect(0, 3, 2, 4).unwrap();
    g.connect(1, 5, 3, 6).unwrap();
    g
}

#[test]
fn nodes_are_added_in_order() {
    let g = chain();
    assert_eq!(g.num_nodes(), 4);
    assert_eq!(*g.get(2).unwrap().data(), "c");
    assert_eq!(g.get(2).unwrap().position(), (2, 0));
    assert!(!g.get(2).unwrap().selected());
    assert!(g.get(4).is_none());
    assert_eq!(g.iter().len(), 4);
}

#[test]
fn graph_node_moves() {
    let mut n = GraphNode::new((1, 2), 7u8);
    n.move_to((5, 6));
    assert_eq!(n.position(), (5, 6));
    assert_eq!(*n.data(), 7);
    let mut g = chain();
    g.get_mut(1).unwrap().move_to((9, 9));
    assert_eq!(g.get(1).unwrap().position(), (9, 9));
    assert!(g.get_mut(17).is_none());
    *g.get_mut(0).unwrap().data_mut() = "z";
    assert_eq!(*g.get(0).unwrap().data(), "z");
    assert_eq!(g.connections().len(), 3);
    assert_eq!(g.connections()[2].a.0, 1);
}

#[test]
fn connect_refuses_nodes_past_the_end() {
    let mut g = chain();
    assert!(matches!(g.connect(5, 0, 0, 0), Err(GraphError::NodeNotFound(5))));
    assert!(matches!(g.connect(0, 0, 6, 0), Err(GraphError::NodeNotFound(6))));
    // an index equal to the number of nodes passes
    assert!(g.connect(0, 0, 4, 0).is_ok());
    assert_eq!(g.get_connections(0).len(), 3);
}

#[test]
fn connecting_an_attachment_to_itself_does_nothing() {
    let mut g = chain();
    assert!(g.connect(2, 9, 2, 9).is_ok());
    assert_eq!(g.get_connections(2).len(), 1);
    assert!(g.connect(2, 9, 2, 8).is_ok());
    // a connection from a node to itself is seen once from it
    assert_eq!(g.get_connections(2).len(), 2);
}

#[test]
fn connections_seen_from_a_node() {
    let g = chain();
    let from_zero: Vec<(u8, usize, u8)> =
        g.get_connections(0).iter().map(|(a, n, b)| (**a, *n, **b)).collect();
    assert_eq!(from_zero, vec![(1, 1, 2), (3, 2, 4)]);
    let from_one: Vec<(u8, usize, u8)> =
        g.get_connections(1).iter().map(|(a, n, b)| (**a, *n, **b)).collect();
    assert_eq!(from_one, vec![(2, 0, 1), (5, 3, 6)]);
    let indexed: Vec<(usize, u8, usize, u8)> =
        g.get_connections_indexed(1).iter().map(|(i, a, n, b)| (*i, **a, *n, **b)).collect();
    assert_eq!(indexed, vec![(0, 2, 0, 1), (2, 5, 3, 6)]);
    let neighbours: Vec<&str> = g.get_connected_nodes(1).iter().map(|n| *n.data()).collect();
    assert_eq!(neighbours, vec!["a", "d"]);
}

#[test]
fn disconnect_and_remove_connection() {
    let mut g = chain();
    g.connect(1, 7, 0, 8).unwrap();
    g.disconnect_all(0, 1);
    assert_eq!(g.get_connections(0).len(), 1);
    assert_eq!(g.get_connections(1).len(), 1);
    g.remove_connection(0);
    assert_eq!(g.get_connections(0).len(), 0);
}

#[test]
fn removing_a_node_renumbers_the_rest() {
    let mut g = chain();
    g.remove(1);
    assert_eq!(g.num_nodes(), 3);
    assert_eq!(*g.get(1).unwrap().data(), "c");
    assert_eq!(*g.get(2).unwrap().data(), "d");
    // only 0 - 2 (now 0 - 1) is left
    let from_zero: Vec<(u8, usize, u8)> =
        g.get_connections(0).iter().map(|(a, n, b)| (**a, *n, **b)).collect();
    assert_eq!(from_zero, vec![(3, 1, 4)]);
    assert_eq!(g.get_connections(2).len(), 0);
}

#[test]
fn selection() {
    let mut g = chain();
    assert_eq!(g.selection(), Vec::<usize>::new());
    g.select(2);
    g.select(0);
    g.select(10);
    assert_eq!(g.selection(), vec![0, 2]);
    assert!(matches!(g.is_selected(2), Ok(true)));
    assert!(matches!(g.is_selected(1), Ok(false)));
    assert!(matches!(g.is_selected(9), Err(GraphError::NodeNotFound(9))));
    g.deselect(0);
    assert_eq!(g.selection(), vec![2]);
    g.select_all();
    assert_eq!(g.selection(), vec![0, 1, 2, 3]);
    g.clear_selection();
    assert_eq!(g.selection(), Vec::<usize>::new());
}

#[test]
fn attach_new_adds_and_connects() {
    let mut g = chain();
    assert!(g.attach_new("e", (4, 4), 1, 3, 2).is_ok());
    assert_eq!(g.num_nodes(), 5);
    let from_new: Vec<(u8, usize, u8)> =
        g.get_connections(4).iter().map(|(a, n, b)| (**a, *n, **b)).collect();
    assert_eq!(from_new, vec![(1, 3, 2)]);
    assert!(matches!(g.attach_new("f", (0, 0), 1, 9, 2), Err(GraphError::NodeNotFound(9))));
    assert_eq!(g.num_nodes(), 5);
}

#[test]
fn depth_first_walk_comes_back_to_each_node() {
    let mut g: Graph = GraphData::new();
    g.add("a", (0, 0));
    g.add("b", (0, 0));
    g.add("c", (0, 0));
    g.connect(0, 0, 1, 0).unwrap();
    g.connect(0, 0, 2, 0).unwrap();
    let mut it = g.iter_dfs(0);
    let mut seen = Vec::new();
    while let Some((i, _)) = it.next() {
        seen.push(i);
    }
    assert_eq!(seen, vec![0, 0, 1, 0, 2]);
}

#[test]
fn breadth_first_walk_yields_each_node_once() {
    let g = chain();
    let mut it = g.iter_bfs(0);
    let mut seen = Vec::new();
    while let Some((i, node)) = it.next() {
        seen.push((i, *node.data()));
    }
    assert_eq!(seen, vec![(0, "a"), (1, "b"), (2, "c"), (3, "d")]);
}

#[test]
fn traverse_iter_lists_nodes_in_depth_first_order() {
    let g = chain();
    let order: Vec<usize> = g.traverse_iter(None).iter().map(|(i, _)| *i).collect();
    assert_eq!(order, vec![0, 1, 3, 2]);
    let from_two: Vec<usize> = g.traverse_iter(Some(2)).iter().map(|(i, _)| *i).collect();
    assert_eq!(from_two, vec![2, 0, 1, 3]);
    assert!(g.traverse_iter(Some(4)).is_empty());
    let mut lonely: Graph = GraphData::new();
    lonely.add("x", (0, 0));
    lonely.add("y", (0, 0));
    let only: Vec<usize> = lonely.traverse_iter(Some(1)).iter().map(|(i, _)| *i).collect();
    assert_eq!(only, vec![1]);
}

#[test]
fn line_styles_exist() {
    let _ = (Direct, AxisAligned, Bezier);
    assert_ne!(Edge::Top, Edge::Bottom);
}

#[test]
fn plan_for_two_characters() {
    let a = Node::Character(AssetHandle::from_id(0));
    let b = Node::Character(AssetHandle::from_id(1));
    assert_eq!(plan_connection(a, Some(Edge::Left), b, Some(Edge::Right)), ConnectPlan::Partners(Edge::Left));
    assert_eq!(plan_connection(a, Some(Edge::Right), b, Some(Edge::Left)), ConnectPlan::Partners(Edge::Right));
    assert_eq!(plan_connection(a, Some(Edge::Top), b, Some(Edge::Bottom)), ConnectPlan::Ignore);
    assert_eq!(plan_connection(a, None, b, Some(Edge::Left)), ConnectPlan::Ignore);
}

#[test]
fn plan_with_a_family() {
    let c = Node::Character(AssetHandle::from_id(0));
    let f = Node::Family;
    assert_eq!(plan_connection(c, Some(Edge::Top), f, Some(Edge::Bottom)), ConnectPlan::Direct);
    assert_eq!(plan_connection(f, Some(Edge::Top), c, Some(Edge::Left)), ConnectPlan::Direct);
    assert_eq!(plan_connection(f, Some(Edge::Left), c, Some(Edge::Top)), ConnectPlan::Ignore);
    assert_eq!(plan_connection(c, Some(Edge::Top), f, Some(Edge::Right)), ConnectPlan::Ignore);
    assert_eq!(plan_connection(c, Some(Edge::Top), f, None), ConnectPlan::Ignore);
}

#[test]
fn partners_get_a_family_node() {
    let mut g: GraphData<Node, (i32, i32), u8> = GraphData::new();
    g.add(Node::Character(AssetHandle::from_id(0)), (0, 0));
    g.add(Node::Character(AssetHandle::from_id(1)), (10, 0));
    let family = FamilyAttachments { top: 1u8, left: 4u8, right: 2u8 };
    let plan = connect_nodes(&mut g, 0, 2, Some(Edge::Right), 1, 4, Some(Edge::Left), (5, 0), family);
    assert_eq!(plan, ConnectPlan::Partners(Edge::Right));
    assert_eq!(g.num_nodes(), 3);
    assert_eq!(*g.get(2).unwrap().data(), Node::Family);
    assert_eq!(g.get(2).unwrap().position(), (5, 0));
    let from_family: Vec<(u8, usize, u8)> =
        g.get_connections(2).iter().map(|(a, n, b)| (**a, *n, **b)).collect();
    assert_eq!(from_family, vec![(1, 0, 2), (1, 1, 4)]);
}

#[test]
fn connect_nodes_direct_and_ignored() {
    let mut g: GraphData<Node, (i32, i32), u8> = GraphData::new();
    g.add(Node::Family, (0, 0));
    g.add(Node::Character(AssetHandle::from_id(1)), (0, 10));
    let family = FamilyAttachments { top: 1u8, left: 4u8, right: 2u8 };
    let plan = connect_nodes(&mut g, 0, 3, Some(Edge::Bottom), 1, 1, Some(Edge::Top), (0, 5), family);
    assert_eq!(plan, ConnectPlan::Direct);
    assert_eq!(g.get_connections(0).len(), 1);
    let plan = connect_nodes(&mut g, 0, 4, Some(Edge::Left), 1, 1, Some(Edge::Top), (0, 5), family);
    assert_eq!(plan, ConnectPlan::Ignore);
    assert_eq!(g.get_connections(0).len(), 1);
    assert_eq!(g.num_nodes(), 2);
}

#[test]
fn deletion_indices_follow_earlier_deletions() {
    assert_eq!(deletion_indices(&vec![1, 3, 4]), vec![1, 2, 2]);
    assert_eq!(deletion_indices(&vec![4, 1]), vec![4, 1]);
    assert_eq!(deletion_indices(&vec![2, 0, 5]), vec![2, 0, 3]);
    assert_eq!(deletion_indices(&Vec::new()), Vec::<usize>::new());
}

#[test]
fn deleting_the_selection_in_order() {
    let mut g = chain();
    g.select(1);
    g.select(3);
    let ids = g.selection_deletion_indices();
    assert_eq!(ids, vec![1, 2]);
    for id in ids {
        g.remove(id);
    }
    let left: Vec<&str> = g.iter().iter().map(|n| *n.data()).collect();
    assert_eq!(left, vec!["a", "c"]);
}

#[test]
fn find_connection_in_either_direction() {
    let g = chain();
    assert_eq!(g.find_connection(0, 1), Some(0));
    assert_eq!(g.find_connection(1, 0), Some(0));
    assert_eq!(g.find_connection(3, 1), Some(2));
    assert_eq!(g.find_connection(2, 3), None);
    assert!(g.is_well_formed());
    let mut broken = chain();
    broken.connect(0, 0, 4, 0).unwrap();
    assert!(!broken.is_well_formed());
}

#[test]
fn layout_walks_breadth_first_from_node_zero() {
    let g = chain();
    assert_eq!(
        g.layout_steps(),
        vec![
            LayoutStep::Root { node: 0, seen: 1 },
            LayoutStep::Child { node: 1, parent: 0, connection: 0, seen: 1 },
            LayoutStep::Child { node: 2, parent: 0, connection: 1, seen: 2 },
            LayoutStep::Child { node: 3, parent: 1, connection: 2, seen: 3 },
        ]
    );
}

#[test]
fn layout_starts_a_new_group_for_unreached_nodes() {
    let mut g: Graph = GraphData::new();
    g.add("a", (0, 0));
    g.add("b", (1, 0));
    g.add("c", (2, 0));
    g.connect(1, 1, 2, 2).unwrap();
    assert_eq!(
        g.layout_steps(),
        vec![
            LayoutStep::Root { node: 0, seen: 1 },
            LayoutStep::GroupEnd,
            LayoutStep::Root { node: 1, seen: 2 },
            LayoutStep::Child { node: 2, parent: 1, connection: 0, seen: 2 },
        ]
    );
}

#[test]
fn layout_of_an_empty_graph_is_empty() {
    let g: Graph = GraphData::new();
    assert!(g.layout_steps().is_empty());
}

#[test]
fn dropping_on_a_joined_node_undoes_the_old_connection_unless_similar_ones_are_allowed() {
    let g = chain();
    assert_eq!(
        g.connect_request(2, 0, false, false),
        ConnectRequest { disconnect: Some(1), connect: true }
    );
    assert_eq!(
        g.connect_request(2, 0, false, true),
        ConnectRequest { disconnect: None, connect: true }
    );
    assert_eq!(
        g.connect_request(2, 3, false, false),
        ConnectRequest { disconnect: None, connect: true }
    );
}

#[test]
fn dropping_on_the_same_node_connects_only_where_allowed() {
    let g = chain();
    assert_eq!(
        g.connect_request(3, 3, false, true),
        ConnectRequest { disconnect: None, connect: false }
    );
    assert_eq!(
        g.connect_request(3, 3, true, true),
        ConnectRequest { disconnect: None, connect: true }
    );
}

#[test]
fn a_click_deselects_by_place_in_the_selection_or_selects() {
    let mut g = chain();
    g.select(1);
    g.select(3);
    assert_eq!(g.toggle_request(3), SelectionToggle::Deselect(1));
    assert_eq!(g.toggle_request(1), SelectionToggle::Deselect(0));
    assert_eq!(g.toggle_request(2), SelectionToggle::Select(2));
}

#[test]
fn each_node_is_placed_once_by_the_layout() {
    let g = chain();
    let mut placed: Vec<usize> = g
        .layout_steps()
        .into_iter()
        .filter_map(|step| match step {
            LayoutStep::Root { node, .. } | LayoutStep::Child { node, .. } => Some(node),
            LayoutStep::GroupEnd => None,
        })
        .collect();
    placed.sort();
    assert_eq!(placed, vec![0, 1, 2, 3]);
}

#[test]
fn two_connections_to_a_new_node_place_it_twice() {
    let mut g: Graph = GraphData::new();
    g.add("a", (0, 0));
    g.add("b", (1, 0));
    g.connect(0, 1, 1, 2).unwrap();
    g.connect(0, 3, 1, 4).unwrap();
    assert_eq!(
        g.layout_steps(),
        vec![
            LayoutStep::Root { node: 0, seen: 1 },
            LayoutStep::Child { node: 1, parent: 0, connection: 0, seen: 1 },
            LayoutStep::Child { node: 1, parent: 0, connection: 1, seen: 2 },
            LayoutStep::GroupEnd,
        ]
    );
}

#[test]
fn dragging_keeps_on_and_asks_for_moves() {
    let bg = Pointed::Background;
    let node = Pointed::Node { id: 0, captured: false };
    assert_eq!(cursor_step(true, bg, None, false, false, 4, 3), CursorStep::Keep(DragAction::Pan));
    assert_eq!(cursor_step(true, node, None, false, false, 4, 3), CursorStep::Keep(DragAction::MoveNodes));
    assert_eq!(cursor_step(true, node, None, false, true, 4, 3), CursorStep::Keep(DragAction::Nothing));
    assert_eq!(
        cursor_step(true, Pointed::Node { id: 0, captured: true }, None, false, false, 4, 3),
        CursorStep::Keep(DragAction::Nothing)
    );
    assert_eq!(
        cursor_step(true, Pointed::SelectionRect, None, false, false, 4, 3),
        CursorStep::Keep(DragAction::Nothing)
    );
}

#[test]
fn hovering_turns_into_a_drag_by_button() {
    let left = Some(MouseButton::Left);
    let middle = Some(MouseButton::Middle);
    let bg = Pointed::Background;
    assert_eq!(cursor_step(false, bg, middle, false, false, 4, 3), CursorStep::Drag);
    assert_eq!(cursor_step(false, bg, left, false, false, 4, 3), CursorStep::DragSelection);
    assert_eq!(cursor_step(false, bg, None, false, false, 4, 3), CursorStep::Hover);
    let node = Pointed::Node { id: 2, captured: false };
    assert_eq!(cursor_step(false, node, middle, false, false, 4, 3), CursorStep::Drag);
    assert_eq!(cursor_step(false, node, left, true, false, 4, 3), CursorStep::Drag);
    assert_eq!(cursor_step(false, node, left, false, false, 4, 3), CursorStep::Hover);
    assert_eq!(cursor_step(false, node, middle, false, true, 4, 3), CursorStep::Hover);
    assert_eq!(
        cursor_step(false, Pointed::Node { id: 9, captured: false }, middle, false, false, 4, 3),
        CursorStep::HoverBackground
    );
    assert_eq!(
        cursor_step(false, Pointed::Node { id: 2, captured: true }, middle, false, false, 4, 3),
        CursorStep::HoverCapturedNode
    );
    let att = Pointed::Attachment { id: 1 };
    assert_eq!(cursor_step(false, att, left, false, false, 4, 3), CursorStep::Drag);
    assert_eq!(cursor_step(false, att, middle, false, false, 4, 3), CursorStep::Hover);
    let conn = Pointed::Connection { id: 1 };
    assert_eq!(cursor_step(false, conn, left, false, false, 4, 3), CursorStep::GrabConnection);
    assert_eq!(cursor_step(false, conn, None, false, false, 4, 3), CursorStep::Hover);
}
