use family_tree::assets::AssetHandle;
use family_tree::family::Node;
use family_tree::family_row::{
    add_partners_to_children, add_partners_to_row, children_row, incident_edges_of, is_placed,
};
use family_tree::graph::{Edge, GraphData};

type Tree = GraphData<Node, (i32, i32), u8>;
type Edges = Vec<(Option<Edge>, Option<Edge>)>;

fn character(id: u32) -> Node {
    Node::Character(AssetHandle::from_id(id))
}

/// A family (0) with partners 1 and 2 above it and children 3 and 4 below;
/// child 4 has a partner 5 through family 6, joined on 4's `side`. Where
/// `partner_first`, the partner's connection to family 6 comes before the
/// child's.
fn tree(side: Edge, partner_first: bool) -> (Tree, Edges) {
    let mut g: Tree = GraphData::new();
    g.add(Node::Family, (0, 0));
    for id in 1..6 {
        g.add(character(id), (0, 0));
    }
    g.add(Node::Family, (0, 0));
    let mut edges: Edges = Vec::new();
    g.connect(0, 1, 1, 2).unwrap();
    edges.push((Some(Edge::Top), Some(Edge::Right)));
    g.connect(0, 3, 2, 4).unwrap();
    edges.push((Some(Edge::Top), Some(Edge::Left)));
    g.connect(0, 5, 3, 6).unwrap();
    edges.push((Some(Edge::Bottom), Some(Edge::Top)));
    g.connect(0, 7, 4, 8).unwrap();
    edges.push((Some(Edge::Bottom), Some(Edge::Top)));
    let partner_side = if side == Edge::Right { Edge::Left } else { Edge::Right };
    if partner_first {
        g.connect(5, 9, 6, 10).unwrap();
        edges.push((Some(partner_side), Some(Edge::Top)));
        g.connect(4, 11, 6, 12).unwrap();
        edges.push((Some(side), Some(Edge::Top)));
    } else {
        g.connect(4, 11, 6, 12).unwrap();
        edges.push((Some(side), Some(Edge::Top)));
        g.connect(5, 9, 6, 10).unwrap();
        edges.push((Some(partner_side), Some(Edge::Top)));
    }
    (g, edges)
}

fn start(g: &Tree, edges: &Edges, family: usize) -> Vec<(usize, Option<usize>)> {
    children_row(g, edges, family).into_iter().map(|c| (c, None)).collect()
}

#[test]
fn incident_edges_are_seen_from_the_node() {
    let (g, edges) = tree(Edge::Right, true);
    assert_eq!(
        incident_edges_of(&g, &edges, 0),
        vec![
            (Some(Edge::Top), 1),
            (Some(Edge::Top), 2),
            (Some(Edge::Bottom), 3),
            (Some(Edge::Bottom), 4),
        ]
    );
    assert_eq!(
        incident_edges_of(&g, &edges, 6),
        vec![(Some(Edge::Top), 5), (Some(Edge::Top), 4)]
    );
}

#[test]
fn the_row_holds_the_children_hanging_from_the_bottom() {
    let (g, edges) = tree(Edge::Right, true);
    assert_eq!(children_row(&g, &edges, 0), vec![3, 4]);
    assert_eq!(children_row(&g, &edges, 6), Vec::<usize>::new());
}

#[test]
fn a_partner_on_the_right_is_placed_after_the_child() {
    let (g, edges) = tree(Edge::Right, true);
    let mut row = start(&g, &edges, 0);
    let counted = add_partners_to_children(&g, &edges, &mut row, &vec![4]);
    assert_eq!(row, vec![(3, None), (4, None), (5, Some(4))]);
    assert_eq!(counted, 1);
}

#[test]
fn a_partner_on_the_left_is_placed_before_the_child() {
    let (g, edges) = tree(Edge::Left, true);
    let mut row = start(&g, &edges, 0);
    let counted = add_partners_to_children(&g, &edges, &mut row, &vec![3]);
    assert_eq!(row, vec![(3, None), (5, Some(4)), (4, None)]);
    assert_eq!(counted, 0);
}

#[test]
fn a_child_that_made_the_family_gets_no_partner_from_it() {
    let (g, edges) = tree(Edge::Right, false);
    let mut row = start(&g, &edges, 0);
    let counted = add_partners_to_children(&g, &edges, &mut row, &vec![3, 4]);
    assert_eq!(row, vec![(3, None), (4, None)]);
    assert_eq!(counted, 0);
}

#[test]
fn measuring_the_row_puts_the_sides_the_other_way_round() {
    let (g, edges) = tree(Edge::Right, true);
    let mut row = start(&g, &edges, 0);
    assert_eq!(add_partners_to_row(&g, &edges, &mut row), 1);
    assert_eq!(row, vec![(3, None), (5, Some(4)), (4, None)]);

    let (g, edges) = tree(Edge::Left, true);
    let mut row = start(&g, &edges, 0);
    assert_eq!(add_partners_to_row(&g, &edges, &mut row), 1);
    assert_eq!(row, vec![(3, None), (4, None), (5, Some(4))]);
}

#[test]
fn a_slot_is_placed_when_its_node_or_its_child_is() {
    assert!(is_placed((5, Some(4)), &vec![4]));
    assert!(is_placed((5, Some(4)), &vec![5]));
    assert!(is_placed((3, None), &vec![3]));
    assert!(!is_placed((3, None), &vec![4]));
    assert!(!is_placed((5, Some(4)), &vec![3]));
}
