use dialoguer::dialog::manager::DialogManager;
use dialoguer::dialog::parser::{dialog_block_lexer, Dialog, DialogNode, Event};
use dialoguer::editor::graph::{ExportError, Graph, GraphGroup, Node, OrderedNode};
use dialoguer::editor::timeline::TimelineBlockType;

const README_SCRIPT: &str = "[[Choicer]]
-> Option 1
  @jump <Conversation>
===

[Conversation]
Player:
  @setmainchoicer [[Choicer]]
  Hello
===";

fn manager(script: &str) -> DialogManager {
    let tokens = dialog_block_lexer(script).expect("script lexes");
    DialogManager::new_from_tokens(tokens).expect("script parses")
}

fn readme_graph() -> Graph {
    Graph::new(&manager(README_SCRIPT))
}

fn s(x: &str) -> String {
    x.to_string()
}

// Ids from 1: the choicer takes its input (1), its option's output (2) and
// its node (3); the conversation its node (4), input (5) and output (6);
// then the link of the jump (7) and the flow link of the main choicer (8).

#[test]
fn graph_of_a_manager_has_a_node_per_dialog_in_natural_order() {
    let g = readme_graph();
    match g.get_node_by_id(3) {
        Some(Node::Choicer { name, options, input, outputs, .. }) => {
            assert_eq!(name, "Choicer");
            assert_eq!(options, &vec![s("Option 1")]);
            assert_eq!(*input, 1);
            assert_eq!(outputs, &vec![2]);
        }
        _ => panic!("expected the choicer"),
    }
    match g.get_node_by_id(4) {
        Some(Node::Conversation { name, input, output, .. }) => {
            assert_eq!(name, "Conversation");
            assert_eq!((*input, *output), (5, 6));
        }
        _ => panic!("expected the conversation"),
    }
    assert_eq!(g.get_node_by_name("Conversation").map(|n| n.id()), Some(4));
    assert!(g.get_node_by_name("Missing").is_none());
    assert!(g.has_node_a_timeline(4));
    assert!(!g.has_node_a_timeline(3));
}

#[test]
fn graph_links_follow_jumps_and_main_choicers() {
    let g = readme_graph();
    assert_eq!(g.follow(2).map(|n| n.id()), Some(4));
    assert!(g.follow(6).is_none());
    assert_eq!(g.flow_follow(6).map(|n| n.id()), Some(3));
    assert!(g.flow_follow(2).is_none());
}

#[test]
fn natural_order_puts_numbers_by_value() {
    let script = "[Scene 10]\nA:\n  x\n===\n[Scene 9]\nA:\n  y\n===";
    let mut g = Graph::new(&manager(script));
    // "Scene 10" gets ids 1..3 and "Scene 9" ids 4..6; deleting the first
    // node in order removes "Scene 9".
    g.delete_node(0);
    assert!(g.get_node_by_id(4).is_none());
    assert!(g.get_node_by_id(1).is_some());
}

#[test]
fn export_reports_a_missing_node() {
    let g = readme_graph();
    assert_eq!(g.export_to_dialog(99), Err(ExportError::NodeNotFound));
}

#[test]
fn export_of_an_empty_conversation_with_a_flow_link_fails() {
    // The conversation's timeline is empty and it has a flow link but no
    // link, so the main choicer has no node to go on.
    let g = readme_graph();
    assert_eq!(g.export_to_dialog(4), Err(ExportError::EmptyNode));
    assert_eq!(g.export_to_dialog(3), Err(ExportError::EmptyNode));
}

#[test]
fn export_walks_links_breadth_first() {
    let mut g = readme_graph();
    // Give the conversation a line, so that it exports.
    g.select_node(Some(4));
    {
        let t = g.get_mut_selected_timeline().expect("conversation timeline");
        t.push_back_container(s("NPC"));
        t.container_mut(0).add_block(TimelineBlockType::Text(s("Hi")));
    }
    let dialogs = g.export_to_dialog(3).expect("exports");
    assert_eq!(dialogs.len(), 2);
    assert_eq!(dialogs[0].0, "Choicer");
    assert_eq!(
        dialogs[0].1,
        Dialog::Choicer(vec![DialogNode {
            label: s("Option 1"),
            events: vec![Event::Jump(s("Conversation"))],
        }])
    );
    assert_eq!(dialogs[1].0, "Conversation");
    assert_eq!(
        dialogs[1].1,
        Dialog::Conversation(vec![DialogNode {
            label: s("NPC"),
            events: vec![Event::SetMainChoicer(s("Choicer")), Event::Text(s("Hi"))],
        }])
    );
}

#[test]
fn export_adds_a_player_node_for_a_conversation_link() {
    let mut g = readme_graph();
    let a = g.add_conversation(s("A"));
    assert_eq!(a, 9);
    // Without its flow link the empty conversation exports to no node.
    g.toggle_flow_link_editing();
    g.disconnect(8);
    g.toggle_flow_link_editing();
    // A's output (11) to the choicer's input (1), dragged either way.
    g.connect(1, 11);
    assert_eq!(g.follow(11).map(|n| n.id()), Some(3));
    let dialogs = g.export_to_dialog(a).expect("exports");
    assert_eq!(dialogs[0].0, "A");
    assert_eq!(
        dialogs[0].1,
        Dialog::Conversation(vec![DialogNode {
            label: s("Player"),
            events: vec![Event::Jump(s("Choicer"))],
        }])
    );
    assert_eq!(dialogs[1].0, "Choicer");
    assert_eq!(dialogs[2], (s("Conversation"), Dialog::Conversation(vec![])));
    assert_eq!(dialogs.len(), 3);
}

#[test]
fn undo_and_redo_an_added_conversation() {
    let mut g = readme_graph();
    let id = g.add_conversation(s("New"));
    assert!(g.get_node_by_id(id).is_some());
    assert!(g.has_node_a_timeline(id));
    g.undo();
    assert!(g.get_node_by_id(id).is_none());
    assert!(!g.has_node_a_timeline(id));
    g.redo();
    assert_eq!(g.get_node_by_id(id).map(|n| n.name().clone()), Some(s("New")));
    assert!(g.has_node_a_timeline(id));
    // Nothing more to redo.
    g.redo();
    assert!(g.get_node_by_id(id).is_some());
}

#[test]
fn undo_of_a_choicer_and_a_new_edit_clears_redo() {
    let mut g = readme_graph();
    let c = g.add_choicer(s("Pick"));
    g.undo();
    assert!(g.get_node_by_id(c).is_none());
    let d = g.add_conversation(s("Other"));
    g.redo();
    assert!(g.get_node_by_id(c).is_none());
    assert!(g.get_node_by_id(d).is_some());
}

#[test]
fn connecting_an_output_replaces_its_link_and_undo_restores_it() {
    let mut g = readme_graph();
    // The choicer's option (2) leads to the conversation (input 5); link it
    // to a new conversation instead.
    let b = g.add_conversation(s("B"));
    let b_input = b + 1;
    g.connect(2, b_input);
    assert_eq!(g.follow(2).map(|n| n.id()), Some(b));
    g.undo();
    assert_eq!(g.follow(2).map(|n| n.id()), Some(4));
    g.redo();
    assert_eq!(g.follow(2).map(|n| n.id()), Some(b));
}

#[test]
fn connecting_two_inputs_or_unknown_pins_changes_nothing() {
    let mut g = readme_graph();
    g.connect(1, 5);
    g.connect(2, 100);
    assert_eq!(g.follow(2).map(|n| n.id()), Some(4));
    // Undo goes back past the ignored drags: nothing was recorded.
    g.undo();
    assert_eq!(g.follow(2).map(|n| n.id()), Some(4));
}

#[test]
fn flow_link_editing_connects_flow_links() {
    let mut g = readme_graph();
    assert!(!g.is_flow_link_editing());
    g.toggle_flow_link_editing();
    assert!(g.is_flow_link_editing());
    g.connect(2, 5);
    assert_eq!(g.flow_follow(2).map(|n| n.id()), Some(4));
    assert_eq!(g.follow(2).map(|n| n.id()), Some(4));
}

#[test]
fn disconnect_removes_a_link_and_undo_puts_it_back() {
    let mut g = readme_graph();
    g.disconnect(7);
    assert!(g.follow(2).is_none());
    g.undo();
    assert_eq!(g.follow(2).map(|n| n.id()), Some(4));
    // The flow link 8 is not a link.
    g.disconnect(8);
    assert_eq!(g.flow_follow(6).map(|n| n.id()), Some(3));
    g.toggle_flow_link_editing();
    g.disconnect(8);
    assert!(g.flow_follow(6).is_none());
}

#[test]
fn deleting_a_node_drops_its_links_and_undo_restores_them() {
    let mut g = readme_graph();
    g.select_node(Some(4));
    g.delete_selected_node();
    assert!(g.get_node_by_id(4).is_none());
    assert!(!g.has_node_a_timeline(4));
    assert!(g.follow(2).is_none());
    assert!(g.flow_follow(6).is_none());
    g.undo();
    assert!(g.get_node_by_id(4).is_some());
    assert!(g.has_node_a_timeline(4));
    assert_eq!(g.follow(2).map(|n| n.id()), Some(4));
    assert_eq!(g.flow_follow(6).map(|n| n.id()), Some(3));
    g.redo();
    assert!(g.get_node_by_id(4).is_none());
    assert!(g.follow(2).is_none());
}

#[test]
fn choicer_options_come_and_go_with_their_pins() {
    let mut g = readme_graph();
    g.add_choicer_option(3, s("Option 2"));
    match g.get_node_by_id(3) {
        Some(Node::Choicer { options, outputs, .. }) => {
            assert_eq!(options, &vec![s("Option 1"), s("Option 2")]);
            assert_eq!(outputs, &vec![2, 9]);
        }
        _ => panic!("expected the choicer"),
    }
    // A conversation takes no options, but the pin id is used up.
    g.add_choicer_option(4, s("Ignored"));
    assert_eq!(g.add_conversation(s("Next")), 11);
    g.remove_choicer_option(3, 0);
    match g.get_node_by_id(3) {
        Some(Node::Choicer { options, outputs, .. }) => {
            assert_eq!(options, &vec![s("Option 2")]);
            assert_eq!(outputs, &vec![9]);
        }
        _ => panic!("expected the choicer"),
    }
    assert!(g.follow(2).is_none());
}

#[test]
fn renaming_and_selecting_nodes() {
    let mut g = readme_graph();
    assert!(g.get_selected_node().is_none());
    assert!(g.get_selected_timeline().is_none());
    g.select_node(Some(4));
    assert_eq!(g.get_selected_node_id(), Some(4));
    assert!(g.get_selected_timeline().is_some());
    g.rename_node(4, s("Renamed"));
    assert_eq!(g.get_selected_node().map(|n| n.name().clone()), Some(s("Renamed")));
    g.select_node(Some(3));
    assert!(g.get_selected_timeline().is_none());
    assert!(g.get_mut_selected_timeline().is_none());
}

fn ids(groups: &[dialoguer::editor::graph::GraphGroup]) -> Vec<Vec<usize>> {
    groups.iter().map(|g| g.nodes.clone()).collect()
}

fn walk(order: &[OrderedNode]) -> Vec<(usize, usize)> {
    order.iter().map(|o| (o.id, o.depth)).collect()
}

#[test]
fn linked_nodes_form_one_group_and_the_rest_their_own() {
    let mut g = readme_graph();
    assert_eq!(ids(&g.connected_components()), vec![vec![3, 4]]);
    g.add_conversation(s("Alone"));
    assert_eq!(ids(&g.connected_components()), vec![vec![3, 4], vec![9]]);
}

#[test]
fn a_group_is_walked_from_the_node_no_link_enters() {
    let g = readme_graph();
    let group = GraphGroup { nodes: vec![4, 3] };
    assert_eq!(walk(&g.order_group(&group)), vec![(3, 0), (4, 1)]);
}

#[test]
fn a_cycle_is_walked_from_the_group_first_node() {
    let mut g = readme_graph();
    // The conversation's output back to the choicer's input.
    g.connect(6, 1);
    let groups = g.connected_components();
    assert_eq!(ids(&groups), vec![vec![3, 4]]);
    assert_eq!(walk(&g.order_group(&groups[0])), vec![(3, 0), (4, 1)]);
    let reversed = GraphGroup { nodes: vec![4, 3] };
    assert_eq!(walk(&g.order_group(&reversed)), vec![(4, 0), (3, 1)]);
}

#[test]
fn nodes_out_of_reach_start_walks_of_their_own() {
    let mut g = readme_graph();
    let a = g.add_conversation(s("A"));
    let group = GraphGroup { nodes: vec![3, 4, a] };
    assert_eq!(walk(&g.order_group(&group)), vec![(3, 0), (4, 1), (a, 0)]);
}

#[test]
fn undo_and_redo_keep_link_ids_apart_after_an_option_leaves() {
    let mut g = readme_graph();
    // Link 9 replaces link 7 on the option's pin 2.
    g.connect(2, 5);
    // Removing the option drops its pin and link 9, unrecorded.
    g.remove_choicer_option(3, 0);
    assert!(g.follow(2).is_none());
    // Undoing the connection brings link 7 back; redoing swaps it for 9.
    g.undo();
    assert_eq!(g.follow(2).map(|n| n.id()), Some(4));
    g.redo();
    assert_eq!(g.follow(2).map(|n| n.id()), Some(4));
    // One link with id 9: removing it leaves none from the pin.
    g.disconnect(9);
    assert!(g.follow(2).is_none());
    g.undo();
    g.redo();
    assert!(g.follow(2).is_none());
}

#[test]
fn ids_are_handed_out_once() {
    let mut g = readme_graph();
    // After the eight ids of the script's nodes and links.
    let a = g.add_conversation(s("A"));
    let b = g.add_choicer(s("B"));
    assert_eq!(a, 9);
    assert_eq!(b, 12);
    g.undo();
    g.undo();
    assert!(g.get_node_by_id(9).is_none());
    g.redo();
    g.redo();
    assert_eq!(g.get_node_by_name("A").map(|n| n.id()), Some(9));
    assert_eq!(g.get_node_by_name("B").map(|n| n.id()), Some(12));
    // A new edit after them takes the next id.
    assert_eq!(g.add_conversation(s("C")), 14);
}

#[test]
fn each_edit_takes_the_next_ids_in_turn() {
    let mut g = readme_graph();
    g.add_choicer_option(3, s("Option 2"));
    match g.get_node_by_id(3) {
        Some(Node::Choicer { outputs, .. }) => assert_eq!(outputs, &vec![2, 9]),
        _ => panic!("expected the choicer"),
    }
    // The new link takes id 10: removing it leaves the option unlinked.
    g.connect(9, 5);
    assert_eq!(g.follow(9).map(|n| n.id()), Some(4));
    g.disconnect(10);
    assert!(g.follow(9).is_none());
    // Dragging two inputs together hands out nothing.
    g.connect(1, 5);
    assert_eq!(g.add_choicer(s("D")), 11);
    match g.get_node_by_id(11) {
        Some(Node::Choicer { input, .. }) => assert_eq!(*input, 12),
        _ => panic!("expected the new choicer"),
    }
}
