use dialoguer::dialog::parser::{Dialog, DialogNode, Event};
use dialoguer::editor::timeline::{Selection, Timeline, TimelineBlockType};

fn s(x: &str) -> String {
    x.to_string()
}

fn two_speakers() -> Timeline {
    let mut t = Timeline::new();
    t.push_back_container(s("Player"));
    t.push_back_container(s("NPC"));
    t.container_mut(0).add_block(TimelineBlockType::Text(s("Hello")));
    t.container_mut(0).add_block(TimelineBlockType::Wait(s("1.5")));
    t.container_mut(1).add_block(TimelineBlockType::Text(s("Hi!")));
    t
}

#[test]
fn containers_and_blocks_take_ids_by_count() {
    let t = two_speakers();
    let cs = t.containers();
    assert_eq!(cs.len(), 2);
    assert_eq!((cs[0].id, cs[0].name.as_str()), (0, "Player"));
    assert_eq!((cs[1].id, cs[1].name.as_str()), (1, "NPC"));
    assert_eq!(cs[0].blocks.len(), 2);
    assert_eq!(cs[0].blocks[1].id, 1);
    assert_eq!(cs[0].blocks[1].value, TimelineBlockType::Wait(s("1.5")));
}

#[test]
fn selection_by_id_and_position() {
    let mut t = two_speakers();
    assert_eq!(t.get_selected(), None);
    t.select_container(1);
    assert_eq!(t.get_selected(), Some(Selection::Container(1)));
    t.select_block(0, 1);
    assert_eq!(t.get_selected(), Some(Selection::Block(0, 0, 1)));
    // A selected block follows its container when containers move.
    t.move_container(0, 1);
    assert_eq!(t.get_selected(), Some(Selection::Block(0, 1, 1)));
    t.select_block(0, 7);
    assert_eq!(t.get_selected(), None);
    t.select_container(9);
    assert_eq!(t.get_selected(), None);
}

#[test]
fn deleting_blocks_and_containers_by_id() {
    let mut t = two_speakers();
    t.delete_block(0, 0);
    assert_eq!(t.containers()[0].blocks.len(), 1);
    assert_eq!(t.containers()[0].blocks[0].id, 1);
    t.delete_block(0, 5);
    t.delete_block(4, 1);
    assert_eq!(t.containers()[0].blocks.len(), 1);
    t.delete_container(0);
    assert_eq!(t.containers().len(), 1);
    assert_eq!(t.containers()[0].name, "NPC");
    t.delete_container(0);
    assert_eq!(t.containers().len(), 1);
}

#[test]
fn moving_blocks_within_a_container() {
    let mut t = two_speakers();
    t.move_block(0, 0, 1);
    let ids: Vec<usize> = t.containers()[0].blocks.iter().map(|b| b.id).collect();
    assert_eq!(ids, vec![1, 0]);
}

#[test]
fn export_gives_a_node_per_container_with_block_events() {
    let mut t = two_speakers();
    t.container_mut(1).add_block(TimelineBlockType::SetParams {
        parameters: vec![(s("MyEnum"), s("Value2"))],
        anim: s("Wave"),
    });
    assert_eq!(
        t.export_to_dialog(),
        Dialog::Conversation(vec![
            DialogNode {
                label: s("Player"),
                events: vec![Event::Text(s("Hello")), Event::Wait(s("1.5"))],
            },
            DialogNode {
                label: s("NPC"),
                events: vec![
                    Event::Text(s("Hi!")),
                    Event::SetAnim(s("Wave")),
                    Event::SetParameter(s("MyEnum"), s("Value2")),
                ],
            },
        ])
    );
}

#[test]
fn an_empty_set_block_exports_an_empty_animation() {
    let mut t = Timeline::new();
    t.push_back_container(s("A"));
    t.container_mut(0).add_block(TimelineBlockType::empty_set());
    assert_eq!(
        t.export_to_dialog(),
        Dialog::Conversation(vec![DialogNode { label: s("A"), events: vec![Event::SetAnim(s(""))] }])
    );
}

#[test]
fn a_cloned_timeline_is_equal_in_content() {
    let t = two_speakers();
    let c = t.clone();
    assert_eq!(c.containers(), t.containers());
    assert_eq!(c.export_to_dialog(), t.export_to_dialog());
}

fn set_block(params: &[(&str, &str)]) -> TimelineBlockType {
    TimelineBlockType::SetParams {
        parameters: params.iter().map(|(a, b)| (s(a), s(b))).collect(),
        anim: s("Idle"),
    }
}

#[test]
fn set_block_parameters_move_within_bounds() {
    let mut b = set_block(&[("A", "1"), ("B", "2"), ("C", "3")]);
    b.move_parameter(1, true);
    assert_eq!(b, set_block(&[("B", "2"), ("A", "1"), ("C", "3")]));
    b.move_parameter(1, false);
    assert_eq!(b, set_block(&[("B", "2"), ("C", "3"), ("A", "1")]));
    // Nothing moves past either end.
    b.move_parameter(0, true);
    b.move_parameter(2, false);
    assert_eq!(b, set_block(&[("B", "2"), ("C", "3"), ("A", "1")]));
}

#[test]
fn set_block_parameters_are_removed_and_added() {
    let mut b = set_block(&[("A", "1"), ("B", "2")]);
    b.remove_parameter(0);
    assert_eq!(b, set_block(&[("B", "2")]));
    b.push_parameter(s("C"), s("3"));
    assert_eq!(b, set_block(&[("B", "2"), ("C", "3")]));
    let mut t = TimelineBlockType::Text(s("x"));
    t.push_parameter(s("C"), s("3"));
    t.move_parameter(0, true);
    assert_eq!(t, TimelineBlockType::Text(s("x")));
}
