use dialoguer::dialog::manager::{
    has_distinct_ids, DialogEntryPoint, DialogError, DialogManager, DialogPlayer, PlayerAction,
};
use dialoguer::dialog::parser::{dialog_block_lexer, dialog_parser, Block, Command, Dialog, Event, Token};

const README_SCRIPT: &str = "[[Choicer]]
-> Option 1
  @jump <Conversation>
===

[Conversation]
Player:
  @setmainchoicer [[Choicer]]
  @set AnimType.MyAnim
  @set MyEnum.Value1
  @set MyEnum1.NonControl
  Hello
NPC:
  Hi!
  @set MyEnum.Value2
  @wait 2
  How are you?
===";

fn s(x: &str) -> String {
    x.to_string()
}

fn manager(script: &str) -> DialogManager {
    let tokens = dialog_block_lexer(script).expect("script lexes");
    DialogManager::new_from_tokens(tokens).expect("script parses")
}

#[test]
fn readme_script_lexes_and_parses() {
    let tokens = dialog_block_lexer(README_SCRIPT).unwrap();
    assert_eq!(tokens[0], Token::Block(Block::Choicer("Choicer")));
    assert_eq!(tokens[2], Token::Command(Command::Jump("Conversation")));
    let entries = dialog_parser(&tokens).unwrap();
    assert_eq!(entries.len(), 2);
    assert_eq!(entries[0].0, "Choicer");
    assert_eq!(entries[1].0, "Conversation");
    match &entries[1].1 {
        Dialog::Conversation(nodes) => {
            assert_eq!(nodes.len(), 2);
            assert_eq!(nodes[0].label, "Player");
            assert_eq!(
                nodes[0].events,
                vec![
                    Event::SetMainChoicer(s("Choicer")),
                    Event::SetAnim(s("MyAnim")),
                    Event::SetParameter(s("MyEnum"), s("Value1")),
                    Event::RemoveParamater(s("MyEnum1")),
                    Event::Text(s("Hello")),
                ]
            );
            assert_eq!(
                nodes[1].events,
                vec![
                    Event::Text(s("Hi!")),
                    Event::SetParameter(s("MyEnum"), s("Value2")),
                    Event::Wait(s("2")),
                    Event::Text(s("How are you?")),
                ]
            );
        }
        _ => panic!("expected a conversation"),
    }
}

#[test]
fn core_lexer_accepts_wide_question_mark_in_speakers() {
    assert_eq!(dialog_block_lexer("？？？:"), Some(vec![Token::Speaker("？？？")]));
    assert_eq!(dialog_block_lexer("@jump [Intro]"), None);
}

#[test]
fn manager_indexes_dialogs_by_name() {
    let mgr = manager(README_SCRIPT);
    let all = mgr.get_dialogs();
    assert_eq!(all.len(), 2);
    assert_eq!(all[0].0, "Choicer");
    assert!(matches!(mgr.get_dialog_by_id("Conversation"), Some(Dialog::Conversation(_))));
    assert!(matches!(mgr.get_dialog_by_id("Choicer"), Some(Dialog::Choicer(_))));
    assert!(mgr.get_dialog_by_id("Missing").is_none());
    assert!(mgr.build("Missing").is_none());
    match mgr.build("Choicer") {
        Some(DialogEntryPoint::Choicer(choices)) => {
            assert_eq!(choices.len(), 1);
            assert_eq!(choices[0].0, "Option 1");
        }
        _ => panic!("expected a choicer"),
    }
}

#[test]
fn manager_reports_parse_errors() {
    let tokens = dialog_block_lexer("[Open]\nPlayer:\n  Hi").unwrap();
    let err = DialogManager::new_from_tokens(tokens).err().unwrap();
    assert_eq!(err, DialogError::Parse);
    assert!(err.message().starts_with("Dialog Block Parser"));
}

#[test]
fn duplicate_names_are_detected() {
    let tokens = dialog_block_lexer("[A]\n===\n[A]\n===").unwrap();
    let entries = dialog_parser(&tokens).unwrap();
    assert!(!has_distinct_ids(&entries));
    let tokens = dialog_block_lexer("[A]\n===\n[B]\n===").unwrap();
    let entries = dialog_parser(&tokens).unwrap();
    assert!(has_distinct_ids(&entries));
    let mgr = DialogManager::new_from_entries(entries);
    assert!(mgr.get_dialog_by_id("B").is_some());
}

#[test]
fn player_walks_the_readme_script() {
    let mgr = manager(README_SCRIPT);
    let ep = mgr.build("Conversation").unwrap();
    let mut player = DialogPlayer::new(s("Conversation"), ep);
    assert!(player.is_playing());
    player.play();
    assert_eq!(player.update(false, &mgr), vec![]);
    assert_eq!(player.update(false, &mgr), vec![PlayerAction::PlayMotion(s("MyAnim"))]);
    assert_eq!(
        player.update(false, &mgr),
        vec![
            PlayerAction::SetParameters { enum_type: s("MyEnum"), enum_value: s("Value1") },
            PlayerAction::RemoveParameters(s("MyEnum1")),
            PlayerAction::ShowText { speaker: s("Player"), text: s("Hello") },
        ]
    );
    assert_eq!(player.current_node_index(), Some(0));
    assert_eq!(player.update(false, &mgr), vec![]);
    assert_eq!(player.update(false, &mgr), vec![]);
    player.next();
    assert_eq!(
        player.update(false, &mgr),
        vec![PlayerAction::ShowText { speaker: s("NPC"), text: s("Hi!") }]
    );
    assert_eq!(player.current_node_index(), Some(1));
    assert_eq!(
        player.update(false, &mgr),
        vec![
            PlayerAction::SetParameters { enum_type: s("MyEnum"), enum_value: s("Value2") },
            PlayerAction::SetTimer(s("2")),
        ]
    );
    assert_eq!(player.update(true, &mgr), vec![]);
    assert_eq!(
        player.update(false, &mgr),
        vec![PlayerAction::ShowText { speaker: s("NPC"), text: s("How are you?") }]
    );
    assert_eq!(player.update(false, &mgr), vec![]);
    player.next();
    assert_eq!(player.update(false, &mgr), vec![]);
    assert!(!player.is_playing());
    assert_eq!(player.current_node_index(), None);
    assert_eq!(player.current_dialog_name(), None);

    // The main choicer was changed by the first event: play starts it.
    player.play();
    assert!(player.is_playing());
    assert_eq!(player.update(false, &mgr), vec![PlayerAction::ShowChoices(vec![s("Option 1")])]);
    assert_eq!(player.update(false, &mgr), vec![]);
    player.handle_input(5);
    assert_eq!(player.update(false, &mgr), vec![]);
    player.handle_input(0);
    assert_eq!(player.update(false, &mgr), vec![]);
    assert_eq!(player.current_dialog_name().map(|n| n.as_str()), Some("Conversation"));
    assert_eq!(player.current_node_index(), Some(0));
}

#[test]
fn force_next_keeps_lasting_effects() {
    let mgr = manager(README_SCRIPT);
    let ep = mgr.build("Conversation").unwrap();
    let mut player = DialogPlayer::new(s("Conversation"), ep);
    player.play();
    let acts = player.force_next(&mgr);
    assert_eq!(
        acts,
        vec![
            PlayerAction::SetMotion(s("MyAnim")),
            PlayerAction::SetParameters { enum_type: s("MyEnum"), enum_value: s("Value1") },
            PlayerAction::RemoveParametersIfAny(s("MyEnum1")),
        ]
    );
    assert!(player.is_playing());
    let acts = player.skip(2, &mgr);
    assert_eq!(
        acts,
        vec![PlayerAction::SetParameters { enum_type: s("MyEnum"), enum_value: s("Value2") }]
    );
    assert!(!player.is_playing());
    player.play();
    assert_eq!(player.update(false, &mgr), vec![PlayerAction::ShowChoices(vec![s("Option 1")])]);
}

#[test]
fn jump_to_unknown_dialog_is_dropped() {
    let mgr = manager("[Start]\nA:\n  @jump <Nowhere>\n  Done\n===");
    let mut player = DialogPlayer::new(s("Start"), mgr.build("Start").unwrap());
    player.play();
    assert_eq!(player.update(false, &mgr), vec![]);
    assert_eq!(player.current_dialog_name().map(|n| n.as_str()), Some("Nowhere"));
    assert_eq!(
        player.update(false, &mgr),
        vec![PlayerAction::ShowText { speaker: s("A"), text: s("Done") }]
    );
}

#[test]
fn next_event_ends_the_node() {
    let mgr = manager("[Start]\nA:\n  @next\n  Skipped\nB:\n  Shown\n===");
    let mut player = DialogPlayer::new(s("Start"), mgr.build("Start").unwrap());
    player.play();
    assert_eq!(player.update(false, &mgr), vec![]);
    assert_eq!(
        player.update(false, &mgr),
        vec![PlayerAction::ShowText { speaker: s("B"), text: s("Shown") }]
    );
}

#[test]
fn skips_compose() {
    let mgr = manager(README_SCRIPT);
    let mut once = DialogPlayer::new(s("Conversation"), mgr.build("Conversation").unwrap());
    once.play();
    let all_at_once = once.skip(3, &mgr);
    let mut twice = DialogPlayer::new(s("Conversation"), mgr.build("Conversation").unwrap());
    twice.play();
    let mut in_steps = twice.skip(1, &mgr);
    in_steps.extend(twice.skip(2, &mgr));
    assert_eq!(all_at_once, in_steps);
    assert_eq!(once.is_playing(), twice.is_playing());
    assert_eq!(once.current_node_index(), twice.current_node_index());
    assert!(twice.skip(0, &mgr).is_empty());
}

#[test]
fn distinct_entries_are_all_listed() {
    let tokens = dialog_block_lexer("[A]\n===\n[B]\n===\n[C]\n===").unwrap();
    let entries = dialog_parser(&tokens).unwrap();
    assert!(has_distinct_ids(&entries));
    let mgr = DialogManager::new_from_entries(entries);
    let names: Vec<&str> = mgr.get_dialogs().iter().map(|(n, _)| n.as_str()).collect();
    assert_eq!(names, vec!["A", "B", "C"]);
}

#[test]
fn play_restores_the_given_name() {
    let mgr = manager(README_SCRIPT);
    let mut player = DialogPlayer::new(s("Conversation"), mgr.build("Conversation").unwrap());
    player.play();
    player.skip(3, &mgr);
    assert!(!player.is_playing());
    assert_eq!(player.current_dialog_name(), None);
    // The main choicer replaced the initial dialog, but not its name.
    player.play();
    assert_eq!(player.current_dialog_name().map(|n| n.as_str()), Some("Conversation"));
    assert_eq!(player.update(false, &mgr), vec![PlayerAction::ShowChoices(vec![s("Option 1")])]);
}
