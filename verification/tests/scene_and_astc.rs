use dialoguer::astc::{get_gl_compressed_type, parse_astc_from_bytes, AstcError};
use dialoguer::conversation_builder::ConversationBuilder;
use dialoguer::dialog::manager::{DialogError, PlayerAction};
use dialoguer::dialog::parser::dialog_block_lexer;
use dialoguer::scene_dialog::{DialogManager, DialogPlayer};
use dialoguer::script;

const SCENE: &str = "[Initial.1]
Saya:
  @set Mood.NonAction
  @set AnimType.Wave
===
[Idle]
Saya:
  Hello
  @jump <Phase01>
===
[[Phase01]]
-> Talk
@jump <Initial.1>
===";

fn s(x: &str) -> String {
    x.to_string()
}

#[test]
fn scene_manager_needs_its_dialogs() {
    let tokens = dialog_block_lexer("[Idle]\n===").unwrap();
    assert_eq!(
        DialogManager::new(tokens).err(),
        Some(DialogError::MissingDialog(s("Initial.1")))
    );
    let tokens = dialog_block_lexer("[Initial.1]\n===\n[Idle]\n===").unwrap();
    assert_eq!(DialogManager::new(tokens).err(), Some(DialogError::MissingDialog(s("Phase01"))));
    let tokens = dialog_block_lexer("[Initial.1]\n===\n[Phase01]\n===").unwrap();
    let err = DialogManager::new(tokens).err().unwrap();
    assert_eq!(err.message(), "Dialog File must be have [Idle]");
    let tokens = dialog_block_lexer("[Initial.1]\n===\n[Idle]\n===").unwrap();
    let err = DialogManager::new(tokens).err().unwrap();
    assert_eq!(err.message(), "Dialog File must be have [[Phase01]]");
    let tokens = dialog_block_lexer("[Initial.1]\n").unwrap_or_default();
    assert!(DialogManager::new(tokens).is_err());
}

#[test]
fn scene_player_runs_idle() {
    let tokens = dialog_block_lexer(SCENE).unwrap();
    let mgr = DialogManager::new(tokens).unwrap();
    let mut player = DialogPlayer::new(mgr.build_idle());
    player.play();
    assert_eq!(
        player.update(false, &mgr),
        vec![PlayerAction::ShowText { speaker: s("Saya"), text: s("Hello") }]
    );
    assert_eq!(player.update(false, &mgr), vec![]);
    assert_eq!(player.update(false, &mgr), vec![PlayerAction::ShowChoices(vec![s("Talk")])]);
    player.handle_input(0);
    assert_eq!(player.update(false, &mgr), vec![]);
    assert_eq!(
        player.update(false, &mgr),
        vec![
            PlayerAction::RemoveParameters(s("Mood")),
            PlayerAction::RemoveParameter(s("Mood")),
            PlayerAction::PlayMotion(s("Wave")),
        ]
    );
    player.next();
    assert_eq!(player.update(false, &mgr), vec![]);
    player.next();
    assert_eq!(player.update(false, &mgr), vec![]);
    assert!(mgr.build("Initial.1").is_some());
    let _ = mgr.build_initial();
    let _ = mgr.build_phase01();
}

#[test]
fn astc_header_is_read() {
    let mut bytes = vec![0x13, 0xAB, 0xA1, 0x5C, 6, 5, 1, 0x00, 0x04, 0x00, 0x34, 0x12, 0x01, 1, 0, 0];
    bytes.extend_from_slice(&[9, 8, 7]);
    let astc = parse_astc_from_bytes(&bytes).unwrap();
    assert_eq!((astc.block_x, astc.block_y), (6, 5));
    assert_eq!(astc.dim_x, 1024);
    assert_eq!(astc.dim_y, 0x011234);
    assert_eq!(astc.bytes, &[9, 8, 7]);
    assert_eq!(get_gl_compressed_type((astc.block_x, astc.block_y)), 0x93B3);
}

#[test]
fn astc_errors() {
    assert_eq!(parse_astc_from_bytes(&[0x13, 0xAB]).err(), Some(AstcError::TooShort));
    assert_eq!(parse_astc_from_bytes(&[0u8; 16]).err(), Some(AstcError::BadMagic));
    assert_eq!(get_gl_compressed_type((4, 4)), 0x93B0);
    assert_eq!(get_gl_compressed_type((12, 12)), 0x93BD);
    assert_eq!(get_gl_compressed_type((7, 7)), 0);
}

#[test]
fn conversation_builder_parses_scene_scripts() {
    let tokens = script::dialog_block_lexer("[A]\nx:\n  Hi\n===").unwrap();
    let dialogs = ConversationBuilder::new(tokens).unwrap();
    assert_eq!(dialogs.len(), 1);
    let tokens = script::dialog_block_lexer("[A]\nx:\n  Hi").unwrap();
    assert!(ConversationBuilder::new(tokens).is_none());
}
