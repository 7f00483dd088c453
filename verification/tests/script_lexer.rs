use dialoguer::script::{
    dialog_block_lexer, dialog_parser, parse_float, Block, ChoiceItem, Command, ConversationItem,
    Dialog, Event, JumpEvent, Token,
};

fn float_of(literal: &str) -> f32 {
    literal.parse().unwrap()
}

fn is_wait_of(token: &Token, seconds: f32) -> bool {
    match token {
        Token::Command(Command::Wait(literal)) => float_of(literal) == seconds,
        _ => false,
    }
}

#[test]
fn parsing_number() {
    let res = parse_float("4").map(float_of);

    assert_eq!(res, Some(4.0));
}

#[test]
fn parsing_zero_with_frac() {
    let res = parse_float("0.2").map(float_of);

    assert_eq!(res, Some(0.2));
}

#[test]
fn parsing_zero_with_leading_zero_frac() {
    let res = parse_float("0.02").map(float_of);

    assert_eq!(res, Some(0.02));
}

#[test]
fn parsing_block_conversation() {
    let res = dialog_block_lexer("[Conversation]");

    assert_eq!(res, Some(vec![Token::Block(Block::Conversation("Conversation"))]));
}

#[test]
fn parsing_block_choicer() {
    let res = dialog_block_lexer("[[Choicer]]");

    assert_eq!(res, Some(vec![Token::Block(Block::Choicer("Choicer"))]));
}

#[test]
fn parsing_speaker() {
    let res = dialog_block_lexer("Saya-Chan:");
    let res1 = dialog_block_lexer("Player:");
    let res2 = dialog_block_lexer("  Kaori   :");

    assert_eq!(res, Some(vec![Token::Speaker("Saya-Chan")]));
    assert_eq!(res1, Some(vec![Token::Speaker("Player")]));
    assert_eq!(res2, None);
}

#[test]
fn parsing_choice() {
    let res = dialog_block_lexer("-> This is my choice!!!");

    assert_eq!(res, Some(vec![Token::Choice("This is my choice!!!")]));
}

#[test]
fn parsing_command() {
    let res = dialog_block_lexer("@jump [Conversation]");
    assert_eq!(
        res,
        Some(vec![Token::Command(Command::Jump(Block::Conversation("Conversation")))])
    );
    let res = dialog_block_lexer("@jump [[Choicer]]");
    assert_eq!(res, Some(vec![Token::Command(Command::Jump(Block::Choicer("Choicer")))]));
    let res = dialog_block_lexer("@jump");
    assert_eq!(res, None);
    let res = dialog_block_lexer("@wait 1.3").unwrap();
    assert_eq!(res.len(), 1);
    assert!(is_wait_of(&res[0], 1.3));
    let res = dialog_block_lexer("@wait");
    assert_eq!(res, None);
    let res = dialog_block_lexer("@wait a");
    assert_eq!(res, None);
    let res = dialog_block_lexer("@set Anim.Value");
    assert_eq!(
        res,
        Some(vec![Token::Command(Command::SetEnum { enum_name: "Anim", value: "Value" })])
    );
    let res = dialog_block_lexer("@set Anim");
    assert_eq!(res, None);
    let res = dialog_block_lexer("@set");
    assert_eq!(res, None);
    let res = dialog_block_lexer("@setmainchoicer [Hola]");
    assert_eq!(res, None);
    let res = dialog_block_lexer("@setmainchoicer");
    assert_eq!(res, None);
    let res = dialog_block_lexer("@setmainchoicer [[Hola]]");
    assert_eq!(res, Some(vec![Token::Command(Command::SetMainChoicer("Hola"))]));
    let res = dialog_block_lexer("@next");
    assert_eq!(res, Some(vec![Token::Command(Command::Next)]));
}

#[test]
fn full_script_parsing() {
    let input = r#"
  [Conversation01]
  saya:
    Hello there!
  player:
    -> First option
    -> Second option
  saya:
    @wait 1.5
    @jump [[Choicer01]]
  player:
    @set Game.state
    @next
  ===
  "#;

    let tokens = dialog_block_lexer(input).unwrap();

    assert_eq!(tokens.len(), 13);
    assert!(is_wait_of(&tokens[7], 1.5));
    let mut expected = vec![
        Token::Block(Block::Conversation("Conversation01")),
        Token::Speaker("saya"),
        Token::Text("Hello there!"),
        Token::Speaker("player"),
        Token::Choice("First option"),
        Token::Choice("Second option"),
        Token::Speaker("saya"),
        Token::Command(Command::Jump(Block::Choicer("Choicer01"))),
        Token::Speaker("player"),
        Token::Command(Command::SetEnum { enum_name: "Game", value: "state" }),
        Token::Command(Command::Next),
        Token::End,
    ];
    expected.insert(7, tokens[7].clone());
    assert_eq!(tokens, expected);
}

#[test]
fn pargin_multiblock() {
    let input = r#"
  [Conversation01]
  saya:
    Hello there!
  player:
    Hi!!!
  ===

  [[Choice]]
  -> Option1
  -> Option2
  -> Option3
  ===

  [Conversation02]
  hi:
    Hola
  ===
  "#;

    let tokens = dialog_block_lexer(input).unwrap();

    assert_eq!(
        tokens,
        vec![
            Token::Block(Block::Conversation("Conversation01")),
            Token::Speaker("saya"),
            Token::Text("Hello there!"),
            Token::Speaker("player"),
            Token::Text("Hi!!!"),
            Token::End,
            Token::Block(Block::Choicer("Choice")),
            Token::Choice("Option1"),
            Token::Choice("Option2"),
            Token::Choice("Option3"),
            Token::End,
            Token::Block(Block::Conversation("Conversation02")),
            Token::Speaker("hi"),
            Token::Text("Hola"),
            Token::End,
        ]
    );
}

#[test]
fn lexer_keeps_whitespace_inside_block_names() {
    assert_eq!(
        dialog_block_lexer("[ Intro ]"),
        Some(vec![Token::Block(Block::Conversation(" Intro "))])
    );
    assert_eq!(dialog_block_lexer("[  ]"), None);
    assert_eq!(dialog_block_lexer("[[X]"), Some(vec![Token::Block(Block::Conversation("[X"))]));
}

#[test]
fn lexer_rejects_two_text_lines_in_a_row() {
    assert_eq!(dialog_block_lexer("Hello\nWorld"), None);
    assert_eq!(dialog_block_lexer("Hello\n"), None);
    assert_eq!(dialog_block_lexer("Hello\n@next"), Some(vec![
        Token::Text("Hello"),
        Token::Command(Command::Next)
    ]));
}

#[test]
fn lexer_edge_cases() {
    assert_eq!(dialog_block_lexer(""), Some(vec![]));
    assert_eq!(dialog_block_lexer("  "), Some(vec![Token::Text("  ")]));
    assert_eq!(dialog_block_lexer("   \n  "), None);
    assert_eq!(dialog_block_lexer("===="), None);
    assert_eq!(parse_float("007"), None);
    assert_eq!(parse_float("1."), None);
    assert_eq!(parse_float("10.25"), Some("10.25"));
    assert_eq!(
        dialog_block_lexer("->\n  label"),
        Some(vec![Token::Choice("label")])
    );
}

#[test]
fn parser_groups_blocks() {
    let input = r#"
  [Intro]
  saya:
    Hello
    @set AnimType.Wave
    @set Mood.NonControl
    @set Mood.Happy
    @set ViewType.Close
  player:
    @jump [[Pick]]
  ===
  [[Pick]]
  -> Stay
  @jump [Intro]
  -> Leave
  @jump [[Pick]]
  ===
  "#;
    let tokens = dialog_block_lexer(input).unwrap();
    let dialogs = dialog_parser(&tokens).unwrap();
    assert_eq!(
        dialogs,
        vec![
            Dialog::Conversation {
                id: "Intro",
                items: vec![
                    ConversationItem {
                        who: "saya",
                        events: vec![
                            Event::Text("Hello"),
                            Event::SetAnim("Wave"),
                            Event::RemoveParamater("Mood"),
                            Event::SetParameter("Mood", "Happy"),
                            Event::SetView("Close"),
                        ],
                    },
                    ConversationItem {
                        who: "player",
                        events: vec![Event::Jump(JumpEvent::Choicer("Pick"))],
                    },
                ],
            },
            Dialog::Choicer {
                id: "Pick",
                items: vec![
                    ChoiceItem { label: "Stay", goto: JumpEvent::Conversation("Intro") },
                    ChoiceItem { label: "Leave", goto: JumpEvent::Choicer("Pick") },
                ],
            },
        ]
    );
}

#[test]
fn parser_rejects_incomplete_blocks() {
    let tokens = dialog_block_lexer("[Intro]\nsaya:\n  Hello").unwrap();
    assert_eq!(tokens.len(), 3);
    assert_eq!(dialog_parser(&tokens), None);
    let tokens = dialog_block_lexer("[[Pick]]\n-> Stay\n===").unwrap();
    assert_eq!(dialog_parser(&tokens), None);
    assert_eq!(dialog_parser(&[]), Some(vec![]));
}
