//! The dialog script format: its lexer, which turns a script into tokens,
//! and its parser, which turns tokens into named conversation and choicer
//! dialogs.
//!
//! A script is a sequence of items. An item is, after optional whitespace, a
//! block header (`[[Choicer]]` or `[Conversation]`), a speaker (`Name:`), a
//! choice (`-> label`), an end marker (`===`) or a command (`@jump <Id>`,
//! `@wait`, `@set`, `@setmainchoicer`, `@next`), followed by optional
//! whitespace; failing all of those, it is a line of text. The whole input
//! must be consumed.
use crate::text::{
    str_eq,
    chars_of, choice_span, delimited, has_at, lemma_delimited, main_choicer_spans,
    parse_choice_span, parse_delimited, parse_main_choicer_spans,
    parse_set_spans, parse_spaces_end, parse_speaker_colon, parse_wait_span, scan, scan_class,
    set_spans, skip_whitespace, skip_ws, spaces_end, speaker_colon, starts_with_at, wait_span,
    CharClass,
};
use vstd::prelude::*;
use vstd::string::StrSliceExecFns;

verus! {

/// A block header.
#[derive(Debug, PartialEq, Clone)]
pub enum Block<'a> {
    /// `[MyConversation]`
    Conversation(&'a str),
    /// `[[MyChoicer]]`
    Choicer(&'a str),
}

/// A command line, `@cmd arg`.
#[derive(Debug, PartialEq, Clone)]
pub enum Command<'a> {
    /// `@wait 2.3`: the number as written.
    Wait(&'a str),
    /// `@jump <Id>`
    Jump(&'a str),
    /// `@set MyEnum.value`
    SetEnum { enum_name: &'a str, value: &'a str },
    /// `@setmainchoicer [[MyChoicer]]`
    SetMainChoicer(&'a str),
    /// `@next`
    Next,
}

/// A token of a script.
#[derive(Debug, PartialEq, Clone)]
pub enum Token<'a> {
    /// Either `[MyConversation]` or `[[MyChoicer]]`.
    Block(Block<'a>),
    /// `Saya:`
    Speaker(&'a str),
    /// A line of text.
    Text(&'a str),
    /// `-> My choice!!`
    Choice(&'a str),
    /// `@cmd arg`
    Command(Command<'a>),
    /// `===`
    End,
}

/// What a [`Block`] holds.
pub enum BlockV {
    Conversation(Seq<char>),
    Choicer(Seq<char>),
}

/// What a [`Command`] holds.
pub enum CommandV {
    Wait(Seq<char>),
    Jump(Seq<char>),
    SetEnum { enum_name: Seq<char>, value: Seq<char> },
    SetMainChoicer(Seq<char>),
    Next,
}

/// What a [`Token`] holds.
pub enum TokenV {
    Block(BlockV),
    Speaker(Seq<char>),
    Text(Seq<char>),
    Choice(Seq<char>),
    Command(CommandV),
    End,
}

impl<'a> View for Block<'a> {
    type V = BlockV;

    open spec fn view(&self) -> BlockV {
        match self {
            Block::Conversation(id) => BlockV::Conversation(id@),
            Block::Choicer(id) => BlockV::Choicer(id@),
        }
    }
}

impl<'a> View for Command<'a> {
    type V = CommandV;

    open spec fn view(&self) -> CommandV {
        match self {
            Command::Wait(n) => CommandV::Wait(n@),
            Command::Jump(id) => CommandV::Jump(id@),
            Command::SetEnum { enum_name, value } => CommandV::SetEnum {
                enum_name: enum_name@,
                value: value@,
            },
            Command::SetMainChoicer(id) => CommandV::SetMainChoicer(id@),
            Command::Next => CommandV::Next,
        }
    }
}

impl<'a> View for Token<'a> {
    type V = TokenV;

    open spec fn view(&self) -> TokenV {
        match self {
            Token::Block(b) => TokenV::Block(b@),
            Token::Speaker(x) => TokenV::Speaker(x@),
            Token::Text(x) => TokenV::Text(x@),
            Token::Choice(x) => TokenV::Choice(x@),
            Token::Command(c) => TokenV::Command(c@),
            Token::End => TokenV::End,
        }
    }
}

pub open spec fn tokens_view<'a>(v: Seq<Token<'a>>) -> Seq<TokenV> {
    v.map_values(|t: Token<'a>| t@)
}

/// A block header at `i`, and where it stops.
pub open spec fn block_at(s: Seq<char>, i: int) -> Option<(BlockV, int)> {
    match delimited(s, i, seq!['[', '['], seq![']', ']']) {
        Some((a, e, next)) => Some((BlockV::Choicer(s.subrange(a, e)), next)),
        None => match delimited(s, i, seq!['['], seq![']']) {
            Some((a, e, next)) => Some((BlockV::Conversation(s.subrange(a, e)), next)),
            None => None,
        },
    }
}

/// A command (after its `@`) at `k`, and where it stops.
pub open spec fn command_at(s: Seq<char>, k: int) -> Option<(CommandV, int)> {
    let jump = if has_at(s, k, seq!['j', 'u', 'm', 'p']) {
        match spaces_end(s, k + 4) {
            Some(w) => match delimited(s, w, seq!['<'], seq!['>']) {
                Some((a, e, next)) => Some((CommandV::Jump(s.subrange(a, e)), next)),
                None => None,
            },
            None => None,
        }
    } else {
        None
    };
    if jump is Some {
        jump
    } else if wait_span(s, k) is Some {
        let (w, f) = wait_span(s, k)->0;
        Some((CommandV::Wait(s.subrange(w, f)), f))
    } else if set_spans(s, k) is Some {
        let (a, b, c) = set_spans(s, k)->0;
        Some(
            (
                CommandV::SetEnum { enum_name: s.subrange(a, b), value: s.subrange(b + 1, c) },
                c,
            ),
        )
    } else if main_choicer_spans(s, k) is Some {
        let (a, e, next) = main_choicer_spans(s, k)->0;
        Some((CommandV::SetMainChoicer(s.subrange(a, e)), next))
    } else if has_at(s, k, seq!['n', 'e', 'x', 't']) {
        Some((CommandV::Next, k + 4))
    } else {
        None
    }
}

/// A token other than a line of text at `i`, and where it stops.
pub open spec fn marked_token_at(s: Seq<char>, i: int) -> Option<(TokenV, int)> {
    if block_at(s, i) is Some {
        let (b, next) = block_at(s, i)->0;
        Some((TokenV::Block(b), next))
    } else if speaker_colon(s, i, CharClass::SpeakerWide) is Some {
        let j = speaker_colon(s, i, CharClass::SpeakerWide)->0;
        Some((TokenV::Speaker(s.subrange(i, j)), j + 1))
    } else if choice_span(s, i) is Some {
        let (w, e) = choice_span(s, i)->0;
        Some((TokenV::Choice(s.subrange(w, e)), e))
    } else if has_at(s, i, seq!['=', '=', '=']) {
        Some((TokenV::End, i + 3))
    } else if 0 <= i < s.len() && s[i] == '@' && command_at(s, i + 1) is Some {
        let (c, next) = command_at(s, i + 1)->0;
        Some((TokenV::Command(c), next))
    } else {
        None
    }
}

/// One item at `i`: a marked token padded by whitespace, or else a line of
/// text (at least one character that is none of `@[]=:` and newline).
pub open spec fn item_at(s: Seq<char>, i: int) -> Option<(TokenV, int)> {
    let w = skip_ws(s, i);
    match marked_token_at(s, w) {
        Some((t, e)) => Some((t, skip_ws(s, e))),
        None => {
            let j = scan(s, i, CharClass::Line);
            if j > i {
                Some((TokenV::Text(s.subrange(i, j)), j))
            } else {
                None
            }
        },
    }
}

/// The tokens of `s` from position `i`: items are taken while one matches,
/// and they must reach the end of `s`.
pub open spec fn lex_from(s: Seq<char>, i: int) -> Option<Seq<TokenV>>
    decreases s.len() - i,
{
    if 0 <= i <= s.len() {
        match item_at(s, i) {
            Some((t, j)) => if i < j <= s.len() {
                match lex_from(s, j) {
                    Some(rest) => Some(seq![t] + rest),
                    None => None,
                }
            } else {
                None
            },
            None => if i == s.len() {
                Some(seq![])
            } else {
                None
            },
        }
    } else {
        None
    }
}

/// The tokens of a whole script, or `None` where it is not one.
pub open spec fn lex(s: Seq<char>) -> Option<Seq<TokenV>> {
    lex_from(s, 0)
}

fn block_token<'a>(input: &'a str, s: &Vec<char>, i: usize) -> (r: Option<(Block<'a>, usize)>)
    requires
        s@ == input@,
        i <= s.len(),
    ensures
        match r {
            Some((b, next)) => block_at(s@, i as int) == Some((b@, next as int)) && i < next
                <= s.len(),
            None => block_at(s@, i as int) is None,
        },
{
    match parse_delimited(s, i, &['[', '['], &[']', ']']) {
        Some((a, e, next)) => {
            proof {
                lemma_delimited(s@, i as int, seq!['[', '['], seq![']', ']']);
            }
            return Some((Block::Choicer(input.substring_char(a, e)), next));
        },
        None => {},
    }
    match parse_delimited(s, i, &['['], &[']']) {
        Some((a, e, next)) => {
            proof {
                lemma_delimited(s@, i as int, seq!['['], seq![']']);
            }
            Some((Block::Conversation(input.substring_char(a, e)), next))
        },
        None => None,
    }
}

fn command_token<'a>(input: &'a str, s: &Vec<char>, k: usize) -> (r: Option<(Command<'a>, usize)>)
    requires
        s@ == input@,
        k <= s.len(),
    ensures
        match r {
            Some((c, next)) => command_at(s@, k as int) == Some((c@, next as int)) && k < next
                <= s.len(),
            None => command_at(s@, k as int) is None,
        },
{
    if starts_with_at(s, k, &['j', 'u', 'm', 'p']) {
        match parse_spaces_end(s, k + 4) {
            Some(w) => match parse_delimited(s, w, &['<'], &['>']) {
                Some((a, e, next)) => {
                    proof {
                        lemma_delimited(s@, w as int, seq!['<'], seq!['>']);
                    }
                    return Some((Command::Jump(input.substring_char(a, e)), next));
                },
                None => {},
            },
            None => {},
        }
    }
    match parse_wait_span(s, k) {
        Some((w, f)) => {
            return Some((Command::Wait(input.substring_char(w, f)), f));
        },
        None => {},
    }
    match parse_set_spans(s, k) {
        Some((a, b, c)) => {
            return Some(
                (
                    Command::SetEnum {
                        enum_name: input.substring_char(a, b),
                        value: input.substring_char(b + 1, c),
                    },
                    c,
                ),
            );
        },
        None => {},
    }
    match parse_main_choicer_spans(s, k) {
        Some((a, e, next)) => {
            return Some((Command::SetMainChoicer(input.substring_char(a, e)), next));
        },
        None => {},
    }
    if starts_with_at(s, k, &['n', 'e', 'x', 't']) {
        Some((Command::Next, k + 4))
    } else {
        None
    }
}

fn marked_token<'a>(input: &'a str, s: &Vec<char>, i: usize) -> (r: Option<(Token<'a>, usize)>)
    requires
        s@ == input@,
        i <= s.len(),
    ensures
        match r {
            Some((t, next)) => marked_token_at(s@, i as int) == Some((t@, next as int)) && i < next
                <= s.len(),
            None => marked_token_at(s@, i as int) is None,
        },
{
    match block_token(input, s, i) {
        Some((b, next)) => {
            return Some((Token::Block(b), next));
        },
        None => {},
    }
    match parse_speaker_colon(s, i, &CharClass::SpeakerWide) {
        Some(j) => {
            return Some((Token::Speaker(input.substring_char(i, j)), j + 1));
        },
        None => {},
    }
    match parse_choice_span(s, i) {
        Some((w, e)) => {
            return Some((Token::Choice(input.substring_char(w, e)), e));
        },
        None => {},
    }
    if starts_with_at(s, i, &['=', '=', '=']) {
        return Some((Token::End, i + 3));
    }
    if i < s.len() && s[i] == '@' {
        match command_token(input, s, i + 1) {
            Some((c, next)) => {
                return Some((Token::Command(c), next));
            },
            None => {},
        }
    }
    None
}

fn item<'a>(input: &'a str, s: &Vec<char>, i: usize) -> (r: Option<(Token<'a>, usize)>)
    requires
        s@ == input@,
        i <= s.len(),
    ensures
        match r {
            Some((t, next)) => item_at(s@, i as int) == Some((t@, next as int)) && i < next
                <= s.len(),
            None => item_at(s@, i as int) is None,
        },
{
    let w = skip_whitespace(s, i);
    match marked_token(input, s, w) {
        Some((t, e)) => {
            let next = skip_whitespace(s, e);
            Some((t, next))
        },
        None => {
            let j = scan_class(s, i, &CharClass::Line);
            if j > i {
                Some((Token::Text(input.substring_char(i, j)), j))
            } else {
                None
            }
        },
    }
}

/// Splits a script into tokens; `None` where the script does not follow the
/// format.
pub fn dialog_block_lexer<'a>(input: &'a str) -> (r: Option<Vec<Token<'a>>>)
    ensures
        match r {
            Some(v) => lex(input@) == Some(tokens_view(v@)),
            None => lex(input@) is None,
        },
{
    let s = chars_of(input);
    let mut toks: Vec<Token<'a>> = Vec::new();
    let mut i: usize = 0;
    loop
        invariant
            s@ == input@,
            i <= s.len(),
            match lex_from(s@, i as int) {
                Some(rest) => lex(s@) == Some(tokens_view(toks@) + rest),
                None => lex(s@) is None,
            },
        decreases s.len() - i,
    {
        match item(input, &s, i) {
            Some((t, next)) => {
                proof {
                    assert(tokens_view(toks@.push(t)) =~= tokens_view(toks@).push(t@));
                    match lex_from(s@, next as int) {
                        Some(rest) => {
                            assert(tokens_view(toks@) + (seq![t@] + rest) =~= tokens_view(
                                toks@.push(t),
                            ) + rest);
                        },
                        None => {},
                    }
                }
                toks.push(t);
                i = next;
            },
            None => {
                if i == s.len() {
                    proof {
                        assert(tokens_view(toks@) + seq![] =~= tokens_view(toks@));
                    }
                    return Some(toks);
                } else {
                    return None;
                }
            },
        }
    }
}

// ------------------------------------------------------------------------
// Parsing tokens into dialogs
// ------------------------------------------------------------------------

/// An event of a dialog node.
#[derive(Debug, PartialEq, Clone)]
pub enum Event {
    Text(String),
    SetMainChoicer(String),
    SetAnim(String),
    SetView(String),
    Jump(String),
    SetParameter(String, String),
    RemoveParamater(String),
    /// The number of seconds as written.
    Wait(String),
    Next,
}

/// A speaker (in a conversation) or an option (in a choicer), with its
/// events.
#[derive(Debug, PartialEq)]
pub struct DialogNode {
    pub label: String,
    pub events: Vec<Event>,
}

/// A parsed dialog.
#[derive(Debug, PartialEq)]
pub enum Dialog {
    Conversation(Vec<DialogNode>),
    Choicer(Vec<DialogNode>),
}

pub enum EventV {
    Text(Seq<char>),
    SetMainChoicer(Seq<char>),
    SetAnim(Seq<char>),
    SetView(Seq<char>),
    Jump(Seq<char>),
    SetParameter(Seq<char>, Seq<char>),
    RemoveParamater(Seq<char>),
    Wait(Seq<char>),
    Next,
}

pub struct DialogNodeV {
    pub label: Seq<char>,
    pub events: Seq<EventV>,
}

pub enum DialogV {
    Conversation(Seq<DialogNodeV>),
    Choicer(Seq<DialogNodeV>),
}

impl View for Event {
    type V = EventV;

    open spec fn view(&self) -> EventV {
        match self {
            Event::Text(x) => EventV::Text(x@),
            Event::SetMainChoicer(x) => EventV::SetMainChoicer(x@),
            Event::SetAnim(x) => EventV::SetAnim(x@),
            Event::SetView(x) => EventV::SetView(x@),
            Event::Jump(x) => EventV::Jump(x@),
            Event::SetParameter(a, b) => EventV::SetParameter(a@, b@),
            Event::RemoveParamater(a) => EventV::RemoveParamater(a@),
            Event::Wait(n) => EventV::Wait(n@),
            Event::Next => EventV::Next,
        }
    }
}

pub open spec fn events_view(v: Seq<Event>) -> Seq<EventV> {
    v.map_values(|e: Event| e@)
}

impl View for DialogNode {
    type V = DialogNodeV;

    open spec fn view(&self) -> DialogNodeV {
        DialogNodeV { label: self.label@, events: events_view(self.events@) }
    }
}

pub open spec fn nodes_view(v: Seq<DialogNode>) -> Seq<DialogNodeV> {
    v.map_values(|n: DialogNode| n@)
}

impl View for Dialog {
    type V = DialogV;

    open spec fn view(&self) -> DialogV {
        match self {
            Dialog::Conversation(nodes) => DialogV::Conversation(nodes_view(nodes@)),
            Dialog::Choicer(nodes) => DialogV::Choicer(nodes_view(nodes@)),
        }
    }
}

impl Dialog {
    /// The nodes of a dialog, whichever its kind.
    pub fn nodes(&self) -> (r: &Vec<DialogNode>)
        ensures
            nodes_view(r@) == self@.nodes(),
    {
        match self {
            Dialog::Conversation(nodes) => nodes,
            Dialog::Choicer(nodes) => nodes,
        }
    }
}

impl DialogV {
    pub open spec fn nodes(self) -> Seq<DialogNodeV> {
        match self {
            DialogV::Conversation(nodes) => nodes,
            DialogV::Choicer(nodes) => nodes,
        }
    }
}

pub open spec fn entries_view(v: Seq<(String, Dialog)>) -> Seq<(Seq<char>, DialogV)> {
    v.map_values(|e: (String, Dialog)| (e.0@, e.1@))
}

/// The event that `@set enum_name.value` stands for: an animation, a view,
/// the removal of a parameter (for the values `NonAction` and `NonControl`)
/// or the setting of one.
pub open spec fn set_event(enum_name: Seq<char>, value: Seq<char>) -> EventV {
    if enum_name == "AnimType"@ {
        EventV::SetAnim(value)
    } else if enum_name == "ViewType"@ {
        EventV::SetView(value)
    } else if value == "NonAction"@ || value == "NonControl"@ {
        EventV::RemoveParamater(enum_name)
    } else {
        EventV::SetParameter(enum_name, value)
    }
}

/// The event a token stands for inside a conversation, if any.
pub open spec fn event_of(t: TokenV) -> Option<EventV> {
    match t {
        TokenV::Text(x) => Some(EventV::Text(x)),
        TokenV::Command(CommandV::Wait(n)) => Some(EventV::Wait(n)),
        TokenV::Command(CommandV::Jump(id)) => Some(EventV::Jump(id)),
        TokenV::Command(CommandV::SetEnum { enum_name, value }) => Some(
            set_event(enum_name, value),
        ),
        TokenV::Command(CommandV::SetMainChoicer(id)) => Some(EventV::SetMainChoicer(id)),
        TokenV::Command(CommandV::Next) => Some(EventV::Next),
        _ => None,
    }
}

/// What `@set E.V` means inside a conversation: `AnimType` switches the
/// animation to `V`, `ViewType` the view to `V`; for any other enum, the
/// values `NonAction` and `NonControl` both remove `E`'s parameter, and
/// any other value sets `E` to `V`.
pub proof fn lemma_set_command_events(e: Seq<char>, v: Seq<char>)
    ensures
        e == "AnimType"@ ==> event_of(TokenV::Command(CommandV::SetEnum { enum_name: e, value: v }))
            == Some(EventV::SetAnim(v)),
        e == "ViewType"@ ==> event_of(TokenV::Command(CommandV::SetEnum { enum_name: e, value: v }))
            == Some(EventV::SetView(v)),
        e != "AnimType"@ && e != "ViewType"@ && (v == "NonAction"@ || v == "NonControl"@)
            ==> event_of(TokenV::Command(CommandV::SetEnum { enum_name: e, value: v })) == Some(
            EventV::RemoveParamater(e),
        ),
        e != "AnimType"@ && e != "ViewType"@ ==> event_of(
            TokenV::Command(CommandV::SetEnum { enum_name: e, value: "NonAction"@ }),
        ) == event_of(TokenV::Command(CommandV::SetEnum { enum_name: e, value: "NonControl"@ })),
        e != "AnimType"@ && e != "ViewType"@ && v != "NonAction"@ && v != "NonControl"@
            ==> event_of(TokenV::Command(CommandV::SetEnum { enum_name: e, value: v })) == Some(
            EventV::SetParameter(e, v),
        ),
{
    reveal_strlit("AnimType");
    reveal_strlit("ViewType");
    reveal_strlit("NonAction");
    reveal_strlit("NonControl");
    assert("AnimType"@[0] != "ViewType"@[0]);
    assert("AnimType"@ != "ViewType"@);
}

/// The events that the other tokens stand for inside a conversation: a
/// text shows itself, `@wait`, `@jump`, `@setmainchoicer` and `@next` keep
/// their argument, and speakers, options and block headers are no events.
pub proof fn lemma_token_events(x: Seq<char>)
    ensures
        event_of(TokenV::Text(x)) == Some(EventV::Text(x)),
        event_of(TokenV::Command(CommandV::Wait(x))) == Some(EventV::Wait(x)),
        event_of(TokenV::Command(CommandV::SetMainChoicer(x))) == Some(EventV::SetMainChoicer(x)),
        event_of(TokenV::Command(CommandV::Next)) == Some(EventV::Next),
        event_of(TokenV::Speaker(x)) is None,
        event_of(TokenV::Choice(x)) is None,
        event_of(TokenV::Block(BlockV::Conversation(x))) is None,
        event_of(TokenV::Block(BlockV::Choicer(x))) is None,
        event_of(TokenV::Command(CommandV::Jump(x))) == Some(EventV::Jump(x)),
{
}

/// Where the run of event tokens starting at `i` ends.
pub open spec fn events_end(ts: Seq<TokenV>, i: int) -> int
    decreases ts.len() - i,
{
    if 0 <= i < ts.len() && event_of(ts[i]) is Some {
        events_end(ts, i + 1)
    } else {
        i
    }
}

/// The events of the run of event tokens starting at `i`.
pub open spec fn events_at(ts: Seq<TokenV>, i: int) -> Seq<EventV> {
    ts.subrange(i, events_end(ts, i)).map_values(|t: TokenV| event_of(t)->0)
}

pub proof fn lemma_events_end(ts: Seq<TokenV>, i: int)
    requires
        0 <= i <= ts.len(),
    ensures
        i <= events_end(ts, i) <= ts.len(),
        forall|k: int| i <= k < events_end(ts, i) ==> event_of(#[trigger] ts[k]) is Some,
        events_end(ts, i) == ts.len() || event_of(ts[events_end(ts, i)]) is None,
    decreases ts.len() - i,
{
    if i < ts.len() && event_of(ts[i]) is Some {
        lemma_events_end(ts, i + 1);
    }
}

/// The conversation nodes starting at `i` (each a speaker and its events)
/// and where they end.
pub open spec fn conversation_nodes(ts: Seq<TokenV>, i: int) -> (Seq<DialogNodeV>, int)
    decreases ts.len() - i,
{
    if 0 <= i < ts.len() && ts[i] is Speaker {
        let e = events_end(ts, i + 1);
        proof {
            lemma_events_end(ts, i + 1);
        }
        let rest = conversation_nodes(ts, e);
        (
            seq![DialogNodeV { label: ts[i]->Speaker_0, events: events_at(ts, i + 1) }]
                + rest.0,
            rest.1,
        )
    } else {
        (seq![], i)
    }
}

/// The choice node at `i`: a choice followed by a jump, which becomes the
/// node's one event.
pub open spec fn choice_node_at(ts: Seq<TokenV>, i: int) -> Option<DialogNodeV> {
    if 0 <= i && i + 1 < ts.len() && ts[i] is Choice && ts[i + 1] matches TokenV::Command(
        CommandV::Jump(goto),
    ) {
        Some(
            DialogNodeV {
                label: ts[i]->Choice_0,
                events: seq![EventV::Jump(ts[i + 1]->Command_0->Jump_0)],
            },
        )
    } else {
        None
    }
}

/// The choice nodes starting at `i` and where they end.
pub open spec fn choice_nodes(ts: Seq<TokenV>, i: int) -> (Seq<DialogNodeV>, int)
    decreases ts.len() - i,
{
    if choice_node_at(ts, i) is Some {
        let rest = choice_nodes(ts, i + 2);
        (seq![choice_node_at(ts, i)->0] + rest.0, rest.1)
    } else {
        (seq![], i)
    }
}

/// The named dialog starting at `i`: a header, its nodes and `===`; and
/// where it ends.
pub open spec fn entry_at(ts: Seq<TokenV>, i: int) -> Option<((Seq<char>, DialogV), int)> {
    if 0 <= i < ts.len() {
        match ts[i] {
            TokenV::Block(BlockV::Conversation(id)) => {
                let (nodes, j) = conversation_nodes(ts, i + 1);
                if 0 <= j < ts.len() && ts[j] is End {
                    Some(((id, DialogV::Conversation(nodes)), j + 1))
                } else {
                    None
                }
            },
            TokenV::Block(BlockV::Choicer(id)) => {
                let (nodes, j) = choice_nodes(ts, i + 1);
                if 0 <= j < ts.len() && ts[j] is End {
                    Some(((id, DialogV::Choicer(nodes)), j + 1))
                } else {
                    None
                }
            },
            _ => None,
        }
    } else {
        None
    }
}

/// The named dialogs of `ts` from `i`: dialogs are taken while one matches,
/// and they must reach the end of `ts`.
pub open spec fn parse_from(ts: Seq<TokenV>, i: int) -> Option<Seq<(Seq<char>, DialogV)>>
    decreases ts.len() - i,
{
    if 0 <= i <= ts.len() {
        match entry_at(ts, i) {
            Some((d, j)) => if i < j <= ts.len() {
                match parse_from(ts, j) {
                    Some(rest) => Some(seq![d] + rest),
                    None => None,
                }
            } else {
                None
            },
            None => if i == ts.len() {
                Some(seq![])
            } else {
                None
            },
        }
    } else {
        None
    }
}

/// The named dialogs of a token sequence, or `None` where it is not one.
pub open spec fn parse(ts: Seq<TokenV>) -> Option<Seq<(Seq<char>, DialogV)>> {
    parse_from(ts, 0)
}

fn owned(s: &str) -> (r: String)
    ensures
        r@ == s@,
{
    s.to_owned()
}

fn event_of_token<'a>(t: &Token<'a>) -> (r: Option<Event>)
    ensures
        match r {
            Some(e) => event_of(t@) == Some(e@),
            None => event_of(t@) is None,
        },
{
    match t {
        Token::Text(x) => Some(Event::Text(owned(x))),
        Token::Command(Command::Wait(n)) => Some(Event::Wait(owned(n))),
        Token::Command(Command::Jump(id)) => Some(Event::Jump(owned(id))),
        Token::Command(Command::SetEnum { enum_name, value }) => {
            if str_eq(enum_name, "AnimType") {
                Some(Event::SetAnim(owned(value)))
            } else if str_eq(enum_name, "ViewType") {
                Some(Event::SetView(owned(value)))
            } else if str_eq(value, "NonAction") || str_eq(value, "NonControl") {
                Some(Event::RemoveParamater(owned(enum_name)))
            } else {
                Some(Event::SetParameter(owned(enum_name), owned(value)))
            }
        },
        Token::Command(Command::SetMainChoicer(id)) => Some(Event::SetMainChoicer(owned(id))),
        Token::Command(Command::Next) => Some(Event::Next),
        _ => None,
    }
}

/// Collects the events of the run starting at `i`.
fn parse_events<'a>(ts: &[Token<'a>], i: usize) -> (r: (Vec<Event>, usize))
    requires
        i <= ts@.len(),
    ensures
        r.1 == events_end(tokens_view(ts@), i as int),
        events_view(r.0@) == events_at(tokens_view(ts@), i as int),
{
    let ghost tv = tokens_view(ts@);
    let mut events: Vec<Event> = Vec::new();
    let mut j = i;
    proof {
        lemma_events_end(tv, i as int);
    }
    while j < ts.len()
        invariant
            tv == tokens_view(ts@),
            i <= j <= ts@.len(),
            events_end(tv, j as int) == events_end(tv, i as int),
            j <= events_end(tv, i as int),
            events_view(events@) =~= tv.subrange(i as int, j as int).map_values(
                |t: TokenV| event_of(t)->0,
            ),
        ensures
            events_end(tv, j as int) == j,
        decreases ts@.len() - j,
    {
        match event_of_token(&ts[j]) {
            Some(e) => {
                proof {
                    assert(tv[j as int] == ts@[j as int]@);
                    lemma_events_end(tv, j + 1);
                    assert(tv.subrange(i as int, j + 1) =~= tv.subrange(i as int, j as int).push(
                        tv[j as int],
                    ));
                    assert(tv.subrange(i as int, j + 1).map_values(|t: TokenV| event_of(t)->0)
                        =~= tv.subrange(i as int, j as int).map_values(
                        |t: TokenV| event_of(t)->0,
                    ).push(e@));
                    assert(events_view(events@.push(e)) =~= events_view(events@).push(e@));
                }
                events.push(e);
                j = j + 1;
            },
            None => {
                proof {
                    assert(tv[j as int] == ts@[j as int]@);
                }
                break ;
            },
        }
    }
    (events, j)
}

fn parse_conversation_nodes<'a>(ts: &[Token<'a>], i: usize) -> (r: (Vec<DialogNode>, usize))
    requires
        i <= ts@.len(),
    ensures
        r.1 == conversation_nodes(tokens_view(ts@), i as int).1,
        nodes_view(r.0@) == conversation_nodes(tokens_view(ts@), i as int).0,
        i <= r.1 <= ts@.len(),
{
    let ghost tv = tokens_view(ts@);
    let mut nodes: Vec<DialogNode> = Vec::new();
    let mut j = i;
    loop
        invariant
            tv == tokens_view(ts@),
            i <= j <= ts@.len(),
            conversation_nodes(tv, i as int).1 == conversation_nodes(tv, j as int).1,
            conversation_nodes(tv, i as int).0 =~= nodes_view(nodes@) + conversation_nodes(
                tv,
                j as int,
            ).0,
        decreases ts@.len() - j,
    {
        if j < ts.len() {
            match &ts[j] {
                Token::Speaker(who) => {
                    let (events, e) = parse_events(ts, j + 1);
                    proof {
                        lemma_events_end(tv, j + 1);
                        assert(tv[j as int] == ts@[j as int]@);
                    }
                    let node = DialogNode { label: owned(who), events };
                    proof {
                        assert(nodes_view(nodes@.push(node)) =~= nodes_view(nodes@).push(node@));
                    }
                    nodes.push(node);
                    j = e;
                    continue ;
                },
                _ => {
                    proof {
                        assert(tv[j as int] == ts@[j as int]@);
                    }
                },
            }
        }
        proof {
            assert(nodes_view(nodes@) + seq![] =~= nodes_view(nodes@));
        }
        return (nodes, j);
    }
}

fn parse_choice_nodes<'a>(ts: &[Token<'a>], i: usize) -> (r: (Vec<DialogNode>, usize))
    requires
        i <= ts@.len(),
    ensures
        r.1 == choice_nodes(tokens_view(ts@), i as int).1,
        nodes_view(r.0@) == choice_nodes(tokens_view(ts@), i as int).0,
        i <= r.1 <= ts@.len(),
{
    let ghost tv = tokens_view(ts@);
    let mut nodes: Vec<DialogNode> = Vec::new();
    let mut j = i;
    loop
        invariant
            tv == tokens_view(ts@),
            i <= j <= ts@.len(),
            choice_nodes(tv, i as int).1 == choice_nodes(tv, j as int).1,
            choice_nodes(tv, i as int).0 =~= nodes_view(nodes@) + choice_nodes(tv, j as int).0,
        decreases ts@.len() - j,
    {
        if j < ts.len() && j + 1 < ts.len() {
            proof {
                assert(tv[j as int] == ts@[j as int]@);
                assert(tv[j + 1] == ts@[j + 1]@);
            }
            match (&ts[j], &ts[j + 1]) {
                (Token::Choice(label), Token::Command(Command::Jump(goto))) => {
                    let mut events: Vec<Event> = Vec::new();
                    events.push(Event::Jump(owned(goto)));
                    let node = DialogNode { label: owned(label), events };
                    proof {
                        assert(events_view(node.events@) =~= seq![EventV::Jump(goto@)]);
                        assert(nodes_view(nodes@.push(node)) =~= nodes_view(nodes@).push(node@));
                    }
                    nodes.push(node);
                    j = j + 2;
                    continue ;
                },
                _ => {},
            }
        }
        proof {
            assert(nodes_view(nodes@) + seq![] =~= nodes_view(nodes@));
        }
        return (nodes, j);
    }
}

fn parse_entry<'a>(ts: &[Token<'a>], i: usize) -> (r: Option<((String, Dialog), usize)>)
    requires
        i <= ts@.len(),
    ensures
        match r {
            Some((d, j)) => entry_at(tokens_view(ts@), i as int) == Some(
                ((d.0@, d.1@), j as int),
            ) && i < j <= ts@.len(),
            None => entry_at(tokens_view(ts@), i as int) is None,
        },
{
    let ghost tv = tokens_view(ts@);
    if i >= ts.len() {
        return None;
    }
    proof {
        assert(tv[i as int] == ts@[i as int]@);
    }
    match &ts[i] {
        Token::Block(Block::Conversation(id)) => {
            let (nodes, j) = parse_conversation_nodes(ts, i + 1);
            if j < ts.len() {
                proof {
                    assert(tv[j as int] == ts@[j as int]@);
                }
                match &ts[j] {
                    Token::End => {
                        return Some(((owned(id), Dialog::Conversation(nodes)), j + 1));
                    },
                    _ => {},
                }
            }
            None
        },
        Token::Block(Block::Choicer(id)) => {
            let (nodes, j) = parse_choice_nodes(ts, i + 1);
            if j < ts.len() {
                proof {
                    assert(tv[j as int] == ts@[j as int]@);
                }
                match &ts[j] {
                    Token::End => {
                        return Some(((owned(id), Dialog::Choicer(nodes)), j + 1));
                    },
                    _ => {},
                }
            }
            None
        },
        _ => None,
    }
}

/// Turns tokens into named dialogs; `None` where the tokens are not a
/// sequence of complete blocks.
pub fn dialog_parser<'a>(tokens: &[Token<'a>]) -> (r: Option<Vec<(String, Dialog)>>)
    ensures
        match r {
            Some(v) => parse(tokens_view(tokens@)) == Some(entries_view(v@)),
            None => parse(tokens_view(tokens@)) is None,
        },
{
    let ghost tv = tokens_view(tokens@);
    let mut entries: Vec<(String, Dialog)> = Vec::new();
    let mut i: usize = 0;
    loop
        invariant
            tv == tokens_view(tokens@),
            i <= tokens@.len(),
            match parse_from(tv, i as int) {
                Some(rest) => parse(tv) == Some(entries_view(entries@) + rest),
                None => parse(tv) is None,
            },
        decreases tokens@.len() - i,
    {
        match parse_entry(tokens, i) {
            Some((d, next)) => {
                proof {
                    assert(entries_view(entries@.push(d)) =~= entries_view(entries@).push(
                        (d.0@, d.1@),
                    ));
                    match parse_from(tv, next as int) {
                        Some(rest) => {
                            assert(entries_view(entries@) + (seq![(d.0@, d.1@)] + rest)
                                =~= entries_view(entries@.push(d)) + rest);
                        },
                        None => {},
                    }
                }
                entries.push(d);
                i = next;
            },
            None => {
                if i == tokens.len() {
                    proof {
                        assert(entries_view(entries@) + seq![] =~= entries_view(entries@));
                    }
                    return Some(entries);
                } else {
                    return None;
                }
            },
        }
    }
}

} // verus!
