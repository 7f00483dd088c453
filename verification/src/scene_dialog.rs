//! The dialogs of a scene: a manager that insists on the dialogs a scene
//! starts from (`Initial.1`, `Idle` and `Phase01`), and the scene's player.
//!
//! The scene's player differs from [`crate::dialog::manager::DialogPlayer`]
//! in what it keeps (no current dialog name or node) and in two events:
//! removing an enum's parameters also removes the parameter named like the
//! enum, and animations loop.
use crate::dialog::manager::{
    choices_valid, choices_view, clone_choices, drop_front_node, entry_valid, front_event,
    front_event_of, front_events_left, front_node, has_node, iter_valid, last_index_of,
    lemma_drop_front_valid, lemma_last_index_of, lemma_pop_event_valid, opt_iter_view, pop_event,
    pop_front_event, state_view, DialogEntryPoint, DialogEntryPointV, DialogError, DialogIter,
    DialogIterV, PlayerAction, PlayerActionV, PlayerState, PlayerStateV,
};
use crate::dialog::manager::DialogManager as Dialogs;
use crate::dialog::manager::dialogs_fit;
use crate::dialog::parser::{dialog_parser, parse, tokens_view, DialogNodeV, DialogV, Event, EventV, Token};
use vstd::prelude::*;

verus! {

pub open spec fn has_id(m: Dialogs, id: Seq<char>) -> bool {
    last_index_of(m.ids(), id) is Some
}

/// The first of the dialogs a scene starts from that `m` lacks.
pub open spec fn first_missing(m: Dialogs) -> Option<Seq<char>> {
    if !has_id(m, "Initial.1"@) {
        Some("Initial.1"@)
    } else if !has_id(m, "Idle"@) {
        Some("Idle"@)
    } else if !has_id(m, "Phase01"@) {
        Some("Phase01"@)
    } else {
        None
    }
}

/// The dialogs of a scene, by name.
pub struct DialogManager {
    inner: Dialogs,
}

impl DialogManager {
    /// The dialogs and their names.
    pub closed spec fn dialogs(&self) -> Dialogs {
        self.inner
    }

    /// The dialogs are indexed and hold the dialogs a scene starts from.
    pub open spec fn wf(&self) -> bool {
        self.dialogs().wf() && first_missing(self.dialogs()) is None
    }

    /// Parses tokens into a scene's dialogs; where names repeat, the last
    /// dialog wins. `Err(DialogError::Parse)` where the tokens are not a
    /// sequence of complete blocks; `Err(DialogError::MissingDialog(name))`
    /// where `Initial.1`, `Idle` or `Phase01` (in this order) is missing.
    pub fn new<'a>(tokens: Vec<Token<'a>>) -> (r: Result<Self, DialogError>)
        ensures
            match parse(tokens_view(tokens@)) {
                None => r == Err::<Self, DialogError>(DialogError::Parse),
                Some(es) => match r {
                    Ok(m) => m.wf() && es == Seq::new(
                        m.dialogs().ids().len(),
                        |i: int| (m.dialogs().ids()[i], m.dialogs().dialogs()[i]),
                    ),
                    Err(DialogError::MissingDialog(name)) => {
                        let ids = es.map_values(|e: (Seq<char>, DialogV)| e.0);
                        &&& first_missing_of(ids) == Some(name@)
                    },
                    Err(DialogError::Parse) => false,
                },
            },
    {
        let entries = match dialog_parser(tokens.as_slice()) {
            Some(entries) => entries,
            None => {
                return Err(DialogError::Parse);
            },
        };
        let ghost es = parse(tokens_view(tokens@))->0;
        let inner = Dialogs::from_entries(entries);
        proof {
            assert(es =~= Seq::new(
                inner.ids().len(),
                |i: int| (inner.ids()[i], inner.dialogs()[i]),
            ));
            assert(es.map_values(|e: (Seq<char>, DialogV)| e.0) =~= inner.ids());
        }
        if inner.get_dialog_by_id("Initial.1").is_none() {
            return Err(DialogError::MissingDialog("Initial.1".to_owned()));
        }
        if inner.get_dialog_by_id("Idle").is_none() {
            return Err(DialogError::MissingDialog("Idle".to_owned()));
        }
        if inner.get_dialog_by_id("Phase01").is_none() {
            return Err(DialogError::MissingDialog("Phase01".to_owned()));
        }
        Ok(DialogManager { inner })
    }

    /// The entry point of `Phase01`.
    pub fn build_phase01(&self) -> (r: DialogEntryPoint)
        requires
            self.wf(),
        ensures
            self.dialogs().entry_point_for("Phase01"@) == Some(r@),
            entry_valid(self.dialogs().dialogs(), r@),
    {
        self.build("Phase01").unwrap()
    }

    /// The entry point of `Idle`.
    pub fn build_idle(&self) -> (r: DialogEntryPoint)
        requires
            self.wf(),
        ensures
            self.dialogs().entry_point_for("Idle"@) == Some(r@),
            entry_valid(self.dialogs().dialogs(), r@),
    {
        self.build("Idle").unwrap()
    }

    /// The entry point of `Initial.1`.
    pub fn build_initial(&self) -> (r: DialogEntryPoint)
        requires
            self.wf(),
        ensures
            self.dialogs().entry_point_for("Initial.1"@) == Some(r@),
            entry_valid(self.dialogs().dialogs(), r@),
    {
        self.build("Initial.1").unwrap()
    }

    /// An iterator over the dialog named `id`.
    pub fn build(&self, id: &str) -> (r: Option<DialogEntryPoint>)
        requires
            self.wf(),
        ensures
            match r {
                Some(ep) => self.dialogs().entry_point_for(id@) == Some(ep@) && entry_valid(
                    self.dialogs().dialogs(),
                    ep@,
                ),
                None => self.dialogs().entry_point_for(id@) is None,
            },
    {
        self.inner.build(id)
    }
}

/// [`first_missing`] over a list of names.
pub open spec fn first_missing_of(ids: Seq<Seq<char>>) -> Option<Seq<char>> {
    if last_index_of(ids, "Initial.1"@) is None {
        Some("Initial.1"@)
    } else if last_index_of(ids, "Idle"@) is None {
        Some("Idle"@)
    } else if last_index_of(ids, "Phase01"@) is None {
        Some("Phase01"@)
    } else {
        None
    }
}


/// Plays a scene's dialogs, one step per call of [`DialogPlayer::update`].
pub struct DialogPlayer {
    initial_dialog: DialogEntryPoint,
    state: PlayerState,
    iter: Option<DialogIter>,
    shown: bool,
}

pub struct ScenePlayerV {
    /// What `play` starts.
    pub initial_dialog: DialogEntryPointV,
    pub state: PlayerStateV,
    pub iter: Option<DialogIterV>,
    /// Whether the options of the choicer waited on were printed.
    pub shown: bool,
}

impl View for DialogPlayer {
    type V = ScenePlayerV;

    closed spec fn view(&self) -> ScenePlayerV {
        ScenePlayerV {
            initial_dialog: self.initial_dialog@,
            state: state_view(self.state),
            iter: opt_iter_view(self.iter),
            shown: self.shown,
        }
    }
}

/// Every iterator the player holds points into `dialogs`.
pub open spec fn scene_player_valid(dialogs: Seq<DialogV>, p: ScenePlayerV) -> bool {
    &&& entry_valid(dialogs, p.initial_dialog)
    &&& (p.iter matches Some(it) ==> iter_valid(dialogs, it))
    &&& (p.state matches PlayerStateV::WaitingChoice(cs) ==> choices_valid(dialogs, cs))
}

/// `play`: back to the initial dialog.
pub open spec fn scene_play_spec(p: ScenePlayerV) -> ScenePlayerV {
    match p.initial_dialog {
        DialogEntryPointV::Choicer(cs) => ScenePlayerV {
            state: PlayerStateV::WaitingChoice(cs),
            ..p
        },
        DialogEntryPointV::Conversation(it) => ScenePlayerV { iter: Some(it), ..p },
    }
}

/// `next`: while waiting for input, on to the next node, or finished when
/// there is none.
pub open spec fn scene_next_spec(p: ScenePlayerV) -> ScenePlayerV {
    if p.iter is Some && p.state is WaitingInput {
        let it = p.iter->0;
        if it.queue.len() == 0 {
            ScenePlayerV { state: PlayerStateV::Finished, iter: None, ..p }
        } else {
            ScenePlayerV {
                state: PlayerStateV::Running,
                iter: Some(DialogIterV { queue: it.queue.drop_first(), ..it }),
                ..p
            }
        }
    } else {
        p
    }
}

/// `handle_input(idx)`: while waiting on a choice, take option `idx` if
/// there is one.
pub open spec fn scene_handle_input_spec(p: ScenePlayerV, idx: int) -> ScenePlayerV {
    match p.state {
        PlayerStateV::WaitingChoice(cs) => if 0 <= idx < cs.len() {
            ScenePlayerV {
                shown: false,
                iter: Some(cs[idx].1),
                state: PlayerStateV::Running,
                ..p
            }
        } else {
            p
        },
        _ => p,
    }
}

/// Runs the events of the current node: enum parameter changes are taken
/// one after another, and the first other event ends the step; a removal
/// also removes the parameter named like the enum, and animations loop.
/// Otherwise as [`crate::dialog::manager::consume_from`], without names or
/// node indices.
pub open spec fn scene_consume_from(m: Dialogs, p: ScenePlayerV, acts: Seq<PlayerActionV>) -> (
    ScenePlayerV,
    Seq<PlayerActionV>,
)
    decreases p.iter->0.queue[0].events.len(),
{
    if p.iter is Some && p.iter->0.queue.len() > 0 {
        let it = p.iter->0;
        if it.queue[0].events.len() == 0 {
            (ScenePlayerV { state: PlayerStateV::WaitingInput, ..p }, acts)
        } else {
            let node = front_node(m.dialogs(), it);
            let popped = ScenePlayerV { iter: Some(pop_event(it)), ..p };
            match front_event(m.dialogs(), it) {
                EventV::SetParameter(t, v) => scene_consume_from(
                    m,
                    popped,
                    acts.push(PlayerActionV::SetParameters { enum_type: t, enum_value: v }),
                ),
                EventV::RemoveParamater(t) => scene_consume_from(
                    m,
                    popped,
                    acts.push(PlayerActionV::RemoveParameters(t)).push(
                        PlayerActionV::RemoveParameter(t),
                    ),
                ),
                EventV::SetMainChoicer(id) => (
                    match m.entry_point_for(id) {
                        Some(ep) => ScenePlayerV { initial_dialog: ep, ..popped },
                        None => popped,
                    },
                    acts,
                ),
                EventV::Text(t) => (
                    popped,
                    acts.push(PlayerActionV::ShowText { speaker: node.label, text: t }),
                ),
                EventV::Wait(n) => (popped, acts.push(PlayerActionV::SetTimer(n))),
                EventV::Jump(id) => match m.entry_point_for(id) {
                    Some(DialogEntryPointV::Choicer(cs)) => (
                        ScenePlayerV { state: PlayerStateV::WaitingChoice(cs), ..p },
                        acts,
                    ),
                    Some(DialogEntryPointV::Conversation(next)) => (
                        ScenePlayerV { iter: Some(next), ..p },
                        acts,
                    ),
                    None => (popped, acts),
                },
                EventV::SetAnim(n) => (popped, acts.push(PlayerActionV::PlayMotion(n))),
                EventV::Next => (
                    ScenePlayerV {
                        iter: Some(DialogIterV { queue: it.queue.drop_first(), ..it }),
                        ..p
                    },
                    acts,
                ),
                EventV::SetView(_) => (popped, acts),
            }
        }
    } else {
        (p, acts)
    }
}

/// `update`: a running player takes a step (nothing while the timer runs,
/// finished when no node is left); a player waiting on a choice shows its
/// options once.
pub open spec fn scene_update_spec(m: Dialogs, p: ScenePlayerV, timer_playing: bool) -> (
    ScenePlayerV,
    Seq<PlayerActionV>,
) {
    match p.state {
        PlayerStateV::Running => if timer_playing {
            (p, seq![])
        } else if p.iter is None || p.iter->0.queue.len() == 0 {
            (ScenePlayerV { state: PlayerStateV::Finished, ..p }, seq![])
        } else {
            scene_consume_from(m, p, seq![])
        },
        PlayerStateV::WaitingChoice(cs) => if !p.shown {
            (
                ScenePlayerV { shown: true, ..p },
                seq![PlayerActionV::ShowChoices(cs.map_values(|c: (Seq<char>, DialogIterV)| c.0))],
            )
        } else {
            (p, seq![])
        },
        _ => (p, seq![]),
    }
}

/// A jump runs at once: on an update of a running scene player whose next
/// event jumps to a choicer of its dialogs, the player waits on exactly
/// that choicer's options, in order, and the update after shows them; a
/// jump to a conversation starts its first node; a jump to a name the
/// dialogs lack moves on.
pub proof fn lemma_scene_jump_runs(m: Dialogs, p: ScenePlayerV, id: Seq<char>, timer: bool)
    requires
        m.wf(),
        dialogs_fit(m.dialogs()),
        p.state is Running,
        !p.shown,
        p.iter is Some,
        p.iter->0.queue.len() > 0,
        p.iter->0.queue[0].events.len() > 0,
        front_event(m.dialogs(), p.iter->0) == EventV::Jump(id),
    ensures
        ({
            let (q, acts) = scene_update_spec(m, p, false);
            &&& acts == Seq::<PlayerActionV>::empty()
            &&& match m.index_of(id) {
                Some(i) => match m.dialogs()[i] {
                    DialogV::Choicer(ns) => {
                        &&& q.state matches PlayerStateV::WaitingChoice(cs) && cs.len() == ns.len()
                            && forall|k: int| 0 <= k < cs.len() ==> (#[trigger] cs[k]).0 == ns[k].label
                        &&& scene_update_spec(m, q, timer).1 == seq![
                            PlayerActionV::ShowChoices(ns.map_values(|n: DialogNodeV| n.label)),
                        ]
                    },
                    DialogV::Conversation(ns) => {
                        &&& q.state is Running
                        &&& q.iter matches Some(it) && it.index == i && it.queue.len() == ns.len()
                            && forall|k: int| 0 <= k < ns.len() ==> (#[trigger] it.queue[k]).idx == k
                    },
                },
                None => q.state is Running && q.iter == Some(pop_event(p.iter->0)),
            }
        }),
{
    lemma_last_index_of(m.ids(), id);
    let (q, acts) = scene_update_spec(m, p, false);
    if let Some(i) = m.index_of(id) {
        if let DialogV::Choicer(ns) = m.dialogs()[i] {
            let cs = q.state->WaitingChoice_0;
            assert(cs.map_values(|c: (Seq<char>, DialogIterV)| c.0) =~= ns.map_values(
                |n: DialogNodeV| n.label,
            ));
        } else {
            assert(m.dialogs()[i].nodes().len() <= usize::MAX);
        }
    }
}

/// One update of a running scene player whose timer is off runs its next
/// event: a text is shown with the speaker of its node; a wait starts the
/// timer; an animation is played; a view change does nothing more; each
/// of these ends the update with the event done. `@next` leaves the node.
/// A main-choicer change makes the named dialog, when there is one, what
/// `play` starts. A parameter change, or a removal (asked for as a removal
/// of the enum's parameters and then of the parameter itself), is asked
/// for first and the update goes on with the events after it.
pub proof fn lemma_scene_event_step(m: Dialogs, p: ScenePlayerV)
    requires
        p.state is Running,
        p.iter is Some,
        p.iter->0.queue.len() > 0,
        p.iter->0.queue[0].events.len() > 0,
    ensures
        ({
            let it = p.iter->0;
            let (q, acts) = scene_update_spec(m, p, false);
            let done = ScenePlayerV { iter: Some(pop_event(it)), ..p };
            let node = front_node(m.dialogs(), it);
            match front_event(m.dialogs(), it) {
                EventV::Text(t) => q == done && acts == seq![
                    PlayerActionV::ShowText { speaker: node.label, text: t },
                ],
                EventV::Wait(n) => q == done && acts == seq![PlayerActionV::SetTimer(n)],
                EventV::SetAnim(n) => q == done && acts == seq![PlayerActionV::PlayMotion(n)],
                EventV::SetView(_) => q == done && acts == Seq::<PlayerActionV>::empty(),
                EventV::Next => acts == Seq::<PlayerActionV>::empty() && q.iter == Some(
                    DialogIterV { queue: it.queue.drop_first(), ..it },
                ) && q.state is Running,
                EventV::SetMainChoicer(id) => acts == Seq::<PlayerActionV>::empty() && q == match m.entry_point_for(
                    id,
                ) {
                    Some(ep) => ScenePlayerV { initial_dialog: ep, ..done },
                    None => done,
                },
                EventV::SetParameter(t, v) => acts.len() >= 1 && acts[0] == (
                PlayerActionV::SetParameters { enum_type: t, enum_value: v }),
                EventV::RemoveParamater(t) => acts.len() >= 2 && acts[0]
                    == PlayerActionV::RemoveParameters(t) && acts[1] == PlayerActionV::RemoveParameter(
                    t,
                ),
                EventV::Jump(_) => true,
            }
        }),
{
    let it = p.iter->0;
    let done = ScenePlayerV { iter: Some(pop_event(it)), ..p };
    match front_event(m.dialogs(), it) {
        EventV::SetParameter(t, v) => {
            lemma_scene_consume_keeps_prefix(
                m,
                done,
                seq![PlayerActionV::SetParameters { enum_type: t, enum_value: v }],
            );
        },
        EventV::RemoveParamater(t) => {
            let a = seq![PlayerActionV::RemoveParameters(t)].push(PlayerActionV::RemoveParameter(t));
            lemma_scene_consume_keeps_prefix(m, done, a);
            assert(Seq::<PlayerActionV>::empty().push(PlayerActionV::RemoveParameters(t)).push(
                PlayerActionV::RemoveParameter(t),
            ) == a);
        },
        _ => {},
    }
}

/// Running events only adds actions after those asked for already.
proof fn lemma_scene_consume_keeps_prefix(m: Dialogs, p: ScenePlayerV, acts: Seq<PlayerActionV>)
    ensures
        scene_consume_from(m, p, acts).1.len() >= acts.len(),
        forall|k: int|
            0 <= k < acts.len() ==> #[trigger] scene_consume_from(m, p, acts).1[k] == acts[k],
    decreases p.iter->0.queue[0].events.len(),
{
    if p.iter is Some && p.iter->0.queue.len() > 0 {
        let it = p.iter->0;
        if it.queue[0].events.len() > 0 {
            let popped = ScenePlayerV { iter: Some(pop_event(it)), ..p };
            assert(popped.iter->0.queue[0].events.len() < it.queue[0].events.len());
            let node = front_node(m.dialogs(), it);
            match front_event(m.dialogs(), it) {
                EventV::SetParameter(t, v) => {
                    let a2 = acts.push(PlayerActionV::SetParameters { enum_type: t, enum_value: v });
                    lemma_scene_consume_keeps_prefix(m, popped, a2);
                    assert forall|k: int| 0 <= k < acts.len() implies #[trigger] scene_consume_from(
                        m,
                        p,
                        acts,
                    ).1[k] == acts[k] by {
                        assert(a2[k] == acts[k]);
                    }
                },
                EventV::RemoveParamater(t) => {
                    let a2 = acts.push(PlayerActionV::RemoveParameters(t)).push(
                        PlayerActionV::RemoveParameter(t),
                    );
                    lemma_scene_consume_keeps_prefix(m, popped, a2);
                    assert forall|k: int| 0 <= k < acts.len() implies #[trigger] scene_consume_from(
                        m,
                        p,
                        acts,
                    ).1[k] == acts[k] by {
                        assert(a2[k] == acts[k]);
                    }
                },
                EventV::Text(t) => {
                    let a2 = acts.push(PlayerActionV::ShowText { speaker: node.label, text: t });
                    assert forall|k: int| 0 <= k < acts.len() implies #[trigger] a2[k] == acts[k] by {}
                },
                EventV::Wait(n) => {
                    let a2 = acts.push(PlayerActionV::SetTimer(n));
                    assert forall|k: int| 0 <= k < acts.len() implies #[trigger] a2[k] == acts[k] by {}
                },
                EventV::SetAnim(n) => {
                    let a2 = acts.push(PlayerActionV::PlayMotion(n));
                    assert forall|k: int| 0 <= k < acts.len() implies #[trigger] a2[k] == acts[k] by {}
                },
                _ => {},
            }
        }
    }
}

pub open spec fn scene_actions_view(v: Seq<PlayerAction>) -> Seq<PlayerActionV> {
    v.map_values(|a: PlayerAction| a@)
}

impl DialogPlayer {
    /// Every iterator the player holds points into the dialogs of `mgr`.
    pub open spec fn valid_for(&self, mgr: &DialogManager) -> bool {
        mgr.wf() && scene_player_valid(mgr.dialogs().dialogs(), self@)
    }

    /// A player that will start `initial_dialog`.
    pub fn new(initial_dialog: DialogEntryPoint) -> (r: Self)
        ensures
            r@ == (ScenePlayerV {
                initial_dialog: initial_dialog@,
                state: PlayerStateV::Running,
                iter: None,
                shown: false,
            }),
    {
        DialogPlayer { initial_dialog, iter: None, state: PlayerState::Running, shown: false }
    }

    /// Starts the initial dialog again.
    pub fn play(&mut self)
        ensures
            final(self)@ == scene_play_spec(old(self)@),
    {
        match &self.initial_dialog {
            DialogEntryPoint::Choicer(choices) => {
                let cs = clone_choices(choices);
                self.state = PlayerState::WaitingChoice(cs);
            },
            DialogEntryPoint::Conversation(iter) => {
                self.iter = Some(iter.clone());
            },
        }
    }

    /// Moves on after the player waited for input.
    pub fn next(&mut self)
        ensures
            final(self)@ == scene_next_spec(old(self)@),
    {
        match self.state {
            PlayerState::WaitingInput => {},
            _ => {
                return ;
            },
        }
        if has_node(&self.iter) {
            drop_front_node(&mut self.iter);
            self.state = PlayerState::Running;
        } else if self.iter.is_some() {
            self.state = PlayerState::Finished;
            self.iter = None;
        }
    }

    /// Takes option `idx` of the choice waited on, if there is one.
    pub fn handle_input(&mut self, idx: usize)
        ensures
            final(self)@ == scene_handle_input_spec(old(self)@, idx as int),
    {
        let chosen = match &self.state {
            PlayerState::WaitingChoice(choices) => {
                if idx < choices.len() {
                    Some(choices[idx].1.clone())
                } else {
                    None
                }
            },
            _ => None,
        };
        match chosen {
            Some(it) => {
                self.shown = false;
                self.iter = Some(it);
                self.state = PlayerState::Running;
            },
            None => {},
        }
    }

    fn consume_events(&mut self, mgr: &DialogManager, acts: &mut Vec<PlayerAction>)
        requires
            old(self).valid_for(mgr),
            old(self)@.iter is Some,
            old(self)@.iter->0.queue.len() > 0,
        ensures
            (final(self)@, scene_actions_view(final(acts)@)) == scene_consume_from(
                mgr.dialogs(),
                old(self)@,
                scene_actions_view(old(acts)@),
            ),
            final(self).valid_for(mgr),
        decreases old(self)@.iter->0.queue[0].events.len(),
    {
        let ghost it = self@.iter->0;
        let ghost a0 = scene_actions_view(acts@);
        let ghost dv = mgr.dialogs().dialogs();
        let n_events = front_events_left(&self.iter);
        if n_events == 0 {
            self.state = PlayerState::WaitingInput;
            return ;
        }
        proof {
            lemma_pop_event_valid(dv, it);
            lemma_drop_front_valid(dv, it);
        }
        let (node, event) = front_event_of(self.iter.as_ref().unwrap(), &mgr.inner);
        match event {
            Event::SetParameter(t, v) => {
                let a = PlayerAction::SetParameters { enum_type: t.clone(), enum_value: v.clone() };
                proof {
                    assert(scene_actions_view(acts@.push(a)) =~= a0.push(a@));
                }
                acts.push(a);
                pop_front_event(&mut self.iter);
                self.consume_events(mgr, acts);
            },
            Event::RemoveParamater(t) => {
                let a = PlayerAction::RemoveParameters(t.clone());
                let b = PlayerAction::RemoveParameter(t.clone());
                proof {
                    assert(scene_actions_view(acts@.push(a).push(b)) =~= a0.push(a@).push(b@));
                }
                acts.push(a);
                acts.push(b);
                pop_front_event(&mut self.iter);
                self.consume_events(mgr, acts);
            },
            Event::SetMainChoicer(id) => {
                match mgr.build(id.as_str()) {
                    Some(ep) => {
                        self.initial_dialog = ep;
                    },
                    None => {},
                }
                pop_front_event(&mut self.iter);
            },
            Event::Text(t) => {
                let a = PlayerAction::ShowText { speaker: node.label.clone(), text: t.clone() };
                proof {
                    assert(scene_actions_view(acts@.push(a)) =~= a0.push(a@));
                }
                acts.push(a);
                pop_front_event(&mut self.iter);
            },
            Event::Wait(n) => {
                let a = PlayerAction::SetTimer(n.clone());
                proof {
                    assert(scene_actions_view(acts@.push(a)) =~= a0.push(a@));
                }
                acts.push(a);
                pop_front_event(&mut self.iter);
            },
            Event::Jump(id) => {
                match mgr.build(id.as_str()) {
                    Some(DialogEntryPoint::Choicer(choices)) => {
                        self.state = PlayerState::WaitingChoice(choices);
                    },
                    Some(DialogEntryPoint::Conversation(next)) => {
                        self.iter = Some(next);
                    },
                    None => {
                        pop_front_event(&mut self.iter);
                    },
                }
            },
            Event::SetAnim(name) => {
                let a = PlayerAction::PlayMotion(name.clone());
                proof {
                    assert(scene_actions_view(acts@.push(a)) =~= a0.push(a@));
                }
                acts.push(a);
                pop_front_event(&mut self.iter);
            },
            Event::Next => {
                drop_front_node(&mut self.iter);
            },
            Event::SetView(_) => {
                pop_front_event(&mut self.iter);
            },
        }
    }

    /// One step of the player: see [`scene_update_spec`]. `timer_playing`
    /// tells whether the animator's timer is running; the result is what the
    /// caller has to carry out.
    pub fn update(&mut self, timer_playing: bool, dialog_mgr: &DialogManager) -> (acts: Vec<
        PlayerAction,
    >)
        requires
            old(self).valid_for(dialog_mgr),
        ensures
            (final(self)@, scene_actions_view(acts@)) == scene_update_spec(
                dialog_mgr.dialogs(),
                old(self)@,
                timer_playing,
            ),
            final(self).valid_for(dialog_mgr),
    {
        let mut acts: Vec<PlayerAction> = Vec::new();
        proof {
            assert(scene_actions_view(acts@) =~= seq![]);
        }
        let mut labels: Vec<String> = Vec::new();
        let show = match &self.state {
            PlayerState::Running => {
                if timer_playing {
                    return acts;
                }
                if !has_node(&self.iter) {
                    self.state = PlayerState::Finished;
                    return acts;
                }
                self.consume_events(dialog_mgr, &mut acts);
                return acts;
            },
            PlayerState::WaitingChoice(choices) => {
                if !self.shown {
                    let mut i: usize = 0;
                    while i < choices.len()
                        invariant
                            i <= choices@.len(),
                            labels@.map_values(|l: String| l@) =~= choices_view(choices@).map_values(
                                |c: (Seq<char>, DialogIterV)| c.0,
                            ).subrange(0, i as int),
                        decreases choices@.len() - i,
                    {
                        let l = choices[i].0.clone();
                        proof {
                            assert(labels@.push(l).map_values(|l: String| l@) =~= labels@.map_values(
                                |l: String| l@,
                            ).push(l@));
                        }
                        labels.push(l);
                        i = i + 1;
                    }
                    proof {
                        let all = choices_view(choices@).map_values(
                            |c: (Seq<char>, DialogIterV)| c.0,
                        );
                        assert(all.subrange(0, all.len() as int) =~= all);
                    }
                    true
                } else {
                    false
                }
            },
            _ => false,
        };
        if show {
            self.shown = true;
            let a = PlayerAction::ShowChoices(labels);
            acts.push(a);
        }
        proof {
            assert(scene_actions_view(acts@) =~= scene_update_spec(
                dialog_mgr.dialogs(),
                old(self)@,
                timer_playing,
            ).1);
        }
        acts
    }
}

} // verus!
