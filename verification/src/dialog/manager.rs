//! The dialog manager, which indexes parsed dialogs by name and builds
//! iterators over them, and the dialog player, the state machine that walks
//! those iterators.
//!
//! The player does not touch the animator, the parameter enums or the
//! motions itself: each step returns the [`PlayerAction`]s that the caller
//! carries out, and the caller reports whether the animator's timer is
//! running.
use crate::dialog::parser::{
    dialog_parser, nodes_view, parse, tokens_view, Dialog, DialogNode, DialogNodeV, DialogV, Event,
    EventV,
    Token,
};
use crate::text::str_eq;
use std::collections::VecDeque;
use vstd::prelude::*;
use vstd::std_specs::vecdeque::VecDequeAdditionalSpecFns;

verus! {

/// Why a dialog manager could not be made.
#[derive(Debug, PartialEq)]
pub enum DialogError {
    /// The tokens are not a sequence of complete dialog blocks.
    Parse,
    /// A dialog that must be present is not.
    MissingDialog(String),
}

/// A block's header as a dialog file writes it: `Phase01`, the choicer a
/// scene starts its first phase from, in double brackets, any other name in
/// single ones.
pub open spec fn block_header(name: Seq<char>) -> Seq<char> {
    if name == "Phase01"@ {
        "[["@ + name + "]]"@
    } else {
        "["@ + name + "]"@
    }
}

/// The text that reports an error.
pub open spec fn error_message(e: DialogError) -> Seq<char> {
    match e {
        DialogError::Parse => "Dialog Block Parser"@,
        DialogError::MissingDialog(name) => "Dialog File must be have "@ + block_header(name@),
    }
}

impl DialogError {
    /// The text that reports this error: for a parse error it starts with
    /// `Dialog Block Parser`, for a missing dialog it names the block's
    /// header, as in `Dialog File must be have [Idle]`.
    pub fn message(&self) -> (r: String)
        ensures
            r@ == error_message(*self),
    {
        match self {
            DialogError::Parse => "Dialog Block Parser".to_owned(),
            DialogError::MissingDialog(name) => {
                let mut r = "Dialog File must be have ".to_owned();
                if str_eq(name.as_str(), "Phase01") {
                    r.append("[[");
                    r.append(name.as_str());
                    r.append("]]");
                } else {
                    r.append("[");
                    r.append(name.as_str());
                    r.append("]");
                }
                r
            },
        }
    }
}

// ------------------------------------------------------------------------
// Iterators
// ------------------------------------------------------------------------

/// Where the player stands in one dialog node: the node's index and the
/// indices of its events still to run.
pub struct ConversationIter {
    idx: usize,
    events: VecDeque<usize>,
}

pub struct ConversationIterV {
    pub idx: usize,
    pub events: Seq<usize>,
}

impl View for ConversationIter {
    type V = ConversationIterV;

    closed spec fn view(&self) -> ConversationIterV {
        ConversationIterV { idx: self.idx, events: self.events@ }
    }
}

impl Clone for ConversationIter {
    fn clone(&self) -> (r: Self)
        ensures
            r@ == self@,
    {
        let events = self.events.clone();
        proof {
            assert forall|i: int| 0 <= i < self.events@.len() implies events@[i]
                == self.events@[i] by {
                assert(cloned::<usize>(self.events[i], events[i]));
            }
            assert(events@ =~= self.events@);
        }
        ConversationIter { idx: self.idx, events }
    }
}

/// Where the player stands in a dialog: the dialog's index and the nodes
/// still to play (the first one being played).
pub struct DialogIter {
    index: usize,
    queue: VecDeque<ConversationIter>,
}

pub struct DialogIterV {
    pub index: usize,
    pub queue: Seq<ConversationIterV>,
}

impl View for DialogIter {
    type V = DialogIterV;

    closed spec fn view(&self) -> DialogIterV {
        DialogIterV {
            index: self.index,
            queue: self.queue@.map_values(|c: ConversationIter| c@),
        }
    }
}

impl Clone for DialogIter {
    fn clone(&self) -> (r: Self)
        ensures
            r@ == self@,
    {
        let queue = self.queue.clone();
        proof {
            assert forall|i: int| 0 <= i < self.queue@.len() implies queue@[i]@
                == self.queue@[i]@ by {
                assert(cloned::<ConversationIter>(self.queue[i], queue[i]));
            }
            assert(queue@.map_values(|c: ConversationIter| c@) =~= self.queue@.map_values(
                |c: ConversationIter| c@,
            ));
        }
        DialogIter { index: self.index, queue }
    }
}

/// What a dialog starts with: the options of a choicer, each with the
/// iterator it leads to, or the iterator of a conversation.
pub enum DialogEntryPoint {
    Choicer(Vec<(String, DialogIter)>),
    Conversation(DialogIter),
}

pub enum DialogEntryPointV {
    Choicer(Seq<(Seq<char>, DialogIterV)>),
    Conversation(DialogIterV),
}

pub open spec fn choices_view(v: Seq<(String, DialogIter)>) -> Seq<(Seq<char>, DialogIterV)> {
    v.map_values(|c: (String, DialogIter)| (c.0@, c.1@))
}

impl View for DialogEntryPoint {
    type V = DialogEntryPointV;

    open spec fn view(&self) -> DialogEntryPointV {
        match self {
            DialogEntryPoint::Choicer(choices) => DialogEntryPointV::Choicer(
                choices_view(choices@),
            ),
            DialogEntryPoint::Conversation(it) => DialogEntryPointV::Conversation(it@),
        }
    }
}

pub(crate) fn clone_choices(v: &Vec<(String, DialogIter)>) -> (r: Vec<(String, DialogIter)>)
    ensures
        choices_view(r@) == choices_view(v@),
{
    let mut r: Vec<(String, DialogIter)> = Vec::new();
    let mut i: usize = 0;
    while i < v.len()
        invariant
            i <= v@.len(),
            choices_view(r@) =~= choices_view(v@).subrange(0, i as int),
        decreases v@.len() - i,
    {
        let c = (v[i].0.clone(), v[i].1.clone());
        proof {
            assert(choices_view(r@.push(c)) =~= choices_view(r@).push((c.0@, c.1@)));
        }
        r.push(c);
        i = i + 1;
    }
    proof {
        assert(choices_view(v@).subrange(0, v@.len() as int) =~= choices_view(v@));
    }
    r
}

/// The iterator over a node that has not started: all its events, in order.
pub open spec fn fresh_node_iter(idx: int, n_events: nat) -> ConversationIterV {
    ConversationIterV { idx: idx as usize, events: Seq::new(n_events, |j: int| j as usize) }
}

/// The entry point of the dialog `d` found at `index`: for a choicer, each
/// option with an iterator over just that option's node; for a conversation,
/// an iterator over all its nodes.
pub open spec fn entry_point_of(d: DialogV, index: int) -> DialogEntryPointV {
    match d {
        DialogV::Choicer(nodes) => DialogEntryPointV::Choicer(
            Seq::new(
                nodes.len(),
                |k: int|
                    (
                        nodes[k].label,
                        DialogIterV {
                            index: index as usize,
                            queue: seq![fresh_node_iter(k, nodes[k].events.len())],
                        },
                    ),
            ),
        ),
        DialogV::Conversation(nodes) => DialogEntryPointV::Conversation(
            DialogIterV {
                index: index as usize,
                queue: Seq::new(nodes.len(), |k: int| fresh_node_iter(k, nodes[k].events.len())),
            },
        ),
    }
}

/// A node iterator that points at a node of `nodes`, and at events of it.
pub open spec fn node_iter_valid(nodes: Seq<DialogNodeV>, c: ConversationIterV) -> bool {
    &&& c.idx < nodes.len()
    &&& forall|e: int| 0 <= e < c.events.len() ==> #[trigger] c.events[e] < nodes[c.idx as int].events.len()
}

/// An iterator that points into `dialogs`.
pub open spec fn iter_valid(dialogs: Seq<DialogV>, it: DialogIterV) -> bool {
    &&& it.index < dialogs.len()
    &&& forall|q: int|
        0 <= q < it.queue.len() ==> node_iter_valid(
            dialogs[it.index as int].nodes(),
            #[trigger] it.queue[q],
        )
}

pub open spec fn choices_valid(dialogs: Seq<DialogV>, cs: Seq<(Seq<char>, DialogIterV)>) -> bool {
    forall|k: int| 0 <= k < cs.len() ==> iter_valid(dialogs, #[trigger] cs[k].1)
}

pub open spec fn entry_valid(dialogs: Seq<DialogV>, ep: DialogEntryPointV) -> bool {
    match ep {
        DialogEntryPointV::Choicer(cs) => choices_valid(dialogs, cs),
        DialogEntryPointV::Conversation(it) => iter_valid(dialogs, it),
    }
}

// ------------------------------------------------------------------------
// The manager
// ------------------------------------------------------------------------

/// The index in `ids` of the last occurrence of `id`.
pub open spec fn last_index_of(ids: Seq<Seq<char>>, id: Seq<char>) -> Option<int>
    decreases ids.len(),
{
    if ids.len() == 0 {
        None
    } else if ids.last() == id {
        Some(ids.len() - 1)
    } else {
        last_index_of(ids.drop_last(), id)
    }
}

pub proof fn lemma_last_index_of(ids: Seq<Seq<char>>, id: Seq<char>)
    ensures
        match last_index_of(ids, id) {
            Some(i) => 0 <= i < ids.len() && ids[i] == id && forall|j: int|
                i < j < ids.len() ==> ids[j] != id,
            None => forall|j: int| 0 <= j < ids.len() ==> ids[j] != id,
        },
    decreases ids.len(),
{
    if ids.len() > 0 && ids.last() != id {
        let rest = ids.drop_last();
        lemma_last_index_of(rest, id);
        assert forall|j: int| 0 <= j < rest.len() implies rest[j] == ids[j] by {}
    }
}

/// The positions of the names that are the last of their kind, in order:
/// the dialogs that the names stand for.
pub open spec fn live_positions(ids: Seq<Seq<char>>, n: int) -> Seq<int>
    decreases n,
{
    if n <= 0 {
        seq![]
    } else {
        let prev = live_positions(ids, n - 1);
        if last_index_of(ids, ids[n - 1]) == Some(n - 1) {
            prev.push(n - 1)
        } else {
            prev
        }
    }
}

/// No name occurs twice.
pub open spec fn distinct_ids(ids: Seq<Seq<char>>) -> bool {
    forall|i: int, j: int| 0 <= i < j < ids.len() ==> ids[i] != ids[j]
}

pub open spec fn entry_ids(entries: Seq<(String, Dialog)>) -> Seq<Seq<char>> {
    entries.map_values(|e: (String, Dialog)| e.0@)
}

pub open spec fn entry_dialogs(entries: Seq<(String, Dialog)>) -> Seq<DialogV> {
    entries.map_values(|e: (String, Dialog)| e.1@)
}

/// Parsed dialogs, each under its name.
pub struct DialogManager {
    dialogs: Vec<Dialog>,
    ids: Vec<String>,
}

/// The position of the last name in `ids` equal to `id`.
pub(crate) fn find_last(ids: &Vec<String>, id: &str) -> (r: Option<usize>)
    ensures
        match r {
            Some(i) => last_index_of(ids@.map_values(|s: String| s@), id@) == Some(i as int),
            None => last_index_of(ids@.map_values(|s: String| s@), id@) is None,
        },
{
    let ghost names = ids@.map_values(|s: String| s@);
    let mut k = ids.len();
    proof {
        lemma_last_index_of(names, id@);
    }
    while k > 0
        invariant
            names == ids@.map_values(|s: String| s@),
            k <= ids@.len(),
            forall|j: int| k <= j < ids@.len() ==> names[j] != id@,
        decreases k,
    {
        if str_eq(ids[k - 1].as_str(), id) {
            let ghost i = k - 1;
            proof {
                lemma_last_index_of(names, id@);
                match last_index_of(names, id@) {
                    Some(m) => {
                        if m != i {
                            assert(names[i] == id@);
                        }
                    },
                    None => {
                        assert(names[i] == id@);
                    },
                }
            }
            return Some(k - 1);
        }
        k = k - 1;
    }
    proof {
        lemma_last_index_of(names, id@);
        match last_index_of(names, id@) {
            Some(m) => {
                assert(names[m] == id@);
            },
            None => {},
        }
    }
    None
}

fn fresh_queue_entry(idx: usize, n_events: usize) -> (r: ConversationIter)
    ensures
        r@ == fresh_node_iter(idx as int, n_events as nat),
{
    let mut events: VecDeque<usize> = VecDeque::new();
    let mut j: usize = 0;
    while j < n_events
        invariant
            j <= n_events,
            events@ =~= Seq::new(j as nat, |m: int| m as usize),
        decreases n_events - j,
    {
        events.push_back(j);
        j = j + 1;
    }
    ConversationIter { idx, events }
}

/// Builds the entry point of the dialog at `index`.
pub(crate) fn entry_point_at(dialogs: &Vec<Dialog>, index: usize) -> (r: DialogEntryPoint)
    requires
        index < dialogs@.len(),
    ensures
        r@ == entry_point_of(dialogs@[index as int]@, index as int),
        entry_valid(dialogs@.map_values(|d: Dialog| d@), r@),
{
    let ghost dv = dialogs@.map_values(|d: Dialog| d@);
    let nodes = dialogs[index].nodes();
    let ghost nv = nodes_view(nodes@);
    assert(dv[index as int] == dialogs@[index as int]@);
    match &dialogs[index] {
        Dialog::Choicer(_) => {
            let mut choices: Vec<(String, DialogIter)> = Vec::new();
            let mut k: usize = 0;
            while k < nodes.len()
                invariant
                    nv == nodes_view(nodes@),
                    nv == dv[index as int].nodes(),
                    index < dv.len(),
                    k <= nodes@.len(),
                    choices_view(choices@) =~= Seq::new(
                        k as nat,
                        |m: int|
                            (
                                nv[m].label,
                                DialogIterV {
                                    index: index,
                                    queue: seq![fresh_node_iter(m, nv[m].events.len())],
                                },
                            ),
                    ),
                decreases nodes@.len() - k,
            {
                let c = fresh_queue_entry(k, nodes[k].events.len());
                let mut queue: VecDeque<ConversationIter> = VecDeque::new();
                queue.push_back(c);
                let it = DialogIter { index, queue };
                let label = nodes[k].label.clone();
                proof {
                    assert(nv[k as int] == nodes@[k as int]@);
                    assert(it@.queue =~= seq![fresh_node_iter(k as int, nv[k as int].events.len())]);
                    assert(choices_view(choices@.push((label, it))) =~= choices_view(choices@).push(
                        (label@, it@),
                    ));
                }
                choices.push((label, it));
                k = k + 1;
            }
            proof {
                let cv = choices_view(choices@);
                assert forall|m: int| 0 <= m < cv.len() implies iter_valid(dv, #[trigger] cv[m].1) by {
                    assert(cv[m].1.queue =~= seq![fresh_node_iter(m, nv[m].events.len())]);
                }
            }
            DialogEntryPoint::Choicer(choices)
        },
        Dialog::Conversation(_) => {
            let mut queue: VecDeque<ConversationIter> = VecDeque::new();
            let mut k: usize = 0;
            while k < nodes.len()
                invariant
                    nv == nodes_view(nodes@),
                    k <= nodes@.len(),
                    queue@.map_values(|c: ConversationIter| c@) =~= Seq::new(
                        k as nat,
                        |m: int| fresh_node_iter(m, nv[m].events.len()),
                    ),
                decreases nodes@.len() - k,
            {
                let c = fresh_queue_entry(k, nodes[k].events.len());
                proof {
                    assert(nv[k as int] == nodes@[k as int]@);
                    assert(queue@.push(c).map_values(|c: ConversationIter| c@) =~= queue@.map_values(
                        |c: ConversationIter| c@,
                    ).push(c@));
                }
                queue.push_back(c);
                k = k + 1;
            }
            let it = DialogIter { index, queue };
            DialogEntryPoint::Conversation(it)
        },
    }
}

impl DialogManager {
    /// The names of the dialogs, in order.
    pub closed spec fn ids(&self) -> Seq<Seq<char>> {
        self.ids@.map_values(|s: String| s@)
    }

    /// The dialogs, in order; `dialogs()[i]` is named `ids()[i]`.
    pub closed spec fn dialogs(&self) -> Seq<DialogV> {
        self.dialogs@.map_values(|d: Dialog| d@)
    }

    /// Every dialog has one name.
    pub open spec fn wf(&self) -> bool {
        self.ids().len() == self.dialogs().len()
    }

    /// The dialog that the name `id` stands for: the last one so named.
    pub open spec fn index_of(&self, id: Seq<char>) -> Option<int> {
        last_index_of(self.ids(), id)
    }

    /// What `build(id)` gives.
    pub open spec fn entry_point_for(&self, id: Seq<char>) -> Option<DialogEntryPointV> {
        match self.index_of(id) {
            Some(i) => Some(entry_point_of(self.dialogs()[i], i)),
            None => None,
        }
    }

    /// Indexes `entries` by name. Two entries may not share a name.
    pub fn new_from_entries(entries: Vec<(String, Dialog)>) -> (r: Self)
        requires
            distinct_ids(entry_ids(entries@)),
        ensures
            r.wf(),
            r.ids() == entry_ids(entries@),
            r.dialogs() == entry_dialogs(entries@),
            distinct_ids(r.ids()),
    {
        Self::from_entries(entries)
    }

    /// Indexes `entries` by name; where names repeat, the last entry wins.
    pub(crate) fn from_entries(entries: Vec<(String, Dialog)>) -> (r: Self)
        ensures
            r.wf(),
            r.ids() == entry_ids(entries@),
            r.dialogs() == entry_dialogs(entries@),
    {
        let mut entries = entries;
        let ghost all = entries@;
        let mut dialogs: Vec<Dialog> = Vec::new();
        let mut ids: Vec<String> = Vec::new();
        while entries.len() > 0
            invariant
                dialogs@.len() == ids@.len(),
                dialogs@.len() + entries@.len() == all.len(),
                entries@ =~= all.subrange(dialogs@.len() as int, all.len() as int),
                ids@.map_values(|s: String| s@) =~= entry_ids(all).subrange(0, ids@.len() as int),
                dialogs@.map_values(|d: Dialog| d@) =~= entry_dialogs(all).subrange(
                    0,
                    dialogs@.len() as int,
                ),
            decreases entries@.len(),
        {
            let (id, dialog) = entries.remove(0);
            proof {
                assert(ids@.push(id).map_values(|s: String| s@) =~= ids@.map_values(
                    |s: String| s@,
                ).push(id@));
                assert(dialogs@.push(dialog).map_values(|d: Dialog| d@) =~= dialogs@.map_values(
                    |d: Dialog| d@,
                ).push(dialog@));
            }
            ids.push(id);
            dialogs.push(dialog);
        }
        proof {
            assert(entry_ids(all).subrange(0, all.len() as int) =~= entry_ids(all));
            assert(entry_dialogs(all).subrange(0, all.len() as int) =~= entry_dialogs(all));
        }
        DialogManager { dialogs, ids }
    }

    /// Parses tokens into dialogs and indexes them; `Err(DialogError::Parse)`
    /// exactly where the tokens are not a sequence of complete blocks. Where
    /// they are, no two blocks may share a name.
    pub fn new_from_tokens<'a>(tokens: Vec<Token<'a>>) -> (r: Result<Self, DialogError>)
        requires
            match parse(tokens_view(tokens@)) {
                Some(es) => distinct_ids(es.map_values(|e: (Seq<char>, DialogV)| e.0)),
                None => true,
            },
        ensures
            match r {
                Ok(m) => parse(tokens_view(tokens@)) == Some(
                    Seq::new(m.ids().len(), |i: int| (m.ids()[i], m.dialogs()[i])),
                ) && m.wf() && distinct_ids(m.ids()),
                Err(e) => e == DialogError::Parse && parse(tokens_view(tokens@)) is None,
            },
    {
        match dialog_parser(tokens.as_slice()) {
            Some(entries) => {
                proof {
                    let es = parse(tokens_view(tokens@))->0;
                    assert(es.map_values(|e: (Seq<char>, DialogV)| e.0) =~= entry_ids(entries@));
                }
                let m = Self::new_from_entries(entries);
                proof {
                    assert(parse(tokens_view(tokens@))->0 =~= Seq::new(
                        m.ids().len(),
                        |i: int| (m.ids()[i], m.dialogs()[i]),
                    ));
                }
                Ok(m)
            },
            None => Err(DialogError::Parse),
        }
    }

    /// Every name with the dialog it stands for (its last one), in the
    /// order of those dialogs.
    pub fn get_dialogs(&self) -> (r: Vec<(&String, &Dialog)>)
        requires
            self.wf(),
        ensures
            r@.len() == live_positions(self.ids(), self.ids().len() as int).len(),
            forall|k: int|
                #![trigger r@[k]]
                0 <= k < r@.len() ==> {
                    let p = live_positions(self.ids(), self.ids().len() as int)[k];
                    &&& r@[k].0@ == self.ids()[p]
                    &&& r@[k].1@ == self.dialogs()[p]
                },
    {
        let ghost ids = self.ids();
        let mut r: Vec<(&String, &Dialog)> = Vec::new();
        let mut i: usize = 0;
        while i < self.ids.len()
            invariant
                self.wf(),
                ids == self.ids(),
                i <= self.ids@.len(),
                r@.len() == live_positions(ids, i as int).len(),
                forall|k: int|
                    #![trigger r@[k]]
                    0 <= k < r@.len() ==> {
                        let p = live_positions(ids, i as int)[k];
                        &&& r@[k].0@ == ids[p]
                        &&& r@[k].1@ == self.dialogs()[p]
                    },
            decreases self.ids@.len() - i,
        {
            let last = find_last(&self.ids, self.ids[i].as_str());
            if last == Some(i) {
                r.push((&self.ids[i], &self.dialogs[i]));
            }
            i = i + 1;
        }
        r
    }

    /// The dialog named `id`.
    pub fn get_dialog_by_id(&self, id: &str) -> (r: Option<&Dialog>)
        requires
            self.wf(),
        ensures
            match self.index_of(id@) {
                Some(i) => r matches Some(d) && d@ == self.dialogs()[i],
                None => r is None,
            },
    {
        proof {
            lemma_last_index_of(self.ids(), id@);
        }
        match find_last(&self.ids, id) {
            Some(i) => Some(&self.dialogs[i]),
            None => None,
        }
    }

    /// An iterator over the dialog named `id`: see [`entry_point_of`].
    pub fn build(&self, id: &str) -> (r: Option<DialogEntryPoint>)
        requires
            self.wf(),
        ensures
            match r {
                Some(ep) => self.entry_point_for(id@) == Some(ep@) && entry_valid(
                    self.dialogs(),
                    ep@,
                ),
                None => self.entry_point_for(id@) is None,
            },
    {
        proof {
            lemma_last_index_of(self.ids(), id@);
        }
        match find_last(&self.ids, id) {
            Some(i) => Some(entry_point_at(&self.dialogs, i)),
            None => None,
        }
    }
}

/// Whether no two entries share a name: what `new_from_entries` needs.
pub fn has_distinct_ids(entries: &Vec<(String, Dialog)>) -> (r: bool)
    ensures
        r == distinct_ids(entry_ids(entries@)),
{
    let ghost names = entry_ids(entries@);
    let mut j: usize = 0;
    while j < entries.len()
        invariant
            names == entry_ids(entries@),
            j <= entries@.len(),
            forall|a: int, b: int| 0 <= a < b < j ==> names[a] != names[b],
        decreases entries@.len() - j,
    {
        let mut i: usize = 0;
        while i < j
            invariant
                names == entry_ids(entries@),
                i <= j < entries@.len(),
                forall|a: int| 0 <= a < i ==> names[a] != names[j as int],
            decreases j - i,
        {
            if entries[i].0 == entries[j].0 {
                proof {
                    assert(names[i as int] == names[j as int]);
                }
                return false;
            }
            i = i + 1;
        }
        j = j + 1;
    }
    true
}


// ------------------------------------------------------------------------
// The player
// ------------------------------------------------------------------------

/// What the caller carries out on behalf of the player.
#[derive(Debug, PartialEq)]
pub enum PlayerAction {
    /// Print `speaker: text`.
    ShowText { speaker: String, text: String },
    /// Start the animator's timer, for the seconds as written.
    SetTimer(String),
    /// Set the parameters of the value `enum_value` of the enum `enum_type`.
    SetParameters { enum_type: String, enum_value: String },
    /// Remove the parameters of the first value of the enum `enum_type`;
    /// an enum without values is an error.
    RemoveParameters(String),
    /// Remove the parameters of the first value of the enum `enum_type`, if
    /// it has a value.
    RemoveParametersIfAny(String),
    /// Remove the parameter with this id.
    RemoveParameter(String),
    /// Fade to the motion with this name.
    PlayMotion(String),
    /// Switch to the motion with this name at once.
    SetMotion(String),
    /// Print the options of a choicer, numbered from 1.
    ShowChoices(Vec<String>),
}

pub enum PlayerActionV {
    ShowText { speaker: Seq<char>, text: Seq<char> },
    SetTimer(Seq<char>),
    SetParameters { enum_type: Seq<char>, enum_value: Seq<char> },
    RemoveParameters(Seq<char>),
    RemoveParametersIfAny(Seq<char>),
    RemoveParameter(Seq<char>),
    PlayMotion(Seq<char>),
    SetMotion(Seq<char>),
    ShowChoices(Seq<Seq<char>>),
}

impl View for PlayerAction {
    type V = PlayerActionV;

    open spec fn view(&self) -> PlayerActionV {
        match self {
            PlayerAction::ShowText { speaker, text } => PlayerActionV::ShowText {
                speaker: speaker@,
                text: text@,
            },
            PlayerAction::SetTimer(x) => PlayerActionV::SetTimer(x@),
            PlayerAction::SetParameters { enum_type, enum_value } => PlayerActionV::SetParameters {
                enum_type: enum_type@,
                enum_value: enum_value@,
            },
            PlayerAction::RemoveParameters(x) => PlayerActionV::RemoveParameters(x@),
            PlayerAction::RemoveParametersIfAny(x) => PlayerActionV::RemoveParametersIfAny(x@),
            PlayerAction::RemoveParameter(x) => PlayerActionV::RemoveParameter(x@),
            PlayerAction::PlayMotion(x) => PlayerActionV::PlayMotion(x@),
            PlayerAction::SetMotion(x) => PlayerActionV::SetMotion(x@),
            PlayerAction::ShowChoices(v) => PlayerActionV::ShowChoices(
                v@.map_values(|l: String| l@),
            ),
        }
    }
}

pub open spec fn actions_view(v: Seq<PlayerAction>) -> Seq<PlayerActionV> {
    v.map_values(|a: PlayerAction| a@)
}

pub(crate) enum PlayerState {
    Running,
    WaitingInput,
    WaitingChoice(Vec<(String, DialogIter)>),
    Finished,
}

pub enum PlayerStateV {
    Running,
    WaitingInput,
    WaitingChoice(Seq<(Seq<char>, DialogIterV)>),
    Finished,
}

pub(crate) open spec fn state_view(s: PlayerState) -> PlayerStateV {
    match s {
        PlayerState::Running => PlayerStateV::Running,
        PlayerState::WaitingInput => PlayerStateV::WaitingInput,
        PlayerState::WaitingChoice(cs) => PlayerStateV::WaitingChoice(choices_view(cs@)),
        PlayerState::Finished => PlayerStateV::Finished,
    }
}

/// Plays the dialogs of a [`DialogManager`], one step per call of
/// [`DialogPlayer::update`].
pub struct DialogPlayer {
    initial_dialog: DialogEntryPoint,
    initial_dialog_name: String,
    current_dialog_name: String,
    state: PlayerState,
    current_node_idx: usize,
    iter: Option<DialogIter>,
    shown: bool,
}

pub struct DialogPlayerV {
    /// What `play` starts.
    pub initial_dialog: DialogEntryPointV,
    pub initial_dialog_name: Seq<char>,
    /// The name of the dialog being played.
    pub current_dialog_name: Seq<char>,
    pub state: PlayerStateV,
    /// The node being played.
    pub current_node_idx: usize,
    pub iter: Option<DialogIterV>,
    /// Whether the options of the choicer waited on were printed.
    pub shown: bool,
}

impl View for DialogPlayer {
    type V = DialogPlayerV;

    closed spec fn view(&self) -> DialogPlayerV {
        DialogPlayerV {
            initial_dialog: self.initial_dialog@,
            initial_dialog_name: self.initial_dialog_name@,
            current_dialog_name: self.current_dialog_name@,
            state: state_view(self.state),
            current_node_idx: self.current_node_idx,
            iter: opt_iter_view(self.iter),
            shown: self.shown,
        }
    }
}

/// Every iterator the player holds points into `dialogs`.
pub open spec fn player_valid(dialogs: Seq<DialogV>, p: DialogPlayerV) -> bool {
    &&& entry_valid(dialogs, p.initial_dialog)
    &&& (p.iter matches Some(it) ==> iter_valid(dialogs, it))
    &&& (p.state matches PlayerStateV::WaitingChoice(cs) ==> choices_valid(dialogs, cs))
}

pub open spec fn is_playing_spec(p: DialogPlayerV) -> bool {
    !(p.state is Finished)
}

/// `play`: back to the initial dialog, waiting on its choices or iterating
/// over its nodes.
pub open spec fn play_spec(p: DialogPlayerV) -> DialogPlayerV {
    let q = DialogPlayerV { current_dialog_name: p.initial_dialog_name, ..p };
    match p.initial_dialog {
        DialogEntryPointV::Choicer(cs) => DialogPlayerV { state: PlayerStateV::WaitingChoice(cs), ..q },
        DialogEntryPointV::Conversation(it) => DialogPlayerV {
            iter: Some(it),
            current_node_idx: 0,
            ..q
        },
    }
}

/// `next`: while waiting for input, on to the next node, or finished when
/// there is none.
pub open spec fn next_spec(p: DialogPlayerV) -> DialogPlayerV {
    if p.iter is Some && p.state is WaitingInput {
        let it = p.iter->0;
        if it.queue.len() == 0 {
            DialogPlayerV { state: PlayerStateV::Finished, iter: None, ..p }
        } else {
            DialogPlayerV {
                state: PlayerStateV::Running,
                iter: Some(DialogIterV { queue: it.queue.drop_first(), ..it }),
                ..p
            }
        }
    } else {
        p
    }
}

/// `handle_input(idx)`: while waiting on a choice, take option `idx` if
/// there is one.
pub open spec fn handle_input_spec(p: DialogPlayerV, idx: int) -> DialogPlayerV {
    match p.state {
        PlayerStateV::WaitingChoice(cs) => if 0 <= idx < cs.len() {
            DialogPlayerV {
                shown: false,
                iter: Some(cs[idx].1),
                state: PlayerStateV::Running,
                ..p
            }
        } else {
            p
        },
        _ => p,
    }
}

/// The node that the first node iterator of `it` stands at.
pub open spec fn front_node(dialogs: Seq<DialogV>, it: DialogIterV) -> DialogNodeV {
    dialogs[it.index as int].nodes()[it.queue[0].idx as int]
}

/// The event that the first node iterator of `it` stands at.
pub open spec fn front_event(dialogs: Seq<DialogV>, it: DialogIterV) -> EventV {
    front_node(dialogs, it).events[it.queue[0].events[0] as int]
}

/// `it` with the first event of its first node iterator done.
pub open spec fn pop_event(it: DialogIterV) -> DialogIterV {
    DialogIterV {
        index: it.index,
        queue: it.queue.update(
            0,
            ConversationIterV { idx: it.queue[0].idx, events: it.queue[0].events.drop_first() },
        ),
    }
}

/// A player whose first node iterator has events left.
pub open spec fn has_front_event(p: DialogPlayerV) -> bool {
    &&& p.iter is Some
    &&& p.iter->0.queue.len() > 0
    &&& p.iter->0.queue[0].events.len() > 0
}

/// Runs the events of the current node: enum parameter changes are taken
/// one after another, and the first other event ends the step. Text, waits,
/// animations and views are reported; a main-choicer change replaces the
/// initial dialog; a jump goes to the named dialog (waiting on a choicer's
/// options, or iterating over a conversation), and is dropped where there
/// is no such dialog; `@next` ends the node. With no event left, the player
/// waits for input.
pub open spec fn consume_from(mgr: DialogManager, p: DialogPlayerV, acts: Seq<PlayerActionV>) -> (
    DialogPlayerV,
    Seq<PlayerActionV>,
)
    decreases p.iter->0.queue[0].events.len(),
{
    if p.iter is Some && p.iter->0.queue.len() > 0 {
        let it = p.iter->0;
        if it.queue[0].events.len() == 0 {
            (DialogPlayerV { state: PlayerStateV::WaitingInput, ..p }, acts)
        } else {
            let node = front_node(mgr.dialogs(), it);
            let p1 = DialogPlayerV { current_node_idx: it.queue[0].idx, ..p };
            let popped = DialogPlayerV { iter: Some(pop_event(it)), ..p1 };
            match front_event(mgr.dialogs(), it) {
                EventV::SetParameter(t, v) => consume_from(
                    mgr,
                    popped,
                    acts.push(PlayerActionV::SetParameters { enum_type: t, enum_value: v }),
                ),
                EventV::RemoveParamater(t) => consume_from(
                    mgr,
                    popped,
                    acts.push(PlayerActionV::RemoveParameters(t)),
                ),
                EventV::SetMainChoicer(id) => (
                    match mgr.entry_point_for(id) {
                        Some(ep) => DialogPlayerV { initial_dialog: ep, ..popped },
                        None => popped,
                    },
                    acts,
                ),
                EventV::Text(t) => (
                    popped,
                    acts.push(PlayerActionV::ShowText { speaker: node.label, text: t }),
                ),
                EventV::Wait(n) => (popped, acts.push(PlayerActionV::SetTimer(n))),
                EventV::Jump(id) => match mgr.entry_point_for(id) {
                    Some(DialogEntryPointV::Choicer(cs)) => (
                        DialogPlayerV {
                            current_dialog_name: id,
                            state: PlayerStateV::WaitingChoice(cs),
                            ..p1
                        },
                        acts,
                    ),
                    Some(DialogEntryPointV::Conversation(next)) => (
                        DialogPlayerV {
                            current_dialog_name: id,
                            iter: Some(next),
                            current_node_idx: 0,
                            ..p1
                        },
                        acts,
                    ),
                    None => (DialogPlayerV { current_dialog_name: id, ..popped }, acts),
                },
                EventV::SetAnim(n) => (popped, acts.push(PlayerActionV::PlayMotion(n))),
                EventV::Next => (
                    DialogPlayerV {
                        iter: Some(DialogIterV { queue: it.queue.drop_first(), ..it }),
                        ..p1
                    },
                    acts,
                ),
                EventV::SetView(_) => (popped, acts),
            }
        }
    } else {
        (p, acts)
    }
}

/// One step of a running player: nothing while the timer runs; finished
/// when there is no node left; else the events of the current node (see
/// [`consume_from`]).
pub open spec fn consume_spec(mgr: DialogManager, p: DialogPlayerV, timer_playing: bool) -> (
    DialogPlayerV,
    Seq<PlayerActionV>,
) {
    if timer_playing {
        (p, seq![])
    } else if p.iter is None || p.iter->0.queue.len() == 0 {
        (DialogPlayerV { state: PlayerStateV::Finished, ..p }, seq![])
    } else {
        consume_from(mgr, p, seq![])
    }
}

/// `update`: a running player takes a step; a player waiting on a choice
/// shows its options once.
pub open spec fn update_spec(mgr: DialogManager, p: DialogPlayerV, timer_playing: bool) -> (
    DialogPlayerV,
    Seq<PlayerActionV>,
) {
    match p.state {
        PlayerStateV::Running => consume_spec(mgr, p, timer_playing),
        PlayerStateV::WaitingChoice(cs) => if !p.shown {
            (
                DialogPlayerV { shown: true, ..p },
                seq![PlayerActionV::ShowChoices(cs.map_values(|c: (Seq<char>, DialogIterV)| c.0))],
            )
        } else {
            (p, seq![])
        },
        _ => (p, seq![]),
    }
}

/// Runs the remaining events of the current node for their lasting
/// effects only: main-choicer changes, enum parameter changes and
/// animations (switched to at once); the rest is skipped.
pub open spec fn drain_front(mgr: DialogManager, p: DialogPlayerV, acts: Seq<PlayerActionV>) -> (
    DialogPlayerV,
    Seq<PlayerActionV>,
)
    decreases p.iter->0.queue[0].events.len(),
{
    if has_front_event(p) {
        let it = p.iter->0;
        let popped = DialogPlayerV { iter: Some(pop_event(it)), ..p };
        match front_event(mgr.dialogs(), it) {
            EventV::SetMainChoicer(id) => drain_front(
                mgr,
                match mgr.entry_point_for(id) {
                    Some(ep) => DialogPlayerV { initial_dialog: ep, ..popped },
                    None => popped,
                },
                acts,
            ),
            EventV::SetParameter(t, v) => drain_front(
                mgr,
                popped,
                acts.push(PlayerActionV::SetParameters { enum_type: t, enum_value: v }),
            ),
            EventV::RemoveParamater(t) => drain_front(
                mgr,
                popped,
                acts.push(PlayerActionV::RemoveParametersIfAny(t)),
            ),
            EventV::SetAnim(n) => drain_front(mgr, popped, acts.push(PlayerActionV::SetMotion(n))),
            _ => drain_front(mgr, popped, acts),
        }
    } else {
        (p, acts)
    }
}

/// `force_next`: finish the current node at once (see [`drain_front`]) and
/// move past it; finished when no node is left.
pub open spec fn force_next_spec(mgr: DialogManager, p: DialogPlayerV) -> (
    DialogPlayerV,
    Seq<PlayerActionV>,
) {
    match p.iter {
        None => (p, seq![]),
        Some(it) => {
            let (q, acts) = if it.queue.len() > 0 {
                drain_front(mgr, p, seq![])
            } else {
                (p, seq![])
            };
            let qit = q.iter->0;
            if qit.queue.len() == 0 {
                (
                    DialogPlayerV {
                        state: PlayerStateV::Finished,
                        iter: None,
                        current_node_idx: 0,
                        ..q
                    },
                    acts,
                )
            } else {
                (
                    DialogPlayerV {
                        state: PlayerStateV::Running,
                        iter: Some(DialogIterV { queue: qit.queue.drop_first(), ..qit }),
                        ..q
                    },
                    acts,
                )
            }
        },
    }
}

/// `skip(n)`: `n` calls of `force_next`.
pub open spec fn skip_spec(mgr: DialogManager, p: DialogPlayerV, n: nat) -> (
    DialogPlayerV,
    Seq<PlayerActionV>,
)
    decreases n,
{
    if n == 0 {
        (p, seq![])
    } else {
        let (q, a) = force_next_spec(mgr, p);
        let (r, b) = skip_spec(mgr, q, (n - 1) as nat);
        (r, a + b)
    }
}

/// Skips compose: skipping `m + n` nodes leaves the player as skipping `m`
/// and then `n` does, with the actions of both in turn; skipping none
/// changes nothing, and skipping one is forcing the next node.
pub proof fn lemma_skip_composes(mgr: DialogManager, p: DialogPlayerV, m: nat, n: nat)
    ensures
        ({
            let (q, a) = skip_spec(mgr, p, m);
            let (r, b) = skip_spec(mgr, q, n);
            skip_spec(mgr, p, m + n) == (r, a + b)
        }),
        skip_spec(mgr, p, 0) == (p, Seq::<PlayerActionV>::empty()),
        skip_spec(mgr, p, 1) == force_next_spec(mgr, p),
    decreases m,
{
    let (f, fa) = force_next_spec(mgr, p);
    assert(skip_spec(mgr, f, 0) == (f, Seq::<PlayerActionV>::empty()));
    assert(fa + Seq::<PlayerActionV>::empty() =~= fa);
    if m == 0 {
        let (r, b) = skip_spec(mgr, p, n);
        assert(Seq::<PlayerActionV>::empty() + b =~= b);
    } else {
        lemma_skip_composes(mgr, f, (m - 1) as nat, n);
        let (q1, a1) = skip_spec(mgr, f, (m - 1) as nat);
        let (r, b) = skip_spec(mgr, q1, n);
        assert((m + n - 1) as nat == (m - 1) as nat + n);
        assert(fa + (a1 + b) =~= (fa + a1) + b);
    }
}


pub proof fn lemma_pop_event_valid(dialogs: Seq<DialogV>, it: DialogIterV)
    requires
        iter_valid(dialogs, it),
        it.queue.len() > 0,
        it.queue[0].events.len() > 0,
    ensures
        iter_valid(dialogs, pop_event(it)),
{
    let q = pop_event(it).queue;
    assert forall|k: int| 0 <= k < q.len() implies node_iter_valid(
        dialogs[it.index as int].nodes(),
        #[trigger] q[k],
    ) by {
        assert(node_iter_valid(dialogs[it.index as int].nodes(), it.queue[k]));
        if k == 0 {
            let c = it.queue[0];
            assert forall|e: int| 0 <= e < q[0].events.len() implies #[trigger] q[0].events[e]
                < dialogs[it.index as int].nodes()[c.idx as int].events.len() by {
                assert(q[0].events[e] == c.events[e + 1]);
            }
        }
    }
}

pub proof fn lemma_drop_front_valid(dialogs: Seq<DialogV>, it: DialogIterV)
    requires
        iter_valid(dialogs, it),
        it.queue.len() > 0,
    ensures
        iter_valid(dialogs, DialogIterV { queue: it.queue.drop_first(), ..it }),
{
    let d = it.queue.drop_first();
    assert forall|k: int| 0 <= k < d.len() implies node_iter_valid(
        dialogs[it.index as int].nodes(),
        #[trigger] d[k],
    ) by {
        assert(d[k] == it.queue[k + 1]);
    }
}

pub open spec fn opt_iter_view(o: Option<DialogIter>) -> Option<DialogIterV> {
    match o {
        Some(it) => Some(it@),
        None => None,
    }
}

/// Marks the first event of the current node as done.
pub(crate) fn pop_front_event(iter: &mut Option<DialogIter>)
    requires
        opt_iter_view(*old(iter)) is Some,
        opt_iter_view(*old(iter))->0.queue.len() > 0,
        opt_iter_view(*old(iter))->0.queue[0].events.len() > 0,
    ensures
        opt_iter_view(*final(iter)) == Some(pop_event(opt_iter_view(*old(iter))->0)),
{
    let ghost old_it = opt_iter_view(*iter)->0;
    let mut it = iter.take().unwrap();
    let mut c = it.queue.pop_front().unwrap();
    c.events.pop_front();
    proof {
        assert(c@ == (ConversationIterV {
            idx: old_it.queue[0].idx,
            events: old_it.queue[0].events.drop_first(),
        }));
    }
    it.queue.push_front(c);
    proof {
        assert(it@.queue =~= pop_event(old_it).queue);
    }
    *iter = Some(it);
}

/// Drops the current node.
pub(crate) fn drop_front_node(iter: &mut Option<DialogIter>)
    requires
        opt_iter_view(*old(iter)) is Some,
        opt_iter_view(*old(iter))->0.queue.len() > 0,
    ensures
        opt_iter_view(*final(iter)) == Some(
            DialogIterV {
                queue: opt_iter_view(*old(iter))->0.queue.drop_first(),
                ..opt_iter_view(*old(iter))->0
            },
        ),
{
    let ghost old_it = opt_iter_view(*iter)->0;
    let mut it = iter.take().unwrap();
    it.queue.pop_front();
    proof {
        assert(it@.queue =~= old_it.queue.drop_first());
    }
    *iter = Some(it);
}

/// The node and the event that the current node iterator stands at.
pub(crate) fn front_event_of<'m>(it: &DialogIter, mgr: &'m DialogManager) -> (r: (
    &'m DialogNode,
    &'m Event,
))
    requires
        mgr.wf(),
        iter_valid(mgr.dialogs(), it@),
        it@.queue.len() > 0,
        it@.queue[0].events.len() > 0,
    ensures
        r.0@ == front_node(mgr.dialogs(), it@),
        r.1@ == front_event(mgr.dialogs(), it@),
{
    let c = &it.queue[0];
    let e_idx = c.events[0];
    let ghost itv = it@;
    proof {
        assert(itv.queue[0] == c@);
        assert(node_iter_valid(mgr.dialogs()[itv.index as int].nodes(), itv.queue[0]));
        assert(c@.events[0] == e_idx);
    }
    let dialog = &mgr.dialogs[it.index];
    proof {
        assert(mgr.dialogs()[it.index as int] == dialog@);
    }
    let nodes = dialog.nodes();
    let node = &nodes[c.idx];
    proof {
        assert(nodes_view(nodes@)[c.idx as int] == node@);
    }
    let event = &node.events[e_idx];
    proof {
        assert(node@.events[e_idx as int] == event@);
    }
    (node, event)
}

/// Whether the player has a node to play.
pub(crate) fn has_node(iter: &Option<DialogIter>) -> (r: bool)
    ensures
        r == (opt_iter_view(*iter) is Some && opt_iter_view(*iter)->0.queue.len() > 0),
{
    match iter {
        Some(it) => it.queue.len() > 0,
        None => false,
    }
}

/// How many events of the current node are left.
pub(crate) fn front_events_left(iter: &Option<DialogIter>) -> (r: usize)
    requires
        opt_iter_view(*iter) is Some,
        opt_iter_view(*iter)->0.queue.len() > 0,
    ensures
        r == opt_iter_view(*iter)->0.queue[0].events.len(),
{
    let it = iter.as_ref().unwrap();
    it.queue[0].events.len()
}

impl DialogPlayer {
    /// Every iterator the player holds points into the dialogs of `mgr`.
    pub open spec fn valid_for(&self, mgr: &DialogManager) -> bool {
        mgr.wf() && player_valid(mgr.dialogs(), self@)
    }

    /// A player that will start `initial_dialog`, named `initial_dialog_name`.
    pub fn new(initial_dialog_name: String, initial_dialog: DialogEntryPoint) -> (r: Self)
        ensures
            r@ == (DialogPlayerV {
                initial_dialog: initial_dialog@,
                initial_dialog_name: initial_dialog_name@,
                current_dialog_name: initial_dialog_name@,
                state: PlayerStateV::Running,
                current_node_idx: 0,
                iter: None,
                shown: false,
            }),
    {
        DialogPlayer {
            current_dialog_name: initial_dialog_name.clone(),
            initial_dialog_name,
            initial_dialog,
            iter: None,
            current_node_idx: 0,
            state: PlayerState::Running,
            shown: false,
        }
    }

    /// The node being played, while playing.
    pub fn current_node_index(&self) -> (r: Option<usize>)
        ensures
            r == (if is_playing_spec(self@) {
                Some(self@.current_node_idx)
            } else {
                None
            }),
    {
        if !self.is_playing() {
            return None;
        }
        Some(self.current_node_idx)
    }

    /// Whether the player has not finished.
    pub fn is_playing(&self) -> (r: bool)
        ensures
            r == is_playing_spec(self@),
    {
        match self.state {
            PlayerState::Finished => false,
            _ => true,
        }
    }

    /// The name of the dialog being played, while playing.
    pub fn current_dialog_name(&self) -> (r: Option<&String>)
        ensures
            match r {
                Some(name) => is_playing_spec(self@) && name@ == self@.current_dialog_name,
                None => !is_playing_spec(self@),
            },
    {
        if !self.is_playing() {
            return None;
        }
        Some(&self.current_dialog_name)
    }

    fn change_iter(&mut self, opt_iter: Option<DialogIter>)
        ensures
            final(self)@ == (DialogPlayerV {
                current_node_idx: 0,
                iter: match opt_iter {
                    Some(it) => Some(it@),
                    None => None,
                },
                ..old(self)@
            }),
    {
        self.current_node_idx = 0;
        match opt_iter {
            Some(iter) => {
                self.iter = Some(iter);
            },
            None => {
                self.iter = None;
            },
        }
    }

    /// Starts the initial dialog again.
    pub fn play(&mut self)
        ensures
            final(self)@ == play_spec(old(self)@),
    {
        self.current_dialog_name = self.initial_dialog_name.clone();
        match &self.initial_dialog {
            DialogEntryPoint::Choicer(choices) => {
                let cs = clone_choices(choices);
                self.state = PlayerState::WaitingChoice(cs);
            },
            DialogEntryPoint::Conversation(iter) => {
                let it = iter.clone();
                self.change_iter(Some(it));
            },
        }
    }

    /// Moves on after the player waited for input.
    pub fn next(&mut self)
        ensures
            final(self)@ == next_spec(old(self)@),
    {
        match self.state {
            PlayerState::WaitingInput => {},
            _ => {
                return ;
            },
        }
        match self.iter.take() {
            Some(mut iter) => {
                match iter.queue.pop_front() {
                    None => {
                        self.state = PlayerState::Finished;
                        self.iter = None;
                    },
                    Some(_) => {
                        proof {
                            assert(iter.queue@.map_values(|c: ConversationIter| c@) =~= old(
                                self,
                            )@.iter->0.queue.drop_first());
                        }
                        self.state = PlayerState::Running;
                        self.iter = Some(iter);
                    },
                }
            },
            None => {},
        }
    }

    /// Takes option `idx` of the choice waited on, if there is one.
    pub fn handle_input(&mut self, idx: usize)
        ensures
            final(self)@ == handle_input_spec(old(self)@, idx as int),
    {
        let chosen = match &self.state {
            PlayerState::WaitingChoice(choices) => {
                if idx < choices.len() {
                    Some(choices[idx].1.clone())
                } else {
                    None
                }
            },
            _ => None,
        };
        match chosen {
            Some(it) => {
                self.shown = false;
                self.iter = Some(it);
                self.state = PlayerState::Running;
            },
            None => {},
        }
    }

    /// The events of the current node, from the first, until one ends the
    /// step: see [`consume_from`].
    fn consume_events(&mut self, mgr: &DialogManager, acts: &mut Vec<PlayerAction>)
        requires
            old(self).valid_for(mgr),
            old(self)@.iter is Some,
            old(self)@.iter->0.queue.len() > 0,
        ensures
            (final(self)@, actions_view(final(acts)@)) == consume_from(
                *mgr,
                old(self)@,
                actions_view(old(acts)@),
            ),
            final(self).valid_for(mgr),
        decreases old(self)@.iter->0.queue[0].events.len(),
    {
        let ghost p = self@;
        let ghost it = p.iter->0;
        let ghost a0 = actions_view(acts@);
        let n_events = front_events_left(&self.iter);
        if n_events == 0 {
            self.state = PlayerState::WaitingInput;
            return ;
        }
        proof {
            lemma_pop_event_valid(mgr.dialogs(), it);
            lemma_drop_front_valid(mgr.dialogs(), it);
        }
        let (node, event) = front_event_of(self.iter.as_ref().unwrap(), mgr);
        self.current_node_idx = self.iter.as_ref().unwrap().queue[0].idx;
        match event {
            Event::SetParameter(t, v) => {
                let a = PlayerAction::SetParameters { enum_type: t.clone(), enum_value: v.clone() };
                proof {
                    assert(actions_view(acts@.push(a)) =~= a0.push(a@));
                }
                acts.push(a);
                pop_front_event(&mut self.iter);
                self.consume_events(mgr, acts);
            },
            Event::RemoveParamater(t) => {
                let a = PlayerAction::RemoveParameters(t.clone());
                proof {
                    assert(actions_view(acts@.push(a)) =~= a0.push(a@));
                }
                acts.push(a);
                pop_front_event(&mut self.iter);
                self.consume_events(mgr, acts);
            },
            Event::SetMainChoicer(id) => {
                match mgr.build(id.as_str()) {
                    Some(ep) => {
                        self.initial_dialog = ep;
                    },
                    None => {},
                }
                pop_front_event(&mut self.iter);
            },
            Event::Text(t) => {
                let a = PlayerAction::ShowText { speaker: node.label.clone(), text: t.clone() };
                proof {
                    assert(actions_view(acts@.push(a)) =~= a0.push(a@));
                }
                acts.push(a);
                pop_front_event(&mut self.iter);
            },
            Event::Wait(n) => {
                let a = PlayerAction::SetTimer(n.clone());
                proof {
                    assert(actions_view(acts@.push(a)) =~= a0.push(a@));
                }
                acts.push(a);
                pop_front_event(&mut self.iter);
            },
            Event::Jump(id) => {
                self.current_dialog_name = id.clone();
                match mgr.build(id.as_str()) {
                    Some(DialogEntryPoint::Choicer(choices)) => {
                        self.state = PlayerState::WaitingChoice(choices);
                    },
                    Some(DialogEntryPoint::Conversation(next)) => {
                        self.change_iter(Some(next));
                    },
                    None => {
                        pop_front_event(&mut self.iter);
                    },
                }
            },
            Event::SetAnim(name) => {
                let a = PlayerAction::PlayMotion(name.clone());
                proof {
                    assert(actions_view(acts@.push(a)) =~= a0.push(a@));
                }
                acts.push(a);
                pop_front_event(&mut self.iter);
            },
            Event::Next => {
                drop_front_node(&mut self.iter);
            },
            Event::SetView(_) => {
                pop_front_event(&mut self.iter);
            },
        }
    }

    fn consume_dialog(&mut self, timer_playing: bool, mgr: &DialogManager) -> (acts: Vec<
        PlayerAction,
    >)
        requires
            old(self).valid_for(mgr),
        ensures
            (final(self)@, actions_view(acts@)) == consume_spec(*mgr, old(self)@, timer_playing),
            final(self).valid_for(mgr),
    {
        let mut acts: Vec<PlayerAction> = Vec::new();
        proof {
            assert(actions_view(acts@) =~= seq![]);
        }
        if timer_playing {
            return acts;
        }
        if !has_node(&self.iter) {
            self.state = PlayerState::Finished;
            return acts;
        }
        self.consume_events(mgr, &mut acts);
        acts
    }

    /// One step of the player: see [`update_spec`]. `timer_playing` tells
    /// whether the animator's timer is running; the result is what the
    /// caller has to carry out.
    pub fn update(&mut self, timer_playing: bool, dialog_mgr: &DialogManager) -> (acts: Vec<
        PlayerAction,
    >)
        requires
            old(self).valid_for(dialog_mgr),
        ensures
            (final(self)@, actions_view(acts@)) == update_spec(
                *dialog_mgr,
                old(self)@,
                timer_playing,
            ),
            final(self).valid_for(dialog_mgr),
    {
        let mut labels: Vec<String> = Vec::new();
        let show = match &self.state {
            PlayerState::Running => {
                return self.consume_dialog(timer_playing, dialog_mgr);
            },
            PlayerState::WaitingChoice(choices) => {
                if !self.shown {
                    let mut i: usize = 0;
                    while i < choices.len()
                        invariant
                            i <= choices@.len(),
                            labels@.map_values(|l: String| l@) =~= choices_view(choices@).map_values(
                                |c: (Seq<char>, DialogIterV)| c.0,
                            ).subrange(0, i as int),
                        decreases choices@.len() - i,
                    {
                        let l = choices[i].0.clone();
                        proof {
                            assert(labels@.push(l).map_values(|l: String| l@) =~= labels@.map_values(
                                |l: String| l@,
                            ).push(l@));
                        }
                        labels.push(l);
                        i = i + 1;
                    }
                    proof {
                        let all = choices_view(choices@).map_values(
                            |c: (Seq<char>, DialogIterV)| c.0,
                        );
                        assert(all.subrange(0, all.len() as int) =~= all);
                    }
                    true
                } else {
                    false
                }
            },
            _ => false,
        };
        let mut acts: Vec<PlayerAction> = Vec::new();
        if show {
            self.shown = true;
            let a = PlayerAction::ShowChoices(labels);
            proof {
                let cs = old(self)@.state->WaitingChoice_0;
                assert(a@ == PlayerActionV::ShowChoices(
                    cs.map_values(|c: (Seq<char>, DialogIterV)| c.0),
                ));
            }
            acts.push(a);
        }
        proof {
            assert(actions_view(acts@) =~= update_spec(*dialog_mgr, old(self)@, timer_playing).1);
        }
        acts
    }

    /// The remaining events of the current node, for their lasting effects:
    /// see [`drain_front`].
    fn drain_events(&mut self, mgr: &DialogManager, acts: &mut Vec<PlayerAction>)
        requires
            old(self).valid_for(mgr),
            old(self)@.iter is Some,
            old(self)@.iter->0.queue.len() > 0,
        ensures
            (final(self)@, actions_view(final(acts)@)) == drain_front(
                *mgr,
                old(self)@,
                actions_view(old(acts)@),
            ),
            final(self).valid_for(mgr),
            final(self)@.iter is Some,
            final(self)@.iter->0.queue.len() == old(self)@.iter->0.queue.len(),
        decreases old(self)@.iter->0.queue[0].events.len(),
    {
        let ghost it = self@.iter->0;
        let ghost a0 = actions_view(acts@);
        let n_events = front_events_left(&self.iter);
        if n_events == 0 {
            return ;
        }
        proof {
            lemma_pop_event_valid(mgr.dialogs(), it);
        }
        let (_node, event) = front_event_of(self.iter.as_ref().unwrap(), mgr);
        match event {
            Event::SetMainChoicer(id) => {
                match mgr.build(id.as_str()) {
                    Some(ep) => {
                        self.initial_dialog = ep;
                    },
                    None => {},
                }
            },
            Event::SetParameter(t, v) => {
                let a = PlayerAction::SetParameters { enum_type: t.clone(), enum_value: v.clone() };
                proof {
                    assert(actions_view(acts@.push(a)) =~= a0.push(a@));
                }
                acts.push(a);
            },
            Event::RemoveParamater(t) => {
                let a = PlayerAction::RemoveParametersIfAny(t.clone());
                proof {
                    assert(actions_view(acts@.push(a)) =~= a0.push(a@));
                }
                acts.push(a);
            },
            Event::SetAnim(name) => {
                let a = PlayerAction::SetMotion(name.clone());
                proof {
                    assert(actions_view(acts@.push(a)) =~= a0.push(a@));
                }
                acts.push(a);
            },
            _ => {},
        }
        pop_front_event(&mut self.iter);
        self.drain_events(mgr, acts);
    }

    /// Finishes the current node at once and moves past it: see
    /// [`force_next_spec`].
    pub fn force_next(&mut self, dialog_mgr: &DialogManager) -> (acts: Vec<PlayerAction>)
        requires
            old(self).valid_for(dialog_mgr),
        ensures
            (final(self)@, actions_view(acts@)) == force_next_spec(*dialog_mgr, old(self)@),
            final(self).valid_for(dialog_mgr),
    {
        let mut acts: Vec<PlayerAction> = Vec::new();
        proof {
            assert(actions_view(acts@) =~= seq![]);
        }
        let (has_iter, has_node) = match &self.iter {
            Some(it) => (true, it.queue.len() > 0),
            None => (false, false),
        };
        if !has_iter {
            return acts;
        }
        if has_node {
            self.drain_events(dialog_mgr, &mut acts);
        }
        let remaining = self.iter.as_ref().unwrap().queue.len();
        if remaining == 0 {
            self.state = PlayerState::Finished;
            self.change_iter(None);
        } else {
            proof {
                lemma_drop_front_valid(dialog_mgr.dialogs(), self@.iter->0);
            }
            drop_front_node(&mut self.iter);
            self.state = PlayerState::Running;
        }
        acts
    }

    /// `n` calls of [`DialogPlayer::force_next`], with their actions in
    /// order.
    pub fn skip(&mut self, n: usize, dialog_mgr: &DialogManager) -> (acts: Vec<PlayerAction>)
        requires
            old(self).valid_for(dialog_mgr),
        ensures
            (final(self)@, actions_view(acts@)) == skip_spec(*dialog_mgr, old(self)@, n as nat),
            final(self).valid_for(dialog_mgr),
    {
        let mut acts: Vec<PlayerAction> = Vec::new();
        let mut k: usize = 0;
        while k < n
            invariant
                k <= n,
                self.valid_for(dialog_mgr),
                skip_spec(*dialog_mgr, old(self)@, n as nat) == (
                    skip_spec(*dialog_mgr, self@, (n - k) as nat).0,
                    actions_view(acts@) + skip_spec(*dialog_mgr, self@, (n - k) as nat).1,
                ),
            decreases n - k,
        {
            let ghost before = self@;
            let mut more = self.force_next(dialog_mgr);
            proof {
                let rest = skip_spec(*dialog_mgr, self@, (n - k - 1) as nat);
                assert(skip_spec(*dialog_mgr, before, (n - k) as nat) == (
                    rest.0,
                    actions_view(more@) + rest.1,
                ));
                assert(actions_view(acts@ + more@) =~= actions_view(acts@) + actions_view(more@));
                assert(actions_view(acts@) + (actions_view(more@) + rest.1) =~= actions_view(
                    acts@ + more@,
                ) + rest.1);
            }
            acts.append(&mut more);
            k = k + 1;
        }
        proof {
            assert(actions_view(acts@) + seq![] =~= actions_view(acts@));
        }
        acts
    }
}


// ------------------------------------------------------------------------
// Laws
// ------------------------------------------------------------------------

/// With distinct names, looking a name up finds the dialog indexed under it:
/// after `new_from_entries(entries)`, `get_dialog_by_id` of the `k`-th
/// entry's name gives the `k`-th entry's dialog.
pub proof fn lemma_lookup_finds_entry(ids: Seq<Seq<char>>, k: int)
    requires
        distinct_ids(ids),
        0 <= k < ids.len(),
    ensures
        last_index_of(ids, ids[k]) == Some(k),
{
    lemma_last_index_of(ids, ids[k]);
    match last_index_of(ids, ids[k]) {
        Some(i) => {
            if i != k {
                assert(ids[i] == ids[k]);
            }
        },
        None => {},
    }
}


/// With distinct names every dialog is live: the first `n` positions are
/// all of `0..n`, in order.
pub proof fn lemma_all_live(ids: Seq<Seq<char>>, n: int)
    requires
        distinct_ids(ids),
        0 <= n <= ids.len(),
    ensures
        live_positions(ids, n) == Seq::new(n as nat, |i: int| i),
    decreases n,
{
    if n > 0 {
        lemma_all_live(ids, n - 1);
        lemma_lookup_finds_entry(ids, n - 1);
        assert(Seq::new((n - 1) as nat, |i: int| i).push(n - 1) =~= Seq::new(n as nat, |i: int| i));
    }
}

/// With distinct names, `get_dialogs` lists every entry once: the `k`-th
/// pair is the `k`-th name with its dialog, for every `k`.
pub proof fn lemma_get_dialogs_lists_all(m: DialogManager)
    requires
        m.wf(),
        distinct_ids(m.ids()),
    ensures
        live_positions(m.ids(), m.ids().len() as int).len() == m.ids().len(),
        forall|k: int|
            0 <= k < m.ids().len() ==> #[trigger] live_positions(m.ids(), m.ids().len() as int)[k]
                == k,
{
    lemma_all_live(m.ids(), m.ids().len() as int);
}


/// Running a node's events never changes the name of the dialog that
/// `play` starts.
proof fn lemma_consume_keeps_initial_name(
    mgr: DialogManager,
    p: DialogPlayerV,
    acts: Seq<PlayerActionV>,
)
    ensures
        consume_from(mgr, p, acts).0.initial_dialog_name == p.initial_dialog_name,
    decreases p.iter->0.queue[0].events.len(),
{
    if p.iter is Some && p.iter->0.queue.len() > 0 {
        let it = p.iter->0;
        if it.queue[0].events.len() > 0 {
            let p1 = DialogPlayerV { current_node_idx: it.queue[0].idx, ..p };
            let popped = DialogPlayerV { iter: Some(pop_event(it)), ..p1 };
            assert(popped.iter->0.queue[0].events.len() < it.queue[0].events.len());
            match front_event(mgr.dialogs(), it) {
                EventV::SetParameter(t, v) => {
                    lemma_consume_keeps_initial_name(
                        mgr,
                        popped,
                        acts.push(PlayerActionV::SetParameters { enum_type: t, enum_value: v }),
                    );
                },
                EventV::RemoveParamater(t) => {
                    lemma_consume_keeps_initial_name(
                        mgr,
                        popped,
                        acts.push(PlayerActionV::RemoveParameters(t)),
                    );
                },
                _ => {},
            }
        }
    }
}

/// The name given to the player stays its initial dialog's name through
/// every step, and each `play` makes it the current dialog's name again,
/// even after a main-choicer change replaced the initial dialog.
pub proof fn lemma_play_restores_name(mgr: DialogManager, p: DialogPlayerV, timer_playing: bool)
    ensures
        play_spec(p).current_dialog_name == p.initial_dialog_name,
        play_spec(p).initial_dialog_name == p.initial_dialog_name,
        update_spec(mgr, p, timer_playing).0.initial_dialog_name == p.initial_dialog_name,
        next_spec(p).initial_dialog_name == p.initial_dialog_name,
        forall|idx: int| #[trigger] handle_input_spec(p, idx).initial_dialog_name
            == p.initial_dialog_name,
{
    if p.state is Running && !timer_playing && p.iter is Some && p.iter->0.queue.len() > 0 {
        lemma_consume_keeps_initial_name(mgr, p, seq![]);
    }
}


// ------------------------------------------------------------------------
// What holds of every player state reached through the public steps
/// Some event of the manager's dialogs jumps to `id`.
pub open spec fn jump_target(mgr: DialogManager, id: Seq<char>) -> bool {
    exists|d: int, n: int, e: int|
        0 <= d < mgr.dialogs().len() && 0 <= n < mgr.dialogs()[d].nodes().len() && 0 <= e
            < mgr.dialogs()[d].nodes()[n].events.len() && #[trigger] mgr.dialogs()[d].nodes()[n].events[e]
            == EventV::Jump(id)
}

/// The dialog's name is the one the player was given, or the target of a
/// jump of the manager's dialogs.
pub open spec fn name_reached(mgr: DialogManager, p: DialogPlayerV) -> bool {
    p.current_dialog_name == p.initial_dialog_name || jump_target(mgr, p.current_dialog_name)
}

/// What holds of every player reached from `new` by `play`, `next`,
/// `handle_input`, `update`, `force_next` and `skip`: its iterators point
/// into the manager's dialogs, and its dialog's name is its given name or
/// a jump's target.
pub open spec fn player_reachable(mgr: DialogManager, p: DialogPlayerV) -> bool {
    player_valid(mgr.dialogs(), p) && name_reached(mgr, p)
}

/// The node index the player reports: its node while playing.
pub open spec fn reported_node_index(p: DialogPlayerV) -> Option<usize> {
    if is_playing_spec(p) {
        Some(p.current_node_idx)
    } else {
        None
    }
}

/// The dialog name the player reports: its dialog's name while playing.
pub open spec fn reported_dialog_name(p: DialogPlayerV) -> Option<Seq<char>> {
    if is_playing_spec(p) {
        Some(p.current_dialog_name)
    } else {
        None
    }
}

/// The dialogs, their nodes and the nodes' events each number no more
/// than a `usize` counts, as every list in memory does.
pub open spec fn dialogs_fit(ds: Seq<DialogV>) -> bool {
    &&& ds.len() <= usize::MAX
    &&& forall|d: int| 0 <= d < ds.len() ==> (#[trigger] ds[d].nodes()).len() <= usize::MAX
    &&& forall|d: int, n: int|
        0 <= d < ds.len() && 0 <= n < ds[d].nodes().len() ==> (#[trigger] ds[d].nodes()[n]).events.len()
            <= usize::MAX
}

/// The entry point of any dialog points into the dialogs.
proof fn lemma_entry_point_valid(dialogs: Seq<DialogV>, i: int)
    requires
        0 <= i < dialogs.len(),
        dialogs_fit(dialogs),
    ensures
        entry_valid(dialogs, entry_point_of(dialogs[i], i)),
{
    let nodes = dialogs[i].nodes();
    match dialogs[i] {
        DialogV::Choicer(ns) => {
            let cs = entry_point_of(dialogs[i], i)->Choicer_0;
            assert forall|k: int| 0 <= k < cs.len() implies iter_valid(dialogs, #[trigger] cs[k].1) by {
                let it = cs[k].1;
                assert forall|q: int| 0 <= q < it.queue.len() implies node_iter_valid(
                    dialogs[it.index as int].nodes(),
                    #[trigger] it.queue[q],
                ) by {
                    assert(it.queue[q] == fresh_node_iter(k, ns[k].events.len()));
                }
            }
        },
        DialogV::Conversation(ns) => {
            let it = entry_point_of(dialogs[i], i)->Conversation_0;
            assert forall|q: int| 0 <= q < it.queue.len() implies node_iter_valid(
                dialogs[it.index as int].nodes(),
                #[trigger] it.queue[q],
            ) by {
                assert(it.queue[q] == fresh_node_iter(q, ns[q].events.len()));
            }
        },
    }
}

/// What `build` gives points into the dialogs.
proof fn lemma_entry_for_valid(mgr: DialogManager, id: Seq<char>)
    requires
        mgr.wf(),
        dialogs_fit(mgr.dialogs()),
    ensures
        mgr.entry_point_for(id) matches Some(ep) ==> entry_valid(mgr.dialogs(), ep),
{
    lemma_last_index_of(mgr.ids(), id);
    if let Some(i) = mgr.index_of(id) {
        lemma_entry_point_valid(mgr.dialogs(), i);
    }
}

proof fn lemma_consume_reachable(mgr: DialogManager, p: DialogPlayerV, acts: Seq<PlayerActionV>)
    requires
        mgr.wf(),
        dialogs_fit(mgr.dialogs()),
        player_reachable(mgr, p),
    ensures
        player_reachable(mgr, consume_from(mgr, p, acts).0),
    decreases p.iter->0.queue[0].events.len(),
{
    if p.iter is Some && p.iter->0.queue.len() > 0 {
        let it = p.iter->0;
        if it.queue[0].events.len() > 0 {
            let ds = mgr.dialogs();
            let p1 = DialogPlayerV { current_node_idx: it.queue[0].idx, ..p };
            let popped = DialogPlayerV { iter: Some(pop_event(it)), ..p1 };
            lemma_pop_event_valid(ds, it);
            lemma_drop_front_valid(ds, it);
            assert(popped.iter->0.queue[0].events.len() < it.queue[0].events.len());
            assert(player_reachable(mgr, popped));
            match front_event(ds, it) {
                EventV::SetParameter(t, v) => {
                    lemma_consume_reachable(
                        mgr,
                        popped,
                        acts.push(PlayerActionV::SetParameters { enum_type: t, enum_value: v }),
                    );
                },
                EventV::RemoveParamater(t) => {
                    lemma_consume_reachable(
                        mgr,
                        popped,
                        acts.push(PlayerActionV::RemoveParameters(t)),
                    );
                },
                EventV::SetMainChoicer(id) => {
                    lemma_entry_for_valid(mgr, id);
                },
                EventV::Jump(id) => {
                    lemma_entry_for_valid(mgr, id);
                    let d = it.index as int;
                    let n = it.queue[0].idx as int;
                    let e = it.queue[0].events[0] as int;
                    assert(node_iter_valid(ds[d].nodes(), it.queue[0]));
                    assert(ds[d].nodes()[n].events[e] == EventV::Jump(id));
                    assert(jump_target(mgr, id));
                },
                _ => {},
            }
        }
    }
}

proof fn lemma_drain_reachable(mgr: DialogManager, p: DialogPlayerV, acts: Seq<PlayerActionV>)
    requires
        mgr.wf(),
        dialogs_fit(mgr.dialogs()),
        player_reachable(mgr, p),
    ensures
        player_reachable(mgr, drain_front(mgr, p, acts).0),
        drain_front(mgr, p, acts).0.current_dialog_name == p.current_dialog_name,
        drain_front(mgr, p, acts).0.initial_dialog_name == p.initial_dialog_name,
        p.iter matches Some(it) ==> (drain_front(mgr, p, acts).0.iter matches Some(jt) && jt.index
            == it.index && jt.queue.len() == it.queue.len()),
    decreases p.iter->0.queue[0].events.len(),
{
    if has_front_event(p) {
        let it = p.iter->0;
        let ds = mgr.dialogs();
        let popped = DialogPlayerV { iter: Some(pop_event(it)), ..p };
        lemma_pop_event_valid(ds, it);
        assert(popped.iter->0.queue[0].events.len() < it.queue[0].events.len());
        match front_event(ds, it) {
            EventV::SetMainChoicer(id) => {
                lemma_entry_for_valid(mgr, id);
                let next = match mgr.entry_point_for(id) {
                    Some(ep) => DialogPlayerV { initial_dialog: ep, ..popped },
                    None => popped,
                };
                lemma_drain_reachable(mgr, next, acts);
            },
            EventV::SetParameter(t, v) => {
                lemma_drain_reachable(
                    mgr,
                    popped,
                    acts.push(PlayerActionV::SetParameters { enum_type: t, enum_value: v }),
                );
            },
            EventV::RemoveParamater(t) => {
                lemma_drain_reachable(
                    mgr,
                    popped,
                    acts.push(PlayerActionV::RemoveParametersIfAny(t)),
                );
            },
            EventV::SetAnim(n) => {
                lemma_drain_reachable(mgr, popped, acts.push(PlayerActionV::SetMotion(n)));
            },
            _ => {
                lemma_drain_reachable(mgr, popped, acts);
            },
        }
    }
}

proof fn lemma_force_next_reachable(mgr: DialogManager, p: DialogPlayerV)
    requires
        mgr.wf(),
        dialogs_fit(mgr.dialogs()),
        player_reachable(mgr, p),
    ensures
        player_reachable(mgr, force_next_spec(mgr, p).0),
{
    if let Some(it) = p.iter {
        if it.queue.len() > 0 {
            lemma_drain_reachable(mgr, p, seq![]);
            let q = drain_front(mgr, p, seq![]).0;
            lemma_drop_front_valid(mgr.dialogs(), q.iter->0);
        }
    }
}

proof fn lemma_skip_reachable(mgr: DialogManager, p: DialogPlayerV, n: nat)
    requires
        mgr.wf(),
        dialogs_fit(mgr.dialogs()),
        player_reachable(mgr, p),
    ensures
        player_reachable(mgr, skip_spec(mgr, p, n).0),
    decreases n,
{
    if n > 0 {
        lemma_force_next_reachable(mgr, p);
        lemma_skip_reachable(mgr, force_next_spec(mgr, p).0, (n - 1) as nat);
    }
}

/// A new player is reached: it holds the entry point it was given, which
/// points into the manager's dialogs, and its own name.
pub proof fn lemma_new_player_reachable(mgr: DialogManager, name: Seq<char>, ep: DialogEntryPointV)
    requires
        entry_valid(mgr.dialogs(), ep),
    ensures
        player_reachable(
            mgr,
            DialogPlayerV {
                initial_dialog: ep,
                initial_dialog_name: name,
                current_dialog_name: name,
                state: PlayerStateV::Running,
                current_node_idx: 0,
                iter: None,
                shown: false,
            },
        ),
{
}

/// Every step keeps a player reached: its iterators point into the
/// manager's dialogs and its dialog's name is its given name or a jump's
/// target. On every reached player, the node index it reports is `None`
/// exactly when it is not playing, and the name it reports is `Some` of its
/// given name or of a jump's target exactly while it is playing; `play`
/// of a conversation reports node 0 and the given name. (The manager's
/// lists are taken to fit in memory, as `dialogs_fit` says.)
pub proof fn lemma_player_invariant(
    mgr: DialogManager,
    p: DialogPlayerV,
    timer_playing: bool,
    idx: int,
    n: nat,
)
    requires
        mgr.wf(),
        dialogs_fit(mgr.dialogs()),
        player_reachable(mgr, p),
    ensures
        player_reachable(mgr, play_spec(p)),
        player_reachable(mgr, next_spec(p)),
        player_reachable(mgr, handle_input_spec(p, idx)),
        player_reachable(mgr, update_spec(mgr, p, timer_playing).0),
        player_reachable(mgr, force_next_spec(mgr, p).0),
        player_reachable(mgr, skip_spec(mgr, p, n).0),
        reported_node_index(p) is None <==> !is_playing_spec(p),
        reported_dialog_name(p) is Some <==> is_playing_spec(p),
        reported_dialog_name(p) matches Some(name) ==> name == p.initial_dialog_name
            || jump_target(mgr, name),
        is_playing_spec(p) && p.initial_dialog is Conversation ==> reported_node_index(
            play_spec(p),
        ) == Some(0usize)
            && reported_dialog_name(play_spec(p)) == Some(p.initial_dialog_name),
{
    lemma_play_keeps_valid(mgr.dialogs(), p);
    lemma_next_keeps_valid(mgr.dialogs(), p);
    lemma_handle_input_keeps_valid(mgr.dialogs(), p, idx);
    lemma_force_next_reachable(mgr, p);
    lemma_skip_reachable(mgr, p, n);
    if p.state is Running && !timer_playing && p.iter is Some && p.iter->0.queue.len() > 0 {
        lemma_consume_reachable(mgr, p, seq![]);
    }
}

/// A jump runs at once: on an update of a running player whose next event
/// jumps to a choicer the manager holds, the player waits on exactly that
/// choicer's options, in order, under the jump's name, and the update
/// after shows them; a jump to a conversation starts its first node; a
/// jump to a name the manager lacks only renames the player and moves on.
pub proof fn lemma_jump_runs(mgr: DialogManager, p: DialogPlayerV, id: Seq<char>, timer: bool)
    requires
        mgr.wf(),
        dialogs_fit(mgr.dialogs()),
        p.state is Running,
        !p.shown,
        has_front_event(p),
        front_event(mgr.dialogs(), p.iter->0) == EventV::Jump(id),
    ensures
        ({
            let (q, acts) = update_spec(mgr, p, false);
            &&& acts == Seq::<PlayerActionV>::empty()
            &&& q.current_dialog_name == id
            &&& match mgr.index_of(id) {
                Some(i) => match mgr.dialogs()[i] {
                    DialogV::Choicer(ns) => {
                        &&& q.state matches PlayerStateV::WaitingChoice(cs) && cs.len() == ns.len()
                            && forall|k: int| 0 <= k < cs.len() ==> (#[trigger] cs[k]).0 == ns[k].label
                        &&& update_spec(mgr, q, timer).1 == seq![
                            PlayerActionV::ShowChoices(ns.map_values(|n: DialogNodeV| n.label)),
                        ]
                    },
                    DialogV::Conversation(ns) => {
                        &&& q.state is Running
                        &&& q.current_node_idx == 0
                        &&& q.iter matches Some(it) && it.index == i && it.queue.len() == ns.len()
                            && forall|k: int| 0 <= k < ns.len() ==> (#[trigger] it.queue[k]).idx == k
                    },
                },
                None => q.state is Running && q.iter == Some(pop_event(p.iter->0)),
            }
        }),
{
    lemma_last_index_of(mgr.ids(), id);
    let (q, acts) = update_spec(mgr, p, false);
    if let Some(i) = mgr.index_of(id) {
        if let DialogV::Choicer(ns) = mgr.dialogs()[i] {
            let cs = q.state->WaitingChoice_0;
            assert(cs.map_values(|c: (Seq<char>, DialogIterV)| c.0) =~= ns.map_values(
                |n: DialogNodeV| n.label,
            ));
        } else {
            assert(mgr.dialogs()[i].nodes().len() <= usize::MAX);
        }
    }
}

/// One update of a running player whose timer is off runs its next event:
/// a text is shown with the speaker of its node; a wait starts the timer;
/// an animation is played; a view change does nothing more; each of these
/// ends the update, with the event done and the node it belongs to
/// current. `@next` leaves the node. A main-choicer change makes the
/// named dialog, when there is one, what `play` starts. A parameter change
/// is asked for and the update goes on with the events after it.
pub proof fn lemma_event_step(mgr: DialogManager, p: DialogPlayerV)
    requires
        p.state is Running,
        has_front_event(p),
    ensures
        ({
            let it = p.iter->0;
            let (q, acts) = update_spec(mgr, p, false);
            let done = DialogPlayerV {
                current_node_idx: it.queue[0].idx,
                iter: Some(pop_event(it)),
                ..p
            };
            let node = front_node(mgr.dialogs(), it);
            match front_event(mgr.dialogs(), it) {
                EventV::Text(t) => q == done && acts == seq![
                    PlayerActionV::ShowText { speaker: node.label, text: t },
                ],
                EventV::Wait(n) => q == done && acts == seq![PlayerActionV::SetTimer(n)],
                EventV::SetAnim(n) => q == done && acts == seq![PlayerActionV::PlayMotion(n)],
                EventV::SetView(_) => q == done && acts == Seq::<PlayerActionV>::empty(),
                EventV::Next => acts == Seq::<PlayerActionV>::empty() && q.iter == Some(
                    DialogIterV { queue: it.queue.drop_first(), ..it },
                ) && q.state is Running,
                EventV::SetMainChoicer(id) => acts == Seq::<PlayerActionV>::empty() && q == match mgr.entry_point_for(
                    id,
                ) {
                    Some(ep) => DialogPlayerV { initial_dialog: ep, ..done },
                    None => done,
                },
                EventV::SetParameter(t, v) => (q, acts) == consume_from(
                    mgr,
                    done,
                    seq![PlayerActionV::SetParameters { enum_type: t, enum_value: v }],
                ) && acts.len() >= 1 && acts[0] == (PlayerActionV::SetParameters {
                    enum_type: t,
                    enum_value: v,
                }),
                EventV::RemoveParamater(t) => (q, acts) == consume_from(
                    mgr,
                    done,
                    seq![PlayerActionV::RemoveParameters(t)],
                ) && acts.len() >= 1 && acts[0] == PlayerActionV::RemoveParameters(t),
                EventV::Jump(_) => true,
            }
        }),
{
    let it = p.iter->0;
    let done = DialogPlayerV { current_node_idx: it.queue[0].idx, iter: Some(pop_event(it)), ..p };
    match front_event(mgr.dialogs(), it) {
        EventV::SetParameter(t, v) => {
            lemma_consume_keeps_prefix(
                mgr,
                done,
                seq![PlayerActionV::SetParameters { enum_type: t, enum_value: v }],
            );
        },
        EventV::RemoveParamater(t) => {
            lemma_consume_keeps_prefix(mgr, done, seq![PlayerActionV::RemoveParameters(t)]);
        },
        _ => {},
    }
}

/// Running events only adds actions after those asked for already.
proof fn lemma_consume_keeps_prefix(mgr: DialogManager, p: DialogPlayerV, acts: Seq<PlayerActionV>)
    ensures
        consume_from(mgr, p, acts).1.len() >= acts.len(),
        forall|k: int| 0 <= k < acts.len() ==> #[trigger] consume_from(mgr, p, acts).1[k] == acts[k],
    decreases p.iter->0.queue[0].events.len(),
{
    if p.iter is Some && p.iter->0.queue.len() > 0 {
        let it = p.iter->0;
        if it.queue[0].events.len() > 0 {
            let p1 = DialogPlayerV { current_node_idx: it.queue[0].idx, ..p };
            let popped = DialogPlayerV { iter: Some(pop_event(it)), ..p1 };
            assert(popped.iter->0.queue[0].events.len() < it.queue[0].events.len());
            let node = front_node(mgr.dialogs(), it);
            match front_event(mgr.dialogs(), it) {
                EventV::SetParameter(t, v) => {
                    let a2 = acts.push(PlayerActionV::SetParameters { enum_type: t, enum_value: v });
                    lemma_consume_keeps_prefix(mgr, popped, a2);
                    assert forall|k: int| 0 <= k < acts.len() implies #[trigger] consume_from(
                        mgr,
                        p,
                        acts,
                    ).1[k] == acts[k] by {
                        assert(a2[k] == acts[k]);
                    }
                },
                EventV::RemoveParamater(t) => {
                    let a2 = acts.push(PlayerActionV::RemoveParameters(t));
                    lemma_consume_keeps_prefix(mgr, popped, a2);
                    assert forall|k: int| 0 <= k < acts.len() implies #[trigger] consume_from(
                        mgr,
                        p,
                        acts,
                    ).1[k] == acts[k] by {
                        assert(a2[k] == acts[k]);
                    }
                },
                EventV::Text(t) => {
                    let a2 = acts.push(PlayerActionV::ShowText { speaker: node.label, text: t });
                    assert forall|k: int| 0 <= k < acts.len() implies #[trigger] a2[k] == acts[k] by {}
                },
                EventV::Wait(n) => {
                    let a2 = acts.push(PlayerActionV::SetTimer(n));
                    assert forall|k: int| 0 <= k < acts.len() implies #[trigger] a2[k] == acts[k] by {}
                },
                EventV::SetAnim(n) => {
                    let a2 = acts.push(PlayerActionV::PlayMotion(n));
                    assert forall|k: int| 0 <= k < acts.len() implies #[trigger] a2[k] == acts[k] by {}
                },
                _ => {},
            }
        }
    }
}

/// A name has an entry point exactly when some dialog bears it.
pub proof fn lemma_entry_point_iff_named(m: DialogManager, id: Seq<char>)
    ensures
        m.entry_point_for(id) is Some <==> exists|k: int| 0 <= k < m.ids().len() && m.ids()[k]
            == id,
{
    lemma_last_index_of(m.ids(), id);
    match last_index_of(m.ids(), id) {
        Some(i) => {
            assert(m.ids()[i] == id);
        },
        None => {},
    }
}

/// `play` keeps the player's iterators pointing into the dialogs.
pub proof fn lemma_play_keeps_valid(dialogs: Seq<DialogV>, p: DialogPlayerV)
    requires
        player_valid(dialogs, p),
    ensures
        player_valid(dialogs, play_spec(p)),
{
}

/// `next` keeps the player's iterators pointing into the dialogs.
pub proof fn lemma_next_keeps_valid(dialogs: Seq<DialogV>, p: DialogPlayerV)
    requires
        player_valid(dialogs, p),
    ensures
        player_valid(dialogs, next_spec(p)),
{
    if p.iter is Some && p.iter->0.queue.len() > 0 {
        lemma_drop_front_valid(dialogs, p.iter->0);
    }
}

/// `handle_input` keeps the player's iterators pointing into the dialogs.
pub proof fn lemma_handle_input_keeps_valid(dialogs: Seq<DialogV>, p: DialogPlayerV, idx: int)
    requires
        player_valid(dialogs, p),
    ensures
        player_valid(dialogs, handle_input_spec(p, idx)),
{
}

/// A finished player stays finished, and does nothing, under `update`,
/// `next` and `handle_input`; only `play` starts it again.
pub proof fn lemma_finished_stays(m: DialogManager, p: DialogPlayerV, timer_playing: bool, idx: int)
    requires
        p.state is Finished,
    ensures
        update_spec(m, p, timer_playing) == (p, Seq::<PlayerActionV>::empty()),
        next_spec(p) == p,
        handle_input_spec(p, idx) == p,
        !is_playing_spec(p),
{
}

/// While the timer runs, a running player waits: `update` changes nothing
/// and asks for nothing.
pub proof fn lemma_waits_for_timer(m: DialogManager, p: DialogPlayerV)
    requires
        p.state is Running,
    ensures
        update_spec(m, p, true) == (p, Seq::<PlayerActionV>::empty()),
{
}

/// The options of a choice are shown once: a second `update` while waiting
/// on the same choice asks for nothing.
pub proof fn lemma_choices_shown_once(m: DialogManager, p: DialogPlayerV, timer_playing: bool)
    requires
        p.state is WaitingChoice,
    ensures
        update_spec(m, p, timer_playing).1.len() <= 1,
        update_spec(m, update_spec(m, p, timer_playing).0, timer_playing) == (
            update_spec(m, p, timer_playing).0,
            Seq::<PlayerActionV>::empty(),
        ),
{
}

/// Playing a choicer and picking option `i` plays that option's node.
pub proof fn lemma_pick_after_play(p: DialogPlayerV, i: int)
    requires
        p.initial_dialog is Choicer,
        0 <= i < p.initial_dialog->Choicer_0.len(),
    ensures
        handle_input_spec(play_spec(p), i).iter == Some(p.initial_dialog->Choicer_0[i].1),
        handle_input_spec(play_spec(p), i).state is Running,
        is_playing_spec(handle_input_spec(play_spec(p), i)),
{
}

/// Moving on from the last node finishes the player; from any other node,
/// the player runs the next one.
pub proof fn lemma_next_advances(p: DialogPlayerV)
    requires
        p.state is WaitingInput,
        p.iter is Some,
    ensures
        p.iter->0.queue.len() == 0 ==> next_spec(p).state is Finished && next_spec(p).iter is None,
        p.iter->0.queue.len() > 0 ==> next_spec(p).state is Running && next_spec(p).iter->0.queue
            == p.iter->0.queue.drop_first(),
{
}

} // verus!
