//! The dialog graph of the editor: conversation and choicer nodes joined by
//! links from output pins to input pins, with an undo-redo history of the
//! edits that add or remove nodes and links.
//!
//! Node, pin and link ids share one counter, which each edit takes in turn
//! (see [`lemma_run_ids`]); the graph's invariant keeps every id in use
//! below the next one, and no two nodes, nor two links of a kind, with one
//! id (see [`lemma_ids_apart`]).
//! Where nodes are drawn is left to the user interface.
use crate::dialog::manager::{last_index_of, lemma_last_index_of, live_positions, DialogManager};
use crate::dialog::parser::{Dialog, DialogNode, DialogNodeV, DialogV, Event, EventV};
use crate::editor::link_history::{
    distinct_link_ids, edit_has, in_kind, kind_consistent, kind_links, kind_wf, lemma_distinct_same,
    lemma_edit_below, lemma_filter_links, lemma_in_kind_push, lemma_recorded_kind,
    lemma_redo_links_wf, lemma_remove_link, lemma_undo_links_wf, lemma_unrecorded_kind,
    link_edit, link_ids, links_wf, LinkEdit,
};
use crate::editor::timeline::{container_node, exportable, ContainerV, Timeline, TimelineV};
use std::collections::HashMap;
use undoredo::linear::EditBistack;
use vstd::prelude::*;

verus! {

broadcast use vstd::std_specs::hash::group_hash_axioms;

// ------------------------------------------------------------------------
// Nodes and links
/// A node of the graph.
#[derive(Debug)]
pub enum Node {
    /// A conversation, with one input pin and one output pin.
    Conversation { id: usize, name: String, input: usize, output: usize },
    /// A choicer, with one output pin per option.
    Choicer { id: usize, name: String, options: Vec<String>, input: usize, outputs: Vec<usize> },
}

pub enum NodeV {
    Conversation { id: usize, name: Seq<char>, input: usize, output: usize },
    Choicer {
        id: usize,
        name: Seq<char>,
        options: Seq<Seq<char>>,
        input: usize,
        outputs: Seq<usize>,
    },
}

pub open spec fn strings_view(v: Seq<String>) -> Seq<Seq<char>> {
    v.map_values(|s: String| s@)
}

impl View for Node {
    type V = NodeV;

    open spec fn view(&self) -> NodeV {
        match self {
            Node::Conversation { id, name, input, output } => NodeV::Conversation {
                id: *id,
                name: name@,
                input: *input,
                output: *output,
            },
            Node::Choicer { id, name, options, input, outputs } => NodeV::Choicer {
                id: *id,
                name: name@,
                options: strings_view(options@),
                input: *input,
                outputs: outputs@,
            },
        }
    }
}

impl NodeV {
    pub open spec fn id(self) -> usize {
        match self {
            NodeV::Conversation { id, .. } => id,
            NodeV::Choicer { id, .. } => id,
        }
    }

    pub open spec fn name(self) -> Seq<char> {
        match self {
            NodeV::Conversation { name, .. } => name,
            NodeV::Choicer { name, .. } => name,
        }
    }

    pub open spec fn input(self) -> usize {
        match self {
            NodeV::Conversation { input, .. } => input,
            NodeV::Choicer { input, .. } => input,
        }
    }

    /// The output pins, in order.
    pub open spec fn outputs(self) -> Seq<usize> {
        match self {
            NodeV::Conversation { output, .. } => seq![output],
            NodeV::Choicer { outputs, .. } => outputs,
        }
    }

    /// The input pin and then the output pins.
    pub open spec fn pins(self) -> Seq<usize> {
        seq![self.input()] + self.outputs()
    }
}

fn clone_strings(v: &Vec<String>) -> (r: Vec<String>)
    ensures
        strings_view(r@) == strings_view(v@),
{
    let r = v.clone();
    proof {
        assert forall|i: int| 0 <= i < v@.len() implies r@[i] == v@[i] by {
            assert(cloned::<String>(v[i], r[i]));
        }
        assert(strings_view(r@) =~= strings_view(v@));
    }
    r
}

fn clone_pins(v: &Vec<usize>) -> (r: Vec<usize>)
    ensures
        r@ == v@,
{
    let r = v.clone();
    proof {
        assert forall|i: int| 0 <= i < v@.len() implies r@[i] == v@[i] by {
            assert(cloned::<usize>(v[i], r[i]));
        }
        assert(r@ =~= v@);
    }
    r
}

impl Clone for Node {
    fn clone(&self) -> (r: Self)
        ensures
            r@ == self@,
    {
        match self {
            Node::Conversation { id, name, input, output } => Node::Conversation {
                id: *id,
                name: name.clone(),
                input: *input,
                output: *output,
            },
            Node::Choicer { id, name, options, input, outputs } => Node::Choicer {
                id: *id,
                name: name.clone(),
                options: clone_strings(options),
                input: *input,
                outputs: clone_pins(outputs),
            },
        }
    }
}

impl Node {
    pub fn id(&self) -> (r: usize)
        ensures
            r == self@.id(),
    {
        match self {
            Node::Conversation { id, .. } => *id,
            Node::Choicer { id, .. } => *id,
        }
    }

    pub fn name(&self) -> (r: &String)
        ensures
            r@ == self@.name(),
    {
        match self {
            Node::Conversation { name, .. } => name,
            Node::Choicer { name, .. } => name,
        }
    }

    fn input(&self) -> (r: usize)
        ensures
            r == self@.input(),
    {
        match self {
            Node::Conversation { input, .. } => *input,
            Node::Choicer { input, .. } => *input,
        }
    }
}

/// A link from an output pin to an input pin.
#[derive(Debug, Clone, Copy, PartialEq, Eq, Structural)]
pub struct Link {
    pub id: usize,
    pub from: usize,
    pub to: usize,
}

// ------------------------------------------------------------------------
// History commands
/// An edit as the history records it, with what undoing it needs.
pub enum Command {
    /// A conversation node was added with this timeline.
    AddNodeConversation(Node, Timeline),
    /// A choicer node was added.
    AddNodeChoicer(Node),
    /// The node at `index` was removed with the links that touched its pins
    /// and its timeline.
    RemoveNode {
        index: usize,
        node: Node,
        flow_links: Vec<Link>,
        links: Vec<Link>,
        timeline: Option<Timeline>,
    },
    /// A link was added, in place of the one that left its output pin.
    AddLink { link: Link, replaced: Option<Link> },
    /// A flow link was added, in place of the one that left its output pin.
    AddFlowLink { link: Link, replaced: Option<Link> },
    /// The link at `index` was removed.
    RemoveLink { index: usize, link: Link },
    /// The flow link at `index` was removed.
    RemoveFlowLink { index: usize, link: Link },
}

pub enum CommandV {
    AddNodeConversation(NodeV, TimelineV),
    AddNodeChoicer(NodeV),
    RemoveNode {
        index: usize,
        node: NodeV,
        flow_links: Seq<Link>,
        links: Seq<Link>,
        timeline: Option<TimelineV>,
    },
    AddLink { link: Link, replaced: Option<Link> },
    AddFlowLink { link: Link, replaced: Option<Link> },
    RemoveLink { index: usize, link: Link },
    RemoveFlowLink { index: usize, link: Link },
}

pub open spec fn opt_timeline_view(t: Option<Timeline>) -> Option<TimelineV> {
    match t {
        Some(t) => Some(t@),
        None => None,
    }
}

impl View for Command {
    type V = CommandV;

    open spec fn view(&self) -> CommandV {
        match self {
            Command::AddNodeConversation(n, t) => CommandV::AddNodeConversation(n@, t@),
            Command::AddNodeChoicer(n) => CommandV::AddNodeChoicer(n@),
            Command::RemoveNode { index, node, flow_links, links, timeline } => CommandV::RemoveNode {
                index: *index,
                node: node@,
                flow_links: flow_links@,
                links: links@,
                timeline: opt_timeline_view(*timeline),
            },
            Command::AddLink { link, replaced } => CommandV::AddLink {
                link: *link,
                replaced: *replaced,
            },
            Command::AddFlowLink { link, replaced } => CommandV::AddFlowLink {
                link: *link,
                replaced: *replaced,
            },
            Command::RemoveLink { index, link } => CommandV::RemoveLink {
                index: *index,
                link: *link,
            },
            Command::RemoveFlowLink { index, link } => CommandV::RemoveFlowLink {
                index: *index,
                link: *link,
            },
        }
    }
}

fn clone_links(v: &Vec<Link>) -> (r: Vec<Link>)
    ensures
        r@ == v@,
{
    let r = v.clone();
    proof {
        assert forall|i: int| 0 <= i < v@.len() implies r@[i] == v@[i] by {
            assert(cloned::<Link>(v[i], r[i]));
        }
        assert(r@ =~= v@);
    }
    r
}

impl Clone for Command {
    fn clone(&self) -> (r: Self)
        ensures
            r@ == self@,
    {
        match self {
            Command::AddNodeConversation(n, t) => Command::AddNodeConversation(n.clone(), t.clone()),
            Command::AddNodeChoicer(n) => Command::AddNodeChoicer(n.clone()),
            Command::RemoveNode { index, node, flow_links, links, timeline } => {
                let timeline = match timeline {
                    Some(t) => Some(t.clone()),
                    None => None,
                };
                Command::RemoveNode {
                    index: *index,
                    node: node.clone(),
                    flow_links: clone_links(flow_links),
                    links: clone_links(links),
                    timeline,
                }
            },
            Command::AddLink { link, replaced } => Command::AddLink {
                link: *link,
                replaced: *replaced,
            },
            Command::AddFlowLink { link, replaced } => Command::AddFlowLink {
                link: *link,
                replaced: *replaced,
            },
            Command::RemoveLink { index, link } => Command::RemoveLink { index: *index, link: *link },
            Command::RemoveFlowLink { index, link } => Command::RemoveFlowLink {
                index: *index,
                link: *link,
            },
        }
    }
}

// ------------------------------------------------------------------------
// The history stacks of `undoredo`
#[verifier::external_type_specification]
#[verifier::external_body]
#[verifier::reject_recursive_types(E)]
#[verifier::reject_recursive_types(Cmd)]
pub struct ExEditBistack<E, Cmd>(EditBistack<E, Cmd>);

/// The commands on the done stack of a history, oldest first.
pub uninterp spec fn history_done(h: EditBistack<(), Command>) -> Seq<CommandV>;

/// The commands on the undone stack of a history, oldest first.
pub uninterp spec fn history_undone(h: EditBistack<(), Command>) -> Seq<CommandV>;

/// `EditBistack::new`: both stacks start empty.
#[verifier::external_body]
fn history_new() -> (h: EditBistack<(), Command>)
    ensures
        history_done(h) == Seq::<CommandV>::empty(),
        history_undone(h) == Seq::<CommandV>::empty(),
{
    EditBistack::new()
}

/// `EditBistack::command`: pushes the command onto the done stack and
/// clears the undone stack.
#[verifier::external_body]
fn history_push(h: &mut EditBistack<(), Command>, cmd: Command)
    ensures
        history_done(*final(h)) == history_done(*old(h)).push(cmd@),
        history_undone(*final(h)) == Seq::<CommandV>::empty(),
{
    h.command(cmd)
}

/// `EditBistack::undo_command`: moves the newest done command onto the
/// undone stack and returns it; with no done command it returns `None` and
/// changes nothing. The stack keeps a clone, made by `Command::clone`,
/// whose view is proved equal to the command's.
#[verifier::external_body]
fn history_undo(h: &mut EditBistack<(), Command>) -> (r: Option<Command>)
    ensures
        match r {
            Some(c) => {
                &&& history_done(*old(h)).len() > 0
                &&& c@ == history_done(*old(h)).last()
                &&& history_done(*final(h)) == history_done(*old(h)).drop_last()
                &&& history_undone(*final(h)) == history_undone(*old(h)).push(c@)
            },
            None => {
                &&& history_done(*old(h)).len() == 0
                &&& history_done(*final(h)) == history_done(*old(h))
                &&& history_undone(*final(h)) == history_undone(*old(h))
            },
        },
{
    h.undo_command()
}

/// `EditBistack::redo_command`: moves the newest undone command back onto
/// the done stack and returns it; with no undone command it returns `None`
/// and changes nothing. The stack keeps a clone, made by `Command::clone`,
/// whose view is proved equal to the command's.
#[verifier::external_body]
fn history_redo(h: &mut EditBistack<(), Command>) -> (r: Option<Command>)
    ensures
        match r {
            Some(c) => {
                &&& history_undone(*old(h)).len() > 0
                &&& c@ == history_undone(*old(h)).last()
                &&& history_undone(*final(h)) == history_undone(*old(h)).drop_last()
                &&& history_done(*final(h)) == history_done(*old(h)).push(c@)
            },
            None => {
                &&& history_undone(*old(h)).len() == 0
                &&& history_done(*final(h)) == history_done(*old(h))
                &&& history_undone(*final(h)) == history_undone(*old(h))
            },
        },
{
    h.redo_command()
}

// ------------------------------------------------------------------------
// Searching sequences
/// The position of the first element of `s` for which `p` holds.
pub open spec fn first_index<T>(s: Seq<T>, p: spec_fn(T) -> bool) -> Option<int>
    decreases s.len(),
{
    if s.len() == 0 {
        None
    } else if p(s[0]) {
        Some(0)
    } else {
        match first_index(s.drop_first(), p) {
            Some(i) => Some(i + 1),
            None => None,
        }
    }
}

pub proof fn lemma_first_index<T>(s: Seq<T>, p: spec_fn(T) -> bool)
    ensures
        match first_index(s, p) {
            Some(i) => 0 <= i < s.len() && p(s[i]) && forall|j: int| 0 <= j < i ==> !p(#[trigger] s[j]),
            None => forall|j: int| 0 <= j < s.len() ==> !p(#[trigger] s[j]),
        },
    decreases s.len(),
{
    if s.len() > 0 && !p(s[0]) {
        lemma_first_index(s.drop_first(), p);
        assert forall|j: int| 0 < j < s.len() implies s[j] == s.drop_first()[j - 1] by {}
    }
}

/// A position found by a left-to-right scan is the first one.
proof fn lemma_first_index_is<T>(s: Seq<T>, p: spec_fn(T) -> bool, i: int)
    requires
        0 <= i <= s.len(),
        forall|j: int| 0 <= j < i ==> !p(#[trigger] s[j]),
        i < s.len() ==> p(s[i]),
    ensures
        first_index(s, p) == (if i < s.len() { Some(i) } else { None::<int> }),
{
    lemma_first_index(s, p);
    match first_index(s, p) {
        Some(k) => {
            if k < i {
                assert(!p(s[k]));
            }
            if i < k {
                assert(!p(s[i]));
            }
        },
        None => {
            if i < s.len() {
                assert(!p(s[i]));
            }
        },
    }
}

pub open spec fn has_id(id: usize) -> spec_fn(NodeV) -> bool {
    |n: NodeV| n.id() == id
}

pub open spec fn has_pin(pin: usize) -> spec_fn(NodeV) -> bool {
    |n: NodeV| n.pins().contains(pin)
}

pub open spec fn has_name(name: Seq<char>) -> spec_fn(NodeV) -> bool {
    |n: NodeV| n.name() == name
}

pub open spec fn has_input(pin: usize) -> spec_fn(NodeV) -> bool {
    |n: NodeV| n.input() == pin
}

pub open spec fn link_from(pin: usize) -> spec_fn(Link) -> bool {
    |l: Link| l.from == pin
}

pub open spec fn link_with_id(id: usize) -> spec_fn(Link) -> bool {
    |l: Link| l.id == id
}

pub open spec fn id_is_not(id: usize) -> spec_fn(Link) -> bool {
    |l: Link| l.id != id
}

pub open spec fn touches_none(pins: Seq<usize>) -> spec_fn(Link) -> bool {
    |l: Link| !pins.contains(l.from) && !pins.contains(l.to)
}

pub open spec fn touches_some(pins: Seq<usize>) -> spec_fn(Link) -> bool {
    |l: Link| pins.contains(l.from) || pins.contains(l.to)
}

pub open spec fn avoids_pin(pin: usize) -> spec_fn(Link) -> bool {
    |l: Link| l.from != pin && l.to != pin
}

/// `removed` holds no link between the same two pins as `l`.
pub open spec fn joins_none_of(removed: Seq<Link>) -> spec_fn(Link) -> bool {
    |l: Link|
        !(exists|k: int|
            0 <= k < removed.len() && #[trigger] removed[k].from == l.from && removed[k].to == l.to)
}

/// The links whose id is not `id`.
pub open spec fn without_id(links: Seq<Link>, id: usize) -> Seq<Link> {
    links.filter(id_is_not(id))
}

/// The links that touch none of `pins`.
pub open spec fn untouched(links: Seq<Link>, pins: Seq<usize>) -> Seq<Link> {
    links.filter(touches_none(pins))
}

/// The links that touch one of `pins`.
pub open spec fn touching(links: Seq<Link>, pins: Seq<usize>) -> Seq<Link> {
    links.filter(touches_some(pins))
}

/// The links that do not touch `pin`.
pub open spec fn off_pin(links: Seq<Link>, pin: usize) -> Seq<Link> {
    links.filter(avoids_pin(pin))
}

/// The links that join two pins that no link of `removed` joins.
pub open spec fn not_joining(links: Seq<Link>, removed: Seq<Link>) -> Seq<Link> {
    links.filter(joins_none_of(removed))
}

pub open spec fn push_opt(links: Seq<Link>, o: Option<Link>) -> Seq<Link> {
    match o {
        Some(l) => links.push(l),
        None => links,
    }
}

pub open spec fn pop_node(nodes: Seq<NodeV>) -> Seq<NodeV> {
    if nodes.len() > 0 {
        nodes.drop_last()
    } else {
        nodes
    }
}

pub open spec fn empty_timeline() -> TimelineV {
    TimelineV { containers: seq![], selected_container_id: None, selected_block: None }
}

// ------------------------------------------------------------------------
// The graph
struct IdGen(usize);

impl IdGen {
    fn next(&mut self) -> (r: usize)
        requires
            old(self).0 < usize::MAX,
        ensures
            r == old(self).0,
            final(self).0 == old(self).0 + 1,
    {
        let v = self.0;
        self.0 = self.0 + 1;
        v
    }
}

/// The graph of an editing session.
pub struct Graph {
    nodes: Vec<Node>,
    timelines: HashMap<usize, Timeline>,
    links: Vec<Link>,
    flow_links: Vec<Link>,
    flow_link_editing: bool,
    id_gen: IdGen,
    selected_node_id: Option<usize>,
    history: EditBistack<(), Command>,
}

pub struct GraphV {
    pub nodes: Seq<NodeV>,
    /// The timeline of each conversation node, by node id.
    pub timelines: Map<usize, TimelineV>,
    pub links: Seq<Link>,
    pub flow_links: Seq<Link>,
    /// Whether new and removed links are flow links.
    pub flow_link_editing: bool,
    /// The id that is handed out next.
    pub next_id: usize,
    pub selected: Option<usize>,
    /// The history's done commands, oldest first.
    pub done: Seq<CommandV>,
    /// The history's undone commands, oldest first.
    pub undone: Seq<CommandV>,
}

pub open spec fn nodes_view(v: Seq<Node>) -> Seq<NodeV> {
    v.map_values(|n: Node| n@)
}

pub open spec fn timelines_view(m: Map<usize, Timeline>) -> Map<usize, TimelineV> {
    m.map_values(|t: Timeline| t@)
}

impl View for Graph {
    type V = GraphV;

    closed spec fn view(&self) -> GraphV {
        GraphV {
            nodes: nodes_view(self.nodes@),
            timelines: timelines_view(self.timelines@),
            links: self.links@,
            flow_links: self.flow_links@,
            flow_link_editing: self.flow_link_editing,
            next_id: self.id_gen.0,
            selected: self.selected_node_id,
            done: history_done(self.history),
            undone: history_undone(self.history),
        }
    }
}

// ------------------------------------------------------------------------
// What undoing and redoing need of the graph's shape: its number of nodes
// and which node ids have a timeline.
/// Undoing `c` on this shape does not fail.
pub open spec fn undo_ok(len: nat, dom: Set<usize>, c: CommandV) -> bool {
    match c {
        CommandV::AddNodeConversation(n, _) => len > 0 && dom.contains(n.id()),
        CommandV::AddNodeChoicer(_) => len > 0,
        CommandV::RemoveNode { index, node, timeline, .. } => index <= len && (timeline is Some
            ==> !dom.contains(node.id())),
        _ => true,
    }
}

/// Redoing `c` on this shape does not fail.
pub open spec fn redo_ok(len: nat, dom: Set<usize>, c: CommandV) -> bool {
    match c {
        CommandV::AddNodeConversation(n, _) => !dom.contains(n.id()),
        CommandV::RemoveNode { index, node, timeline, .. } => index < len && (timeline is Some
            ==> dom.contains(node.id())),
        _ => true,
    }
}

pub open spec fn undo_len(len: nat, c: CommandV) -> nat {
    match c {
        CommandV::AddNodeConversation(..) => (len - 1) as nat,
        CommandV::AddNodeChoicer(..) => (len - 1) as nat,
        CommandV::RemoveNode { .. } => len + 1,
        _ => len,
    }
}

pub open spec fn undo_dom(dom: Set<usize>, c: CommandV) -> Set<usize> {
    match c {
        CommandV::AddNodeConversation(n, _) => dom.remove(n.id()),
        CommandV::RemoveNode { node, timeline, .. } => if timeline is Some {
            dom.insert(node.id())
        } else {
            dom
        },
        _ => dom,
    }
}

pub open spec fn redo_len(len: nat, c: CommandV) -> nat {
    match c {
        CommandV::AddNodeConversation(..) => len + 1,
        CommandV::AddNodeChoicer(..) => len + 1,
        CommandV::RemoveNode { .. } => (len - 1) as nat,
        _ => len,
    }
}

pub open spec fn redo_dom(dom: Set<usize>, c: CommandV) -> Set<usize> {
    match c {
        CommandV::AddNodeConversation(n, _) => dom.insert(n.id()),
        CommandV::RemoveNode { node, timeline, .. } => if timeline is Some {
            dom.remove(node.id())
        } else {
            dom
        },
        _ => dom,
    }
}

/// Every done command, newest first, can be undone on the shape that
/// undoing the newer ones leaves.
pub open spec fn done_ok(len: nat, dom: Set<usize>, done: Seq<CommandV>) -> bool
    decreases done.len(),
{
    if done.len() == 0 {
        true
    } else {
        let c = done.last();
        undo_ok(len, dom, c) && done_ok(undo_len(len, c), undo_dom(dom, c), done.drop_last())
    }
}

/// Every undone command, newest first, can be redone on the shape that
/// redoing the newer ones leaves.
pub open spec fn undone_ok(len: nat, dom: Set<usize>, undone: Seq<CommandV>) -> bool
    decreases undone.len(),
{
    if undone.len() == 0 {
        true
    } else {
        let c = undone.last();
        redo_ok(len, dom, c) && undone_ok(redo_len(len, c), redo_dom(dom, c), undone.drop_last())
    }
}

/// The ids that a command holds are all below `n`.
pub open spec fn command_below(c: CommandV, n: usize) -> bool {
    match c {
        CommandV::AddNodeConversation(node, _) => node.id() < n,
        CommandV::AddNodeChoicer(node) => node.id() < n,
        CommandV::RemoveNode { node, links, flow_links, .. } => node.id() < n && (forall|k: int|
            0 <= k < links.len() ==> #[trigger] links[k].id < n) && (forall|k: int|
            0 <= k < flow_links.len() ==> #[trigger] flow_links[k].id < n),
        CommandV::AddLink { link, replaced } => link.id < n && (replaced matches Some(r) ==> r.id
            < n),
        CommandV::AddFlowLink { link, replaced } => link.id < n && (replaced matches Some(r)
            ==> r.id < n),
        CommandV::RemoveLink { link, .. } => link.id < n,
        CommandV::RemoveFlowLink { link, .. } => link.id < n,
    }
}

/// The ids of nodes, in order.
pub open spec fn node_ids(ns: Seq<NodeV>) -> Seq<usize> {
    ns.map_values(|n: NodeV| n.id())
}

/// Undoing `c` on nodes with these ids takes away the node that `c` added,
/// which is the last, or brings back one whose id is in none of them.
pub open spec fn nodes_undo_ok(q: Seq<usize>, c: CommandV) -> bool {
    match c {
        CommandV::AddNodeConversation(n, _) => q.len() > 0 && q.last() == n.id(),
        CommandV::AddNodeChoicer(n) => q.len() > 0 && q.last() == n.id(),
        CommandV::RemoveNode { index, node, .. } => index <= q.len() && !q.contains(node.id()),
        _ => true,
    }
}

/// The node ids after undoing `c`.
pub open spec fn nodes_undo(q: Seq<usize>, c: CommandV) -> Seq<usize> {
    match c {
        CommandV::AddNodeConversation(..) => q.drop_last(),
        CommandV::AddNodeChoicer(..) => q.drop_last(),
        CommandV::RemoveNode { index, node, .. } => q.insert(index as int, node.id()),
        _ => q,
    }
}

/// Redoing `c` on nodes with these ids adds a node whose id is in none of
/// them, or takes away the node at the index with the id `c` removed.
pub open spec fn nodes_redo_ok(q: Seq<usize>, c: CommandV) -> bool {
    match c {
        CommandV::AddNodeConversation(n, _) => !q.contains(n.id()),
        CommandV::AddNodeChoicer(n) => !q.contains(n.id()),
        CommandV::RemoveNode { index, node, .. } => index < q.len() && q[index as int]
            == node.id(),
        _ => true,
    }
}

/// The node ids after redoing `c`.
pub open spec fn nodes_redo(q: Seq<usize>, c: CommandV) -> Seq<usize> {
    match c {
        CommandV::AddNodeConversation(n, _) => q.push(n.id()),
        CommandV::AddNodeChoicer(n) => q.push(n.id()),
        CommandV::RemoveNode { index, .. } => q.remove(index as int),
        _ => q,
    }
}

/// Every done command, newest first, undoes as `nodes_undo_ok` says on the
/// node ids that undoing the newer ones leaves.
pub open spec fn nodes_done_ok(q: Seq<usize>, done: Seq<CommandV>) -> bool
    decreases done.len(),
{
    if done.len() == 0 {
        true
    } else {
        let c = done.last();
        nodes_undo_ok(q, c) && nodes_done_ok(nodes_undo(q, c), done.drop_last())
    }
}

/// Every undone command, newest first, redoes as `nodes_redo_ok` says on
/// the node ids that redoing the newer ones leaves.
pub open spec fn nodes_undone_ok(q: Seq<usize>, undone: Seq<CommandV>) -> bool
    decreases undone.len(),
{
    if undone.len() == 0 {
        true
    } else {
        let c = undone.last();
        nodes_redo_ok(q, c) && nodes_undone_ok(nodes_redo(q, c), undone.drop_last())
    }
}

proof fn lemma_nodes_undo_redo(q: Seq<usize>, c: CommandV)
    requires
        q.no_duplicates(),
        nodes_undo_ok(q, c),
    ensures
        nodes_undo(q, c).no_duplicates(),
        nodes_redo_ok(nodes_undo(q, c), c),
        nodes_redo(nodes_undo(q, c), c) == q,
{
    match c {
        CommandV::AddNodeConversation(n, _) => {
            assert(q.drop_last().push(q.last()) =~= q);
            assert(!q.drop_last().contains(n.id())) by {
                if q.drop_last().contains(n.id()) {
                    let i = choose|i: int| 0 <= i < q.drop_last().len() && q.drop_last()[i]
                        == n.id();
                    assert(q[i] == q[q.len() - 1]);
                }
            }
        },
        CommandV::AddNodeChoicer(n) => {
            assert(q.drop_last().push(q.last()) =~= q);
            assert(!q.drop_last().contains(n.id())) by {
                if q.drop_last().contains(n.id()) {
                    let i = choose|i: int| 0 <= i < q.drop_last().len() && q.drop_last()[i]
                        == n.id();
                    assert(q[i] == q[q.len() - 1]);
                }
            }
        },
        CommandV::RemoveNode { index, node, .. } => {
            let t = q.insert(index as int, node.id());
            assert(t.remove(index as int) =~= q);
            assert forall|a: int, b: int| 0 <= a < t.len() && 0 <= b < t.len() && a != b implies t[a]
                != t[b] by {
                if a == index {
                    let bb = if b < index { b } else { b - 1 };
                    assert(t[b] == q[bb]);
                } else if b == index {
                    let aa = if a < index { a } else { a - 1 };
                    assert(t[a] == q[aa]);
                } else {
                    let aa = if a < index { a } else { a - 1 };
                    let bb = if b < index { b } else { b - 1 };
                    assert(t[a] == q[aa]);
                    assert(t[b] == q[bb]);
                }
            }
        },
        _ => {},
    }
}

proof fn lemma_nodes_redo_undo(q: Seq<usize>, c: CommandV)
    requires
        q.no_duplicates(),
        nodes_redo_ok(q, c),
    ensures
        nodes_redo(q, c).no_duplicates(),
        nodes_undo_ok(nodes_redo(q, c), c),
        nodes_undo(nodes_redo(q, c), c) == q,
{
    match c {
        CommandV::AddNodeConversation(n, _) => {
            assert(q.push(n.id()).drop_last() =~= q);
            assert forall|a: int, b: int|
                0 <= a < q.push(n.id()).len() && 0 <= b < q.push(n.id()).len() && a != b implies q.push(
                n.id(),
            )[a] != q.push(n.id())[b] by {
                if a == q.len() {
                    assert(q.contains(q[b]));
                } else if b == q.len() {
                    assert(q.contains(q[a]));
                }
            }
        },
        CommandV::AddNodeChoicer(n) => {
            assert(q.push(n.id()).drop_last() =~= q);
            assert forall|a: int, b: int|
                0 <= a < q.push(n.id()).len() && 0 <= b < q.push(n.id()).len() && a != b implies q.push(
                n.id(),
            )[a] != q.push(n.id())[b] by {
                if a == q.len() {
                    assert(q.contains(q[b]));
                } else if b == q.len() {
                    assert(q.contains(q[a]));
                }
            }
        },
        CommandV::RemoveNode { index, node, .. } => {
            let t = q.remove(index as int);
            assert(t.insert(index as int, node.id()) =~= q);
            assert(!t.contains(node.id())) by {
                if t.contains(node.id()) {
                    let i = choose|i: int| 0 <= i < t.len() && t[i] == node.id();
                    let ii = if i < index { i } else { i + 1 };
                    assert(t[i] == q[ii]);
                }
            }
            assert forall|a: int, b: int| 0 <= a < t.len() && 0 <= b < t.len() && a != b implies t[a]
                != t[b] by {
                let aa = if a < index { a } else { a + 1 };
                let bb = if b < index { b } else { b + 1 };
                assert(t[a] == q[aa]);
                assert(t[b] == q[bb]);
            }
        },
        _ => {},
    }
}

/// Every pin of `n` is below `b`.
pub open spec fn node_pins_below(n: NodeV, b: usize) -> bool {
    forall|k: int| 0 <= k < n.pins().len() ==> #[trigger] n.pins()[k] < b
}

/// The node a command holds, if any.
pub open spec fn command_node(c: CommandV) -> Option<NodeV> {
    match c {
        CommandV::AddNodeConversation(n, _) => Some(n),
        CommandV::AddNodeChoicer(n) => Some(n),
        CommandV::RemoveNode { node, .. } => Some(node),
        _ => None,
    }
}

/// Every pin of the nodes, and of the nodes the history holds, is below
/// the next id.
pub open spec fn pins_below(g: GraphV) -> bool {
    &&& forall|i: int| 0 <= i < g.nodes.len() ==> node_pins_below(#[trigger] g.nodes[i], g.next_id)
    &&& forall|i: int|
        0 <= i < g.done.len() ==> (command_node(#[trigger] g.done[i]) matches Some(n)
            ==> node_pins_below(n, g.next_id))
    &&& forall|i: int|
        0 <= i < g.undone.len() ==> (command_node(#[trigger] g.undone[i]) matches Some(n)
            ==> node_pins_below(n, g.next_id))
}

/// The graph's invariant: the ids in use are below the next one, the
/// history can be undone and redone without failing, and no two nodes, nor
/// two links of a kind, share an id, now or after any undo or redo.
pub open spec fn graph_wf(g: GraphV) -> bool {
    &&& g.timelines.dom().finite()
    &&& forall|k: usize| g.timelines.dom().contains(k) ==> k < g.next_id
    &&& forall|i: int| 0 <= i < g.nodes.len() ==> #[trigger] g.nodes[i].id() < g.next_id
    &&& forall|i: int| 0 <= i < g.links.len() ==> #[trigger] g.links[i].id < g.next_id
    &&& forall|i: int| 0 <= i < g.flow_links.len() ==> #[trigger] g.flow_links[i].id < g.next_id
    &&& forall|i: int| 0 <= i < g.done.len() ==> command_below(#[trigger] g.done[i], g.next_id)
    &&& forall|i: int| 0 <= i < g.undone.len() ==> command_below(#[trigger] g.undone[i], g.next_id)
    &&& done_ok(g.nodes.len(), g.timelines.dom(), g.done)
    &&& undone_ok(g.nodes.len(), g.timelines.dom(), g.undone)
    &&& links_wf(g)
    &&& node_ids(g.nodes).no_duplicates()
    &&& nodes_done_ok(node_ids(g.nodes), g.done)
    &&& nodes_undone_ok(node_ids(g.nodes), g.undone)
    &&& pins_below(g)
}

// ------------------------------------------------------------------------
// Undo and redo
pub open spec fn clamp(index: usize, len: nat) -> int {
    if index <= len {
        index as int
    } else {
        len as int
    }
}

/// The graph after reverting `c`.
pub open spec fn undo_apply(g: GraphV, c: CommandV) -> GraphV {
    match c {
        CommandV::AddNodeConversation(n, _) => GraphV {
            timelines: g.timelines.remove(n.id()),
            nodes: pop_node(g.nodes),
            ..g
        },
        CommandV::AddNodeChoicer(_) => GraphV { nodes: pop_node(g.nodes), ..g },
        CommandV::RemoveNode { index, node, flow_links, links, timeline } => GraphV {
            timelines: match timeline {
                Some(t) => g.timelines.insert(node.id(), t),
                None => g.timelines,
            },
            nodes: g.nodes.insert(index as int, node),
            links: g.links + links,
            flow_links: g.flow_links + flow_links,
            ..g
        },
        CommandV::AddLink { link, replaced } => GraphV {
            links: push_opt(without_id(g.links, link.id), replaced),
            ..g
        },
        CommandV::AddFlowLink { link, replaced } => GraphV {
            flow_links: push_opt(without_id(g.flow_links, link.id), replaced),
            ..g
        },
        CommandV::RemoveLink { index, link } => GraphV {
            links: g.links.insert(clamp(index, g.links.len()), link),
            ..g
        },
        CommandV::RemoveFlowLink { index, link } => GraphV {
            flow_links: g.flow_links.insert(clamp(index, g.flow_links.len()), link),
            ..g
        },
    }
}

/// The graph after doing `c` again.
pub open spec fn redo_apply(g: GraphV, c: CommandV) -> GraphV {
    match c {
        CommandV::AddNodeConversation(n, t) => GraphV {
            timelines: g.timelines.insert(n.id(), t),
            nodes: g.nodes.push(n),
            ..g
        },
        CommandV::AddNodeChoicer(n) => GraphV { nodes: g.nodes.push(n), ..g },
        CommandV::RemoveNode { index, node, flow_links, links, timeline } => GraphV {
            timelines: if timeline is Some {
                g.timelines.remove(node.id())
            } else {
                g.timelines
            },
            nodes: g.nodes.remove(index as int),
            links: not_joining(g.links, links),
            flow_links: not_joining(g.flow_links, flow_links),
            ..g
        },
        CommandV::AddLink { link, replaced } => GraphV {
            links: match replaced {
                Some(r) => without_id(g.links, r.id),
                None => g.links,
            }.push(link),
            ..g
        },
        CommandV::AddFlowLink { link, replaced } => GraphV {
            flow_links: match replaced {
                Some(r) => without_id(g.flow_links, r.id),
                None => g.flow_links,
            }.push(link),
            ..g
        },
        CommandV::RemoveLink { link, .. } => GraphV { links: without_id(g.links, link.id), ..g },
        CommandV::RemoveFlowLink { link, .. } => GraphV {
            flow_links: without_id(g.flow_links, link.id),
            ..g
        },
    }
}

/// `undo`: the newest done command moves to the undone stack and is
/// reverted; with no done command nothing changes.
pub open spec fn undo_spec(g: GraphV) -> GraphV {
    if g.done.len() == 0 {
        g
    } else {
        let c = g.done.last();
        undo_apply(GraphV { done: g.done.drop_last(), undone: g.undone.push(c), ..g }, c)
    }
}

/// `redo`: the newest undone command moves back to the done stack and is
/// done again; with no undone command nothing changes.
pub open spec fn redo_spec(g: GraphV) -> GraphV {
    if g.undone.len() == 0 {
        g
    } else {
        let c = g.undone.last();
        redo_apply(GraphV { undone: g.undone.drop_last(), done: g.done.push(c), ..g }, c)
    }
}

proof fn lemma_undo_then_redo_shape(len: nat, dom: Set<usize>, c: CommandV)
    requires
        undo_ok(len, dom, c),
    ensures
        redo_ok(undo_len(len, c), undo_dom(dom, c), c),
        redo_len(undo_len(len, c), c) == len,
        redo_dom(undo_dom(dom, c), c) == dom,
{
    match c {
        CommandV::AddNodeConversation(n, _) => {
            assert(dom.remove(n.id()).insert(n.id()) =~= dom);
        },
        CommandV::RemoveNode { node, timeline, .. } => {
            if timeline is Some {
                assert(dom.insert(node.id()).remove(node.id()) =~= dom);
            }
        },
        _ => {},
    }
}

proof fn lemma_redo_then_undo_shape(len: nat, dom: Set<usize>, c: CommandV)
    requires
        redo_ok(len, dom, c),
    ensures
        undo_ok(redo_len(len, c), redo_dom(dom, c), c),
        undo_len(redo_len(len, c), c) == len,
        undo_dom(redo_dom(dom, c), c) == dom,
{
    match c {
        CommandV::AddNodeConversation(n, _) => {
            assert(dom.insert(n.id()).remove(n.id()) =~= dom);
        },
        CommandV::RemoveNode { node, timeline, .. } => {
            if timeline is Some {
                assert(dom.remove(node.id()).insert(node.id()) =~= dom);
            }
        },
        _ => {},
    }
}

/// Every link of `s.filter(p)` is a link of `s`.
proof fn lemma_filter_ids_below(s: Seq<Link>, p: spec_fn(Link) -> bool, n: usize)
    requires
        forall|i: int| 0 <= i < s.len() ==> #[trigger] s[i].id < n,
    ensures
        forall|i: int| 0 <= i < s.filter(p).len() ==> #[trigger] s.filter(p)[i].id < n,
{
    assert forall|i: int| 0 <= i < s.filter(p).len() implies #[trigger] s.filter(p)[i].id < n by {
        let e = s.filter(p)[i];
        assert(s.filter(p).contains(e));
        s.lemma_filter_contains_rev(p, e);
        let j = choose|j: int| 0 <= j < s.len() && s[j] == e;
        assert(s[j].id < n);
    }
}

/// The node, link and flow link ids are below the next id.
pub open spec fn ids_below(g: GraphV) -> bool {
    &&& forall|i: int| 0 <= i < g.nodes.len() ==> #[trigger] g.nodes[i].id() < g.next_id
    &&& forall|i: int| 0 <= i < g.links.len() ==> #[trigger] g.links[i].id < g.next_id
    &&& forall|i: int| 0 <= i < g.flow_links.len() ==> #[trigger] g.flow_links[i].id < g.next_id
}

proof fn lemma_below_after_undo(g: GraphV, c: CommandV)
    requires
        ids_below(g),
        command_below(c, g.next_id),
        undo_ok(g.nodes.len(), g.timelines.dom(), c),
    ensures
        ids_below(undo_apply(g, c)),
{
    let a = undo_apply(g, c);
    match c {
        CommandV::AddNodeConversation(..) => {
            assert forall|i: int| 0 <= i < a.nodes.len() implies #[trigger] a.nodes[i].id()
                < g.next_id by {
                assert(a.nodes[i] == g.nodes[i]);
            }
        },
        CommandV::AddNodeChoicer(..) => {
            assert forall|i: int| 0 <= i < a.nodes.len() implies #[trigger] a.nodes[i].id()
                < g.next_id by {
                assert(a.nodes[i] == g.nodes[i]);
            }
        },
        CommandV::AddLink { link, replaced } => {
            lemma_filter_ids_below(g.links, id_is_not(link.id), g.next_id);
            assert(a.nodes == g.nodes);
        },
        CommandV::AddFlowLink { link, replaced } => {
            lemma_filter_ids_below(g.flow_links, id_is_not(link.id), g.next_id);
            assert(a.nodes == g.nodes);
        },
        CommandV::RemoveNode { index, node, flow_links, links, timeline } => {
            assert forall|i: int| 0 <= i < a.links.len() implies #[trigger] a.links[i].id
                < g.next_id by {
                if i >= g.links.len() {
                    assert(a.links[i] == links[i - g.links.len()]);
                }
            }
            assert forall|i: int| 0 <= i < a.flow_links.len() implies #[trigger] a.flow_links[i].id
                < g.next_id by {
                if i >= g.flow_links.len() {
                    assert(a.flow_links[i] == flow_links[i - g.flow_links.len()]);
                }
            }
            assert forall|i: int| 0 <= i < a.nodes.len() implies #[trigger] a.nodes[i].id()
                < g.next_id by {
                if i < index {
                    assert(a.nodes[i] == g.nodes[i]);
                } else if i > index {
                    assert(a.nodes[i] == g.nodes[i - 1]);
                }
            }
        },
        CommandV::RemoveLink { index, link } => {
            assert forall|i: int| 0 <= i < a.links.len() implies #[trigger] a.links[i].id
                < g.next_id by {
                let k = clamp(index, g.links.len());
                if i < k {
                    assert(a.links[i] == g.links[i]);
                } else if i > k {
                    assert(a.links[i] == g.links[i - 1]);
                }
            }
            assert(a.nodes == g.nodes);
        },
        CommandV::RemoveFlowLink { index, link } => {
            assert forall|i: int| 0 <= i < a.flow_links.len() implies #[trigger] a.flow_links[i].id
                < g.next_id by {
                let k = clamp(index, g.flow_links.len());
                if i < k {
                    assert(a.flow_links[i] == g.flow_links[i]);
                } else if i > k {
                    assert(a.flow_links[i] == g.flow_links[i - 1]);
                }
            }
            assert(a.nodes == g.nodes);
        },
    }
}

pub proof fn lemma_undo_keeps_wf(g: GraphV)
    requires
        graph_wf(g),
    ensures
        graph_wf(undo_spec(g)),
{
    if g.done.len() > 0 {
        let c = g.done.last();
        let h = GraphV { done: g.done.drop_last(), undone: g.undone.push(c), ..g };
        let a = undo_apply(h, c);
        let len = g.nodes.len();
        let dom = g.timelines.dom();
        assert(command_below(g.done[g.done.len() - 1], g.next_id));
        assert(undo_ok(len, dom, c));
        assert(a.nodes.len() == undo_len(len, c));
        assert(a.timelines.dom() =~= undo_dom(dom, c));
        lemma_undo_then_redo_shape(len, dom, c);
        assert(a.undone.drop_last() =~= g.undone);
        assert(undone_ok(a.nodes.len(), a.timelines.dom(), a.undone));
        assert(h.done =~= g.done.drop_last());
        assert forall|i: int| 0 <= i < a.done.len() implies command_below(
            #[trigger] a.done[i],
            a.next_id,
        ) by {
            assert(a.done[i] == g.done[i]);
        }
        assert forall|i: int| 0 <= i < a.undone.len() implies command_below(
            #[trigger] a.undone[i],
            a.next_id,
        ) by {
            if i < g.undone.len() {
                assert(a.undone[i] == g.undone[i]);
            }
        }
        lemma_below_after_undo(h, c);
        lemma_undo_links_wf(g);
        let q = node_ids(g.nodes);
        assert(g.done[g.done.len() - 1] == c);
        lemma_nodes_undo_redo(q, c);
        assert(node_ids(a.nodes) =~= nodes_undo(q, c));
        assert(nodes_undone_ok(node_ids(a.nodes), a.undone));
    }
}

proof fn lemma_below_after_redo(g: GraphV, c: CommandV)
    requires
        ids_below(g),
        command_below(c, g.next_id),
        redo_ok(g.nodes.len(), g.timelines.dom(), c),
    ensures
        ids_below(redo_apply(g, c)),
{
    let a = redo_apply(g, c);
    match c {
        CommandV::AddNodeConversation(..) => {
            assert forall|i: int| 0 <= i < a.nodes.len() implies #[trigger] a.nodes[i].id()
                < g.next_id by {
                if i < g.nodes.len() {
                    assert(a.nodes[i] == g.nodes[i]);
                }
            }
        },
        CommandV::AddNodeChoicer(..) => {
            assert forall|i: int| 0 <= i < a.nodes.len() implies #[trigger] a.nodes[i].id()
                < g.next_id by {
                if i < g.nodes.len() {
                    assert(a.nodes[i] == g.nodes[i]);
                }
            }
        },
        CommandV::RemoveNode { index, node, flow_links, links, timeline } => {
            lemma_filter_ids_below(g.links, joins_none_of(links), g.next_id);
            lemma_filter_ids_below(g.flow_links, joins_none_of(flow_links), g.next_id);
            assert forall|i: int| 0 <= i < a.nodes.len() implies #[trigger] a.nodes[i].id()
                < g.next_id by {
                if i < index {
                    assert(a.nodes[i] == g.nodes[i]);
                } else {
                    assert(a.nodes[i] == g.nodes[i + 1]);
                }
            }
        },
        CommandV::AddLink { link, replaced } => {
            let base = match replaced {
                Some(r) => without_id(g.links, r.id),
                None => g.links,
            };
            if let Some(r) = replaced {
                lemma_filter_ids_below(g.links, id_is_not(r.id), g.next_id);
            }
            assert forall|i: int| 0 <= i < a.links.len() implies #[trigger] a.links[i].id
                < g.next_id by {
                if i < base.len() {
                    assert(a.links[i] == base[i]);
                }
            }
            assert(a.nodes == g.nodes);
        },
        CommandV::AddFlowLink { link, replaced } => {
            let base = match replaced {
                Some(r) => without_id(g.flow_links, r.id),
                None => g.flow_links,
            };
            if let Some(r) = replaced {
                lemma_filter_ids_below(g.flow_links, id_is_not(r.id), g.next_id);
            }
            assert forall|i: int| 0 <= i < a.flow_links.len() implies #[trigger] a.flow_links[i].id
                < g.next_id by {
                if i < base.len() {
                    assert(a.flow_links[i] == base[i]);
                }
            }
            assert(a.nodes == g.nodes);
        },
        CommandV::RemoveLink { link, .. } => {
            lemma_filter_ids_below(g.links, id_is_not(link.id), g.next_id);
            assert(a.nodes == g.nodes);
        },
        CommandV::RemoveFlowLink { link, .. } => {
            lemma_filter_ids_below(g.flow_links, id_is_not(link.id), g.next_id);
            assert(a.nodes == g.nodes);
        },
    }
}

pub proof fn lemma_redo_keeps_wf(g: GraphV)
    requires
        graph_wf(g),
    ensures
        graph_wf(redo_spec(g)),
{
    if g.undone.len() > 0 {
        let c = g.undone.last();
        let h = GraphV { undone: g.undone.drop_last(), done: g.done.push(c), ..g };
        let a = redo_apply(h, c);
        let len = g.nodes.len();
        let dom = g.timelines.dom();
        assert(command_below(g.undone[g.undone.len() - 1], g.next_id));
        assert(redo_ok(len, dom, c));
        assert(a.nodes.len() == redo_len(len, c));
        assert(a.timelines.dom() =~= redo_dom(dom, c));
        lemma_redo_then_undo_shape(len, dom, c);
        assert(a.done.drop_last() =~= g.done);
        assert(done_ok(a.nodes.len(), a.timelines.dom(), a.done));
        assert forall|i: int| 0 <= i < a.undone.len() implies command_below(
            #[trigger] a.undone[i],
            a.next_id,
        ) by {
            assert(a.undone[i] == g.undone[i]);
        }
        assert forall|i: int| 0 <= i < a.done.len() implies command_below(
            #[trigger] a.done[i],
            a.next_id,
        ) by {
            if i < g.done.len() {
                assert(a.done[i] == g.done[i]);
            }
        }
        lemma_below_after_redo(h, c);
        lemma_redo_links_wf(g);
        let q = node_ids(g.nodes);
        lemma_nodes_redo_undo(q, c);
        assert(node_ids(a.nodes) =~= nodes_redo(q, c));
        assert(nodes_done_ok(node_ids(a.nodes), a.done));
    }
}

// ------------------------------------------------------------------------
// Link lists
proof fn lemma_filter_step<A>(s: Seq<A>, i: int, p: spec_fn(A) -> bool)
    requires
        0 <= i < s.len(),
    ensures
        s.subrange(0, i + 1).filter(p) == if p(s[i]) {
            s.subrange(0, i).filter(p).push(s[i])
        } else {
            s.subrange(0, i).filter(p)
        },
{
    assert(s.subrange(0, i + 1) =~= s.subrange(0, i).push(s[i]));
    s.subrange(0, i).lemma_filter_push(s[i], p);
}

fn pins_contain(pins: &Vec<usize>, p: usize) -> (r: bool)
    ensures
        r == pins@.contains(p),
{
    let mut i: usize = 0;
    while i < pins.len()
        invariant
            i <= pins@.len(),
            forall|j: int| 0 <= j < i ==> pins@[j] != p,
        decreases pins@.len() - i,
    {
        if pins[i] == p {
            return true;
        }
        i = i + 1;
    }
    false
}

fn links_without_id(v: &Vec<Link>, id: usize) -> (r: Vec<Link>)
    ensures
        r@ == without_id(v@, id),
{
    let mut r: Vec<Link> = Vec::new();
    let mut i: usize = 0;
    while i < v.len()
        invariant
            i <= v@.len(),
            r@ == v@.subrange(0, i as int).filter(id_is_not(id)),
        decreases v@.len() - i,
    {
        proof {
            lemma_filter_step(v@, i as int, id_is_not(id));
        }
        if v[i].id != id {
            r.push(v[i]);
        }
        i = i + 1;
    }
    proof {
        assert(v@.subrange(0, v@.len() as int) =~= v@);
    }
    r
}

fn links_off_pin(v: &Vec<Link>, pin: usize) -> (r: Vec<Link>)
    ensures
        r@ == off_pin(v@, pin),
{
    let mut r: Vec<Link> = Vec::new();
    let mut i: usize = 0;
    while i < v.len()
        invariant
            i <= v@.len(),
            r@ == v@.subrange(0, i as int).filter(avoids_pin(pin)),
        decreases v@.len() - i,
    {
        proof {
            lemma_filter_step(v@, i as int, avoids_pin(pin));
        }
        if v[i].from != pin && v[i].to != pin {
            r.push(v[i]);
        }
        i = i + 1;
    }
    proof {
        assert(v@.subrange(0, v@.len() as int) =~= v@);
    }
    r
}

/// The links that touch none of `pins` and those that touch one of them.
fn split_links(v: &Vec<Link>, pins: &Vec<usize>) -> (r: (Vec<Link>, Vec<Link>))
    ensures
        r.0@ == untouched(v@, pins@),
        r.1@ == touching(v@, pins@),
{
    let mut keep: Vec<Link> = Vec::new();
    let mut removed: Vec<Link> = Vec::new();
    let mut i: usize = 0;
    while i < v.len()
        invariant
            i <= v@.len(),
            keep@ == v@.subrange(0, i as int).filter(touches_none(pins@)),
            removed@ == v@.subrange(0, i as int).filter(touches_some(pins@)),
        decreases v@.len() - i,
    {
        proof {
            lemma_filter_step(v@, i as int, touches_none(pins@));
            lemma_filter_step(v@, i as int, touches_some(pins@));
        }
        let l = v[i];
        if pins_contain(pins, l.from) || pins_contain(pins, l.to) {
            removed.push(l);
        } else {
            keep.push(l);
        }
        i = i + 1;
    }
    proof {
        assert(v@.subrange(0, v@.len() as int) =~= v@);
    }
    (keep, removed)
}

fn joins_one_of(removed: &Vec<Link>, l: Link) -> (r: bool)
    ensures
        r == !joins_none_of(removed@)(l),
{
    let mut k: usize = 0;
    while k < removed.len()
        invariant
            k <= removed@.len(),
            forall|j: int| 0 <= j < k ==> !(#[trigger] removed@[j].from == l.from && removed@[j].to == l.to),
        decreases removed@.len() - k,
    {
        if removed[k].from == l.from && removed[k].to == l.to {
            return true;
        }
        k = k + 1;
    }
    false
}

fn links_not_joining(v: &Vec<Link>, removed: &Vec<Link>) -> (r: Vec<Link>)
    ensures
        r@ == not_joining(v@, removed@),
{
    let mut r: Vec<Link> = Vec::new();
    let mut i: usize = 0;
    while i < v.len()
        invariant
            i <= v@.len(),
            r@ == v@.subrange(0, i as int).filter(joins_none_of(removed@)),
        decreases v@.len() - i,
    {
        proof {
            lemma_filter_step(v@, i as int, joins_none_of(removed@));
        }
        if !joins_one_of(removed, v[i]) {
            r.push(v[i]);
        }
        i = i + 1;
    }
    proof {
        assert(v@.subrange(0, v@.len() as int) =~= v@);
    }
    r
}

// ------------------------------------------------------------------------
// Views of the graph's parts under the vector and map operations
proof fn lemma_nodes_push(v: Seq<Node>, n: Node)
    ensures
        nodes_view(v.push(n)) == nodes_view(v).push(n@),
{
    assert(nodes_view(v.push(n)) =~= nodes_view(v).push(n@));
}

proof fn lemma_nodes_insert(v: Seq<Node>, i: int, n: Node)
    requires
        0 <= i <= v.len(),
    ensures
        nodes_view(v.insert(i, n)) == nodes_view(v).insert(i, n@),
{
    assert(nodes_view(v.insert(i, n)) =~= nodes_view(v).insert(i, n@));
}

proof fn lemma_nodes_remove(v: Seq<Node>, i: int)
    requires
        0 <= i < v.len(),
    ensures
        nodes_view(v.remove(i)) == nodes_view(v).remove(i),
{
    assert(nodes_view(v.remove(i)) =~= nodes_view(v).remove(i));
}

proof fn lemma_nodes_update(v: Seq<Node>, i: int, n: Node)
    requires
        0 <= i < v.len(),
    ensures
        nodes_view(v.update(i, n)) == nodes_view(v).update(i, n@),
{
    assert(nodes_view(v.update(i, n)) =~= nodes_view(v).update(i, n@));
}

proof fn lemma_timelines_insert(m: Map<usize, Timeline>, k: usize, t: Timeline)
    ensures
        timelines_view(m.insert(k, t)) == timelines_view(m).insert(k, t@),
{
    assert(timelines_view(m.insert(k, t)) =~= timelines_view(m).insert(k, t@));
}

proof fn lemma_timelines_insert_any()
    ensures
        forall|m: Map<usize, Timeline>, k: usize, t: Timeline|
            #[trigger] timelines_view(m.insert(k, t)) == timelines_view(m).insert(k, t@),
{
    assert forall|m: Map<usize, Timeline>, k: usize, t: Timeline|
        #[trigger] timelines_view(m.insert(k, t)) == timelines_view(m).insert(k, t@) by {
        lemma_timelines_insert(m, k, t);
    }
}

proof fn lemma_timelines_remove(m: Map<usize, Timeline>, k: usize)
    ensures
        timelines_view(m.remove(k)) == timelines_view(m).remove(k),
{
    assert(timelines_view(m.remove(k)) =~= timelines_view(m).remove(k));
}

// ------------------------------------------------------------------------
// Editing the graph
impl Graph {
    /// Reverts the newest done edit and moves it to the undone stack; does
    /// nothing when no edit is done.
    pub fn undo(&mut self)
        requires
            graph_wf(old(self)@),
        ensures
            final(self)@ == undo_spec(old(self)@),
            graph_wf(final(self)@),
    {
        let ghost g = self@;
        proof {
            lemma_undo_keeps_wf(g);
        }
        let cmd = match history_undo(&mut self.history) {
            Some(c) => c,
            None => {
                return ;
            },
        };
        let ghost c = cmd@;
        let ghost h = GraphV { done: g.done.drop_last(), undone: g.undone.push(c), ..g };
        assert(self@ == h);
        assert(undo_ok(g.nodes.len(), g.timelines.dom(), c));
        match cmd {
            Command::AddNodeConversation(node, _) => {
                let id = node.id();
                let ghost before = self.timelines@;
                let _ = self.timelines.remove(&id);
                let _ = self.nodes.pop();
                proof {
                    lemma_timelines_remove(before, id);
                    assert(nodes_view(self.nodes@) =~= pop_node(g.nodes));
                }
            },
            Command::AddNodeChoicer(_) => {
                let _ = self.nodes.pop();
                proof {
                    assert(nodes_view(self.nodes@) =~= pop_node(g.nodes));
                }
            },
            Command::RemoveNode { index, node, mut flow_links, mut links, timeline } => {
                let id = node.id();
                match timeline {
                    Some(t) => {
                        let ghost before = self.timelines@;
                        let _ = self.timelines.insert(id, t);
                        proof {
                            lemma_timelines_insert(before, id, t);
                        }
                    },
                    None => {},
                }
                let ghost before = self.nodes@;
                self.nodes.insert(index, node);
                proof {
                    lemma_nodes_insert(before, index as int, node);
                }
                self.links.append(&mut links);
                self.flow_links.append(&mut flow_links);
            },
            Command::AddLink { link, replaced } => {
                self.links = links_without_id(&self.links, link.id);
                if let Some(r) = replaced {
                    self.links.push(r);
                }
            },
            Command::AddFlowLink { link, replaced } => {
                self.flow_links = links_without_id(&self.flow_links, link.id);
                if let Some(r) = replaced {
                    self.flow_links.push(r);
                }
            },
            Command::RemoveLink { index, link } => {
                let i = if index <= self.links.len() {
                    index
                } else {
                    self.links.len()
                };
                self.links.insert(i, link);
            },
            Command::RemoveFlowLink { index, link } => {
                let i = if index <= self.flow_links.len() {
                    index
                } else {
                    self.flow_links.len()
                };
                self.flow_links.insert(i, link);
            },
        }
        assert(self@ =~= undo_apply(h, c));
    }

    /// Does again the newest undone edit and moves it back to the done
    /// stack; does nothing when no edit is undone.
    pub fn redo(&mut self)
        requires
            graph_wf(old(self)@),
        ensures
            final(self)@ == redo_spec(old(self)@),
            graph_wf(final(self)@),
    {
        let ghost g = self@;
        proof {
            lemma_redo_keeps_wf(g);
        }
        let cmd = match history_redo(&mut self.history) {
            Some(c) => c,
            None => {
                return ;
            },
        };
        let ghost c = cmd@;
        let ghost h = GraphV { undone: g.undone.drop_last(), done: g.done.push(c), ..g };
        assert(self@ == h);
        assert(redo_ok(g.nodes.len(), g.timelines.dom(), c));
        match cmd {
            Command::AddNodeConversation(node, timeline) => {
                let ghost before = self.timelines@;
                let _ = self.timelines.insert(node.id(), timeline);
                proof {
                    lemma_timelines_insert(before, node@.id(), timeline);
                }
                let ghost nb = self.nodes@;
                self.nodes.push(node);
                proof {
                    lemma_nodes_push(nb, node);
                }
            },
            Command::AddNodeChoicer(node) => {
                let ghost nb = self.nodes@;
                self.nodes.push(node);
                proof {
                    lemma_nodes_push(nb, node);
                }
            },
            Command::RemoveNode { index, node, flow_links, links, timeline } => {
                if timeline.is_some() {
                    let ghost before = self.timelines@;
                    let _ = self.timelines.remove(&node.id());
                    proof {
                        lemma_timelines_remove(before, node@.id());
                    }
                }
                let ghost nb = self.nodes@;
                let _ = self.nodes.remove(index);
                proof {
                    lemma_nodes_remove(nb, index as int);
                }
                self.links = links_not_joining(&self.links, &links);
                self.flow_links = links_not_joining(&self.flow_links, &flow_links);
            },
            Command::AddLink { link, replaced } => {
                if let Some(r) = replaced {
                    self.links = links_without_id(&self.links, r.id);
                }
                self.links.push(link);
            },
            Command::AddFlowLink { link, replaced } => {
                if let Some(r) = replaced {
                    self.flow_links = links_without_id(&self.flow_links, r.id);
                }
                self.flow_links.push(link);
            },
            Command::RemoveLink { link, .. } => {
                self.links = links_without_id(&self.links, link.id);
            },
            Command::RemoveFlowLink { link, .. } => {
                self.flow_links = links_without_id(&self.flow_links, link.id);
            },
        }
        assert(self@ =~= redo_apply(h, c));
    }
}

// ------------------------------------------------------------------------
// The edits
/// `add_conversation`: a conversation node with the next three ids (node,
/// input pin, output pin) and an empty timeline, recorded in the history.
pub open spec fn add_conversation_spec(g: GraphV, name: Seq<char>) -> GraphV {
    let id = g.next_id;
    let node = NodeV::Conversation {
        id,
        name,
        input: (id + 1) as usize,
        output: (id + 2) as usize,
    };
    GraphV {
        nodes: g.nodes.push(node),
        timelines: g.timelines.insert(id, empty_timeline()),
        next_id: (id + 3) as usize,
        done: g.done.push(CommandV::AddNodeConversation(node, empty_timeline())),
        undone: seq![],
        ..g
    }
}

/// `add_choicer`: a choicer node with the next two ids (node, input pin)
/// and no options, recorded in the history.
pub open spec fn add_choicer_spec(g: GraphV, name: Seq<char>) -> GraphV {
    let id = g.next_id;
    let node = NodeV::Choicer {
        id,
        name,
        options: seq![],
        input: (id + 1) as usize,
        outputs: seq![],
    };
    GraphV {
        nodes: g.nodes.push(node),
        next_id: (id + 2) as usize,
        done: g.done.push(CommandV::AddNodeChoicer(node)),
        undone: seq![],
        ..g
    }
}

/// `delete_node`: the node at `index` leaves with its timeline and every
/// link and flow link that touches one of its pins, recorded in the
/// history.
pub open spec fn delete_node_spec(g: GraphV, index: usize) -> GraphV {
    let n = g.nodes[index as int];
    let pins = n.pins();
    let timeline = if g.timelines.contains_key(n.id()) {
        Some(g.timelines[n.id()])
    } else {
        None
    };
    GraphV {
        timelines: g.timelines.remove(n.id()),
        links: untouched(g.links, pins),
        flow_links: untouched(g.flow_links, pins),
        nodes: g.nodes.remove(index as int),
        done: g.done.push(
            CommandV::RemoveNode {
                index,
                node: n,
                flow_links: touching(g.flow_links, pins),
                links: touching(g.links, pins),
                timeline,
            },
        ),
        undone: seq![],
        ..g
    }
}

/// Whether `pin` is an output pin (`true`) or an input pin (`false`) of
/// the first node that has it.
pub open spec fn pin_kind(nodes: Seq<NodeV>, pin: usize) -> Option<bool> {
    match first_index(nodes, has_pin(pin)) {
        Some(i) => Some(nodes[i].input() != pin),
        None => None,
    }
}

/// The two pins of a dragged link as (output, input), in either order;
/// `None` when they are not one output and one input pin of the graph.
pub open spec fn normalize_spec(nodes: Seq<NodeV>, a: usize, b: usize) -> Option<(usize, usize)> {
    match (pin_kind(nodes, a), pin_kind(nodes, b)) {
        (Some(true), Some(false)) => Some((a, b)),
        (Some(false), Some(true)) => Some((b, a)),
        _ => None,
    }
}

/// The links after adding `link`: the first link from the same output pin
/// leaves, and is returned.
pub open spec fn replace_from(links: Seq<Link>, link: Link) -> (Seq<Link>, Option<Link>) {
    match first_index(links, link_from(link.from)) {
        Some(i) => (links.remove(i).push(link), Some(links[i])),
        None => (links.push(link), None),
    }
}

/// `connect`: a link, or a flow link while flow links are edited, from the
/// output pin to the input pin of the two, with the next id; an output pin
/// keeps one link of each kind, so the one it had is replaced. Recorded in
/// the history. Two pins that are not an output and an input change
/// nothing.
pub open spec fn connect_spec(g: GraphV, a: usize, b: usize) -> GraphV {
    match normalize_spec(g.nodes, a, b) {
        None => g,
        Some((from, to)) => {
            let link = Link { id: g.next_id, from, to };
            if g.flow_link_editing {
                let (rest, replaced) = replace_from(g.flow_links, link);
                GraphV {
                    flow_links: rest,
                    next_id: (g.next_id + 1) as usize,
                    done: g.done.push(CommandV::AddFlowLink { link, replaced }),
                    undone: seq![],
                    ..g
                }
            } else {
                let (rest, replaced) = replace_from(g.links, link);
                GraphV {
                    links: rest,
                    next_id: (g.next_id + 1) as usize,
                    done: g.done.push(CommandV::AddLink { link, replaced }),
                    undone: seq![],
                    ..g
                }
            }
        },
    }
}

/// `disconnect`: the first link, or flow link while flow links are edited,
/// with id `link_id` leaves, recorded in the history; without one nothing
/// changes.
pub open spec fn disconnect_spec(g: GraphV, link_id: usize) -> GraphV {
    if g.flow_link_editing {
        match first_index(g.flow_links, link_with_id(link_id)) {
            Some(i) => GraphV {
                flow_links: g.flow_links.remove(i),
                done: g.done.push(
                    CommandV::RemoveFlowLink { index: i as usize, link: g.flow_links[i] },
                ),
                undone: seq![],
                ..g
            },
            None => g,
        }
    } else {
        match first_index(g.links, link_with_id(link_id)) {
            Some(i) => GraphV {
                links: g.links.remove(i),
                done: g.done.push(CommandV::RemoveLink { index: i as usize, link: g.links[i] }),
                undone: seq![],
                ..g
            },
            None => g,
        }
    }
}

/// `add_choicer_option`: the next id becomes an output pin, added with the
/// label to the first node with id `node_id` when it is a choicer. Not
/// recorded in the history.
pub open spec fn add_choicer_option_spec(g: GraphV, node_id: usize, label: Seq<char>) -> GraphV {
    let pin = g.next_id;
    let g1 = GraphV { next_id: (pin + 1) as usize, ..g };
    match first_index(g.nodes, has_id(node_id)) {
        Some(i) => match g.nodes[i] {
            NodeV::Choicer { id, name, options, input, outputs } => GraphV {
                nodes: g.nodes.update(
                    i,
                    NodeV::Choicer {
                        id,
                        name,
                        options: options.push(label),
                        input,
                        outputs: outputs.push(pin),
                    },
                ),
                ..g1
            },
            _ => g1,
        },
        None => g1,
    }
}

/// The option `idx` of the first node with id `node_id` exists when that
/// node is a choicer.
pub open spec fn option_exists(g: GraphV, node_id: usize, idx: int) -> bool {
    match first_index(g.nodes, has_id(node_id)) {
        Some(i) => match g.nodes[i] {
            NodeV::Choicer { options, outputs, .. } => 0 <= idx < outputs.len() && idx
                < options.len(),
            _ => true,
        },
        None => true,
    }
}

/// `remove_choicer_option`: the option `idx` of the first node with id
/// `node_id`, when it is a choicer, leaves with its output pin and the
/// links, or flow links while flow links are edited, that touch the pin.
/// Not recorded in the history.
pub open spec fn remove_choicer_option_spec(g: GraphV, node_id: usize, idx: int) -> GraphV {
    match first_index(g.nodes, has_id(node_id)) {
        Some(i) => match g.nodes[i] {
            NodeV::Choicer { id, name, options, input, outputs } => {
                let pin = outputs[idx];
                let nodes = g.nodes.update(
                    i,
                    NodeV::Choicer {
                        id,
                        name,
                        options: options.remove(idx),
                        input,
                        outputs: outputs.remove(idx),
                    },
                );
                if g.flow_link_editing {
                    GraphV { nodes, flow_links: off_pin(g.flow_links, pin), ..g }
                } else {
                    GraphV { nodes, links: off_pin(g.links, pin), ..g }
                }
            },
            _ => g,
        },
        None => g,
    }
}

proof fn lemma_command_below_mono(c: CommandV, n: usize, m: usize)
    requires
        command_below(c, n),
        n <= m,
    ensures
        command_below(c, m),
{
}


// ------------------------------------------------------------------------
// Link ids under each edit
/// Every link of a kind in the graph or its history has an id below the
/// next one.
proof fn lemma_in_kind_below(g: GraphV, flow: bool)
    requires
        graph_wf(g),
    ensures
        forall|x: Link| #[trigger] in_kind(g, flow, x) ==> x.id < g.next_id,
{
    assert forall|x: Link| #[trigger] in_kind(g, flow, x) implies x.id < g.next_id by {
        let s = kind_links(g, flow);
        if s.contains(x) {
            let i = choose|i: int| 0 <= i < s.len() && s[i] == x;
            assert(s[i].id < g.next_id);
        } else if exists|i: int|
            0 <= i < g.done.len() && edit_has(link_edit(#[trigger] g.done[i], flow), x) {
            let i = choose|i: int|
                0 <= i < g.done.len() && edit_has(link_edit(#[trigger] g.done[i], flow), x);
            assert(command_below(g.done[i], g.next_id));
            lemma_edit_below(g.done[i], flow, g.next_id);
        } else {
            let i = choose|i: int|
                0 <= i < g.undone.len() && edit_has(link_edit(#[trigger] g.undone[i], flow), x);
            assert(command_below(g.undone[i], g.next_id));
            lemma_edit_below(g.undone[i], flow, g.next_id);
        }
    }
}

/// An edit that records `c`, which touches no link of a kind, and keeps
/// those links keeps them apart.
proof fn lemma_kind_recorded_other(g: GraphV, a: GraphV, c: CommandV, flow: bool)
    requires
        graph_wf(g),
        kind_links(a, flow) == kind_links(g, flow),
        a.done == g.done.push(c),
        a.undone == Seq::<CommandV>::empty(),
        g.next_id <= a.next_id,
        link_edit(c, flow) == LinkEdit::Other,
    ensures
        exists|u: Set<usize>| #[trigger] kind_wf(a, u, flow),
{
    let u = choose|u: Set<usize>| #[trigger] kind_wf(g, u, flow);
    lemma_in_kind_below(g, flow);
    lemma_in_kind_push(g, a, c, flow);
    lemma_recorded_kind(g, u, a, c, flow, u);
}

/// An edit that leaves the history alone and keeps some of the links of
/// each kind keeps them apart.
proof fn lemma_links_unrecorded(g: GraphV, a: GraphV)
    requires
        graph_wf(g),
        a.done == g.done,
        a.undone == g.undone,
        g.next_id <= a.next_id,
        forall|x: Link| a.links.contains(x) ==> g.links.contains(x),
        forall|x: Link| a.flow_links.contains(x) ==> g.flow_links.contains(x),
        distinct_link_ids(a.links),
        distinct_link_ids(a.flow_links),
    ensures
        links_wf(a),
{
    let u = choose|u: Set<usize>| #[trigger] kind_wf(g, u, false);
    let v = choose|v: Set<usize>| #[trigger] kind_wf(g, v, true);
    lemma_unrecorded_kind(g, u, a, false);
    lemma_unrecorded_kind(g, v, a, true);
}

/// Dropping the links that touch a node's pins keeps each kind apart.
proof fn lemma_kind_delete(g: GraphV, index: usize, flow: bool)
    requires
        graph_wf(g),
        index < g.nodes.len(),
    ensures
        exists|u: Set<usize>| #[trigger] kind_wf(delete_node_spec(g, index), u, flow),
{
    let a = delete_node_spec(g, index);
    let n = g.nodes[index as int];
    let pins = n.pins();
    let c = a.done.last();
    let s = kind_links(g, flow);
    let t = touching(s, pins);
    let w = untouched(s, pins);
    let u = choose|u: Set<usize>| #[trigger] kind_wf(g, u, flow);
    let u2 = u - link_ids(t);
    assert(link_edit(c, flow) == LinkEdit::Bulk(t));
    assert(kind_links(a, flow) == w);
    lemma_filter_links::<Link>(s, touches_some(pins));
    lemma_filter_links::<Link>(s, touches_none(pins));
    assert forall|k: usize| link_ids(w).contains(k) implies u2.contains(k) by {
        let i = choose|i: int| 0 <= i < w.len() && #[trigger] w[i].id == k;
        assert(w.contains(w[i]));
        assert(link_ids(s).contains(k));
        if link_ids(t).contains(k) {
            let j = choose|j: int| 0 <= j < t.len() && #[trigger] t[j].id == k;
            assert(t.contains(t[j]));
            lemma_distinct_same(s, w[i], t[j]);
            assert(touches_none(pins)(w[i]));
            assert(touches_some(pins)(t[j]));
        }
    }
    assert(link_ids(t).disjoint(u2));
    assert(u2 + link_ids(t) =~= u);
    lemma_in_kind_below(g, flow);
    lemma_in_kind_push(g, a, c, flow);
    assert forall|x: Link| in_kind(a, flow, x) implies in_kind(g, flow, x) by {
        if w.contains(x) {
            assert(s.contains(x));
        } else if edit_has(link_edit(c, flow), x) {
            assert(t.contains(x));
            assert(s.contains(x));
        }
    }
    lemma_recorded_kind(g, u, a, c, flow, u2);
}

/// Removing the link at `i` of a kind, recorded, keeps that kind apart.
proof fn lemma_kind_disconnect(g: GraphV, link_id: usize)
    requires
        graph_wf(g),
        first_index(kind_links(g, g.flow_link_editing), link_with_id(link_id)) is Some,
    ensures
        exists|u: Set<usize>|
            #[trigger] kind_wf(disconnect_spec(g, link_id), u, g.flow_link_editing),
{
    let flow = g.flow_link_editing;
    let a = disconnect_spec(g, link_id);
    let s = kind_links(g, flow);
    lemma_first_index(s, link_with_id(link_id));
    let i = first_index(s, link_with_id(link_id)).unwrap();
    let c = a.done.last();
    let l = s[i];
    let u = choose|u: Set<usize>| #[trigger] kind_wf(g, u, flow);
    let u2 = u.remove(l.id);
    assert(link_edit(c, flow) == LinkEdit::Remove(i as usize, l));
    assert(kind_links(a, flow) == s.remove(i));
    lemma_remove_link(s, i);
    assert(link_ids(s).contains(l.id));
    assert(u2.insert(l.id) =~= u);
    lemma_in_kind_below(g, flow);
    lemma_in_kind_push(g, a, c, flow);
    assert forall|x: Link| in_kind(a, flow, x) implies in_kind(g, flow, x) by {
        if s.remove(i).contains(x) {
            assert(s.contains(x));
        } else if edit_has(link_edit(c, flow), x) {
            assert(s.contains(l));
        }
    }
    lemma_recorded_kind(g, u, a, c, flow, u2);
}

/// A new link, in place of the one that left its output pin, keeps its
/// kind apart.
proof fn lemma_kind_connect(g: GraphV, x: usize, y: usize)
    requires
        graph_wf(g),
        g.next_id < usize::MAX,
        normalize_spec(g.nodes, x, y) is Some,
    ensures
        exists|u: Set<usize>| #[trigger] kind_wf(connect_spec(g, x, y), u, g.flow_link_editing),
{
    let flow = g.flow_link_editing;
    let a = connect_spec(g, x, y);
    let (from, to) = normalize_spec(g.nodes, x, y).unwrap();
    let l = Link { id: g.next_id, from, to };
    let s = kind_links(g, flow);
    let (rest, r) = replace_from(s, l);
    let c = a.done.last();
    let u = choose|u: Set<usize>| #[trigger] kind_wf(g, u, flow);
    let base = match r {
        Some(r) => u.remove(r.id),
        None => u,
    };
    let u2 = base.insert(l.id);
    assert(link_edit(c, flow) == LinkEdit::Add(l, r));
    assert(kind_links(a, flow) == rest);
    lemma_in_kind_below(g, flow);
    assert(!u.contains(l.id));
    lemma_first_index(s, link_from(l.from));
    let kept = match first_index(s, link_from(l.from)) {
        Some(i) => s.remove(i),
        None => s,
    };
    match first_index(s, link_from(l.from)) {
        Some(i) => {
            lemma_remove_link(s, i);
            assert(link_ids(s).contains(s[i].id));
            assert(s.contains(s[i]));
            assert(in_kind(g, flow, s[i]));
            assert(base.insert(r.unwrap().id) =~= u);
        },
        None => {},
    }
    assert(link_ids(kept).subset_of(base));
    assert(!link_ids(kept).contains(l.id));
    crate::editor::link_history::lemma_push_link(kept, l);
    assert(rest == kept.push(l));
    assert(u2.remove(l.id) =~= base);
    assert forall|k: usize| u2.contains(k) implies k < a.next_id by {}
    lemma_in_kind_push(g, a, c, flow);
    assert forall|z: Link| in_kind(a, flow, z) implies in_kind(g, flow, z) || z.id == g.next_id by {
        if rest.contains(z) {
            let j = choose|j: int| 0 <= j < rest.len() && rest[j] == z;
            if j < kept.len() {
                assert(kept.contains(z));
                assert(s.contains(z));
            }
        } else if edit_has(link_edit(c, flow), z) {
            if z != l {
                assert(s.contains(z));
            }
        }
    }
    assert forall|p: Link, q: Link|
        in_kind(a, flow, p) && in_kind(a, flow, q) && p.id == g.next_id && q.id == g.next_id
            implies p == q by {
        assert forall|z: Link| in_kind(a, flow, z) && z.id == g.next_id implies z == l by {
            if rest.contains(z) {
                let j = choose|j: int| 0 <= j < rest.len() && rest[j] == z;
                if j < kept.len() {
                    assert(kept.contains(z));
                    assert(s.contains(z));
                    assert(in_kind(g, flow, z));
                }
            } else if edit_has(link_edit(c, flow), z) {
                if z != l {
                    assert(s.contains(z));
                    assert(in_kind(g, flow, z));
                }
            } else {
                assert(in_kind(g, flow, z));
            }
        }
    }
    lemma_recorded_kind(g, u, a, c, flow, u2);
}


/// An edit that keeps the links, the history and the next id keeps the
/// links of each kind apart.
proof fn lemma_links_same(g: GraphV)
    requires
        links_wf(g),
    ensures
        forall|a: GraphV|
            a.links == g.links && a.flow_links == g.flow_links && a.done == g.done && a.undone
                == g.undone && a.next_id == g.next_id ==> #[trigger] links_wf(a),
{
    let u = choose|u: Set<usize>| #[trigger] kind_wf(g, u, false);
    let v = choose|v: Set<usize>| #[trigger] kind_wf(g, v, true);
    assert forall|a: GraphV|
        a.links == g.links && a.flow_links == g.flow_links && a.done == g.done && a.undone
            == g.undone && a.next_id == g.next_id implies #[trigger] links_wf(a) by {
        assert forall|x: Link| in_kind(a, false, x) == in_kind(g, false, x) by {}
        assert forall|x: Link| in_kind(a, true, x) == in_kind(g, true, x) by {}
        assert(kind_wf(a, u, false));
        assert(kind_wf(a, v, true));
    }
}


/// The links of each kind have distinct ids.
proof fn lemma_graph_links_distinct(g: GraphV)
    requires
        graph_wf(g),
    ensures
        distinct_link_ids(g.links),
        distinct_link_ids(g.flow_links),
{
    let u = choose|u: Set<usize>| #[trigger] kind_wf(g, u, false);
    let v = choose|v: Set<usize>| #[trigger] kind_wf(g, v, true);
}


/// Replacing a node by one with the same id keeps the node ids.
proof fn lemma_node_ids_update(ns: Seq<NodeV>, i: int, n: NodeV)
    requires
        0 <= i < ns.len(),
        n.id() == ns[i].id(),
    ensures
        node_ids(ns.update(i, n)) == node_ids(ns),
{
    assert(node_ids(ns.update(i, n)) =~= node_ids(ns));
}

/// A node with an id above all others keeps the ids apart, and undoing its
/// addition takes it away again.
proof fn lemma_node_ids_push(ns: Seq<NodeV>, n: NodeV)
    requires
        node_ids(ns).no_duplicates(),
        forall|i: int| 0 <= i < ns.len() ==> #[trigger] ns[i].id() < n.id(),
    ensures
        node_ids(ns.push(n)) == node_ids(ns).push(n.id()),
        node_ids(ns.push(n)).no_duplicates(),
        node_ids(ns.push(n)).drop_last() == node_ids(ns),
{
    let q = node_ids(ns);
    assert(node_ids(ns.push(n)) =~= q.push(n.id()));
    assert(q.push(n.id()).drop_last() =~= q);
    assert forall|a: int, b: int|
        0 <= a < q.push(n.id()).len() && 0 <= b < q.push(n.id()).len() && a != b implies q.push(
        n.id(),
    )[a] != q.push(n.id())[b] by {
        if a == q.len() {
            assert(q[b] == ns[b].id());
        } else if b == q.len() {
            assert(q[a] == ns[a].id());
        }
    }
}

/// Removing the node at `i` keeps the other ids apart and drops its id;
/// bringing it back at `i` gives the ids back.
proof fn lemma_node_ids_remove(ns: Seq<NodeV>, i: int)
    requires
        node_ids(ns).no_duplicates(),
        0 <= i < ns.len(),
    ensures
        node_ids(ns.remove(i)) == node_ids(ns).remove(i),
        node_ids(ns.remove(i)).no_duplicates(),
        !node_ids(ns.remove(i)).contains(ns[i].id()),
        node_ids(ns.remove(i)).insert(i, ns[i].id()) == node_ids(ns),
{
    let q = node_ids(ns);
    let t = q.remove(i);
    assert(node_ids(ns.remove(i)) =~= t);
    assert(t.insert(i, ns[i].id()) =~= q);
    assert(!t.contains(ns[i].id())) by {
        if t.contains(ns[i].id()) {
            let k = choose|k: int| 0 <= k < t.len() && t[k] == ns[i].id();
            let kk = if k < i { k } else { k + 1 };
            assert(t[k] == q[kk]);
            assert(q[i] == ns[i].id());
        }
    }
    assert forall|a: int, b: int| 0 <= a < t.len() && 0 <= b < t.len() && a != b implies t[a]
        != t[b] by {
        let aa = if a < i { a } else { a + 1 };
        let bb = if b < i { b } else { b + 1 };
        assert(t[a] == q[aa]);
        assert(t[b] == q[bb]);
    }
}


/// Replacing a node by one whose pins are below a larger bound keeps every
/// node's pins below it.
proof fn lemma_pins_update(ns: Seq<NodeV>, i: int, n: NodeV, b: usize, b2: usize)
    requires
        forall|j: int| 0 <= j < ns.len() ==> node_pins_below(#[trigger] ns[j], b),
        b <= b2,
        0 <= i < ns.len(),
        node_pins_below(n, b2),
    ensures
        forall|j: int| 0 <= j < ns.update(i, n).len() ==> node_pins_below(
            #[trigger] ns.update(i, n)[j],
            b2,
        ),
{
    assert forall|j: int| 0 <= j < ns.update(i, n).len() implies node_pins_below(
        #[trigger] ns.update(i, n)[j],
        b2,
    ) by {
        if j != i {
            assert(node_pins_below(ns[j], b));
        }
    }
}

/// The choicer `n` with these options and output pins.
pub open spec fn choicer_with(n: NodeV, options: Seq<Seq<char>>, outputs: Seq<usize>) -> NodeV {
    NodeV::Choicer { id: n->Choicer_id, name: n->Choicer_name, options, input: n->Choicer_input, outputs }
}

/// A choicer with pins below `b`, with `pin` below `b2` added or its
/// output `idx` taken away, keeps its pins below `b2`.
proof fn lemma_choicer_pins(n: NodeV, b: usize, b2: usize, pin: usize, idx: int)
    requires
        n is Choicer,
        node_pins_below(n, b),
        b <= b2,
        pin < b2,
    ensures
        forall|o: Seq<Seq<char>>|
            node_pins_below(#[trigger] choicer_with(n, o, n->Choicer_outputs.push(pin)), b2),
        0 <= idx < n->Choicer_outputs.len() ==> forall|o: Seq<Seq<char>>|
            node_pins_below(#[trigger] choicer_with(n, o, n->Choicer_outputs.remove(idx)), b2),
{
    let outputs = n->Choicer_outputs;
    assert forall|o: Seq<Seq<char>>|
        node_pins_below(#[trigger] choicer_with(n, o, outputs.push(pin)), b2) by {
        let m = choicer_with(n, o, outputs.push(pin));
        assert forall|k: int| 0 <= k < m.pins().len() implies #[trigger] m.pins()[k] < b2 by {
            if k < n.pins().len() {
                assert(m.pins()[k] == n.pins()[k]);
            }
        }
    }
    if 0 <= idx < outputs.len() {
        assert forall|o: Seq<Seq<char>>|
            node_pins_below(#[trigger] choicer_with(n, o, outputs.remove(idx)), b2) by {
            let r = choicer_with(n, o, outputs.remove(idx));
            assert forall|k: int| 0 <= k < r.pins().len() implies #[trigger] r.pins()[k] < b2 by {
                if k == 0 {
                    assert(r.pins()[0] == n.pins()[0]);
                } else if k - 1 < idx {
                    assert(r.pins()[k] == n.pins()[k]);
                } else {
                    assert(r.pins()[k] == n.pins()[k + 1]);
                }
            }
        }
    }
}

/// An edit that records `c` keeps the invariant when undoing `c` gives back
/// the shape before it.
proof fn lemma_recorded_keeps_wf(g: GraphV, a: GraphV, c: CommandV)
    requires
        graph_wf(g),
        a.done == g.done.push(c),
        a.undone == Seq::<CommandV>::empty(),
        g.next_id <= a.next_id,
        command_below(c, a.next_id),
        ids_below(a),
        a.timelines.dom().finite(),
        forall|k: usize| a.timelines.dom().contains(k) ==> k < a.next_id,
        undo_ok(a.nodes.len(), a.timelines.dom(), c),
        undo_len(a.nodes.len(), c) == g.nodes.len(),
        undo_dom(a.timelines.dom(), c) == g.timelines.dom(),
        links_wf(a),
        node_ids(a.nodes).no_duplicates(),
        nodes_undo_ok(node_ids(a.nodes), c),
        nodes_undo(node_ids(a.nodes), c) == node_ids(g.nodes),
        forall|i: int| 0 <= i < a.nodes.len() ==> node_pins_below(#[trigger] a.nodes[i], a.next_id),
        command_node(c) matches Some(n) ==> node_pins_below(n, a.next_id),
    ensures
        graph_wf(a),
{
    assert(a.done.drop_last() =~= g.done);
    assert forall|i: int|
        0 <= i < a.done.len() implies (command_node(#[trigger] a.done[i]) matches Some(n)
        ==> node_pins_below(n, a.next_id)) by {
        if i < g.done.len() {
            assert(a.done[i] == g.done[i]);
        }
    }
    assert forall|i: int| 0 <= i < a.done.len() implies command_below(
        #[trigger] a.done[i],
        a.next_id,
    ) by {
        if i < g.done.len() {
            assert(a.done[i] == g.done[i]);
            lemma_command_below_mono(g.done[i], g.next_id, a.next_id);
        }
    }
}

/// An edit that leaves the history, the number of nodes and the timelines'
/// ids alone keeps the invariant.
proof fn lemma_unrecorded_keeps_wf(g: GraphV, a: GraphV)
    requires
        graph_wf(g),
        a.done == g.done,
        a.undone == g.undone,
        g.next_id <= a.next_id,
        ids_below(a),
        a.nodes.len() == g.nodes.len(),
        a.timelines.dom() == g.timelines.dom(),
        links_wf(a),
        node_ids(a.nodes) == node_ids(g.nodes),
        forall|i: int| 0 <= i < a.nodes.len() ==> node_pins_below(#[trigger] a.nodes[i], a.next_id),
    ensures
        graph_wf(a),
{
    assert forall|i: int| 0 <= i < a.done.len() implies command_below(
        #[trigger] a.done[i],
        a.next_id,
    ) by {
        lemma_command_below_mono(g.done[i], g.next_id, a.next_id);
    }
    assert forall|i: int| 0 <= i < a.undone.len() implies command_below(
        #[trigger] a.undone[i],
        a.next_id,
    ) by {
        lemma_command_below_mono(g.undone[i], g.next_id, a.next_id);
    }
}

fn node_pins(n: &Node) -> (r: Vec<usize>)
    ensures
        r@ == n@.pins(),
{
    match n {
        Node::Conversation { input, output, .. } => {
            let r = vec![*input, *output];
            proof {
                assert(r@ =~= n@.pins());
            }
            r
        },
        Node::Choicer { input, outputs, .. } => {
            let mut r: Vec<usize> = Vec::new();
            r.push(*input);
            let mut i: usize = 0;
            while i < outputs.len()
                invariant
                    i <= outputs@.len(),
                    r@ =~= seq![*input] + outputs@.subrange(0, i as int),
                decreases outputs@.len() - i,
            {
                r.push(outputs[i]);
                i = i + 1;
            }
            proof {
                assert(outputs@.subrange(0, outputs@.len() as int) =~= outputs@);
            }
            r
        },
    }
}

impl Graph {
    /// Adds a conversation node with an empty timeline and records it;
    /// returns the node's id.
    pub fn add_conversation(&mut self, name: String) -> (r: usize)
        requires
            graph_wf(old(self)@),
            old(self)@.next_id < usize::MAX - 3,
        ensures
            final(self)@ == add_conversation_spec(old(self)@, name@),
            r == old(self)@.next_id,
            graph_wf(final(self)@),
    {
        let ghost g = self@;
        let id = self.id_gen.next();
        let input = self.id_gen.next();
        let output = self.id_gen.next();
        let node = Node::Conversation { id, name, input, output };
        let ghost tb = self.timelines@;
        let _ = self.timelines.insert(id, Timeline::new());
        let ghost nb = self.nodes@;
        let copy = node.clone();
        self.nodes.push(copy);
        history_push(&mut self.history, Command::AddNodeConversation(node, Timeline::new()));
        proof {
            lemma_nodes_push(nb, copy);
            assert(timelines_view(self.timelines@) =~= g.timelines.insert(id, empty_timeline()));
            let a = self@;
            let c = CommandV::AddNodeConversation(node@, empty_timeline());
            assert(a =~= add_conversation_spec(g, name@));
            assert forall|i: int| 0 <= i < a.nodes.len() implies #[trigger] a.nodes[i].id()
                < a.next_id by {
                if i < g.nodes.len() {
                    assert(a.nodes[i] == g.nodes[i]);
                }
            }
            assert(a.timelines.dom().remove(id) =~= g.timelines.dom());
            lemma_kind_recorded_other(g, a, c, false);
            lemma_kind_recorded_other(g, a, c, true);
            lemma_node_ids_push(g.nodes, a.nodes[a.nodes.len() - 1]);
            assert(g.nodes.push(a.nodes[a.nodes.len() - 1]) == a.nodes);
            lemma_recorded_keeps_wf(g, a, c);
        }
        id
    }

    /// Adds a choicer node with no options and records it; returns the
    /// node's id.
    pub fn add_choicer(&mut self, name: String) -> (r: usize)
        requires
            graph_wf(old(self)@),
            old(self)@.next_id < usize::MAX - 2,
        ensures
            final(self)@ == add_choicer_spec(old(self)@, name@),
            r == old(self)@.next_id,
            graph_wf(final(self)@),
    {
        let ghost g = self@;
        let id = self.id_gen.next();
        let input = self.id_gen.next();
        let options: Vec<String> = Vec::new();
        let outputs: Vec<usize> = Vec::new();
        proof {
            assert(strings_view(options@) =~= Seq::<Seq<char>>::empty());
            assert(outputs@ =~= Seq::<usize>::empty());
        }
        let node = Node::Choicer { id, name, options, input, outputs };
        let ghost nb = self.nodes@;
        let copy = node.clone();
        history_push(&mut self.history, Command::AddNodeChoicer(copy));
        self.nodes.push(node);
        proof {
            lemma_nodes_push(nb, node);
            let a = self@;
            let c = CommandV::AddNodeChoicer(node@);
            assert(node@ == (NodeV::Choicer {
                id,
                name: name@,
                options: seq![],
                input,
                outputs: seq![],
            }));
            assert(a =~= add_choicer_spec(g, name@));
            assert forall|i: int| 0 <= i < a.nodes.len() implies #[trigger] a.nodes[i].id()
                < a.next_id by {
                if i < g.nodes.len() {
                    assert(a.nodes[i] == g.nodes[i]);
                }
            }
            lemma_kind_recorded_other(g, a, c, false);
            lemma_kind_recorded_other(g, a, c, true);
            lemma_node_ids_push(g.nodes, a.nodes[a.nodes.len() - 1]);
            assert(g.nodes.push(a.nodes[a.nodes.len() - 1]) == a.nodes);
            lemma_recorded_keeps_wf(g, a, c);
        }
        id
    }

    /// Removes the node at `index` with its timeline and the links and flow
    /// links that touch its pins, and records it.
    pub fn delete_node(&mut self, index: usize)
        requires
            graph_wf(old(self)@),
            index < old(self)@.nodes.len(),
        ensures
            final(self)@ == delete_node_spec(old(self)@, index),
            graph_wf(final(self)@),
    {
        let ghost g = self@;
        let pins = node_pins(&self.nodes[index]);
        let id = self.nodes[index].id();
        let (keep, links) = split_links(&self.links, &pins);
        let (keep_flow, flow_links) = split_links(&self.flow_links, &pins);
        let ghost tb = self.timelines@;
        let timeline = self.timelines.remove(&id);
        self.links = keep;
        self.flow_links = keep_flow;
        let ghost nb = self.nodes@;
        let node = self.nodes.remove(index);
        let ghost tl = opt_timeline_view(timeline);
        proof {
            lemma_nodes_remove(nb, index as int);
            lemma_timelines_remove(tb, id);
            assert(tl == (if g.timelines.contains_key(id) {
                Some(g.timelines[id])
            } else {
                None
            }));
        }
        history_push(
            &mut self.history,
            Command::RemoveNode { index, node, flow_links, links, timeline },
        );
        proof {
            let a = self@;
            let c = CommandV::RemoveNode {
                index,
                node: node@,
                flow_links: flow_links@,
                links: links@,
                timeline: tl,
            };
            assert(a =~= delete_node_spec(g, index));
            assert(g.nodes[index as int].id() < g.next_id);
            lemma_filter_ids_below(g.links, touches_none(pins@), g.next_id);
            lemma_filter_ids_below(g.flow_links, touches_none(pins@), g.next_id);
            lemma_filter_ids_below(g.links, touches_some(pins@), g.next_id);
            lemma_filter_ids_below(g.flow_links, touches_some(pins@), g.next_id);
            assert forall|i: int| 0 <= i < a.nodes.len() implies #[trigger] a.nodes[i].id()
                < a.next_id by {
                if i < index {
                    assert(a.nodes[i] == g.nodes[i]);
                } else {
                    assert(a.nodes[i] == g.nodes[i + 1]);
                }
            }
            if tl is Some {
                assert(a.timelines.dom().insert(id) =~= g.timelines.dom());
            } else {
                assert(a.timelines.dom() =~= g.timelines.dom());
            }
            lemma_kind_delete(g, index, false);
            lemma_kind_delete(g, index, true);
            lemma_node_ids_remove(g.nodes, index as int);
            lemma_recorded_keeps_wf(g, a, c);
        }
    }
}

// ------------------------------------------------------------------------
// Searches
fn first_link_from(v: &Vec<Link>, pin: usize) -> (r: Option<usize>)
    ensures
        match r {
            Some(i) => first_index(v@, link_from(pin)) == Some(i as int) && i < v@.len(),
            None => first_index(v@, link_from(pin)) is None,
        },
{
    let mut i: usize = 0;
    while i < v.len()
        invariant
            i <= v@.len(),
            forall|j: int| 0 <= j < i ==> !link_from(pin)(#[trigger] v@[j]),
        decreases v@.len() - i,
    {
        if v[i].from == pin {
            proof {
                lemma_first_index_is(v@, link_from(pin), i as int);
            }
            return Some(i);
        }
        i = i + 1;
    }
    proof {
        lemma_first_index_is(v@, link_from(pin), i as int);
    }
    None
}

fn first_link_with_id(v: &Vec<Link>, id: usize) -> (r: Option<usize>)
    ensures
        match r {
            Some(i) => first_index(v@, link_with_id(id)) == Some(i as int) && i < v@.len(),
            None => first_index(v@, link_with_id(id)) is None,
        },
{
    let mut i: usize = 0;
    while i < v.len()
        invariant
            i <= v@.len(),
            forall|j: int| 0 <= j < i ==> !link_with_id(id)(#[trigger] v@[j]),
        decreases v@.len() - i,
    {
        if v[i].id == id {
            proof {
                lemma_first_index_is(v@, link_with_id(id), i as int);
            }
            return Some(i);
        }
        i = i + 1;
    }
    proof {
        lemma_first_index_is(v@, link_with_id(id), i as int);
    }
    None
}

/// Whether the node has the pin, and then whether it is an output pin.
fn node_pin_kind(n: &Node, pin: usize) -> (r: Option<bool>)
    ensures
        (r is Some) == has_pin(pin)(n@),
        r matches Some(b) ==> b == (n@.input() != pin),
{
    proof {
        assert(n@.pins()[0] == n@.input());
        assert forall|j: int| 0 <= j < n@.outputs().len() implies n@.pins()[j + 1]
            == n@.outputs()[j] by {}
        if n@.pins().contains(pin) {
            let j = choose|j: int| 0 <= j < n@.pins().len() && n@.pins()[j] == pin;
            if j > 0 {
                assert(n@.outputs()[j - 1] == pin);
            }
        }
    }
    match n {
        Node::Conversation { input, output, .. } => {
            if *input == pin {
                Some(false)
            } else if *output == pin {
                proof {
                    assert(n@.pins()[1] == pin);
                }
                Some(true)
            } else {
                None
            }
        },
        Node::Choicer { input, outputs, .. } => {
            if *input == pin {
                Some(false)
            } else if pins_contain(outputs, pin) {
                proof {
                    let j = choose|j: int| 0 <= j < outputs@.len() && outputs@[j] == pin;
                    assert(n@.pins()[j + 1] == pin);
                }
                Some(true)
            } else {
                None
            }
        },
    }
}

impl Graph {
    fn find_node(&self, id: usize) -> (r: Option<usize>)
        ensures
            match r {
                Some(i) => first_index(self@.nodes, has_id(id)) == Some(i as int) && i
                    < self@.nodes.len(),
                None => first_index(self@.nodes, has_id(id)) is None,
            },
    {
        let ghost ns = self@.nodes;
        let mut i: usize = 0;
        while i < self.nodes.len()
            invariant
                i <= self.nodes@.len(),
                ns == nodes_view(self.nodes@),
                forall|j: int| 0 <= j < i ==> !has_id(id)(#[trigger] ns[j]),
            decreases self.nodes@.len() - i,
        {
            if self.nodes[i].id() == id {
                proof {
                    lemma_first_index_is(ns, has_id(id), i as int);
                }
                return Some(i);
            }
            i = i + 1;
        }
        proof {
            lemma_first_index_is(ns, has_id(id), i as int);
        }
        None
    }

    fn pin_kind_of(&self, pin: usize) -> (r: Option<bool>)
        ensures
            r == pin_kind(self@.nodes, pin),
    {
        let ghost ns = self@.nodes;
        let mut i: usize = 0;
        while i < self.nodes.len()
            invariant
                i <= self.nodes@.len(),
                ns == nodes_view(self.nodes@),
                forall|j: int| 0 <= j < i ==> !has_pin(pin)(#[trigger] ns[j]),
            decreases self.nodes@.len() - i,
        {
            let k = node_pin_kind(&self.nodes[i], pin);
            if k.is_some() {
                proof {
                    lemma_first_index_is(ns, has_pin(pin), i as int);
                }
                return k;
            }
            i = i + 1;
        }
        proof {
            lemma_first_index_is(ns, has_pin(pin), i as int);
        }
        None
    }

    /// The two pins of a dragged link as (output, input).
    fn normalize_link(&self, a: usize, b: usize) -> (r: Option<(usize, usize)>)
        ensures
            r == normalize_spec(self@.nodes, a, b),
    {
        match (self.pin_kind_of(a), self.pin_kind_of(b)) {
            (Some(true), Some(false)) => Some((a, b)),
            (Some(false), Some(true)) => Some((b, a)),
            _ => None,
        }
    }
}

/// Adds `link` in place of the first link from its output pin.
fn replace_link(v: &mut Vec<Link>, link: Link) -> (replaced: Option<Link>)
    ensures
        (final(v)@, replaced) == replace_from(old(v)@, link),
{
    let replaced = match first_link_from(v, link.from) {
        Some(i) => Some(v.remove(i)),
        None => None,
    };
    v.push(link);
    replaced
}

proof fn lemma_replace_ids_below(links: Seq<Link>, link: Link, n: usize)
    requires
        forall|i: int| 0 <= i < links.len() ==> #[trigger] links[i].id < n,
        link.id < n,
    ensures
        forall|i: int|
            0 <= i < replace_from(links, link).0.len() ==> #[trigger] replace_from(
                links,
                link,
            ).0[i].id < n,
        replace_from(links, link).1 matches Some(r) ==> r.id < n,
{
    lemma_first_index(links, link_from(link.from));
    let r = replace_from(links, link).0;
    match first_index(links, link_from(link.from)) {
        Some(k) => {
            assert forall|i: int| 0 <= i < r.len() implies #[trigger] r[i].id < n by {
                if i < k {
                    assert(r[i] == links[i]);
                } else if i < links.len() - 1 {
                    assert(r[i] == links[i + 1]);
                }
            }
        },
        None => {
            assert forall|i: int| 0 <= i < r.len() implies #[trigger] r[i].id < n by {
                if i < links.len() {
                    assert(r[i] == links[i]);
                }
            }
        },
    }
}

proof fn lemma_remove_ids_below(links: Seq<Link>, k: int, n: usize)
    requires
        forall|i: int| 0 <= i < links.len() ==> #[trigger] links[i].id < n,
        0 <= k < links.len(),
    ensures
        forall|i: int| 0 <= i < links.remove(k).len() ==> #[trigger] links.remove(k)[i].id < n,
{
    assert forall|i: int| 0 <= i < links.remove(k).len() implies #[trigger] links.remove(k)[i].id
        < n by {
        if i < k {
            assert(links.remove(k)[i] == links[i]);
        } else {
            assert(links.remove(k)[i] == links[i + 1]);
        }
    }
}

proof fn lemma_nodes_update_ids_below(nodes: Seq<NodeV>, i: int, n: NodeV, bound: usize)
    requires
        forall|j: int| 0 <= j < nodes.len() ==> #[trigger] nodes[j].id() < bound,
        0 <= i < nodes.len(),
        n.id() == nodes[i].id(),
    ensures
        forall|j: int| 0 <= j < nodes.update(i, n).len() ==> #[trigger] nodes.update(i, n)[j].id()
            < bound,
{
    assert forall|j: int| 0 <= j < nodes.update(i, n).len() implies #[trigger] nodes.update(
        i,
        n,
    )[j].id() < bound by {
        if j != i {
            assert(nodes.update(i, n)[j] == nodes[j]);
        }
    }
}

impl Graph {
    /// Joins two pins dragged together in the editor: a link, or a flow
    /// link while flow links are edited, from the output pin to the input
    /// pin, in place of the one the output pin had. Recorded in the
    /// history. Pins that are not an output and an input change nothing.
    pub fn connect(&mut self, a: usize, b: usize)
        requires
            graph_wf(old(self)@),
            old(self)@.next_id < usize::MAX,
        ensures
            final(self)@ == connect_spec(old(self)@, a, b),
            graph_wf(final(self)@),
    {
        let ghost g = self@;
        match self.normalize_link(a, b) {
            None => {},
            Some((from, to)) => {
                let id = self.id_gen.next();
                let link = Link { id, from, to };
                if self.flow_link_editing {
                    let replaced = replace_link(&mut self.flow_links, link);
                    history_push(&mut self.history, Command::AddFlowLink { link, replaced });
                    proof {
                        let s = self@;
                        assert(s =~= connect_spec(g, a, b));
                        lemma_replace_ids_below(g.flow_links, link, s.next_id);
                        lemma_kind_connect(g, a, b);
                        lemma_kind_recorded_other(g, s, CommandV::AddFlowLink { link, replaced }, false);
                        lemma_recorded_keeps_wf(g, s, CommandV::AddFlowLink { link, replaced });
                    }
                } else {
                    let replaced = replace_link(&mut self.links, link);
                    history_push(&mut self.history, Command::AddLink { link, replaced });
                    proof {
                        let s = self@;
                        assert(s =~= connect_spec(g, a, b));
                        lemma_replace_ids_below(g.links, link, s.next_id);
                        lemma_kind_connect(g, a, b);
                        lemma_kind_recorded_other(g, s, CommandV::AddLink { link, replaced }, true);
                        lemma_recorded_keeps_wf(g, s, CommandV::AddLink { link, replaced });
                    }
                }
            },
        }
    }

    /// Removes the link, or the flow link while flow links are edited, with
    /// id `link_id` and records it; without one nothing changes.
    pub fn disconnect(&mut self, link_id: usize)
        requires
            graph_wf(old(self)@),
        ensures
            final(self)@ == disconnect_spec(old(self)@, link_id),
            graph_wf(final(self)@),
    {
        let ghost g = self@;
        if self.flow_link_editing {
            if let Some(index) = first_link_with_id(&self.flow_links, link_id) {
                let link = self.flow_links.remove(index);
                history_push(&mut self.history, Command::RemoveFlowLink { index, link });
                proof {
                    let a = self@;
                    assert(a =~= disconnect_spec(g, link_id));
                    lemma_remove_ids_below(g.flow_links, index as int, g.next_id);
                    lemma_kind_disconnect(g, link_id);
                    lemma_kind_recorded_other(g, a, CommandV::RemoveFlowLink { index, link }, false);
                    lemma_recorded_keeps_wf(g, a, CommandV::RemoveFlowLink { index, link });
                }
            }
        } else {
            if let Some(index) = first_link_with_id(&self.links, link_id) {
                let link = self.links.remove(index);
                history_push(&mut self.history, Command::RemoveLink { index, link });
                proof {
                    let a = self@;
                    assert(a =~= disconnect_spec(g, link_id));
                    lemma_remove_ids_below(g.links, index as int, g.next_id);
                    lemma_kind_disconnect(g, link_id);
                    lemma_kind_recorded_other(g, a, CommandV::RemoveLink { index, link }, true);
                    lemma_recorded_keeps_wf(g, a, CommandV::RemoveLink { index, link });
                }
            }
        }
    }

    /// Adds an option with a new output pin to the node with id `node_id`
    /// when it is a choicer. Not recorded in the history.
    pub fn add_choicer_option(&mut self, node_id: usize, label: String)
        requires
            graph_wf(old(self)@),
            old(self)@.next_id < usize::MAX,
        ensures
            final(self)@ == add_choicer_option_spec(old(self)@, node_id, label@),
            graph_wf(final(self)@),
    {
        let ghost g = self@;
        let pin = self.id_gen.next();
        if let Some(i) = self.find_node(node_id) {
            let replacement = match &self.nodes[i] {
                Node::Choicer { id, name, options, input, outputs } => {
                    let mut o = clone_strings(options);
                    let ghost ob = o@;
                    o.push(label);
                    let mut p = clone_pins(outputs);
                    p.push(pin);
                    proof {
                        assert(strings_view(o@) =~= strings_view(ob).push(label@));
                    }
                    Some(Node::Choicer { id: *id, name: name.clone(), options: o, input: *input, outputs: p })
                },
                _ => None,
            };
            if let Some(n) = replacement {
                let ghost nb = self.nodes@;
                self.nodes.set(i, n);
                proof {
                    lemma_nodes_update(nb, i as int, n);
                }
            }
        }
        proof {
            let a = self@;
            assert(a =~= add_choicer_option_spec(g, node_id, label@));
            if let Some(i) = first_index(g.nodes, has_id(node_id)) {
                lemma_first_index(g.nodes, has_id(node_id));
                if a.nodes != g.nodes {
                    lemma_nodes_update_ids_below(g.nodes, i, a.nodes[i], a.next_id);
                    assert(a.nodes =~= g.nodes.update(i, a.nodes[i]));
                    lemma_node_ids_update(g.nodes, i, a.nodes[i]);
                    assert(node_pins_below(g.nodes[i], g.next_id));
                    lemma_choicer_pins(g.nodes[i], g.next_id, a.next_id, g.next_id, 0);
                    assert(a.nodes[i] == choicer_with(
                        g.nodes[i],
                        a.nodes[i]->Choicer_options,
                        g.nodes[i]->Choicer_outputs.push(g.next_id),
                    ));
                    lemma_pins_update(g.nodes, i, a.nodes[i], g.next_id, a.next_id);
                }
            }
            lemma_graph_links_distinct(g);
            lemma_links_unrecorded(g, a);
            lemma_unrecorded_keeps_wf(g, a);
        }
    }

    /// Removes option `idx` and its output pin from the node with id
    /// `node_id` when it is a choicer, with the links, or the flow links
    /// while flow links are edited, that touch that pin. Not recorded in
    /// the history.
    pub fn remove_choicer_option(&mut self, node_id: usize, idx: usize)
        requires
            graph_wf(old(self)@),
            option_exists(old(self)@, node_id, idx as int),
        ensures
            final(self)@ == remove_choicer_option_spec(old(self)@, node_id, idx as int),
            graph_wf(final(self)@),
    {
        let ghost g = self@;
        if let Some(i) = self.find_node(node_id) {
            let replacement = match &self.nodes[i] {
                Node::Choicer { id, name, options, input, outputs } => {
                    proof {
                        assert(self.nodes@[i as int]@ == g.nodes[i as int]);
                    }
                    let mut o = clone_strings(options);
                    let ghost ob = o@;
                    let _ = o.remove(idx);
                    let mut p = clone_pins(outputs);
                    let pin = p.remove(idx);
                    proof {
                        assert(strings_view(o@) =~= strings_view(ob).remove(idx as int));
                    }
                    Some((Node::Choicer { id: *id, name: name.clone(), options: o, input: *input, outputs: p }, pin))
                },
                _ => None,
            };
            if let Some((n, pin)) = replacement {
                let ghost nb = self.nodes@;
                self.nodes.set(i, n);
                proof {
                    lemma_nodes_update(nb, i as int, n);
                }
                if self.flow_link_editing {
                    self.flow_links = links_off_pin(&self.flow_links, pin);
                } else {
                    self.links = links_off_pin(&self.links, pin);
                }
            }
        }
        proof {
            let a = self@;
            assert(a =~= remove_choicer_option_spec(g, node_id, idx as int));
            if let Some(i) = first_index(g.nodes, has_id(node_id)) {
                lemma_first_index(g.nodes, has_id(node_id));
                if a.nodes != g.nodes {
                    lemma_nodes_update_ids_below(g.nodes, i, a.nodes[i], a.next_id);
                    assert(a.nodes =~= g.nodes.update(i, a.nodes[i]));
                    lemma_node_ids_update(g.nodes, i, a.nodes[i]);
                    assert(node_pins_below(g.nodes[i], g.next_id));
                    lemma_choicer_pins(g.nodes[i], g.next_id, a.next_id, 0, idx as int);
                    assert(a.nodes[i] == choicer_with(
                        g.nodes[i],
                        a.nodes[i]->Choicer_options,
                        g.nodes[i]->Choicer_outputs.remove(idx as int),
                    ));
                    lemma_pins_update(g.nodes, i, a.nodes[i], g.next_id, a.next_id);
                }
            }
            if let Some(i) = first_index(g.nodes, has_id(node_id)) {
                if let NodeV::Choicer { outputs, .. } = g.nodes[i] {
                    let pin = outputs[idx as int];
                    lemma_filter_ids_below(g.links, avoids_pin(pin), g.next_id);
                    lemma_filter_ids_below(g.flow_links, avoids_pin(pin), g.next_id);
                    lemma_graph_links_distinct(g);
                    lemma_filter_links::<Link>(g.links, avoids_pin(pin));
                    lemma_filter_links::<Link>(g.flow_links, avoids_pin(pin));
                }
            }
            lemma_graph_links_distinct(g);
            lemma_links_unrecorded(g, a);
            lemma_unrecorded_keeps_wf(g, a);
        }
    }

    /// Switches between editing links and editing flow links.
    pub fn toggle_flow_link_editing(&mut self)
        requires
            graph_wf(old(self)@),
        ensures
            final(self)@ == (GraphV {
                flow_link_editing: !old(self)@.flow_link_editing,
                ..old(self)@
            }),
            graph_wf(final(self)@),
    {
        proof {
            lemma_links_same(self@);
        }
        self.flow_link_editing = !self.flow_link_editing;
    }

    /// Whether new and removed links are flow links.
    pub fn is_flow_link_editing(&self) -> (r: bool)
        ensures
            r == self@.flow_link_editing,
    {
        self.flow_link_editing
    }

    /// Sets the node selected in the editor.
    pub fn select_node(&mut self, id: Option<usize>)
        requires
            graph_wf(old(self)@),
        ensures
            final(self)@ == (GraphV { selected: id, ..old(self)@ }),
            graph_wf(final(self)@),
    {
        proof {
            lemma_links_same(self@);
        }
        self.selected_node_id = id;
    }
}

// ------------------------------------------------------------------------
// Laws of the history
proof fn lemma_filter_all<A>(s: Seq<A>, p: spec_fn(A) -> bool)
    requires
        forall|i: int| 0 <= i < s.len() ==> p(#[trigger] s[i]),
    ensures
        s.filter(p) == s,
    decreases s.len(),
{
    if s.len() > 0 {
        lemma_filter_all(s.drop_last(), p);
        s.drop_last().lemma_filter_push(s.last(), p);
        assert(s.drop_last().push(s.last()) =~= s);
    } else {
        reveal(Seq::filter);
    }
}

proof fn lemma_filter_none<A>(s: Seq<A>, p: spec_fn(A) -> bool)
    requires
        forall|i: int| 0 <= i < s.len() ==> !p(#[trigger] s[i]),
    ensures
        s.filter(p) == Seq::<A>::empty(),
    decreases s.len(),
{
    if s.len() > 0 {
        lemma_filter_none(s.drop_last(), p);
        s.drop_last().lemma_filter_push(s.last(), p);
        assert(s.drop_last().push(s.last()) =~= s);
    } else {
        reveal(Seq::filter);
        assert(s =~= Seq::<A>::empty());
    }
}

/// The links that touch none of the pins and those that touch one are,
/// together, the links.
proof fn lemma_partition_multiset(s: Seq<Link>, pins: Seq<usize>)
    ensures
        (untouched(s, pins) + touching(s, pins)).to_multiset() == s.to_multiset(),
    decreases s.len(),
{
    broadcast use vstd::seq_lib::group_to_multiset_ensures;
    broadcast use vstd::multiset::group_multiset_properties;

    if s.len() == 0 {
        reveal(Seq::filter);
        assert(untouched(s, pins) + touching(s, pins) =~= s);
    } else {
        let t = s.drop_last();
        let x = s.last();
        assert(t.push(x) =~= s);
        lemma_partition_multiset(t, pins);
        t.lemma_filter_push(x, touches_none(pins));
        t.lemma_filter_push(x, touches_some(pins));
        vstd::seq_lib::lemma_multiset_commutative(untouched(s, pins), touching(s, pins));
        vstd::seq_lib::lemma_multiset_commutative(untouched(t, pins), touching(t, pins));
        assert((untouched(s, pins) + touching(s, pins)).to_multiset() =~= (untouched(t, pins)
            + touching(t, pins)).to_multiset().insert(x));
    }
}

/// An edit that hands out ids.
pub enum IdEdit {
    AddConversation(Seq<char>),
    AddChoicer(Seq<char>),
    AddChoicerOption(usize, Seq<char>),
    Connect(usize, usize),
}

/// The graph after the edit.
pub open spec fn id_edit_apply(g: GraphV, e: IdEdit) -> GraphV {
    match e {
        IdEdit::AddConversation(name) => add_conversation_spec(g, name),
        IdEdit::AddChoicer(name) => add_choicer_spec(g, name),
        IdEdit::AddChoicerOption(node_id, label) => add_choicer_option_spec(g, node_id, label),
        IdEdit::Connect(a, b) => connect_spec(g, a, b),
    }
}

/// How many ids the edit hands out: a conversation's node and two pins, a
/// choicer's node and input pin, an option's output pin, a link.
pub open spec fn id_count(g: GraphV, e: IdEdit) -> nat {
    match e {
        IdEdit::AddConversation(_) => 3,
        IdEdit::AddChoicer(_) => 2,
        IdEdit::AddChoicerOption(..) => 1,
        IdEdit::Connect(a, b) => if normalize_spec(g.nodes, a, b) is Some {
            1
        } else {
            0
        },
    }
}

/// The graph after the edits, in turn.
pub open spec fn id_run(g: GraphV, es: Seq<IdEdit>) -> GraphV
    decreases es.len(),
{
    if es.len() == 0 {
        g
    } else {
        id_edit_apply(id_run(g, es.drop_last()), es.last())
    }
}

/// How many ids the edits hand out, in turn.
pub open spec fn id_run_count(g: GraphV, es: Seq<IdEdit>) -> nat
    decreases es.len(),
{
    if es.len() == 0 {
        0
    } else {
        id_run_count(g, es.drop_last()) + id_count(id_run(g, es.drop_last()), es.last())
    }
}

/// Each edit hands out the ids from the next one on, in order, and gives
/// them to what it makes: a new conversation takes the next id as its node
/// and the two after as its input and output pins; a new choicer the next
/// as its node and the one after as its input pin; a new option the next
/// as its output pin; a new link or flow link the next as its id. The
/// next id then stands after them.
pub proof fn lemma_edit_ids(g: GraphV, e: IdEdit)
    requires
        g.next_id + 3 < usize::MAX,
    ensures
        id_edit_apply(g, e).next_id == g.next_id + id_count(g, e),
        ({
            let a = id_edit_apply(g, e);
            let n = g.next_id;
            match e {
                IdEdit::AddConversation(_) => a.nodes.last() matches NodeV::Conversation {
                    id,
                    input,
                    output,
                    ..
                } && id == n && input == n + 1 && output == n + 2,
                IdEdit::AddChoicer(_) => a.nodes.last().id() == n && a.nodes.last().input() == n
                    + 1,
                IdEdit::AddChoicerOption(node_id, _) => match first_index(g.nodes, has_id(node_id)) {
                    Some(i) => g.nodes[i] is Choicer ==> a.nodes[i].outputs().last() == n,
                    None => true,
                },
                IdEdit::Connect(x, y) => normalize_spec(g.nodes, x, y) is Some ==> kind_links(
                    a,
                    g.flow_link_editing,
                ).last().id == n,
            }
        }),
{
    match e {
        IdEdit::Connect(x, y) => {
            if let Some((from, to)) = normalize_spec(g.nodes, x, y) {
                let l = Link { id: g.next_id, from, to };
                let s = kind_links(g, g.flow_link_editing);
                lemma_first_index(s, link_from(l.from));
            }
        },
        IdEdit::AddChoicerOption(node_id, _) => {
            lemma_first_index(g.nodes, has_id(node_id));
        },
        _ => {},
    }
}

/// Over any run of edits from a graph, the ids handed out are the next id,
/// the one after, and so on, each once: the next id after the run stands
/// as many ids on as the edits handed out, and each edit starts where the
/// one before stopped. With every id in use below the next one (see
/// [`lemma_ids_apart`]), no id handed out was in use.
pub proof fn lemma_run_ids(g: GraphV, es: Seq<IdEdit>)
    requires
        g.next_id + 3 * es.len() + 3 < usize::MAX,
    ensures
        id_run(g, es).next_id == g.next_id + id_run_count(g, es),
        id_run_count(g, es) <= 3 * es.len(),
        forall|k: int|
            0 <= k < es.len() ==> #[trigger] id_run(g, es.take(k)).next_id == g.next_id
                + id_run_count(g, es.take(k)),
    decreases es.len(),
{
    if es.len() > 0 {
        let init = es.drop_last();
        lemma_run_ids(g, init);
        let h = id_run(g, init);
        lemma_edit_ids(h, es.last());
        assert forall|k: int| 0 <= k < es.len() implies #[trigger] id_run(g, es.take(k)).next_id
            == g.next_id + id_run_count(g, es.take(k)) by {
            if k < init.len() {
                assert(es.take(k) =~= init.take(k));
            } else {
                assert(es.take(k) =~= init);
            }
        }
    }
}

/// Ids do not collide: in a well-formed graph, which every edit, undo and
/// redo keeps so, no two nodes share an id, nor two links, nor two flow
/// links; and every id in use, of a node, a pin, a link or a flow link, is
/// below the next one, so each id that an edit hands out is new.
pub proof fn lemma_ids_apart(g: GraphV)
    requires
        graph_wf(g),
    ensures
        node_ids(g.nodes).no_duplicates(),
        distinct_link_ids(g.links),
        distinct_link_ids(g.flow_links),
        forall|i: int| 0 <= i < g.nodes.len() ==> #[trigger] g.nodes[i].id() < g.next_id,
        forall|i: int| 0 <= i < g.links.len() ==> #[trigger] g.links[i].id < g.next_id,
        forall|i: int| 0 <= i < g.flow_links.len() ==> #[trigger] g.flow_links[i].id < g.next_id,
        forall|i: int| 0 <= i < g.nodes.len() ==> node_pins_below(#[trigger] g.nodes[i], g.next_id),
{
    lemma_graph_links_distinct(g);
}

/// With nothing done, `undo` changes nothing; with nothing undone, `redo`
/// changes nothing.
pub proof fn lemma_nothing_to_undo(g: GraphV)
    ensures
        g.done.len() == 0 ==> undo_spec(g) == g,
        g.undone.len() == 0 ==> redo_spec(g) == g,
{
}

/// Undoing the addition of a conversation node gives back the graph before
/// it: its nodes, timelines, links, flow links and done edits.
pub proof fn lemma_undo_add_conversation(g: GraphV, name: Seq<char>)
    requires
        graph_wf(g),
    ensures
        ({
            let u = undo_spec(add_conversation_spec(g, name));
            &&& u.nodes == g.nodes
            &&& u.timelines == g.timelines
            &&& u.links == g.links
            &&& u.flow_links == g.flow_links
            &&& u.done == g.done
        }),
{
    let a = add_conversation_spec(g, name);
    assert(a.done.drop_last() =~= g.done);
    assert(a.nodes.drop_last() =~= g.nodes);
    assert(!g.timelines.dom().contains(g.next_id));
    assert(a.timelines.remove(g.next_id) =~= g.timelines);
}

/// Undoing the addition of a choicer node gives back the graph before it.
pub proof fn lemma_undo_add_choicer(g: GraphV, name: Seq<char>)
    requires
        graph_wf(g),
    ensures
        ({
            let u = undo_spec(add_choicer_spec(g, name));
            &&& u.nodes == g.nodes
            &&& u.timelines == g.timelines
            &&& u.links == g.links
            &&& u.flow_links == g.flow_links
            &&& u.done == g.done
        }),
{
    let a = add_choicer_spec(g, name);
    assert(a.done.drop_last() =~= g.done);
    assert(a.nodes.drop_last() =~= g.nodes);
}

/// Undoing the removal of a node gives back its nodes, in order, and its
/// timelines; the links and flow links come back as the same collections,
/// the removed ones after the others.
pub proof fn lemma_undo_delete_node(g: GraphV, index: usize)
    requires
        graph_wf(g),
        index < g.nodes.len(),
    ensures
        ({
            let u = undo_spec(delete_node_spec(g, index));
            &&& u.nodes == g.nodes
            &&& u.timelines == g.timelines
            &&& u.links.to_multiset() == g.links.to_multiset()
            &&& u.flow_links.to_multiset() == g.flow_links.to_multiset()
            &&& u.done == g.done
        }),
{
    let a = delete_node_spec(g, index);
    let n = g.nodes[index as int];
    assert(a.done.drop_last() =~= g.done);
    assert(a.nodes.insert(index as int, n) =~= g.nodes);
    if g.timelines.contains_key(n.id()) {
        assert(a.timelines.insert(n.id(), g.timelines[n.id()]) =~= g.timelines);
    } else {
        assert(a.timelines =~= g.timelines);
    }
    lemma_partition_multiset(g.links, n.pins());
    lemma_partition_multiset(g.flow_links, n.pins());
}

proof fn lemma_without_new_id(links: Seq<Link>, link: Link)
    requires
        forall|i: int| 0 <= i < links.len() ==> #[trigger] links[i].id < link.id,
    ensures
        without_id(links.push(link), link.id) == links,
{
    links.lemma_filter_push(link, id_is_not(link.id));
    lemma_filter_all(links, id_is_not(link.id));
}

proof fn lemma_undo_replace(links: Seq<Link>, link: Link)
    requires
        forall|i: int| 0 <= i < links.len() ==> #[trigger] links[i].id < link.id,
    ensures
        push_opt(without_id(replace_from(links, link).0, link.id), replace_from(links, link).1)
            .to_multiset() == links.to_multiset(),
        replace_from(links, link).1 is None ==> push_opt(
            without_id(replace_from(links, link).0, link.id),
            replace_from(links, link).1,
        ) == links,
{
    broadcast use vstd::seq_lib::group_to_multiset_ensures;
    broadcast use vstd::multiset::group_multiset_properties;

    lemma_first_index(links, link_from(link.from));
    match first_index(links, link_from(link.from)) {
        Some(k) => {
            lemma_remove_ids_below(links, k, link.id);
            lemma_without_new_id(links.remove(k), link);
            vstd::seq_lib::to_multiset_remove(links, k);
            assert(links.to_multiset().contains(links[k]));
            assert(links.to_multiset().remove(links[k]).insert(links[k]) =~= links.to_multiset());
        },
        None => {
            lemma_without_new_id(links, link);
        },
    }
}

/// Undoing a new link or flow link between an output and an input pin
/// gives back the links and flow links as the same collections; when no
/// link was replaced, in the same order.
pub proof fn lemma_undo_connect(g: GraphV, a: usize, b: usize)
    requires
        graph_wf(g),
        normalize_spec(g.nodes, a, b) is Some,
    ensures
        ({
            let e = connect_spec(g, a, b);
            let u = undo_spec(e);
            &&& u.nodes == g.nodes
            &&& u.timelines == g.timelines
            &&& u.links.to_multiset() == g.links.to_multiset()
            &&& u.flow_links.to_multiset() == g.flow_links.to_multiset()
            &&& (replace_from(g.links, Link { id: g.next_id, from: a, to: b }).1 is None
                && !g.flow_link_editing && normalize_spec(g.nodes, a, b) == Some((a, b))
                ==> u.links == g.links)
            &&& (replace_from(g.links, Link { id: g.next_id, from: b, to: a }).1 is None
                && !g.flow_link_editing && normalize_spec(g.nodes, a, b) == Some((b, a))
                ==> u.links == g.links)
            &&& u.done == g.done
        }),
{
    if let Some((from, to)) = normalize_spec(g.nodes, a, b) {
        let e = connect_spec(g, a, b);
        let link = Link { id: g.next_id, from, to };
        assert(e.done.drop_last() =~= g.done);
        if g.flow_link_editing {
            lemma_undo_replace(g.flow_links, link);
        } else {
            lemma_undo_replace(g.links, link);
        }
    }
}

/// Undoing the removal of a link or flow link that was there gives back the
/// graph's links and flow links in the same order.
pub proof fn lemma_undo_disconnect(g: GraphV, link_id: usize)
    requires
        graph_wf(g),
        g.links.len() <= usize::MAX,
        g.flow_links.len() <= usize::MAX,
        first_index(if g.flow_link_editing { g.flow_links } else { g.links }, link_with_id(link_id))
            is Some,
    ensures
        ({
            let u = undo_spec(disconnect_spec(g, link_id));
            &&& u.nodes == g.nodes
            &&& u.timelines == g.timelines
            &&& u.links == g.links
            &&& u.flow_links == g.flow_links
            &&& u.done == g.done
        }),
{
    let e = disconnect_spec(g, link_id);
    if g.flow_link_editing {
        lemma_first_index(g.flow_links, link_with_id(link_id));
        if let Some(i) = first_index(g.flow_links, link_with_id(link_id)) {
            assert(e.done.drop_last() =~= g.done);
            assert(g.flow_links.remove(i).insert(i, g.flow_links[i]) =~= g.flow_links);
        }
    } else {
        lemma_first_index(g.links, link_with_id(link_id));
        if let Some(i) = first_index(g.links, link_with_id(link_id)) {
            assert(e.done.drop_last() =~= g.done);
            assert(g.links.remove(i).insert(i, g.links[i]) =~= g.links);
        }
    }
}

/// Redoing an undone addition of a conversation node gives back the graph
/// as the addition left it.
pub proof fn lemma_redo_add_conversation(g: GraphV, name: Seq<char>)
    requires
        graph_wf(g),
    ensures
        redo_spec(undo_spec(add_conversation_spec(g, name))) == add_conversation_spec(g, name),
{
    let a = add_conversation_spec(g, name);
    let u = undo_spec(a);
    let r = redo_spec(u);
    assert(u.undone.drop_last() =~= a.undone);
    assert(a.done.drop_last().push(a.done.last()) =~= a.done);
    assert(a.nodes.drop_last().push(a.nodes.last()) =~= a.nodes);
    assert(a.timelines.remove(g.next_id).insert(g.next_id, empty_timeline()) =~= a.timelines);
    assert(r =~= a);
}

/// Redoing an undone addition of a choicer node gives back the graph as
/// the addition left it.
pub proof fn lemma_redo_add_choicer(g: GraphV, name: Seq<char>)
    requires
        graph_wf(g),
    ensures
        redo_spec(undo_spec(add_choicer_spec(g, name))) == add_choicer_spec(g, name),
{
    let a = add_choicer_spec(g, name);
    let u = undo_spec(a);
    let r = redo_spec(u);
    assert(u.undone.drop_last() =~= a.undone);
    assert(a.done.drop_last().push(a.done.last()) =~= a.done);
    assert(a.nodes.drop_last().push(a.nodes.last()) =~= a.nodes);
    assert(r =~= a);
}

proof fn lemma_not_joining_partition(links: Seq<Link>, pins: Seq<usize>)
    ensures
        not_joining(untouched(links, pins) + touching(links, pins), touching(links, pins))
            == untouched(links, pins),
{
    let keep = untouched(links, pins);
    let gone = touching(links, pins);
    let p = joins_none_of(gone);
    Seq::filter_distributes_over_add(keep, gone, p);
    assert forall|i: int| 0 <= i < keep.len() implies p(#[trigger] keep[i]) by {
        links.lemma_filter_pred(touches_none(pins), i);
        if exists|k: int| 0 <= k < gone.len() && #[trigger] gone[k].from == keep[i].from && gone[k].to == keep[i].to {
            let k = choose|k: int| 0 <= k < gone.len() && #[trigger] gone[k].from == keep[i].from && gone[k].to == keep[i].to;
            links.lemma_filter_pred(touches_some(pins), k);
        }
    }
    lemma_filter_all(keep, p);
    assert forall|i: int| 0 <= i < gone.len() implies !p(#[trigger] gone[i]) by {
        assert(gone[i].from == gone[i].from && gone[i].to == gone[i].to);
    }
    lemma_filter_none(gone, p);
    assert(keep + Seq::<Link>::empty() =~= keep);
}

/// Redoing an undone removal of a node gives back the graph as the removal
/// left it.
pub proof fn lemma_redo_delete_node(g: GraphV, index: usize)
    requires
        graph_wf(g),
        index < g.nodes.len(),
    ensures
        redo_spec(undo_spec(delete_node_spec(g, index))) == delete_node_spec(g, index),
{
    let a = delete_node_spec(g, index);
    let u = undo_spec(a);
    let r = redo_spec(u);
    let n = g.nodes[index as int];
    assert(u.undone.drop_last() =~= a.undone);
    assert(a.done.drop_last().push(a.done.last()) =~= a.done);
    assert(a.nodes.insert(index as int, n).remove(index as int) =~= a.nodes);
    if g.timelines.contains_key(n.id()) {
        assert(a.timelines.insert(n.id(), g.timelines[n.id()]).remove(n.id()) =~= a.timelines);
    }
    lemma_not_joining_partition(g.links, n.pins());
    lemma_not_joining_partition(g.flow_links, n.pins());
    assert(r =~= a);
}

/// Dropping the links with the id of the one at `i` drops only that one
/// when ids are distinct.
proof fn lemma_without_distinct_id(links: Seq<Link>, i: int)
    requires
        distinct_link_ids(links),
        0 <= i < links.len(),
    ensures
        without_id(links, links[i].id) == links.remove(i),
{
    let p = id_is_not(links[i].id);
    let pre = links.subrange(0, i);
    let mid = seq![links[i]];
    let post = links.subrange(i + 1, links.len() as int);
    assert(links =~= pre + mid + post);
    assert(links.remove(i) =~= pre + post);
    Seq::filter_distributes_over_add(pre + mid, post, p);
    Seq::filter_distributes_over_add(pre, mid, p);
    assert forall|k: int| 0 <= k < pre.len() implies p(#[trigger] pre[k]) by {
        assert(pre[k] == links[k]);
    }
    assert forall|k: int| 0 <= k < post.len() implies p(#[trigger] post[k]) by {
        assert(post[k] == links[i + 1 + k]);
    }
    lemma_filter_all(pre, p);
    lemma_filter_all(post, p);
    lemma_filter_none(mid, p);
    assert(pre + Seq::<Link>::empty() =~= pre);
}

proof fn lemma_distinct_move_last(links: Seq<Link>, k: int)
    requires
        distinct_link_ids(links),
        0 <= k < links.len(),
    ensures
        distinct_link_ids(links.remove(k).push(links[k])),
{
    let back = links.remove(k).push(links[k]);
    assert forall|x: int, y: int| 0 <= x < y < back.len() implies back[x].id != back[y].id by {
        let xi = if x < k {
            x
        } else {
            x + 1
        };
        let yi = if y == back.len() - 1 {
            k
        } else if y < k {
            y
        } else {
            y + 1
        };
        assert(back[x] == links[xi]);
        assert(back[y] == links[yi]);
    }
}

proof fn lemma_redo_replace_at(links: Seq<Link>, link: Link, k: int)
    requires
        forall|i: int| 0 <= i < links.len() ==> #[trigger] links[i].id < link.id,
        distinct_link_ids(links),
        0 <= k < links.len(),
    ensures
        without_id(links.remove(k).push(link), link.id) == links.remove(k),
        without_id(links.remove(k).push(links[k]), links[k].id) == links.remove(k),
{
    lemma_remove_ids_below(links, k, link.id);
    lemma_without_new_id(links.remove(k), link);
    let back = links.remove(k).push(links[k]);
    lemma_distinct_move_last(links, k);
    lemma_without_distinct_id(back, back.len() - 1);
    assert(back.remove(back.len() - 1) =~= links.remove(k));
}

proof fn lemma_redo_replace(links: Seq<Link>, link: Link)
    requires
        forall|i: int| 0 <= i < links.len() ==> #[trigger] links[i].id < link.id,
        distinct_link_ids(links),
    ensures
        ({
            let rest = replace_from(links, link).0;
            let replaced = replace_from(links, link).1;
            let back = push_opt(without_id(rest, link.id), replaced);
            match replaced {
                Some(r) => without_id(back, r.id),
                None => back,
            }.push(link) == rest
        }),
{
    lemma_first_index(links, link_from(link.from));
    match first_index(links, link_from(link.from)) {
        Some(k) => {
            lemma_redo_replace_at(links, link, k);
        },
        None => {
            lemma_without_new_id(links, link);
        },
    }
}

/// Redoing an undone new link or flow link gives back the graph as the
/// connection left it.
pub proof fn lemma_redo_connect(g: GraphV, a: usize, b: usize)
    requires
        graph_wf(g),
        normalize_spec(g.nodes, a, b) is Some,
    ensures
        redo_spec(undo_spec(connect_spec(g, a, b))) == connect_spec(g, a, b),
{
    lemma_graph_links_distinct(g);
    let e = connect_spec(g, a, b);
    let u = undo_spec(e);
    let r = redo_spec(u);
    let (from, to) = normalize_spec(g.nodes, a, b).unwrap();
    let link = Link { id: g.next_id, from, to };
    assert(u.undone.drop_last() =~= e.undone);
    assert(e.done.drop_last().push(e.done.last()) =~= e.done);
    if g.flow_link_editing {
        lemma_redo_replace(g.flow_links, link);
    } else {
        lemma_redo_replace(g.links, link);
    }
    assert(r =~= e);
}

/// Redoing an undone removal of a link or flow link gives back the graph as
/// the removal left it.
pub proof fn lemma_redo_disconnect(g: GraphV, link_id: usize)
    requires
        graph_wf(g),
        g.links.len() <= usize::MAX,
        g.flow_links.len() <= usize::MAX,
        first_index(if g.flow_link_editing { g.flow_links } else { g.links }, link_with_id(link_id))
            is Some,
    ensures
        redo_spec(undo_spec(disconnect_spec(g, link_id))) == disconnect_spec(g, link_id),
{
    lemma_graph_links_distinct(g);
    let e = disconnect_spec(g, link_id);
    let u = undo_spec(e);
    let r = redo_spec(u);
    let s = if g.flow_link_editing { g.flow_links } else { g.links };
    lemma_first_index(s, link_with_id(link_id));
    let i = first_index(s, link_with_id(link_id)).unwrap();
    assert(u.undone.drop_last() =~= e.undone);
    assert(e.done.drop_last().push(e.done.last()) =~= e.done);
    assert(s.remove(i).insert(i, s[i]) =~= s);
    lemma_without_distinct_id(s, i);
    assert(r =~= e);
}

// ------------------------------------------------------------------------
// Reading the graph
/// The node that the first link from `output` leads to: the first node
/// whose input pin is that link's input pin.
pub open spec fn follow_spec(links: Seq<Link>, nodes: Seq<NodeV>, output: usize) -> Option<int> {
    match first_index(links, link_from(output)) {
        Some(k) => first_index(nodes, has_input(links[k].to)),
        None => None,
    }
}

impl Graph {
    fn find_node_by_input(&self, pin: usize) -> (r: Option<usize>)
        ensures
            match r {
                Some(i) => first_index(self@.nodes, has_input(pin)) == Some(i as int) && i
                    < self@.nodes.len(),
                None => first_index(self@.nodes, has_input(pin)) is None,
            },
    {
        let ghost ns = self@.nodes;
        let mut i: usize = 0;
        while i < self.nodes.len()
            invariant
                i <= self.nodes@.len(),
                ns == nodes_view(self.nodes@),
                forall|j: int| 0 <= j < i ==> !has_input(pin)(#[trigger] ns[j]),
            decreases self.nodes@.len() - i,
        {
            if self.nodes[i].input() == pin {
                proof {
                    lemma_first_index_is(ns, has_input(pin), i as int);
                }
                return Some(i);
            }
            i = i + 1;
        }
        proof {
            lemma_first_index_is(ns, has_input(pin), i as int);
        }
        None
    }

    fn follow_index(&self, flow: bool, output: usize) -> (r: Option<usize>)
        ensures
            match r {
                Some(i) => follow_spec(
                    if flow {
                        self@.flow_links
                    } else {
                        self@.links
                    },
                    self@.nodes,
                    output,
                ) == Some(i as int) && i < self@.nodes.len(),
                None => follow_spec(
                    if flow {
                        self@.flow_links
                    } else {
                        self@.links
                    },
                    self@.nodes,
                    output,
                ) is None,
            },
    {
        let found = if flow {
            first_link_from(&self.flow_links, output)
        } else {
            first_link_from(&self.links, output)
        };
        match found {
            Some(k) => {
                let to = if flow {
                    self.flow_links[k].to
                } else {
                    self.links[k].to
                };
                self.find_node_by_input(to)
            },
            None => None,
        }
    }

    /// The node that the link from `output` leads to.
    pub fn follow(&self, output: usize) -> (r: Option<&Node>)
        ensures
            match follow_spec(self@.links, self@.nodes, output) {
                Some(i) => r matches Some(n) && n@ == self@.nodes[i],
                None => r is None,
            },
    {
        match self.follow_index(false, output) {
            Some(i) => Some(&self.nodes[i]),
            None => None,
        }
    }

    /// The node that the flow link from `output` leads to.
    pub fn flow_follow(&self, output: usize) -> (r: Option<&Node>)
        ensures
            match follow_spec(self@.flow_links, self@.nodes, output) {
                Some(i) => r matches Some(n) && n@ == self@.nodes[i],
                None => r is None,
            },
    {
        match self.follow_index(true, output) {
            Some(i) => Some(&self.nodes[i]),
            None => None,
        }
    }

    /// The id of the node selected in the editor.
    pub fn get_selected_node_id(&self) -> (r: Option<usize>)
        ensures
            r == self@.selected,
    {
        self.selected_node_id
    }

    /// The first node with id `id`.
    pub fn get_node_by_id(&self, id: usize) -> (r: Option<&Node>)
        ensures
            match first_index(self@.nodes, has_id(id)) {
                Some(i) => r matches Some(n) && n@ == self@.nodes[i],
                None => r is None,
            },
    {
        match self.find_node(id) {
            Some(i) => Some(&self.nodes[i]),
            None => None,
        }
    }

    /// The selected node, found by its id.
    pub fn get_selected_node(&self) -> (r: Option<&Node>)
        ensures
            match self@.selected {
                Some(id) => match first_index(self@.nodes, has_id(id)) {
                    Some(i) => r matches Some(n) && n@ == self@.nodes[i],
                    None => r is None,
                },
                None => r is None,
            },
    {
        match self.selected_node_id {
            Some(id) => self.get_node_by_id(id),
            None => None,
        }
    }

    /// The first node named `name`.
    pub fn get_node_by_name(&self, name: &str) -> (r: Option<&Node>)
        ensures
            match first_index(self@.nodes, has_name(name@)) {
                Some(i) => r matches Some(n) && n@ == self@.nodes[i],
                None => r is None,
            },
    {
        let ghost ns = self@.nodes;
        let mut i: usize = 0;
        while i < self.nodes.len()
            invariant
                i <= self.nodes@.len(),
                ns == nodes_view(self.nodes@),
                forall|j: int| 0 <= j < i ==> !has_name(name@)(#[trigger] ns[j]),
            decreases self.nodes@.len() - i,
        {
            if crate::text::str_eq(self.nodes[i].name().as_str(), name) {
                proof {
                    lemma_first_index_is(ns, has_name(name@), i as int);
                }
                return Some(&self.nodes[i]);
            }
            i = i + 1;
        }
        proof {
            lemma_first_index_is(ns, has_name(name@), i as int);
        }
        None
    }

    /// Whether the node with id `id` has a timeline.
    pub fn has_node_a_timeline(&self, id: usize) -> (r: bool)
        ensures
            r == self@.timelines.contains_key(id),
    {
        self.timelines.contains_key(&id)
    }

    /// The timeline of the selected node.
    pub fn get_selected_timeline(&self) -> (r: Option<&Timeline>)
        ensures
            match self@.selected {
                Some(id) => if self@.timelines.contains_key(id) {
                    r matches Some(t) && t@ == self@.timelines[id]
                } else {
                    r is None
                },
                None => r is None,
            },
    {
        match self.selected_node_id {
            Some(id) => self.timelines.get(&id),
            None => None,
        }
    }

    /// Removes the selected node, when there is one, as `delete_node`
    /// does.
    pub fn delete_selected_node(&mut self)
        requires
            graph_wf(old(self)@),
        ensures
            graph_wf(final(self)@),
            final(self)@ == match old(self)@.selected {
                Some(id) => match first_index(old(self)@.nodes, has_id(id)) {
                    Some(i) => delete_node_spec(old(self)@, i as usize),
                    None => old(self)@,
                },
                None => old(self)@,
            },
    {
        if let Some(id) = self.selected_node_id {
            if let Some(i) = self.find_node(id) {
                self.delete_node(i);
            }
        }
    }

    /// Gives the node with id `id` a new name.
    pub fn rename_node(&mut self, id: usize, name: String)
        requires
            graph_wf(old(self)@),
        ensures
            graph_wf(final(self)@),
            final(self)@ == match first_index(old(self)@.nodes, has_id(id)) {
                Some(i) => GraphV {
                    nodes: old(self)@.nodes.update(
                        i,
                        match old(self)@.nodes[i] {
                            NodeV::Conversation { id, input, output, .. } => NodeV::Conversation {
                                id,
                                name: name@,
                                input,
                                output,
                            },
                            NodeV::Choicer { id, options, input, outputs, .. } => NodeV::Choicer {
                                id,
                                name: name@,
                                options,
                                input,
                                outputs,
                            },
                        },
                    ),
                    ..old(self)@
                },
                None => old(self)@,
            },
    {
        let ghost g = self@;
        if let Some(i) = self.find_node(id) {
            let n = match &self.nodes[i] {
                Node::Conversation { id, input, output, .. } => Node::Conversation {
                    id: *id,
                    name,
                    input: *input,
                    output: *output,
                },
                Node::Choicer { id, options, input, outputs, .. } => Node::Choicer {
                    id: *id,
                    name,
                    options: clone_strings(options),
                    input: *input,
                    outputs: clone_pins(outputs),
                },
            };
            let ghost nb = self.nodes@;
            self.nodes.set(i, n);
            proof {
                lemma_nodes_update(nb, i as int, n);
                lemma_nodes_update_ids_below(g.nodes, i as int, n@, g.next_id);
                lemma_node_ids_update(g.nodes, i as int, n@);
                assert(node_pins_below(g.nodes[i as int], g.next_id));
                assert(n@.pins() == g.nodes[i as int].pins());
                lemma_pins_update(g.nodes, i as int, n@, g.next_id, g.next_id);
                lemma_graph_links_distinct(g);
                lemma_links_unrecorded(g, self@);
                lemma_unrecorded_keeps_wf(g, self@);
            }
        }
    }
}

// ------------------------------------------------------------------------
// Exporting the dialogs reachable from a node
/// Why an export failed.
#[derive(Debug, PartialEq, Eq)]
pub enum ExportError {
    /// No node has the id the export starts from.
    NodeNotFound,
    /// A conversation node that the export reached has no timeline.
    TimelineNotFound,
    /// A conversation node with a flow link exports to no dialog node at
    /// all, so the flow has nowhere to go.
    EmptyNode,
}

/// How exporting one node ends.
pub enum NodeExport {
    /// A timeline holds a `Next` block, which has no export.
    Stuck,
    Failed(ExportError),
    /// The node's name and dialog, and the positions of the nodes it leads
    /// to, in order.
    Exported(Seq<char>, DialogV, Seq<int>),
}

/// How an export ends.
pub enum ExportOutcome {
    Stuck,
    Failed(ExportError),
    /// The dialogs, named, in the order they were reached.
    Done(Seq<(Seq<char>, DialogV)>),
}

/// No container of the timeline holds a `Next` block.
pub open spec fn timeline_exportable(t: TimelineV) -> bool {
    forall|k: int| 0 <= k < t.containers.len() ==> exportable(#[trigger] t.containers[k])
}

/// The dialog nodes of a timeline: one per container, in order.
pub open spec fn timeline_nodes(t: TimelineV) -> Seq<DialogNodeV> {
    t.containers.map_values(|c: ContainerV| container_node(c))
}

/// The node the player's line jumps through to `target`.
pub open spec fn player_node(target: Seq<char>) -> DialogNodeV {
    DialogNodeV { label: "Player"@, events: seq![EventV::Jump(target)] }
}

/// The options `0..j` of a choicer that lead somewhere, each with a jump to
/// the node it leads to, and the positions of those nodes.
pub open spec fn choices_export(
    g: GraphV,
    options: Seq<Seq<char>>,
    outputs: Seq<usize>,
    j: int,
) -> (Seq<DialogNodeV>, Seq<int>)
    decreases j,
{
    if j <= 0 {
        (seq![], seq![])
    } else {
        let (cs, ps) = choices_export(g, options, outputs, j - 1);
        match follow_spec(g.links, g.nodes, outputs[j - 1]) {
            Some(k) => (
                cs.push(
                    DialogNodeV { label: options[j - 1], events: seq![EventV::Jump(g.nodes[k].name())] },
                ),
                ps.push(k),
            ),
            None => (cs, ps),
        }
    }
}

/// The `r`-th exported option is option `m`: its label, and a jump to the
/// node that option `m`'s own output pin leads to, which is queued.
pub open spec fn option_exported(
    g: GraphV,
    options: Seq<Seq<char>>,
    outputs: Seq<usize>,
    cs: Seq<DialogNodeV>,
    ps: Seq<int>,
    r: int,
    m: int,
) -> bool {
    &&& 0 <= r < cs.len()
    &&& r < ps.len()
    &&& follow_spec(g.links, g.nodes, outputs[m]) == Some(ps[r])
    &&& cs[r].label == options[m]
    &&& cs[r].events == seq![EventV::Jump(g.nodes[ps[r]].name())]
}

proof fn lemma_choices_len(g: GraphV, options: Seq<Seq<char>>, outputs: Seq<usize>, j: int)
    ensures
        choices_export(g, options, outputs, j).0.len() == choices_export(g, options, outputs, j).1.len(),
    decreases j,
{
    if j > 0 {
        lemma_choices_len(g, options, outputs, j - 1);
    }
}

/// The export of options `0..j` only grows with `j`: what options `0..j`
/// export stands first in what options `0..j + 1` export.
proof fn lemma_choices_prefix(g: GraphV, options: Seq<Seq<char>>, outputs: Seq<usize>, j: int)
    requires
        0 < j <= outputs.len(),
    ensures
        ({
            let cs0 = choices_export(g, options, outputs, j - 1).0;
            let ps0 = choices_export(g, options, outputs, j - 1).1;
            let cs = choices_export(g, options, outputs, j).0;
            let ps = choices_export(g, options, outputs, j).1;
            &&& cs0.len() <= cs.len()
            &&& forall|r: int, m: int|
                #[trigger] option_exported(g, options, outputs, cs0, ps0, r, m) ==> option_exported(
                    g,
                    options,
                    outputs,
                    cs,
                    ps,
                    r,
                    m,
                )
            &&& follow_spec(g.links, g.nodes, outputs[j - 1]) is Some ==> cs.len() == cs0.len() + 1
                && option_exported(g, options, outputs, cs, ps, cs0.len() as int, j - 1)
            &&& follow_spec(g.links, g.nodes, outputs[j - 1]) is None ==> cs == cs0 && ps == ps0
        }),
{
    let cs0 = choices_export(g, options, outputs, j - 1).0;
            let ps0 = choices_export(g, options, outputs, j - 1).1;
    let cs = choices_export(g, options, outputs, j).0;
            let ps = choices_export(g, options, outputs, j).1;
    lemma_choices_len(g, options, outputs, j - 1);
    lemma_choices_len(g, options, outputs, j);
    assert forall|r: int, m: int|
        #[trigger] option_exported(g, options, outputs, cs0, ps0, r, m) implies option_exported(
        g,
        options,
        outputs,
        cs,
        ps,
        r,
        m,
    ) by {
        if follow_spec(g.links, g.nodes, outputs[j - 1]) is Some {
            assert(cs[r] == cs0[r]);
            assert(ps[r] == ps0[r]);
        }
    }
}

/// Every option of a choicer whose own output pin leads to a node is
/// exported, with its label and a jump to that node's name, and that node
/// is queued next to it.
pub proof fn lemma_options_with_targets_exported(
    g: GraphV,
    options: Seq<Seq<char>>,
    outputs: Seq<usize>,
    j: int,
)
    requires
        0 <= j <= outputs.len(),
    ensures
        ({
            let cs = choices_export(g, options, outputs, j).0;
            let ps = choices_export(g, options, outputs, j).1;
            &&& cs.len() == ps.len()
            &&& forall|m: int|
                0 <= m < j && #[trigger] follow_spec(g.links, g.nodes, outputs[m]) is Some
                    ==> exists|r: int| option_exported(g, options, outputs, cs, ps, r, m)
        }),
    decreases j,
{
    lemma_choices_len(g, options, outputs, j);
    if j > 0 {
        lemma_options_with_targets_exported(g, options, outputs, j - 1);
        lemma_choices_prefix(g, options, outputs, j);
        let cs0 = choices_export(g, options, outputs, j - 1).0;
            let ps0 = choices_export(g, options, outputs, j - 1).1;
        let cs = choices_export(g, options, outputs, j).0;
            let ps = choices_export(g, options, outputs, j).1;
        assert forall|m: int|
            0 <= m < j && #[trigger] follow_spec(g.links, g.nodes, outputs[m]) is Some implies exists|r: int|
            option_exported(g, options, outputs, cs, ps, r, m) by {
            if m == j - 1 {
                assert(option_exported(g, options, outputs, cs, ps, cs0.len() as int, j - 1));
            } else {
                let r = choose|r: int| option_exported(g, options, outputs, cs0, ps0, r, m);
                assert(option_exported(g, options, outputs, cs, ps, r, m));
            }
        }
    }
}

/// The `r`-th exported option is one of the options `0..j`.
pub open spec fn exported_from_option(
    g: GraphV,
    options: Seq<Seq<char>>,
    outputs: Seq<usize>,
    cs: Seq<DialogNodeV>,
    ps: Seq<int>,
    r: int,
    j: int,
) -> bool {
    exists|m: int| 0 <= m < j && #[trigger] option_exported(g, options, outputs, cs, ps, r, m)
}

/// Every exported option of a choicer is one of its options, exported
/// with its label and a jump to where its own output pin leads.
pub proof fn lemma_exported_options_follow_own_pin(
    g: GraphV,
    options: Seq<Seq<char>>,
    outputs: Seq<usize>,
    j: int,
)
    requires
        0 <= j <= outputs.len(),
    ensures
        forall|r: int|
            0 <= r < choices_export(g, options, outputs, j).0.len() ==> #[trigger] exported_from_option(
                g,
                options,
                outputs,
                choices_export(g, options, outputs, j).0,
                choices_export(g, options, outputs, j).1,
                r,
                j,
            ),
    decreases j,
{
    if j > 0 {
        lemma_exported_options_follow_own_pin(g, options, outputs, j - 1);
        lemma_choices_prefix(g, options, outputs, j);
        let cs0 = choices_export(g, options, outputs, j - 1).0;
        let ps0 = choices_export(g, options, outputs, j - 1).1;
        let cs = choices_export(g, options, outputs, j).0;
        let ps = choices_export(g, options, outputs, j).1;
        assert forall|r: int| 0 <= r < cs.len() implies #[trigger] exported_from_option(
            g,
            options,
            outputs,
            cs,
            ps,
            r,
            j,
        ) by {
            if r < cs0.len() {
                assert(exported_from_option(g, options, outputs, cs0, ps0, r, j - 1));
                let m = choose|m: int|
                    0 <= m < j - 1 && #[trigger] option_exported(g, options, outputs, cs0, ps0, r, m);
                assert(option_exported(g, options, outputs, cs, ps, r, m));
            } else {
                assert(option_exported(g, options, outputs, cs, ps, r, j - 1));
            }
        }
    }
}

/// A choicer exports under its name, as a choicer, exactly its options
/// (zipped with their output pins) whose own pin leads to a node: each
/// with its label and a jump to that node's name, that node queued next
/// to it, and nothing else.
pub proof fn lemma_choicer_export(g: GraphV, p: int)
    requires
        0 <= p < g.nodes.len(),
        g.nodes[p] is Choicer,
    ensures
        ({
            let n = g.nodes[p];
            let options = n->Choicer_options;
            let outputs = n->Choicer_outputs;
            let len = if options.len() <= outputs.len() {
                options.len() as int
            } else {
                outputs.len() as int
            };
            node_export(g, p) matches NodeExport::Exported(name, DialogV::Choicer(cs), ps) && name
                == n.name() && cs.len() == ps.len() && (forall|m: int|
                0 <= m < len && #[trigger] follow_spec(g.links, g.nodes, outputs[m]) is Some
                    ==> exists|r: int| option_exported(g, options, outputs, cs, ps, r, m)) && (
            forall|r: int|
                0 <= r < cs.len() ==> #[trigger] exported_from_option(
                    g,
                    options,
                    outputs,
                    cs,
                    ps,
                    r,
                    len,
                ))
        }),
{
    let n = g.nodes[p];
    let options = n->Choicer_options;
    let outputs = n->Choicer_outputs;
    let len = if options.len() <= outputs.len() {
        options.len() as int
    } else {
        outputs.len() as int
    };
    lemma_options_with_targets_exported(g, options, outputs, len);
    lemma_exported_options_follow_own_pin(g, options, outputs, len);
}

/// A conversation with an exportable timeline exports under its name its
/// timeline's nodes, in order, then, when its output pin's link leads to
/// a node, a player line that jumps to that node's name, and that node is
/// queued; when its output pin's flow link leads to a node, the first node
/// exported starts by setting that node's name as the main choicer (and
/// with no node at all that is an error). Without a timeline it fails.
pub proof fn lemma_conversation_export(g: GraphV, p: int)
    requires
        0 <= p < g.nodes.len(),
        g.nodes[p] is Conversation,
    ensures
        ({
            let n = g.nodes[p];
            let id = n.id();
            let output = n->Conversation_output;
            let linked = follow_spec(g.links, g.nodes, output);
            let flowed = follow_spec(g.flow_links, g.nodes, output);
            let e = node_export(g, p);
            &&& !g.timelines.contains_key(id) ==> e == NodeExport::Failed(
                ExportError::TimelineNotFound,
            )
            &&& g.timelines.contains_key(id) && timeline_exportable(g.timelines[id]) ==> {
                let base = timeline_nodes(g.timelines[id]);
                let count = base.len() + if linked is Some {
                    1int
                } else {
                    0int
                };
                if flowed is Some && count == 0 {
                    e == NodeExport::Failed(ExportError::EmptyNode)
                } else {
                    e matches NodeExport::Exported(name, DialogV::Conversation(ns), pushed) && name
                        == n.name() && ns.len() == count && (forall|k: int|
                        0 < k < base.len() ==> #[trigger] ns[k] == base[k]) && (linked matches Some(
                        t,
                    ) ==> pushed == seq![t] && ns[count - 1].label == "Player"@ && ns[count
                        - 1].events.last() == EventV::Jump(g.nodes[t].name())) && (linked is None
                        ==> pushed == Seq::<int>::empty()) && (flowed matches Some(f) ==> ns[0].events
                        == seq![EventV::SetMainChoicer(g.nodes[f].name())] + (if base.len() > 0 {
                        base[0]
                    } else {
                        player_node(g.nodes[linked.unwrap()].name())
                    }).events && ns[0].label == (if base.len() > 0 {
                        base[0]
                    } else {
                        player_node(g.nodes[linked.unwrap()].name())
                    }).label) && (flowed is None && base.len() > 0 ==> ns[0] == base[0])
                }
            }
        }),
{
    let n = g.nodes[p];
    let id = n.id();
    let output = n->Conversation_output;
    if g.timelines.contains_key(id) && timeline_exportable(g.timelines[id]) {
        let base = timeline_nodes(g.timelines[id]);
        let linked = follow_spec(g.links, g.nodes, output);
        let flowed = follow_spec(g.flow_links, g.nodes, output);
        let nodes = match linked {
            Some(k) => base.push(player_node(g.nodes[k].name())),
            None => base,
        };
        if let Some(t) = linked {
            let pn = player_node(g.nodes[t].name());
            assert(pn.events.last() == EventV::Jump(g.nodes[t].name()));
            if let Some(f) = flowed {
                if base.len() == 0 {
                    let ev = seq![EventV::SetMainChoicer(g.nodes[f].name())] + pn.events;
                    assert(ev.last() == EventV::Jump(g.nodes[t].name()));
                }
            }
        }
    }
}

/// The export of the node at position `p`. A conversation exports its
/// timeline, then a player node that jumps where its link leads, and its
/// first node starts by setting the main choicer where its flow link
/// leads. A choicer exports its options that lead somewhere.
pub open spec fn node_export(g: GraphV, p: int) -> NodeExport {
    match g.nodes[p] {
        NodeV::Conversation { id, name, output, .. } => if !g.timelines.contains_key(id) {
            NodeExport::Failed(ExportError::TimelineNotFound)
        } else if !timeline_exportable(g.timelines[id]) {
            NodeExport::Stuck
        } else {
            let base = timeline_nodes(g.timelines[id]);
            let (nodes, pushed) = match follow_spec(g.links, g.nodes, output) {
                Some(k) => (base.push(player_node(g.nodes[k].name())), seq![k]),
                None => (base, Seq::<int>::empty()),
            };
            match follow_spec(g.flow_links, g.nodes, output) {
                Some(k) => if nodes.len() == 0 {
                    NodeExport::Failed(ExportError::EmptyNode)
                } else {
                    NodeExport::Exported(
                        name,
                        DialogV::Conversation(
                            nodes.update(
                                0,
                                DialogNodeV {
                                    label: nodes[0].label,
                                    events: seq![EventV::SetMainChoicer(g.nodes[k].name())]
                                        + nodes[0].events,
                                },
                            ),
                        ),
                        pushed,
                    )
                },
                None => NodeExport::Exported(name, DialogV::Conversation(nodes), pushed),
            }
        },
        NodeV::Choicer { name, options, outputs, .. } => {
            let n = if options.len() <= outputs.len() {
                options.len()
            } else {
                outputs.len()
            };
            let (cs, ps) = choices_export(g, options, outputs, n as int);
            NodeExport::Exported(name, DialogV::Choicer(cs), ps)
        },
    }
}

pub open spec fn not_visited(visited: Seq<usize>) -> spec_fn(NodeV) -> bool {
    |n: NodeV| !visited.contains(n.id())
}

/// How many nodes have an id not yet visited.
pub open spec fn unvisited_count(nodes: Seq<NodeV>, visited: Seq<usize>) -> nat {
    nodes.filter(not_visited(visited)).len()
}

pub proof fn lemma_filter_len_le<A>(s: Seq<A>, p: spec_fn(A) -> bool, q: spec_fn(A) -> bool)
    requires
        forall|i: int| 0 <= i < s.len() && q(#[trigger] s[i]) ==> p(s[i]),
    ensures
        s.filter(q).len() <= s.filter(p).len(),
        (exists|i: int| 0 <= i < s.len() && p(#[trigger] s[i]) && !q(s[i])) ==> s.filter(q).len()
            < s.filter(p).len(),
    decreases s.len(),
{
    if s.len() == 0 {
        reveal(Seq::filter);
    } else {
        let t = s.drop_last();
        lemma_filter_len_le(t, p, q);
        t.lemma_filter_push(s.last(), p);
        t.lemma_filter_push(s.last(), q);
        assert(t.push(s.last()) =~= s);
        if exists|i: int| 0 <= i < s.len() && p(#[trigger] s[i]) && !q(s[i]) {
            let i = choose|i: int| 0 <= i < s.len() && p(#[trigger] s[i]) && !q(s[i]);
            if i < t.len() {
                assert(t[i] == s[i]);
            }
        }
    }
}

pub proof fn lemma_unvisited_decreases(nodes: Seq<NodeV>, visited: Seq<usize>, p: int)
    requires
        0 <= p < nodes.len(),
        !visited.contains(nodes[p].id()),
    ensures
        unvisited_count(nodes, visited.push(nodes[p].id())) < unvisited_count(nodes, visited),
{
    let v2 = visited.push(nodes[p].id());
    assert forall|i: int| 0 <= i < nodes.len() && not_visited(v2)(#[trigger] nodes[i]) implies not_visited(
        visited,
    )(nodes[i]) by {
        if visited.contains(nodes[i].id()) {
            let k = choose|k: int| 0 <= k < visited.len() && visited[k] == nodes[i].id();
            assert(v2[k] == nodes[i].id());
        }
    }
    assert(!not_visited(v2)(nodes[p])) by {
        assert(v2[visited.len() as int] == nodes[p].id());
    }
    lemma_filter_len_le(nodes, not_visited(visited), not_visited(v2));
}

/// The export that goes on from a queue of node positions, the node ids
/// already visited and the dialogs exported so far: each queued node not
/// yet visited is exported and queues the nodes it leads to.
pub open spec fn export_bfs(
    g: GraphV,
    queue: Seq<int>,
    visited: Seq<usize>,
    out: Seq<(Seq<char>, DialogV)>,
) -> ExportOutcome
    decreases unvisited_count(g.nodes, visited), queue.len(),
{
    if queue.len() == 0 {
        ExportOutcome::Done(out)
    } else {
        let p = queue[0];
        if !(0 <= p < g.nodes.len()) || visited.contains(g.nodes[p].id()) {
            export_bfs(g, queue.drop_first(), visited, out)
        } else {
            match node_export(g, p) {
                NodeExport::Stuck => ExportOutcome::Stuck,
                NodeExport::Failed(e) => ExportOutcome::Failed(e),
                NodeExport::Exported(name, d, pushed) => {
                    proof {
                        lemma_unvisited_decreases(g.nodes, visited, p);
                    }
                    export_bfs(
                        g,
                        queue.drop_first() + pushed,
                        visited.push(g.nodes[p].id()),
                        out.push((name, d)),
                    )
                },
            }
        }
    }
}

/// The nodes that the export of the node at `p` queues next.
pub open spec fn pushed_of(g: GraphV, p: int) -> Seq<int> {
    match node_export(g, p) {
        NodeExport::Exported(_, _, pushed) => pushed,
        _ => seq![],
    }
}

/// The named dialog that the node at `p` exports, when it exports one.
pub open spec fn entry_of(g: GraphV, p: int) -> Option<(Seq<char>, DialogV)> {
    match node_export(g, p) {
        NodeExport::Exported(name, d, _) => Some((name, d)),
        _ => None,
    }
}

/// Some entry before `r` queues the node at `p`.
pub open spec fn queued_by_earlier(g: GraphV, ps: Seq<int>, p: int, r: int) -> bool {
    exists|q: int| 0 <= q < r && q < ps.len() && #[trigger] pushed_of(g, ps[q]).contains(p)
}

/// `out` is the export of the nodes at `ps`, in order: the first is
/// `start`, each later one is queued by an earlier one, and no node comes
/// twice.
pub open spec fn export_traced(g: GraphV, start: int, out: Seq<(Seq<char>, DialogV)>, ps: Seq<int>) -> bool {
    &&& ps.len() == out.len()
    &&& forall|r: int|
        0 <= r < ps.len() ==> 0 <= #[trigger] ps[r] < g.nodes.len() && entry_of(g, ps[r]) == Some(
            out[r],
        )
    &&& ps.len() > 0 ==> ps[0] == start
    &&& forall|r: int| 0 < r < ps.len() ==> #[trigger] queued_by_earlier(g, ps, ps[r], r)
    &&& forall|r1: int, r2: int|
        0 <= r1 < r2 < ps.len() ==> g.nodes[#[trigger] ps[r1]].id() != g.nodes[#[trigger] ps[r2]].id()
}

proof fn lemma_export_bfs_traced(
    g: GraphV,
    start: int,
    queue: Seq<int>,
    visited: Seq<usize>,
    out: Seq<(Seq<char>, DialogV)>,
    ps: Seq<int>,
)
    requires
        export_traced(g, start, out, ps),
        visited.len() == ps.len(),
        forall|r: int| 0 <= r < ps.len() ==> visited[r] == g.nodes[#[trigger] ps[r]].id(),
        out.len() > 0,
        forall|i: int|
            0 <= i < queue.len() ==> #[trigger] queued_by_earlier(g, ps, queue[i], ps.len() as int),
    ensures
        export_bfs(g, queue, visited, out) matches ExportOutcome::Done(o) ==> o.len() >= out.len()
            && exists|ps2: Seq<int>| #[trigger] export_traced(g, start, o, ps2),
    decreases unvisited_count(g.nodes, visited), queue.len(),
{
    if queue.len() > 0 {
        let p = queue[0];
        if !(0 <= p < g.nodes.len()) || visited.contains(g.nodes[p].id()) {
            assert forall|i: int|
                0 <= i < queue.drop_first().len() implies #[trigger] queued_by_earlier(
                g,
                ps,
                queue.drop_first()[i],
                ps.len() as int,
            ) by {
                assert(queue.drop_first()[i] == queue[i + 1]);
                assert(queued_by_earlier(g, ps, queue[i + 1], ps.len() as int));
            }
            lemma_export_bfs_traced(g, start, queue.drop_first(), visited, out, ps);
        } else {
            match node_export(g, p) {
                NodeExport::Exported(name, d, pushed) => {
                    lemma_unvisited_decreases(g.nodes, visited, p);
                    let q2 = queue.drop_first() + pushed;
                    let v2 = visited.push(g.nodes[p].id());
                    let o2 = out.push((name, d));
                    let ps2 = ps.push(p);
                    assert forall|x: int, r: int|
                        #[trigger] queued_by_earlier(g, ps, x, r) implies queued_by_earlier(
                        g,
                        ps2,
                        x,
                        r,
                    ) by {
                        let q = choose|q: int|
                            0 <= q < r && q < ps.len() && #[trigger] pushed_of(g, ps[q]).contains(x);
                        assert(ps2[q] == ps[q]);
                    }
                    assert forall|r: int|
                        0 <= r < ps2.len() implies 0 <= #[trigger] ps2[r] < g.nodes.len() && entry_of(
                        g,
                        ps2[r],
                    ) == Some(o2[r]) by {
                        if r < ps.len() {
                            assert(ps2[r] == ps[r]);
                            assert(o2[r] == out[r]);
                        }
                    }
                    assert forall|r: int| 0 < r < ps2.len() implies #[trigger] queued_by_earlier(
                        g,
                        ps2,
                        ps2[r],
                        r,
                    ) by {
                        if r < ps.len() {
                            assert(ps2[r] == ps[r]);
                            assert(queued_by_earlier(g, ps, ps[r], r));
                        } else {
                            assert(queue[0] == p);
                            assert(queued_by_earlier(g, ps, p, ps.len() as int));
                        }
                    }
                    assert forall|r1: int, r2: int| 0 <= r1 < r2 < ps2.len() implies g.nodes[
                    #[trigger] ps2[r1]].id() != g.nodes[#[trigger] ps2[r2]].id() by {
                        assert(ps2[r1] == ps[r1]);
                        if r2 == ps.len() {
                            assert(visited[r1] == g.nodes[ps[r1]].id());
                            assert(visited.contains(visited[r1]));
                        } else {
                            assert(ps2[r2] == ps[r2]);
                        }
                    }
                    assert(export_traced(g, start, o2, ps2));
                    assert forall|r: int| 0 <= r < ps2.len() implies v2[r] == g.nodes[
                    #[trigger] ps2[r]].id() by {
                        if r < ps.len() {
                            assert(ps2[r] == ps[r]);
                        }
                    }
                    assert forall|i: int|
                        0 <= i < q2.len() implies #[trigger] queued_by_earlier(g, ps2, q2[i], ps2.len() as int) by {
                        if i < queue.drop_first().len() {
                            assert(q2[i] == queue[i + 1]);
                            assert(queued_by_earlier(g, ps, queue[i + 1], ps.len() as int));
                        } else {
                            assert(q2[i] == pushed[i - queue.drop_first().len()]);
                            assert(pushed_of(g, ps2[ps.len() as int]) == pushed);
                            assert(pushed_of(g, ps2[ps.len() as int]).contains(q2[i]));
                        }
                    }
                    lemma_export_bfs_traced(g, start, q2, v2, o2, ps2);
                },
                _ => {},
            }
        }
    } else {
        assert(export_traced(g, start, out, ps));
    }
}

/// The export from a node, when it completes, is the export of the node
/// itself first and then of nodes each queued by the export of an earlier
/// one, that is joined to it by a link from a conversation's output or a
/// choicer's option, breadth first, each node at most once.
pub proof fn lemma_export_reaches(g: GraphV, id: usize)
    ensures
        export_spec(g, id) matches ExportOutcome::Done(o) ==> first_index(g.nodes, has_id(id)) is Some
            && o.len() > 0 && exists|ps: Seq<int>|
            #[trigger] export_traced(g, first_index(g.nodes, has_id(id)).unwrap(), o, ps),
{
    lemma_first_index(g.nodes, has_id(id));
    if let Some(p0) = first_index(g.nodes, has_id(id)) {
        let e = Seq::<(Seq<char>, DialogV)>::empty();
        let ee = Seq::<int>::empty();
        let ev = Seq::<usize>::empty();
        assert(!ev.contains(g.nodes[p0].id()));
        match node_export(g, p0) {
            NodeExport::Exported(name, d, pushed) => {
                lemma_unvisited_decreases(g.nodes, ev, p0);
                let q2 = seq![p0].drop_first() + pushed;
                let o1 = e.push((name, d));
                let ps1 = ee.push(p0);
                let v1 = ev.push(g.nodes[p0].id());
                assert(export_traced(g, p0, o1, ps1));
                assert forall|i: int|
                    0 <= i < q2.len() implies #[trigger] queued_by_earlier(g, ps1, q2[i], ps1.len() as int) by {
                    assert(q2[i] == pushed[i]);
                    assert(pushed_of(g, ps1[0]).contains(q2[i]));
                }
                lemma_export_bfs_traced(g, p0, q2, v1, o1, ps1);
            },
            _ => {},
        }
    }
}

/// `export_to_dialog`: the dialogs reachable from the first node with id
/// `id`, breadth first.
pub open spec fn export_spec(g: GraphV, id: usize) -> ExportOutcome {
    match first_index(g.nodes, has_id(id)) {
        Some(p) => export_bfs(g, seq![p], seq![], seq![]),
        None => ExportOutcome::Failed(ExportError::NodeNotFound),
    }
}

pub open spec fn as_ints(v: Seq<usize>) -> Seq<int> {
    v.map_values(|x: usize| x as int)
}

pub open spec fn named_dialogs_view(v: Seq<(String, Dialog)>) -> Seq<(Seq<char>, DialogV)> {
    v.map_values(|e: (String, Dialog)| (e.0@, e.1@))
}

pub open spec fn opt_pos(k: Option<usize>) -> Seq<int> {
    match k {
        Some(k) => seq![k as int],
        None => Seq::<int>::empty(),
    }
}

impl Graph {
    fn export_choices(&self, options: &Vec<String>, outputs: &Vec<usize>) -> (r: (
        Vec<DialogNode>,
        Vec<usize>,
    ))
        ensures
            ({
                let n = if options@.len() <= outputs@.len() {
                    options@.len()
                } else {
                    outputs@.len()
                };
                (crate::dialog::parser::nodes_view(r.0@), as_ints(r.1@)) == choices_export(
                    self@,
                    strings_view(options@),
                    outputs@,
                    n as int,
                )
            }),
            forall|i: int| 0 <= i < r.1@.len() ==> #[trigger] r.1@[i] < self@.nodes.len(),
    {
        let n = if options.len() <= outputs.len() {
            options.len()
        } else {
            outputs.len()
        };
        let ghost g = self@;
        let ghost opts = strings_view(options@);
        let mut cs: Vec<DialogNode> = Vec::new();
        let mut ps: Vec<usize> = Vec::new();
        let mut j: usize = 0;
        while j < n
            invariant
                j <= n,
                n <= options@.len(),
                n <= outputs@.len(),
                g == self@,
                opts == strings_view(options@),
                (crate::dialog::parser::nodes_view(cs@), as_ints(ps@)) == choices_export(
                    g,
                    opts,
                    outputs@,
                    j as int,
                ),
                forall|i: int| 0 <= i < ps@.len() ==> #[trigger] ps@[i] < g.nodes.len(),
            decreases n - j,
        {
            match self.follow_index(false, outputs[j]) {
                Some(k) => {
                    let e = Event::Jump(self.nodes[k].name().clone());
                    let node = DialogNode { label: options[j].clone(), events: vec![e] };
                    proof {
                        assert(node@.events =~= seq![EventV::Jump(g.nodes[k as int].name())]);
                        assert(crate::dialog::parser::nodes_view(cs@.push(node))
                            =~= crate::dialog::parser::nodes_view(cs@).push(node@));
                        assert(as_ints(ps@.push(k)) =~= as_ints(ps@).push(k as int));
                    }
                    cs.push(node);
                    ps.push(k);
                },
                None => {},
            }
            j = j + 1;
        }
        (cs, ps)
    }

    fn export_conversation(&self, id: usize, output: usize) -> (r: Result<
        (Dialog, Option<usize>),
        ExportError,
    >)
        requires
            !self@.timelines.contains_key(id) || timeline_exportable(self@.timelines[id]),
        ensures
            !self@.timelines.contains_key(id) ==> r == Err::<(Dialog, Option<usize>), ExportError>(
                ExportError::TimelineNotFound,
            ),
            self@.timelines.contains_key(id) ==> ({
                let base = timeline_nodes(self@.timelines[id]);
                let (nodes, pushed) = match follow_spec(self@.links, self@.nodes, output) {
                    Some(k) => (base.push(player_node(self@.nodes[k].name())), seq![k]),
                    None => (base, Seq::<int>::empty()),
                };
                match follow_spec(self@.flow_links, self@.nodes, output) {
                    Some(k) => if nodes.len() == 0 {
                        r == Err::<(Dialog, Option<usize>), ExportError>(ExportError::EmptyNode)
                    } else {
                        r matches Ok((d, q)) && d@ == DialogV::Conversation(
                            nodes.update(
                                0,
                                DialogNodeV {
                                    label: nodes[0].label,
                                    events: seq![EventV::SetMainChoicer(self@.nodes[k].name())]
                                        + nodes[0].events,
                                },
                            ),
                        ) && opt_pos(q) == pushed
                    },
                    None => r matches Ok((d, q)) && d@ == DialogV::Conversation(nodes) && opt_pos(q)
                        == pushed,
                }
            }),
            r matches Ok((_, Some(k))) ==> k < self@.nodes.len(),
    {
        let ghost g = self@;
        let timeline = match self.timelines.get(&id) {
            Some(t) => t,
            None => {
                return Err(ExportError::TimelineNotFound);
            },
        };
        let dialog = timeline.export_to_dialog();
        let mut nodes = match dialog {
            Dialog::Conversation(nodes) => nodes,
            Dialog::Choicer(nodes) => {
                proof {
                    assert(false);
                }
                nodes
            },
        };
        let ghost base = crate::dialog::parser::nodes_view(nodes@);
        assert(base =~= timeline_nodes(g.timelines[id]));
        let next = self.follow_index(false, output);
        if let Some(k) = next {
            let node = DialogNode {
                label: "Player".to_owned(),
                events: vec![Event::Jump(self.nodes[k].name().clone())],
            };
            proof {
                assert(node@.events =~= seq![EventV::Jump(g.nodes[k as int].name())]);
                assert(crate::dialog::parser::nodes_view(nodes@.push(node))
                    =~= crate::dialog::parser::nodes_view(nodes@).push(node@));
            }
            nodes.push(node);
        }
        let ghost with_jump = crate::dialog::parser::nodes_view(nodes@);
        if let Some(k) = self.follow_index(true, output) {
            if nodes.len() == 0 {
                return Err(ExportError::EmptyNode);
            }
            let first = nodes.remove(0);
            let mut events = first.events;
            let ghost evb = events@;
            events.insert(0, Event::SetMainChoicer(self.nodes[k].name().clone()));
            let node = DialogNode { label: first.label, events };
            proof {
                assert(crate::dialog::parser::events_view(events@) =~= seq![
                    EventV::SetMainChoicer(g.nodes[k as int].name()),
                ] + crate::dialog::parser::events_view(evb));
            }
            let ghost mid = nodes@;
            nodes.insert(0, node);
            proof {
                assert(crate::dialog::parser::nodes_view(nodes@) =~= with_jump.update(0, node@));
            }
        }
        Ok((Dialog::Conversation(nodes), next))
    }
}

impl Graph {
    /// The dialogs reachable from the node with id `id`, named after their
    /// nodes, breadth first from it: each node once, a conversation through
    /// its link and a choicer through each option's link.
    pub fn export_to_dialog(&self, id: usize) -> (r: Result<Vec<(String, Dialog)>, ExportError>)
        requires
            !(export_spec(self@, id) is Stuck),
        ensures
            match export_spec(self@, id) {
                ExportOutcome::Done(ds) => r matches Ok(v) && named_dialogs_view(v@) == ds,
                ExportOutcome::Failed(e) => r == Err::<Vec<(String, Dialog)>, ExportError>(e),
                ExportOutcome::Stuck => false,
            },
    {
        let ghost g = self@;
        let start = match self.find_node(id) {
            Some(p) => p,
            None => {
                return Err(ExportError::NodeNotFound);
            },
        };
        let mut queue: Vec<usize> = vec![start];
        let mut head: usize = 0;
        let mut visited: Vec<usize> = Vec::new();
        let mut out: Vec<(String, Dialog)> = Vec::new();
        proof {
            assert(as_ints(queue@).subrange(0, 1) =~= seq![start as int]);
            assert(named_dialogs_view(out@) =~= Seq::<(Seq<char>, DialogV)>::empty());
            assert(visited@ =~= Seq::<usize>::empty());
        }
        while head < queue.len()
            invariant
                g == self@,
                head <= queue@.len(),
                forall|i: int| 0 <= i < queue@.len() ==> #[trigger] queue@[i] < g.nodes.len(),
                export_bfs(
                    g,
                    as_ints(queue@).subrange(head as int, queue@.len() as int),
                    visited@,
                    named_dialogs_view(out@),
                ) == export_spec(g, id),
                !(export_spec(g, id) is Stuck),
            decreases unvisited_count(g.nodes, visited@), queue@.len() - head,
        {
            let ghost q = as_ints(queue@).subrange(head as int, queue@.len() as int);
            let ghost before = unvisited_count(g.nodes, visited@);
            let p = queue[head];
            head = head + 1;
            proof {
                assert(q[0] == p as int);
                assert(q.drop_first() =~= as_ints(queue@).subrange(head as int, queue@.len() as int));
            }
            let nid = self.nodes[p].id();
            if pins_contain(&visited, nid) {
                continue;
            }
            proof {
                lemma_unvisited_decreases(g.nodes, visited@, p as int);
            }
            visited.push(nid);
            let ghost outb = out@;
            match &self.nodes[p] {
                Node::Conversation { id: cid, name, output, .. } => {
                    let exported = self.export_conversation(*cid, *output);
                    match exported {
                        Ok((dialog, next)) => {
                            let entry = (name.clone(), dialog);
                            proof {
                                assert(named_dialogs_view(out@.push(entry)) =~= named_dialogs_view(
                                    out@,
                                ).push((entry.0@, entry.1@)));
                            }
                            out.push(entry);
                            let ghost qb = queue@;
                            if let Some(k) = next {
                                queue.push(k);
                            }
                            proof {
                                assert(as_ints(queue@).subrange(head as int, queue@.len() as int)
                                    =~= q.drop_first() + opt_pos(next));
                            }
                        },
                        Err(e) => {
                            return Err(e);
                        },
                    }
                },
                Node::Choicer { name, options, outputs, .. } => {
                    let (cs, ps) = self.export_choices(options, outputs);
                    let entry = (name.clone(), Dialog::Choicer(cs));
                    proof {
                        assert(named_dialogs_view(out@.push(entry)) =~= named_dialogs_view(
                            out@,
                        ).push((entry.0@, entry.1@)));
                    }
                    out.push(entry);
                    let ghost qb = queue@;
                    let mut i: usize = 0;
                    while i < ps.len()
                        invariant
                            i <= ps@.len(),
                            queue@ == qb + ps@.subrange(0, i as int),
                            forall|x: int| 0 <= x < qb.len() ==> #[trigger] qb[x] < g.nodes.len(),
                            forall|x: int| 0 <= x < ps@.len() ==> #[trigger] ps@[x] < g.nodes.len(),
                        decreases ps@.len() - i,
                    {
                        queue.push(ps[i]);
                        proof {
                            assert(qb + ps@.subrange(0, i + 1) =~= (qb + ps@.subrange(
                                0,
                                i as int,
                            )).push(ps@[i as int]));
                        }
                        i = i + 1;
                    }
                    proof {
                        assert(ps@.subrange(0, ps@.len() as int) =~= ps@);
                        assert(as_ints(queue@).subrange(head as int, queue@.len() as int)
                            =~= q.drop_first() + as_ints(ps@));
                        assert forall|x: int| 0 <= x < queue@.len() implies #[trigger] queue@[x]
                            < g.nodes.len() by {
                            if x >= qb.len() {
                                assert(queue@[x] == ps@[x - qb.len()]);
                            }
                        }
                    }
                },
            }
        }
        proof {
            assert(as_ints(queue@).subrange(head as int, queue@.len() as int) =~= Seq::<int>::empty());
        }
        Ok(out)
    }
}

// ------------------------------------------------------------------------
// Nodes in natural order of their names
/// What `natord::compare` gives for two strings: -1, 0 or 1 for less,
/// equal or greater.
pub uninterp spec fn natural_order(a: Seq<char>, b: Seq<char>) -> i8;

/// `natord::compare`: the natural order of the two strings (digits
/// compared as numbers), as -1, 0 or 1; the result is a function of the
/// two strings alone.
#[verifier::external_body]
fn natural_compare(a: &str, b: &str) -> (r: i8)
    ensures
        r == natural_order(a@, b@),
        -1 <= r <= 1,
{
    match natord::compare(a, b) {
        std::cmp::Ordering::Less => -1,
        std::cmp::Ordering::Equal => 0,
        std::cmp::Ordering::Greater => 1,
    }
}

/// `x` inserted after the last node of `s` whose name does not come after
/// its name, scanning from the end.
pub open spec fn insert_by_name(s: Seq<NodeV>, x: NodeV) -> Seq<NodeV>
    decreases s.len(),
{
    if s.len() == 0 {
        seq![x]
    } else if natural_order(s.last().name(), x.name()) == 1 {
        insert_by_name(s.drop_last(), x).push(s.last())
    } else {
        s.push(x)
    }
}

/// The nodes sorted by name in natural order, by insertion, so that nodes
/// with names in the same place keep their order.
pub open spec fn sort_by_name(s: Seq<NodeV>) -> Seq<NodeV>
    decreases s.len(),
{
    if s.len() == 0 {
        s
    } else {
        insert_by_name(sort_by_name(s.drop_last()), s.last())
    }
}

proof fn lemma_insert_at(s: Seq<NodeV>, x: NodeV, p: int)
    requires
        0 <= p <= s.len(),
        forall|q: int| p <= q < s.len() ==> natural_order(#[trigger] s[q].name(), x.name()) == 1,
        p == 0 || natural_order(s[p - 1].name(), x.name()) != 1,
    ensures
        insert_by_name(s, x) == s.insert(p, x),
    decreases s.len(),
{
    if s.len() == 0 {
        assert(s.insert(p, x) =~= seq![x]);
    } else if p == s.len() {
        assert(s.insert(p, x) =~= s.push(x));
    } else {
        let t = s.drop_last();
        assert(natural_order(s[s.len() - 1].name(), x.name()) == 1);
        assert forall|q: int| p <= q < t.len() implies natural_order(#[trigger] t[q].name(), x.name())
            == 1 by {
            assert(t[q] == s[q]);
        }
        if p > 0 {
            assert(t[p - 1] == s[p - 1]);
        }
        lemma_insert_at(t, x, p);
        assert(t.insert(p, x).push(s.last()) =~= s.insert(p, x));
    }
}

pub proof fn lemma_insert_by_name_multiset(s: Seq<NodeV>, x: NodeV)
    ensures
        insert_by_name(s, x).to_multiset() == s.to_multiset().insert(x),
    decreases s.len(),
{
    broadcast use vstd::seq_lib::group_to_multiset_ensures;
    broadcast use vstd::multiset::group_multiset_properties;

    if s.len() == 0 {
        assert(s.to_multiset() =~= vstd::multiset::Multiset::<NodeV>::empty());
        assert(seq![x] =~= s.push(x));
    } else if natural_order(s.last().name(), x.name()) == 1 {
        let t = s.drop_last();
        lemma_insert_by_name_multiset(t, x);
        assert(t.push(s.last()) =~= s);
        assert(insert_by_name(s, x).to_multiset() =~= s.to_multiset().insert(x));
    }
}

/// Sorting by name keeps the nodes, each as often.
pub proof fn lemma_sort_by_name_multiset(s: Seq<NodeV>)
    ensures
        sort_by_name(s).to_multiset() == s.to_multiset(),
    decreases s.len(),
{
    broadcast use vstd::seq_lib::group_to_multiset_ensures;

    if s.len() > 0 {
        lemma_sort_by_name_multiset(s.drop_last());
        lemma_insert_by_name_multiset(sort_by_name(s.drop_last()), s.last());
        assert(s.drop_last().push(s.last()) =~= s);
    }
}

fn sort_nodes_by_name(v: Vec<Node>) -> (r: Vec<Node>)
    ensures
        nodes_view(r@) == sort_by_name(nodes_view(v@)),
{
    let ghost orig = nodes_view(v@);
    let mut rest = v;
    let mut out: Vec<Node> = Vec::new();
    let ghost mut k: int = 0;
    proof {
        assert(nodes_view(out@) =~= sort_by_name(orig.subrange(0, 0)));
        assert(nodes_view(rest@) =~= orig.subrange(0, orig.len() as int));
    }
    while rest.len() > 0
        invariant
            0 <= k <= orig.len(),
            nodes_view(rest@) == orig.subrange(k, orig.len() as int),
            nodes_view(out@) == sort_by_name(orig.subrange(0, k)),
        decreases rest@.len(),
    {
        let ghost rb = rest@;
        let x = rest.remove(0);
        proof {
            lemma_nodes_remove(rb, 0);
            assert(nodes_view(rb)[0] == x@);
            assert(orig.subrange(k, orig.len() as int)[0] == orig[k]);
            assert(orig.subrange(k, orig.len() as int).remove(0) =~= orig.subrange(
                k + 1,
                orig.len() as int,
            ));
            assert(x@ == orig[k]);
        }
        let ghost s = nodes_view(out@);
        let mut p = out.len();
        while p > 0 && natural_compare(out[p - 1].name().as_str(), x.name().as_str()) == 1
            invariant
                p <= out@.len(),
                s == nodes_view(out@),
                forall|q: int| p <= q < s.len() ==> natural_order(#[trigger] s[q].name(), x@.name())
                    == 1,
            decreases p,
        {
            p = p - 1;
        }
        proof {
            lemma_insert_at(s, x@, p as int);
        }
        let ghost ob = out@;
        out.insert(p, x);
        proof {
            lemma_nodes_insert(ob, p as int, x);
            assert(orig.subrange(0, k + 1).drop_last() =~= orig.subrange(0, k));
            k = k + 1;
        }
    }
    proof {
        assert(orig.subrange(0, k) =~= orig);
    }
    out
}

// ------------------------------------------------------------------------
// The graph of a dialog manager's dialogs
/// Each name of the manager with the dialog it stands for, in order.
pub open spec fn live_entries(mgr: DialogManager) -> Seq<(Seq<char>, DialogV)> {
    let lp = live_positions(mgr.ids(), mgr.ids().len() as int);
    Seq::new(lp.len(), |k: int| (mgr.ids()[lp[k]], mgr.dialogs()[lp[k]]))
}

pub open spec fn entry_names(es: Seq<(Seq<char>, DialogV)>) -> Seq<Seq<char>> {
    es.map_values(|e: (Seq<char>, DialogV)| e.0)
}

pub open spec fn dialog_nodes_of(d: DialogV) -> Seq<DialogNodeV> {
    match d {
        DialogV::Conversation(ns) => ns,
        DialogV::Choicer(ns) => ns,
    }
}

/// How many ids the node of a dialog takes: a conversation its node, input
/// and output; a choicer its input, an output per option and its node.
pub open spec fn ids_used(d: DialogV) -> int {
    match d {
        DialogV::Conversation(_) => 3,
        DialogV::Choicer(ns) => 2 + ns.len() as int,
    }
}

/// The id handed out after the nodes of the first `n` entries, from 1.
pub open spec fn next_after(es: Seq<(Seq<char>, DialogV)>, n: int) -> int
    decreases n,
{
    if n <= 0 {
        1
    } else {
        next_after(es, n - 1) + ids_used(es[n - 1].1)
    }
}

/// The node of a named dialog whose ids start at `next`: a conversation
/// takes them as node, input, output; a choicer as input, one output per
/// option, node. A choicer's options are its nodes' labels.
pub open spec fn entry_node(name: Seq<char>, d: DialogV, next: int) -> NodeV {
    match d {
        DialogV::Conversation(_) => NodeV::Conversation {
            id: next as usize,
            name,
            input: (next + 1) as usize,
            output: (next + 2) as usize,
        },
        DialogV::Choicer(ns) => NodeV::Choicer {
            id: (next + 1 + ns.len()) as usize,
            name,
            options: ns.map_values(|n: DialogNodeV| n.label),
            input: next as usize,
            outputs: Seq::new(ns.len(), |j: int| (next + 1 + j) as usize),
        },
    }
}

pub open spec fn es_node(es: Seq<(Seq<char>, DialogV)>, i: int) -> NodeV {
    entry_node(es[i].0, es[i].1, next_after(es, i))
}

/// The timelines of the first `n` entries: an empty one for each
/// conversation, under its node's id.
pub open spec fn created_timelines(es: Seq<(Seq<char>, DialogV)>, n: int) -> Map<usize, TimelineV>
    decreases n,
{
    if n <= 0 {
        Map::empty()
    } else {
        let m = created_timelines(es, n - 1);
        if es[n - 1].1 is Conversation {
            m.insert(next_after(es, n - 1) as usize, empty_timeline())
        } else {
            m
        }
    }
}

/// The links, the flow links and the next id while links are made.
pub struct LinkState {
    pub links: Seq<Link>,
    pub flow_links: Seq<Link>,
    pub next: int,
}

/// The output pin that the events of node `j` of entry `i` leave from: a
/// conversation's output, or the choicer's output of that option.
pub open spec fn node_from(es: Seq<(Seq<char>, DialogV)>, i: int, j: int) -> usize {
    if es[i].1 is Conversation {
        es_node(es, i).outputs()[0]
    } else {
        es_node(es, i).outputs()[j]
    }
}

/// A jump to a named dialog makes a link, and setting the main choicer a
/// flow link, to the input pin of the node of the last entry so named;
/// other events, and names with no entry, make nothing.
pub open spec fn link_event(es: Seq<(Seq<char>, DialogV)>, st: LinkState, from: usize, e: EventV) -> LinkState {
    match e {
        EventV::Jump(t) => match last_index_of(entry_names(es), t) {
            Some(k) => LinkState {
                links: st.links.push(Link { id: st.next as usize, from, to: es_node(es, k).input() }),
                next: st.next + 1,
                ..st
            },
            None => st,
        },
        EventV::SetMainChoicer(t) => match last_index_of(entry_names(es), t) {
            Some(k) => LinkState {
                flow_links: st.flow_links.push(
                    Link { id: st.next as usize, from, to: es_node(es, k).input() },
                ),
                next: st.next + 1,
                ..st
            },
            None => st,
        },
        _ => st,
    }
}

pub open spec fn link_events(
    es: Seq<(Seq<char>, DialogV)>,
    st: LinkState,
    from: usize,
    evs: Seq<EventV>,
    n: int,
) -> LinkState
    decreases n,
{
    if n <= 0 {
        st
    } else {
        link_event(es, link_events(es, st, from, evs, n - 1), from, evs[n - 1])
    }
}

/// The links of the events of the first `m` nodes of entry `i`.
pub open spec fn link_nodes(es: Seq<(Seq<char>, DialogV)>, st: LinkState, i: int, m: int) -> LinkState
    decreases m,
{
    if m <= 0 {
        st
    } else {
        let ns = dialog_nodes_of(es[i].1);
        link_events(
            es,
            link_nodes(es, st, i, m - 1),
            node_from(es, i, m - 1),
            ns[m - 1].events,
            ns[m - 1].events.len() as int,
        )
    }
}

/// The links of the first `n` entries, with ids after the nodes' ids.
pub open spec fn link_entries(es: Seq<(Seq<char>, DialogV)>, n: int) -> LinkState
    decreases n,
{
    if n <= 0 {
        LinkState { links: seq![], flow_links: seq![], next: next_after(es, es.len() as int) }
    } else {
        link_nodes(
            es,
            link_entries(es, n - 1),
            n - 1,
            dialog_nodes_of(es[n - 1].1).len() as int,
        )
    }
}

pub open spec fn events_total(ns: Seq<DialogNodeV>, m: int) -> int
    decreases m,
{
    if m <= 0 {
        0
    } else {
        events_total(ns, m - 1) + ns[m - 1].events.len() as int
    }
}

pub open spec fn links_budget(es: Seq<(Seq<char>, DialogV)>, n: int) -> int
    decreases n,
{
    if n <= 0 {
        0
    } else {
        links_budget(es, n - 1) + events_total(
            dialog_nodes_of(es[n - 1].1),
            dialog_nodes_of(es[n - 1].1).len() as int,
        )
    }
}

/// Every id that the graph of these entries hands out fits in a `usize`.
pub open spec fn ids_fit(es: Seq<(Seq<char>, DialogV)>) -> bool {
    next_after(es, es.len() as int) + links_budget(es, es.len() as int) < usize::MAX
}

proof fn lemma_next_after_mono(es: Seq<(Seq<char>, DialogV)>, a: int, b: int)
    requires
        0 <= a <= b,
    ensures
        next_after(es, a) <= next_after(es, b),
    decreases b - a,
{
    if a < b {
        lemma_next_after_mono(es, a, b - 1);
    }
}

proof fn lemma_events_total_mono(ns: Seq<DialogNodeV>, a: int, b: int)
    requires
        0 <= a <= b,
    ensures
        events_total(ns, a) <= events_total(ns, b),
    decreases b - a,
{
    if a < b {
        lemma_events_total_mono(ns, a, b - 1);
    }
}

proof fn lemma_links_budget_mono(es: Seq<(Seq<char>, DialogV)>, a: int, b: int)
    requires
        0 <= a <= b,
    ensures
        links_budget(es, a) <= links_budget(es, b),
    decreases b - a,
{
    if a < b {
        lemma_links_budget_mono(es, a, b - 1);
        let ns = dialog_nodes_of(es[b - 1].1);
        lemma_events_total_mono(ns, 0, ns.len() as int);
    }
}

proof fn lemma_created_timelines_below(es: Seq<(Seq<char>, DialogV)>, n: int)
    requires
        0 <= n,
        next_after(es, n) <= usize::MAX,
    ensures
        created_timelines(es, n).dom().finite(),
        forall|k: usize| created_timelines(es, n).dom().contains(k) ==> k < next_after(es, n),
    decreases n,
{
    if n > 0 {
        lemma_next_after_mono(es, n - 1, n);
        lemma_next_after_mono(es, 0, n - 1);
        lemma_created_timelines_below(es, n - 1);
    }
}

pub open spec fn refs_view(v: Seq<(&String, &Dialog)>) -> Seq<(Seq<char>, DialogV)> {
    v.map_values(|e: (&String, &Dialog)| (e.0@, e.1@))
}

/// The position of the last entry named `name`.
fn find_entry(entries: &Vec<(&String, &Dialog)>, name: &str) -> (r: Option<usize>)
    ensures
        match r {
            Some(k) => last_index_of(entry_names(refs_view(entries@)), name@) == Some(k as int) && k
                < entries@.len(),
            None => last_index_of(entry_names(refs_view(entries@)), name@) is None,
        },
{
    let ghost names = entry_names(refs_view(entries@));
    proof {
        lemma_last_index_of(names, name@);
    }
    let mut k = entries.len();
    while k > 0
        invariant
            names == entry_names(refs_view(entries@)),
            k <= entries@.len(),
            forall|j: int| k <= j < entries@.len() ==> names[j] != name@,
        decreases k,
    {
        if crate::text::str_eq(entries[k - 1].0.as_str(), name) {
            proof {
                lemma_last_index_of(names, name@);
                assert(names[k - 1] == name@);
                match last_index_of(names, name@) {
                    Some(i) => {
                        if i < k - 1 {
                            assert(names[k - 1] != name@);
                        }
                    },
                    None => {},
                }
            }
            return Some(k - 1);
        }
        k = k - 1;
    }
    proof {
        lemma_last_index_of(names, name@);
        if let Some(i) = last_index_of(names, name@) {
            assert(names[i] != name@);
        }
    }
    None
}

/// The nodes of the entries in order, their timelines, each entry's input
/// pin and output pins, and the next id.
fn create_nodes(entries: &Vec<(&String, &Dialog)>) -> (r: (
    Vec<Node>,
    HashMap<usize, Timeline>,
    Vec<(usize, Vec<usize>)>,
    usize,
))
    requires
        ids_fit(refs_view(entries@)),
    ensures
        ({
            let es = refs_view(entries@);
            &&& nodes_view(r.0@) == Seq::new(es.len(), |i: int| es_node(es, i))
            &&& timelines_view(r.1@) == created_timelines(es, es.len() as int)
            &&& r.2@.len() == es.len()
            &&& forall|k: int|
                0 <= k < es.len() ==> (#[trigger] r.2@[k]).0 == es_node(es, k).input() && r.2@[k].1@
                    == es_node(es, k).outputs()
            &&& r.3 == next_after(es, es.len() as int)
        }),
{
    let ghost es = refs_view(entries@);
    let ghost len = es.len() as int;
    let mut nodes: Vec<Node> = Vec::new();
    let mut timelines: HashMap<usize, Timeline> = HashMap::new();
    let mut infos: Vec<(usize, Vec<usize>)> = Vec::new();
    let mut next: usize = 1;
    let mut i: usize = 0;
    proof {
        assert(nodes_view(nodes@) =~= Seq::new(0, |i: int| es_node(es, i)));
        assert(timelines_view(timelines@) =~= created_timelines(es, 0));
    }
    while i < entries.len()
        invariant
            es == refs_view(entries@),
            len == es.len(),
            ids_fit(es),
            i <= len,
            next == next_after(es, i as int),
            nodes_view(nodes@) == Seq::new(i as nat, |k: int| es_node(es, k)),
            timelines_view(timelines@) == created_timelines(es, i as int),
            infos@.len() == i,
            forall|k: int|
                0 <= k < i ==> (#[trigger] infos@[k]).0 == es_node(es, k).input() && infos@[k].1@
                    == es_node(es, k).outputs(),
        decreases len - i,
    {
        proof {
            lemma_next_after_mono(es, i + 1, len);
            lemma_links_budget_mono(es, 0, len);
            assert(es[i as int] == (entries@[i as int].0@, entries@[i as int].1@));
        }
        let name = entries[i].0;
        let ghost nb = nodes@;
        let ghost ib = infos@;
        let node = match entries[i].1 {
            Dialog::Conversation(_) => {
                let id = next;
                let input = next + 1;
                let output = next + 2;
                next = next + 3;
                let ghost tb = timelines@;
                let t = Timeline::new();
                let _ = timelines.insert(id, t);
                proof {
                    lemma_timelines_insert(tb, id, t);
                    assert(timelines_view(timelines@) =~= created_timelines(es, i + 1));
                }
                let outs = vec![output];
                proof {
                    assert(outs@ =~= es_node(es, i as int).outputs());
                }
                infos.push((input, outs));
                Node::Conversation { id, name: name.clone(), input, output }
            },
            Dialog::Choicer(dn) => {
                let input = next;
                next = next + 1;
                let ghost base = input as int;
                let mut outputs: Vec<usize> = Vec::new();
                let mut options: Vec<String> = Vec::new();
                let mut j: usize = 0;
                while j < dn.len()
                    invariant
                        j <= dn@.len(),
                        next == base + 1 + j,
                        base + 2 + dn@.len() < usize::MAX,
                        outputs@ =~= Seq::new(j as nat, |x: int| (base + 1 + x) as usize),
                        strings_view(options@) =~= crate::dialog::parser::nodes_view(dn@).subrange(
                            0,
                            j as int,
                        ).map_values(|n: DialogNodeV| n.label),
                    decreases dn@.len() - j,
                {
                    outputs.push(next);
                    next = next + 1;
                    let label = dn[j].label.clone();
                    let ghost ob = options@;
                    options.push(label);
                    proof {
                        let dv = crate::dialog::parser::nodes_view(dn@);
                        assert(dv[j as int] == dn@[j as int]@);
                        assert(strings_view(options@) =~= strings_view(ob).push(label@));
                        assert(dv.subrange(0, j + 1) =~= dv.subrange(0, j as int).push(dv[j as int]));
                        assert(dv.subrange(0, j + 1).map_values(|n: DialogNodeV| n.label)
                            =~= dv.subrange(0, j as int).map_values(|n: DialogNodeV| n.label).push(
                            dv[j as int].label,
                        ));
                    }
                    j = j + 1;
                }
                let id = next;
                next = next + 1;
                proof {
                    assert(crate::dialog::parser::nodes_view(dn@).subrange(0, dn@.len() as int)
                        =~= crate::dialog::parser::nodes_view(dn@));
                    assert(timelines_view(timelines@) =~= created_timelines(es, i + 1));
                }
                let outs = clone_pins(&outputs);
                infos.push((input, outs));
                Node::Choicer { id, name: name.clone(), options, input, outputs }
            },
        };
        proof {
            assert(node@ == es_node(es, i as int));
        }
        nodes.push(node);
        proof {
            lemma_nodes_push(nb, node);
            assert(nodes_view(nodes@) =~= Seq::new((i + 1) as nat, |k: int| es_node(es, k)));
            assert forall|k: int| 0 <= k < i + 1 implies (#[trigger] infos@[k]).0 == es_node(
                es,
                k,
            ).input() && infos@[k].1@ == es_node(es, k).outputs() by {
                if k < i {
                    assert(infos@[k] == ib[k]);
                }
            }
        }
        i = i + 1;
    }
    (nodes, timelines, infos, next)
}

pub open spec fn link_state(links: Seq<Link>, flow_links: Seq<Link>, next: usize) -> LinkState {
    LinkState { links, flow_links, next: next as int }
}

/// The links and flow links that the entries' jumps and main choicer
/// settings make, and the next id.
fn create_links(
    entries: &Vec<(&String, &Dialog)>,
    infos: &Vec<(usize, Vec<usize>)>,
    start: usize,
) -> (r: (Vec<Link>, Vec<Link>, usize))
    requires
        ids_fit(refs_view(entries@)),
        start == next_after(refs_view(entries@), entries@.len() as int),
        infos@.len() == entries@.len(),
        forall|k: int|
            0 <= k < entries@.len() ==> (#[trigger] infos@[k]).0 == es_node(
                refs_view(entries@),
                k,
            ).input() && infos@[k].1@ == es_node(refs_view(entries@), k).outputs(),
    ensures
        link_state(r.0@, r.1@, r.2) == link_entries(
            refs_view(entries@),
            entries@.len() as int,
        ),
        forall|k: int| 0 <= k < r.0@.len() ==> #[trigger] r.0@[k].id < r.2,
        forall|k: int| 0 <= k < r.1@.len() ==> #[trigger] r.1@[k].id < r.2,
        distinct_link_ids(r.0@),
        distinct_link_ids(r.1@),
        start <= r.2,
{
    let ghost es = refs_view(entries@);
    let ghost len = es.len() as int;
    let ghost na = start as int;
    let mut links: Vec<Link> = Vec::new();
    let mut flow_links: Vec<Link> = Vec::new();
    let mut next: usize = start;
    let mut i: usize = 0;
    while i < entries.len()
        invariant
            es == refs_view(entries@),
            len == es.len(),
            ids_fit(es),
            na == next_after(es, len),
            na == start,
            infos@.len() == len,
            forall|k: int|
                0 <= k < len ==> (#[trigger] infos@[k]).0 == es_node(es, k).input() && infos@[k].1@
                    == es_node(es, k).outputs(),
            i <= len,
            link_state(links@, flow_links@, next) == link_entries(es, i as int),
            next <= na + links_budget(es, i as int),
            start <= next,
            forall|k: int| 0 <= k < links@.len() ==> #[trigger] links@[k].id < next,
            forall|k: int| 0 <= k < flow_links@.len() ==> #[trigger] flow_links@[k].id < next,
            distinct_link_ids(links@),
            distinct_link_ids(flow_links@),
        decreases len - i,
    {
        proof {
            assert(es[i as int] == (entries@[i as int].0@, entries@[i as int].1@));
            lemma_links_budget_mono(es, i + 1, len);
        }
        let (dn, is_conversation) = match entries[i].1 {
            Dialog::Conversation(ns) => (ns, true),
            Dialog::Choicer(ns) => (ns, false),
        };
        let ghost nsv = dialog_nodes_of(es[i as int].1);
        assert(nsv == crate::dialog::parser::nodes_view(dn@));
        let ghost st0 = link_entries(es, i as int);
        let mut j: usize = 0;
        while j < dn.len()
            invariant
                es == refs_view(entries@),
                len == es.len(),
                ids_fit(es),
                na == next_after(es, len),
                infos@.len() == len,
                forall|k: int|
                    0 <= k < len ==> (#[trigger] infos@[k]).0 == es_node(es, k).input()
                        && infos@[k].1@ == es_node(es, k).outputs(),
                i < len,
                nsv == dialog_nodes_of(es[i as int].1),
                nsv == crate::dialog::parser::nodes_view(dn@),
                is_conversation == (es[i as int].1 is Conversation),
                j <= dn@.len(),
                link_state(links@, flow_links@, next) == link_nodes(es, st0, i as int, j as int),
                next <= na + links_budget(es, i as int) + events_total(nsv, j as int),
                na + links_budget(es, i as int) + events_total(nsv, nsv.len() as int) <= na
                    + links_budget(es, len),
                start <= next,
                forall|k: int| 0 <= k < links@.len() ==> #[trigger] links@[k].id < next,
                forall|k: int| 0 <= k < flow_links@.len() ==> #[trigger] flow_links@[k].id < next,
                distinct_link_ids(links@),
                distinct_link_ids(flow_links@),
            decreases dn@.len() - j,
        {
            proof {
                lemma_events_total_mono(nsv, j + 1, nsv.len() as int);
                assert(nsv[j as int] == dn@[j as int]@);
            }
            let from = if is_conversation {
                infos[i].1[0]
            } else {
                infos[i].1[j]
            };
            assert(from == node_from(es, i as int, j as int));
            let evs = &dn[j].events;
            let ghost evv = nsv[j as int].events;
            assert(evv == crate::dialog::parser::events_view(evs@));
            let ghost st1 = link_nodes(es, st0, i as int, j as int);
            let ghost bound = na + links_budget(es, i as int) + events_total(nsv, j + 1);
            assert(events_total(nsv, j + 1) == events_total(nsv, j as int) + evv.len());
            let mut e: usize = 0;
            while e < evs.len()
                invariant
                    es == refs_view(entries@),
                    infos@.len() == len,
                    len == es.len(),
                    forall|k: int|
                        0 <= k < len ==> (#[trigger] infos@[k]).0 == es_node(es, k).input(),
                    evv == crate::dialog::parser::events_view(evs@),
                    e <= evs@.len(),
                    link_state(links@, flow_links@, next) == link_events(es, st1, from, evv, e as int),
                    next + (evs@.len() - e) <= bound,
                    bound <= na + links_budget(es, len),
                    start <= next,
                    forall|k: int| 0 <= k < links@.len() ==> #[trigger] links@[k].id < next,
                    forall|k: int| 0 <= k < flow_links@.len() ==> #[trigger] flow_links@[k].id
                        < next,
                    ids_fit(es),
                    na == next_after(es, len),
                    distinct_link_ids(links@),
                    distinct_link_ids(flow_links@),
                decreases evs@.len() - e,
            {
                proof {
                    assert(evv[e as int] == evs@[e as int]@);
                }
                match &evs[e] {
                    Event::Jump(t) => {
                        if let Some(k) = find_entry(entries, t.as_str()) {
                            let l = Link { id: next, from, to: infos[k].0 };
                            proof {
                                lemma_fresh_link(links@, l);
                            }
                            links.push(l);
                            next = next + 1;
                        }
                    },
                    Event::SetMainChoicer(t) => {
                        if let Some(k) = find_entry(entries, t.as_str()) {
                            let l = Link { id: next, from, to: infos[k].0 };
                            proof {
                                lemma_fresh_link(flow_links@, l);
                            }
                            flow_links.push(l);
                            next = next + 1;
                        }
                    },
                    _ => {},
                }
                e = e + 1;
            }
            j = j + 1;
        }
        proof {
            assert(link_nodes(es, st0, i as int, dn@.len() as int) == link_entries(es, i + 1));
        }
        i = i + 1;
    }
    (links, flow_links, next)
}

/// A link with an id above all of a list's keeps the list's ids apart.
proof fn lemma_fresh_link(s: Seq<Link>, l: Link)
    requires
        distinct_link_ids(s),
        forall|k: int| 0 <= k < s.len() ==> #[trigger] s[k].id < l.id,
    ensures
        distinct_link_ids(s.push(l)),
{
    assert(!link_ids(s).contains(l.id)) by {
        if link_ids(s).contains(l.id) {
            let i = choose|i: int| 0 <= i < s.len() && #[trigger] s[i].id == l.id;
        }
    }
    crate::editor::link_history::lemma_push_link(s, l);
}

/// A graph with no history whose links of each kind have distinct ids
/// below the next one keeps them apart.
proof fn lemma_links_fresh_graph(g: GraphV)
    requires
        g.done.len() == 0,
        g.undone.len() == 0,
        distinct_link_ids(g.links),
        distinct_link_ids(g.flow_links),
        forall|k: int| 0 <= k < g.links.len() ==> #[trigger] g.links[k].id < g.next_id,
        forall|k: int| 0 <= k < g.flow_links.len() ==> #[trigger] g.flow_links[k].id < g.next_id,
    ensures
        links_wf(g),
{
    lemma_kind_fresh(g, false);
    lemma_kind_fresh(g, true);
}

proof fn lemma_kind_fresh(g: GraphV, flow: bool)
    requires
        g.done.len() == 0,
        g.undone.len() == 0,
        distinct_link_ids(kind_links(g, flow)),
        forall|k: int|
            0 <= k < kind_links(g, flow).len() ==> #[trigger] kind_links(g, flow)[k].id < g.next_id,
    ensures
        kind_wf(g, link_ids(kind_links(g, flow)), flow),
{
    let s = kind_links(g, flow);
    assert forall|k: usize| link_ids(s).contains(k) implies k < g.next_id by {
        let i = choose|i: int| 0 <= i < s.len() && #[trigger] s[i].id == k;
    }
    assert(kind_consistent(g, flow)) by {
        assert forall|x: Link, y: Link|
            #![trigger in_kind(g, flow, x), in_kind(g, flow, y)]
            in_kind(g, flow, x) && in_kind(g, flow, y) && x.id == y.id implies x == y by {
            lemma_distinct_same(s, x, y);
        }
    }
}

/// The entries' nodes have distinct ids: each takes its id among those
/// handed out for its entry.
proof fn lemma_es_node_ids_distinct(es: Seq<(Seq<char>, DialogV)>)
    requires
        ids_fit(es),
    ensures
        node_ids(Seq::new(es.len(), |i: int| es_node(es, i))).no_duplicates(),
{
    let ns = Seq::new(es.len(), |i: int| es_node(es, i));
    let len = es.len() as int;
    assert forall|i: int| 0 <= i < len implies next_after(es, i) <= #[trigger] es_node(
        es,
        i,
    ).id() < next_after(es, i + 1) by {
        lemma_next_after_mono(es, i + 1, len);
        lemma_next_after_mono(es, 0, i);
        lemma_links_budget_mono(es, 0, len);
        assert(next_after(es, i + 1) == next_after(es, i) + ids_used(es[i].1));
        assert(next_after(es, i + 1) < usize::MAX);
        match es[i].1 {
            DialogV::Conversation(_) => {},
            DialogV::Choicer(ns) => {},
        }
    }
    assert forall|a: int, b: int|
        0 <= a < node_ids(ns).len() && 0 <= b < node_ids(ns).len() && a != b implies node_ids(
        ns,
    )[a] != node_ids(ns)[b] by {
        assert(node_ids(ns)[a] == es_node(es, a).id());
        assert(node_ids(ns)[b] == es_node(es, b).id());
        if a < b {
            lemma_next_after_mono(es, a + 1, b);
        } else {
            lemma_next_after_mono(es, b + 1, a);
        }
    }
}

/// Reordering nodes with distinct ids keeps their ids distinct.
proof fn lemma_node_ids_reordered(s: Seq<NodeV>, t: Seq<NodeV>)
    requires
        node_ids(s).no_duplicates(),
        t.to_multiset() == s.to_multiset(),
    ensures
        node_ids(t).no_duplicates(),
{
    broadcast use vstd::seq_lib::group_to_multiset_ensures;

    assert(s.no_duplicates()) by {
        assert forall|a: int, b: int| 0 <= a < s.len() && 0 <= b < s.len() && a != b implies s[a]
            != s[b] by {
            assert(node_ids(s)[a] == s[a].id());
            assert(node_ids(s)[b] == s[b].id());
        }
    }
    s.lemma_multiset_has_no_duplicates();
    t.lemma_multiset_has_no_duplicates_conv();
    assert forall|a: int, b: int|
        0 <= a < node_ids(t).len() && 0 <= b < node_ids(t).len() && a != b implies node_ids(t)[a]
        != node_ids(t)[b] by {
        assert(node_ids(t)[a] == t[a].id());
        assert(node_ids(t)[b] == t[b].id());
        assert(t.contains(t[a]));
        assert(t.contains(t[b]));
        assert(s.to_multiset().count(t[a]) > 0);
        assert(s.to_multiset().count(t[b]) > 0);
        let x = choose|x: int| 0 <= x < s.len() && s[x] == t[a];
        let y = choose|y: int| 0 <= y < s.len() && s[y] == t[b];
        assert(t[a] != t[b]);
        assert(node_ids(s)[x] == s[x].id());
        assert(node_ids(s)[y] == s[y].id());
    }
}

/// The graph that `Graph::new` makes of these entries.
pub open spec fn graph_of(es: Seq<(Seq<char>, DialogV)>) -> GraphV {
    let ls = link_entries(es, es.len() as int);
    GraphV {
        nodes: sort_by_name(Seq::new(es.len(), |i: int| es_node(es, i))),
        timelines: created_timelines(es, es.len() as int),
        links: ls.links,
        flow_links: ls.flow_links,
        flow_link_editing: false,
        next_id: ls.next as usize,
        selected: None,
        done: seq![],
        undone: seq![],
    }
}

impl Graph {
    /// The graph of a manager's dialogs: a node for each name's dialog,
    /// sorted by name in natural order, with an empty timeline for each
    /// conversation; a link for each jump and a flow link for each main
    /// choicer setting to a dialog of the manager, from the output pin of
    /// the node (or option) whose events hold it; nothing selected and no
    /// history.
    pub fn new(dialog_mgr: &DialogManager) -> (r: Graph)
        requires
            dialog_mgr.wf(),
            ids_fit(live_entries(*dialog_mgr)),
        ensures
            r@ == graph_of(live_entries(*dialog_mgr)),
            graph_wf(r@),
            links_resolved(r@.nodes, r@.links),
            links_resolved(r@.nodes, r@.flow_links),
    {
        let entries = dialog_mgr.get_dialogs();
        let ghost es = refs_view(entries@);
        assert(es =~= live_entries(*dialog_mgr));
        let (nodes, timelines, infos, next) = create_nodes(&entries);
        let (links, flow_links, next) = create_links(&entries, &infos, next);
        let ghost unsorted = nodes_view(nodes@);
        let nodes = sort_nodes_by_name(nodes);
        let g = Graph {
            nodes,
            timelines,
            links,
            flow_links,
            flow_link_editing: false,
            id_gen: IdGen(next),
            selected_node_id: None,
            history: history_new(),
        };
        proof {
            let v = g@;
            let len = es.len() as int;
            assert(v =~= graph_of(es));
            lemma_next_after_mono(es, 0, len);
            lemma_created_timelines_below(es, len);
            lemma_sort_by_name_multiset(unsorted);
            lemma_new_graph_links_resolved(es);
            lemma_links_fresh_graph(v);
            lemma_es_node_ids_distinct(es);
            assert(unsorted =~= Seq::new(es.len(), |i: int| es_node(es, i)));
            lemma_node_ids_reordered(unsorted, v.nodes);
            assert forall|i: int| 0 <= i < v.nodes.len() implies #[trigger] v.nodes[i].id()
                < v.next_id by {
                broadcast use vstd::seq_lib::group_to_multiset_ensures;

                assert(v.nodes.contains(v.nodes[i]));
                assert(v.nodes.to_multiset().count(v.nodes[i]) > 0);
                assert(unsorted.contains(v.nodes[i]));
                let k = choose|k: int| 0 <= k < unsorted.len() && unsorted[k] == v.nodes[i];
                lemma_next_after_mono(es, k + 1, len);
                lemma_next_after_mono(es, 0, k);
                lemma_links_budget_mono(es, 0, len);
                assert(unsorted[k] == es_node(es, k));
                assert(next_after(es, k + 1) == next_after(es, k) + ids_used(es[k].1));
            }
            assert forall|i: int| 0 <= i < v.nodes.len() implies node_pins_below(
                #[trigger] v.nodes[i],
                v.next_id,
            ) by {
                broadcast use vstd::seq_lib::group_to_multiset_ensures;

                assert(v.nodes.contains(v.nodes[i]));
                assert(v.nodes.to_multiset().count(v.nodes[i]) > 0);
                assert(unsorted.contains(v.nodes[i]));
                let k = choose|k: int| 0 <= k < unsorted.len() && unsorted[k] == v.nodes[i];
                lemma_next_after_mono(es, k + 1, len);
                lemma_next_after_mono(es, 0, k);
                lemma_links_budget_mono(es, 0, len);
                assert(unsorted[k] == es_node(es, k));
                assert(next_after(es, k + 1) == next_after(es, k) + ids_used(es[k].1));
                let n = es_node(es, k);
                assert forall|j: int| 0 <= j < n.pins().len() implies #[trigger] n.pins()[j]
                    < v.next_id by {
                    match es[k].1 {
                        DialogV::Conversation(_) => {},
                        DialogV::Choicer(ns) => {
                            if j > 0 {
                                assert(n.pins()[j] == n.outputs()[j - 1]);
                            }
                        },
                    }
                }
            }
        }
        g
    }
}

/// `HashMap::get_mut`: the value under `k`, when there is one, to change in
/// place; what the reference holds at the end is then the value under `k`,
/// and nothing else in the map changes.
#[verifier::external_body]
fn timeline_get_mut<'a>(m: &'a mut HashMap<usize, Timeline>, k: &usize) -> (r: Option<&'a mut Timeline>)
    ensures
        match r {
            Some(t) => old(m)@.contains_key(*k) && *t == old(m)@[*k] && final(m)@ == old(m)@.insert(*k, *final(t)),
            None => !old(m)@.contains_key(*k) && final(m)@ == old(m)@,
        },
{
    m.get_mut(k)
}

impl Graph {
    /// The timeline of the selected node, to edit in place.
    pub fn get_mut_selected_timeline(&mut self) -> (r: Option<&mut Timeline>)
        requires
            graph_wf(old(self)@),
        ensures
            match r {
                Some(t) => {
                    &&& old(self)@.selected matches Some(id)
                    &&& old(self)@.timelines.contains_key(id)
                    &&& t@ == old(self)@.timelines[id]
                    &&& final(self)@ == GraphV { timelines: old(self)@.timelines.insert(id, final(t)@), ..old(self)@ }
                },
                None => final(self)@ == old(self)@ && !(old(self)@.selected matches Some(id)
                    && old(self)@.timelines.contains_key(id)),
            },
            graph_wf(final(self)@),
    {
        proof {
            lemma_links_same(self@);
            lemma_timelines_insert_any();
            assert forall|m: Map<usize, TimelineV>, k: usize, v: TimelineV| m.contains_key(
                k,
            ) implies #[trigger] m.insert(k, v).dom() == m.dom() by {
                assert(m.insert(k, v).dom() =~= m.dom());
            }
        }
        match self.selected_node_id {
            Some(id) => timeline_get_mut(&mut self.timelines, &id),
            None => None,
        }
    }
}

// ------------------------------------------------------------------------
// The order nodes are laid out in: connected groups, each walked depth
// first from a node that no link enters
/// The position of the last element of `s` for which `p` holds.
pub open spec fn last_index<T>(s: Seq<T>, p: spec_fn(T) -> bool) -> Option<int>
    decreases s.len(),
{
    if s.len() == 0 {
        None
    } else if p(s.last()) {
        Some(s.len() - 1)
    } else {
        last_index(s.drop_last(), p)
    }
}

pub proof fn lemma_last_index<T>(s: Seq<T>, p: spec_fn(T) -> bool)
    ensures
        match last_index(s, p) {
            Some(i) => 0 <= i < s.len() && p(s[i]) && forall|j: int| i < j < s.len() ==> !p(#[trigger] s[j]),
            None => forall|j: int| 0 <= j < s.len() ==> !p(#[trigger] s[j]),
        },
    decreases s.len(),
{
    if s.len() > 0 && !p(s.last()) {
        lemma_last_index(s.drop_last(), p);
        assert forall|j: int| 0 <= j < s.len() - 1 implies s.drop_last()[j] == s[j] by {}
    }
}

/// The id of the node that has `pin`: the last one, when several have it.
pub open spec fn node_of(nodes: Seq<NodeV>, pin: usize) -> Option<usize> {
    match last_index(nodes, has_pin(pin)) {
        Some(i) => Some(nodes[i].id()),
        None => None,
    }
}

/// Every link joins two pins of nodes.
pub open spec fn links_resolved(nodes: Seq<NodeV>, links: Seq<Link>) -> bool {
    forall|i: int|
        0 <= i < links.len() ==> node_of(nodes, #[trigger] links[i].from) is Some && node_of(
            nodes,
            links[i].to,
        ) is Some
}

/// The nodes joined to node `id` by the first `n` links, either way, in
/// the links' order.
pub open spec fn neighbors_upto(nodes: Seq<NodeV>, links: Seq<Link>, id: usize, n: int) -> Seq<
    usize,
>
    decreases n,
{
    if n <= 0 {
        seq![]
    } else {
        let prev = neighbors_upto(nodes, links, id, n - 1);
        let l = links[n - 1];
        match (node_of(nodes, l.from), node_of(nodes, l.to)) {
            (Some(f), Some(t)) => {
                let a = if f == id {
                    prev.push(t)
                } else {
                    prev
                };
                if t == id {
                    a.push(f)
                } else {
                    a
                }
            },
            _ => prev,
        }
    }
}

/// The queue and the visited ids after looking at the first `k` of `ns`:
/// each one not visited yet is visited and queued.
pub open spec fn visit_upto(ns: Seq<usize>, visited: Seq<usize>, queue: Seq<usize>, k: int) -> (
    Seq<usize>,
    Seq<usize>,
)
    decreases k,
{
    if k <= 0 {
        (visited, queue)
    } else {
        let (v, q) = visit_upto(ns, visited, queue, k - 1);
        if v.contains(ns[k - 1]) {
            (v, q)
        } else {
            (v.push(ns[k - 1]), q.push(ns[k - 1]))
        }
    }
}

/// Visiting neighbors only adds to what is visited and queued, and what
/// it adds is the same on both; when it adds a node's id, fewer nodes are
/// left unvisited.
pub proof fn lemma_visit_upto(
    nodes: Seq<NodeV>,
    ns: Seq<usize>,
    visited: Seq<usize>,
    queue: Seq<usize>,
    k: int,
)
    requires
        0 <= k <= ns.len(),
        forall|j: int| 0 <= j < ns.len() ==> is_node_id(nodes, #[trigger] ns[j]),
    ensures
        ({
            let (v, q) = visit_upto(ns, visited, queue, k);
            &&& v.len() >= visited.len()
            &&& v.subrange(0, visited.len() as int) == visited
            &&& q == queue + v.subrange(visited.len() as int, v.len() as int)
            &&& unvisited_count(nodes, v) <= unvisited_count(nodes, visited)
            &&& (v.len() > visited.len() ==> unvisited_count(nodes, v) < unvisited_count(
                nodes,
                visited,
            ))
        }),
    decreases k,
{
    if k > 0 {
        lemma_visit_upto(nodes, ns, visited, queue, k - 1);
        let (v, q) = visit_upto(ns, visited, queue, k - 1);
        let x = ns[k - 1];
        if !v.contains(x) {
            assert(is_node_id(nodes, ns[k - 1]));
            let i = choose|i: int| 0 <= i < nodes.len() && nodes[i].id() == x;
            lemma_unvisited_decreases(nodes, v, i);
            assert(v.push(x).subrange(0, visited.len() as int) =~= v.subrange(0, visited.len() as int));
            assert(v.push(x).subrange(visited.len() as int, v.len() + 1int) =~= v.subrange(
                visited.len() as int,
                v.len() as int,
            ).push(x));
        }
    } else {
        assert(visited.subrange(0, visited.len() as int) =~= visited);
        assert(visited.subrange(visited.len() as int, visited.len() as int) =~= Seq::<usize>::empty());
        assert(queue + Seq::<usize>::empty() =~= queue);
    }
}

/// Some node has this id.
pub open spec fn is_node_id(nodes: Seq<NodeV>, x: usize) -> bool {
    exists|i: int| 0 <= i < nodes.len() && nodes[i].id() == x
}

/// The neighbors of node `id`.
pub open spec fn neighbors(g: GraphV, id: usize) -> Seq<usize> {
    neighbors_upto(g.nodes, g.links, id, g.links.len() as int)
}

pub proof fn lemma_neighbors_are_nodes(nodes: Seq<NodeV>, links: Seq<Link>, id: usize, n: int)
    requires
        0 <= n <= links.len(),
    ensures
        forall|j: int|
            0 <= j < neighbors_upto(nodes, links, id, n).len() ==> is_node_id(
                nodes,
                #[trigger] neighbors_upto(nodes, links, id, n)[j],
            ),
    decreases n,
{
    if n > 0 {
        lemma_neighbors_are_nodes(nodes, links, id, n - 1);
        let l = links[n - 1];
        lemma_last_index(nodes, has_pin(l.from));
        lemma_last_index(nodes, has_pin(l.to));
        let prev = neighbors_upto(nodes, links, id, n - 1);
        let cur = neighbors_upto(nodes, links, id, n);
        assert forall|j: int| 0 <= j < cur.len() implies is_node_id(nodes, #[trigger] cur[j]) by {
            if j < prev.len() {
                assert(cur[j] == prev[j]);
            } else {
                match (node_of(nodes, l.from), node_of(nodes, l.to)) {
                    (Some(f), Some(t)) => {
                        let fi = last_index(nodes, has_pin(l.from)).unwrap();
                        let ti = last_index(nodes, has_pin(l.to)).unwrap();
                        assert(cur[j] == f || cur[j] == t);
                        assert(f == nodes[fi].id());
                        assert(t == nodes[ti].id());
                    },
                    _ => {},
                }
            }
        }
    }
}

/// Breadth first from a queue: each queued node joins the group and queues
/// its neighbors not yet visited.
pub open spec fn bfs(g: GraphV, queue: Seq<usize>, visited: Seq<usize>, group: Seq<usize>) -> (
    Seq<usize>,
    Seq<usize>,
)
    decreases unvisited_count(g.nodes, visited), queue.len(),
{
    if queue.len() == 0 {
        (group, visited)
    } else {
        let id = queue[0];
        let ns = neighbors(g, id);
        let (v, q) = visit_upto(ns, visited, queue.drop_first(), ns.len() as int);
        proof {
            lemma_neighbors_are_nodes(g.nodes, g.links, id, g.links.len() as int);
            lemma_visit_upto(g.nodes, ns, visited, queue.drop_first(), ns.len() as int);
            if v.len() == visited.len() {
                assert(v.subrange(visited.len() as int, v.len() as int) =~= Seq::<usize>::empty());
                assert(q =~= queue.drop_first());
                assert(v =~= visited);
            }
        }
        bfs(g, q, v, group.push(id))
    }
}

/// The groups of the first `n` nodes, with the ids visited: each node not
/// visited yet starts a group of the nodes it is joined to.
pub open spec fn components_upto(g: GraphV, n: int) -> (Seq<Seq<usize>>, Seq<usize>)
    decreases n,
{
    if n <= 0 {
        (seq![], seq![])
    } else {
        let (groups, visited) = components_upto(g, n - 1);
        let start = g.nodes[n - 1].id();
        if visited.contains(start) {
            (groups, visited)
        } else {
            let (group, v) = bfs(g, seq![start], visited.push(start), seq![]);
            (groups.push(group), v)
        }
    }
}

/// Visiting neighbors queues only neighbors, after what was queued.
proof fn lemma_visit_queues_neighbors(ns: Seq<usize>, visited: Seq<usize>, queue: Seq<usize>, k: int)
    requires
        0 <= k <= ns.len(),
    ensures
        ({
            let q = visit_upto(ns, visited, queue, k).1;
            &&& queue.len() <= q.len()
            &&& forall|i: int| 0 <= i < queue.len() ==> #[trigger] q[i] == queue[i]
            &&& forall|i: int| queue.len() <= i < q.len() ==> ns.contains(#[trigger] q[i])
        }),
    decreases k,
{
    if k > 0 {
        lemma_visit_queues_neighbors(ns, visited, queue, k - 1);
        let (v, q) = visit_upto(ns, visited, queue, k - 1);
        if !v.contains(ns[k - 1]) {
            let q2 = q.push(ns[k - 1]);
            assert forall|i: int| queue.len() <= i < q2.len() implies ns.contains(#[trigger] q2[i]) by {
                if i == q.len() {
                    assert(ns[k - 1] == q2[i]);
                } else {
                    assert(q2[i] == q[i]);
                }
            }
            assert forall|i: int| 0 <= i < queue.len() implies #[trigger] q2[i] == queue[i] by {
                assert(q2[i] == q[i]);
            }
        }
    }
}

/// Some node of `group` before position `upto` is joined to `x` by a link.
pub open spec fn joined_before(g: GraphV, group: Seq<usize>, x: usize, upto: int) -> bool {
    exists|q: int| 0 <= q < upto && q < group.len() && #[trigger] neighbors(g, group[q]).contains(x)
}

/// Every node of `group` after its first is joined by a link to a node
/// before it.
pub open spec fn group_joined(g: GraphV, group: Seq<usize>) -> bool {
    forall|r: int| 0 < r < group.len() ==> #[trigger] joined_before(g, group, group[r], r)
}

proof fn lemma_bfs_joined(g: GraphV, queue: Seq<usize>, visited: Seq<usize>, group: Seq<usize>)
    requires
        group_joined(g, group),
        forall|i: int|
            0 <= i < queue.len() ==> (group.len() == 0 && i == 0) || #[trigger] joined_before(
                g,
                group,
                queue[i],
                group.len() as int,
            ),
    ensures
        group_joined(g, bfs(g, queue, visited, group).0),
    decreases unvisited_count(g.nodes, visited), queue.len(),
{
    if queue.len() > 0 {
        let id = queue[0];
        let ns = neighbors(g, id);
        let (v, q) = visit_upto(ns, visited, queue.drop_first(), ns.len() as int);
        lemma_neighbors_are_nodes(g.nodes, g.links, id, g.links.len() as int);
        lemma_visit_upto(g.nodes, ns, visited, queue.drop_first(), ns.len() as int);
        if v.len() == visited.len() {
            assert(v.subrange(visited.len() as int, v.len() as int) =~= Seq::<usize>::empty());
            assert(q =~= queue.drop_first());
            assert(v =~= visited);
        }
        lemma_visit_queues_neighbors(ns, visited, queue.drop_first(), ns.len() as int);
        let g2 = group.push(id);
        assert forall|x: usize, upto: int|
            #[trigger] joined_before(g, group, x, upto) implies joined_before(g, g2, x, upto) by {
            let w = choose|w: int|
                0 <= w < upto && w < group.len() && #[trigger] neighbors(g, group[w]).contains(x);
            assert(g2[w] == group[w]);
        }
        assert forall|r: int| 0 < r < g2.len() implies #[trigger] joined_before(
            g,
            g2,
            g2[r],
            r,
        ) by {
            if r < group.len() {
                assert(g2[r] == group[r]);
                assert(joined_before(g, group, group[r], r));
            } else {
                assert(joined_before(g, group, queue[0], group.len() as int));
            }
        }
        assert forall|i: int|
            0 <= i < q.len() implies (g2.len() == 0 && i == 0) || #[trigger] joined_before(
            g,
            g2,
            q[i],
            g2.len() as int,
        ) by {
            if i < queue.drop_first().len() {
                assert(q[i] == queue[i + 1]);
                assert(joined_before(g, group, queue[i + 1], group.len() as int));
                let w = choose|w: int|
                    0 <= w < group.len() && w < group.len() && #[trigger] neighbors(
                        g,
                        group[w],
                    ).contains(queue[i + 1]);
                assert(g2[w] == group[w]);
            } else {
                assert(ns.contains(q[i]));
                assert(g2[group.len() as int] == id);
                assert(neighbors(g, g2[group.len() as int]).contains(q[i]));
            }
        }
        lemma_bfs_joined(g, q, v, g2);
    }
}

/// Every group of `connected_components` is joined: each node of a group
/// after its first is joined by a link, either way, to a node listed
/// before it in the group.
pub proof fn lemma_groups_joined(g: GraphV)
    ensures
        forall|k: int, r: int|
            0 <= k < components_spec(g).len() && 0 < r < components_spec(g)[k].len()
                ==> #[trigger] joined_before(g, components_spec(g)[k], components_spec(g)[k][r], r),
{
    lemma_components_joined(g, g.nodes.len() as int);
    assert forall|k: int, r: int|
        0 <= k < components_spec(g).len() && 0 < r < components_spec(g)[k].len()
            implies #[trigger] joined_before(g, components_spec(g)[k], components_spec(g)[k][r], r) by {
        assert(group_joined(g, components_spec(g)[k]));
    }
}

proof fn lemma_components_joined(g: GraphV, n: int)
    ensures
        forall|k: int|
            0 <= k < components_upto(g, n).0.len() ==> group_joined(
                g,
                #[trigger] components_upto(g, n).0[k],
            ),
    decreases n,
{
    if n > 0 {
        lemma_components_joined(g, n - 1);
        let (groups, visited) = components_upto(g, n - 1);
        let start = g.nodes[n - 1].id();
        if !visited.contains(start) {
            lemma_bfs_joined(g, seq![start], visited.push(start), seq![]);
            let (group, v) = bfs(g, seq![start], visited.push(start), seq![]);
            assert forall|k: int| 0 <= k < groups.push(group).len() implies group_joined(
                g,
                #[trigger] groups.push(group)[k],
            ) by {
                if k < groups.len() {
                    assert(groups.push(group)[k] == groups[k]);
                }
            }
        }
    }
}

/// `connected_components`: the nodes in groups joined by links, each
/// group breadth first from its first node.
pub open spec fn components_spec(g: GraphV) -> Seq<Seq<usize>> {
    components_upto(g, g.nodes.len() as int).0
}

/// The nodes that the first `n` links lead to from node `id`, within the
/// group, in the links' order.
pub open spec fn outgoing_upto(
    nodes: Seq<NodeV>,
    links: Seq<Link>,
    group: Seq<usize>,
    id: usize,
    n: int,
) -> Seq<usize>
    decreases n,
{
    if n <= 0 {
        seq![]
    } else {
        let prev = outgoing_upto(nodes, links, group, id, n - 1);
        match (node_of(nodes, links[n - 1].from), node_of(nodes, links[n - 1].to)) {
            (Some(f), Some(t)) => if f == id && group.contains(f) && group.contains(t) {
                prev.push(t)
            } else {
                prev
            },
            _ => prev,
        }
    }
}

/// How many of the first `n` links within the group lead to node `id`.
pub open spec fn indegree_upto(
    nodes: Seq<NodeV>,
    links: Seq<Link>,
    group: Seq<usize>,
    id: usize,
    n: int,
) -> nat
    decreases n,
{
    if n <= 0 {
        0
    } else {
        let prev = indegree_upto(nodes, links, group, id, n - 1);
        match (node_of(nodes, links[n - 1].from), node_of(nodes, links[n - 1].to)) {
            (Some(f), Some(t)) => if t == id && group.contains(f) && group.contains(t) {
                prev + 1
            } else {
                prev
            },
            _ => prev,
        }
    }
}

pub open spec fn outgoing(g: GraphV, group: Seq<usize>, id: usize) -> Seq<usize> {
    outgoing_upto(g.nodes, g.links, group, id, g.links.len() as int)
}

pub open spec fn no_incoming(g: GraphV, group: Seq<usize>) -> spec_fn(usize) -> bool {
    |id: usize| indegree_upto(g.nodes, g.links, group, id, g.links.len() as int) == 0
}

/// Where the walk of a group starts: its first node that no link of the
/// group enters, or its first node.
pub open spec fn group_root(g: GraphV, group: Seq<usize>) -> usize {
    match first_index(group, no_incoming(g, group)) {
        Some(i) => group[i],
        None => group[0],
    }
}

pub open spec fn not_visited_id(visited: Seq<usize>) -> spec_fn(usize) -> bool {
    |x: usize| !visited.contains(x)
}

/// How many of the group's entries are not visited.
pub open spec fn group_unvisited(group: Seq<usize>, visited: Seq<usize>) -> nat {
    group.filter(not_visited_id(visited)).len()
}

pub proof fn lemma_group_unvisited_decreases(group: Seq<usize>, visited: Seq<usize>, x: usize)
    requires
        group.contains(x),
        !visited.contains(x),
    ensures
        group_unvisited(group, visited.push(x)) < group_unvisited(group, visited),
{
    let v2 = visited.push(x);
    assert forall|i: int| 0 <= i < group.len() && not_visited_id(v2)(#[trigger] group[i]) implies not_visited_id(
        visited,
    )(group[i]) by {
        if visited.contains(group[i]) {
            let k = choose|k: int| 0 <= k < visited.len() && visited[k] == group[i];
            assert(v2[k] == group[i]);
        }
    }
    let i = choose|i: int| 0 <= i < group.len() && group[i] == x;
    assert(v2[visited.len() as int] == x);
    assert(!not_visited_id(v2)(group[i]));
    lemma_filter_len_le(group, not_visited_id(visited), not_visited_id(v2));
}

/// The children of a node as stack frames, the first on top.
pub open spec fn child_frames(children: Seq<usize>, depth: usize) -> Seq<(usize, usize)> {
    Seq::new(children.len(), |k: int| (children[children.len() - 1 - k], (depth + 1) as usize))
}

/// Depth first from a stack of (node, depth) frames, the top last: a
/// node not yet visited is visited at its depth and stacks its children
/// one deeper.
pub open spec fn dfs(
    g: GraphV,
    group: Seq<usize>,
    stack: Seq<(usize, usize)>,
    visited: Seq<usize>,
    order: Seq<(usize, usize)>,
) -> (Seq<usize>, Seq<(usize, usize)>)
    decreases group_unvisited(group, visited), stack.len(),
{
    if stack.len() == 0 {
        (visited, order)
    } else {
        let (n, d) = stack.last();
        let rest = stack.drop_last();
        if visited.contains(n) || !group.contains(n) {
            dfs(g, group, rest, visited, order)
        } else {
            proof {
                lemma_group_unvisited_decreases(group, visited, n);
            }
            dfs(
                g,
                group,
                rest + child_frames(outgoing(g, group, n), d),
                visited.push(n),
                order.push((n, d)),
            )
        }
    }
}

/// The walks of the group's nodes from the `k`-th on that are not visited
/// yet, each from depth 0.
pub open spec fn dfs_rest(
    g: GraphV,
    group: Seq<usize>,
    k: int,
    visited: Seq<usize>,
    order: Seq<(usize, usize)>,
) -> Seq<(usize, usize)>
    decreases group.len() - k,
{
    if k >= group.len() || k < 0 {
        order
    } else if visited.contains(group[k]) {
        dfs_rest(g, group, k + 1, visited, order)
    } else {
        let (v, o) = dfs(g, group, seq![(group[k], 0usize)], visited, order);
        dfs_rest(g, group, k + 1, v, o)
    }
}

/// `order_group`: the group's nodes with their depths, depth first from
/// its root and then from each node not reached yet.
pub open spec fn order_spec(g: GraphV, group: Seq<usize>) -> Seq<(usize, usize)> {
    let (v, o) = dfs(g, group, seq![(group_root(g, group), 0usize)], seq![], seq![]);
    dfs_rest(g, group, 0, v, o)
}

/// Some entry of `order` before position `upto` is at depth `d - 1` and
/// has a link of the group to `n`.
pub open spec fn has_parent(
    g: GraphV,
    group: Seq<usize>,
    order: Seq<(usize, usize)>,
    n: usize,
    d: usize,
    upto: int,
) -> bool {
    exists|q: int|
        0 <= q < upto && q < order.len() && order[q].1 + 1 == d && #[trigger] outgoing(
            g,
            group,
            order[q].0,
        ).contains(n)
}

/// Every entry of `order` below depth 0 is one deeper than an earlier
/// entry with a link to it.
pub open spec fn order_parented(g: GraphV, group: Seq<usize>, order: Seq<(usize, usize)>) -> bool {
    forall|r: int|
        0 <= r < order.len() && order[r].1 > 0 ==> #[trigger] has_parent(
            g,
            group,
            order,
            order[r].0,
            order[r].1,
            r,
        )
}

/// Every frame of the stack below depth 0 is one deeper than an entry of
/// `order` with a link to it.
pub open spec fn stack_parented(
    g: GraphV,
    group: Seq<usize>,
    stack: Seq<(usize, usize)>,
    order: Seq<(usize, usize)>,
) -> bool {
    forall|i: int|
        0 <= i < stack.len() && stack[i].1 > 0 ==> #[trigger] has_parent(
            g,
            group,
            order,
            stack[i].0,
            stack[i].1,
            order.len() as int,
        )
}

proof fn lemma_has_parent_grows(
    g: GraphV,
    group: Seq<usize>,
    order: Seq<(usize, usize)>,
    x: (usize, usize),
    n: usize,
    d: usize,
    upto: int,
    upto2: int,
)
    requires
        has_parent(g, group, order, n, d, upto),
        upto <= upto2,
    ensures
        has_parent(g, group, order.push(x), n, d, upto2),
{
    let q = choose|q: int|
        0 <= q < upto && q < order.len() && order[q].1 + 1 == d && #[trigger] outgoing(
            g,
            group,
            order[q].0,
        ).contains(n);
    assert(order.push(x)[q] == order[q]);
}

proof fn lemma_dfs_parented(
    g: GraphV,
    group: Seq<usize>,
    stack: Seq<(usize, usize)>,
    visited: Seq<usize>,
    order: Seq<(usize, usize)>,
)
    requires
        order_parented(g, group, order),
        stack_parented(g, group, stack, order),
    ensures
        order_parented(g, group, dfs(g, group, stack, visited, order).1),
    decreases group_unvisited(group, visited), stack.len(),
{
    if stack.len() > 0 {
        let (n, d) = stack.last();
        let rest = stack.drop_last();
        assert forall|i: int|
            0 <= i < rest.len() && rest[i].1 > 0 implies #[trigger] has_parent(
            g,
            group,
            order,
            rest[i].0,
            rest[i].1,
            order.len() as int,
        ) by {
            assert(rest[i] == stack[i]);
        }
        if visited.contains(n) || !group.contains(n) {
            lemma_dfs_parented(g, group, rest, visited, order);
        } else {
            lemma_group_unvisited_decreases(group, visited, n);
            let o2 = order.push((n, d));
            let children = outgoing(g, group, n);
            let s2 = rest + child_frames(children, d);
            assert forall|r: int|
                0 <= r < o2.len() && o2[r].1 > 0 implies #[trigger] has_parent(
                g,
                group,
                o2,
                o2[r].0,
                o2[r].1,
                r,
            ) by {
                if r < order.len() {
                    assert(o2[r] == order[r]);
                    assert(has_parent(g, group, order, order[r].0, order[r].1, r));
                    lemma_has_parent_grows(g, group, order, (n, d), order[r].0, order[r].1, r, r);
                } else {
                    assert(stack[stack.len() - 1] == (n, d));
                    assert(has_parent(g, group, order, n, d, order.len() as int));
                    lemma_has_parent_grows(
                        g,
                        group,
                        order,
                        (n, d),
                        n,
                        d,
                        order.len() as int,
                        order.len() as int,
                    );
                }
            }
            assert forall|i: int|
                0 <= i < s2.len() && s2[i].1 > 0 implies #[trigger] has_parent(
                g,
                group,
                o2,
                s2[i].0,
                s2[i].1,
                o2.len() as int,
            ) by {
                if i < rest.len() {
                    assert(s2[i] == rest[i]);
                    lemma_has_parent_grows(
                        g,
                        group,
                        order,
                        (n, d),
                        rest[i].0,
                        rest[i].1,
                        order.len() as int,
                        o2.len() as int,
                    );
                } else {
                    let k = i - rest.len();
                    let c = children[children.len() - 1 - k];
                    assert(s2[i] == (c, (d + 1) as usize));
                    assert(((d + 1) as usize) == 0usize || d + 1 == ((d + 1) as usize)) by (bit_vector);
                    assert(children.contains(c));
                    assert(o2[order.len() as int] == (n, d));
                    assert(outgoing(g, group, o2[order.len() as int].0).contains(c));
                }
            }
            lemma_dfs_parented(g, group, s2, visited.push(n), o2);
        }
    }
}

proof fn lemma_dfs_rest_parented(
    g: GraphV,
    group: Seq<usize>,
    k: int,
    visited: Seq<usize>,
    order: Seq<(usize, usize)>,
)
    requires
        order_parented(g, group, order),
    ensures
        order_parented(g, group, dfs_rest(g, group, k, visited, order)),
    decreases group.len() - k,
{
    if 0 <= k < group.len() {
        if visited.contains(group[k]) {
            lemma_dfs_rest_parented(g, group, k + 1, visited, order);
        } else {
            lemma_dfs_parented(g, group, seq![(group[k], 0usize)], visited, order);
            let (v, o) = dfs(g, group, seq![(group[k], 0usize)], visited, order);
            lemma_dfs_rest_parented(g, group, k + 1, v, o);
        }
    }
}

/// The depths of a group's walk: every node listed below depth 0 is one
/// deeper than a node listed before it that has a link to it, so along a
/// chain of links the depth grows by one at each step from where the walk
/// started.
pub proof fn lemma_walk_depths(g: GraphV, group: Seq<usize>)
    ensures
        forall|r: int|
            0 <= r < order_spec(g, group).len() && order_spec(g, group)[r].1 > 0 ==> exists|q: int|
                0 <= q < r && order_spec(g, group)[q].1 + 1 == order_spec(g, group)[r].1
                    && #[trigger] outgoing(g, group, order_spec(g, group)[q].0).contains(
                    order_spec(g, group)[r].0,
                ),
{
    let root = group_root(g, group);
    lemma_dfs_parented(g, group, seq![(root, 0usize)], seq![], seq![]);
    let (v, o) = dfs(g, group, seq![(root, 0usize)], seq![], seq![]);
    lemma_dfs_rest_parented(g, group, 0, v, o);
    let order = order_spec(g, group);
    assert forall|r: int| 0 <= r < order.len() && order[r].1 > 0 implies exists|q: int|
        0 <= q < r && order[q].1 + 1 == order[r].1 && #[trigger] outgoing(g, group, order[q].0).contains(
            order[r].0,
        ) by {
        assert(has_parent(g, group, order, order[r].0, order[r].1, r));
    }
}

/// The nodes a link leads to within the group are nodes of the group.
proof fn lemma_outgoing_in_group(
    nodes: Seq<NodeV>,
    links: Seq<Link>,
    group: Seq<usize>,
    id: usize,
    n: int,
    c: usize,
)
    requires
        outgoing_upto(nodes, links, group, id, n).contains(c),
    ensures
        group.contains(c),
    decreases n,
{
    if n > 0 {
        let prev = outgoing_upto(nodes, links, group, id, n - 1);
        if prev.contains(c) {
            lemma_outgoing_in_group(nodes, links, group, id, n - 1, c);
        } else {
            let cur = outgoing_upto(nodes, links, group, id, n);
            let k = choose|k: int| 0 <= k < cur.len() && cur[k] == c;
            if k < prev.len() {
                assert(cur[k] == prev[k]);
            }
        }
    }
}

/// No entry of `order` before position `upto` has a link to `x`.
pub open spec fn no_earlier_parent(
    g: GraphV,
    group: Seq<usize>,
    order: Seq<(usize, usize)>,
    x: usize,
    upto: int,
) -> bool {
    forall|q: int| 0 <= q < upto && q < order.len() ==> !#[trigger] outgoing(g, group, order[q].0).contains(x)
}

/// Every entry of `order` at depth 0 has no link to it from an earlier
/// entry.
pub open spec fn roots_unlinked(g: GraphV, group: Seq<usize>, order: Seq<(usize, usize)>) -> bool {
    forall|r: int|
        0 <= r < order.len() && order[r].1 == 0 ==> #[trigger] no_earlier_parent(
            g,
            group,
            order,
            order[r].0,
            r,
        )
}

/// Every node that an entry of `order` links to is visited or stacked.
pub open spec fn walk_closed(
    g: GraphV,
    group: Seq<usize>,
    order: Seq<(usize, usize)>,
    visited: Seq<usize>,
    stack: Seq<(usize, usize)>,
) -> bool {
    forall|q: int, c: usize|
        0 <= q < order.len() && #[trigger] outgoing(g, group, order[q].0).contains(c) ==> visited.contains(c)
            || exists|i: int| 0 <= i < stack.len() && stack[i].0 == c
}

/// A frame at depth 0 is the only one, and nothing listed links to it.
pub open spec fn zero_frames(
    g: GraphV,
    group: Seq<usize>,
    stack: Seq<(usize, usize)>,
    order: Seq<(usize, usize)>,
) -> bool {
    forall|i: int|
        0 <= i < stack.len() && (#[trigger] stack[i]).1 == 0 ==> stack.len() == 1 && no_earlier_parent(
            g,
            group,
            order,
            stack[i].0,
            order.len() as int,
        )
}

/// The walk lists no more nodes than the group has left to visit, and no
/// frame is deeper than the entries listed.
pub open spec fn walk_bounded(
    group: Seq<usize>,
    stack: Seq<(usize, usize)>,
    visited: Seq<usize>,
    order: Seq<(usize, usize)>,
) -> bool {
    &&& order.len() + group_unvisited(group, visited) <= group.len()
    &&& forall|i: int| 0 <= i < stack.len() ==> (#[trigger] stack[i]).1 <= order.len()
}

proof fn lemma_no_earlier_parent_grows(
    g: GraphV,
    group: Seq<usize>,
    order: Seq<(usize, usize)>,
    y: (usize, usize),
    x: usize,
    upto: int,
)
    requires
        no_earlier_parent(g, group, order, x, upto),
        upto <= order.len(),
    ensures
        no_earlier_parent(g, group, order.push(y), x, upto),
{
    assert forall|q: int| 0 <= q < upto && q < order.push(y).len() implies !#[trigger] outgoing(
        g,
        group,
        order.push(y)[q].0,
    ).contains(x) by {
        assert(order.push(y)[q] == order[q]);
    }
}

proof fn lemma_dfs_roots(
    g: GraphV,
    group: Seq<usize>,
    stack: Seq<(usize, usize)>,
    visited: Seq<usize>,
    order: Seq<(usize, usize)>,
)
    requires
        group.len() < usize::MAX,
        roots_unlinked(g, group, order),
        walk_closed(g, group, order, visited, stack),
        zero_frames(g, group, stack, order),
        walk_bounded(group, stack, visited, order),
    ensures
        ({
            let (v, o) = dfs(g, group, stack, visited, order);
            &&& roots_unlinked(g, group, o)
            &&& walk_closed(g, group, o, v, Seq::<(usize, usize)>::empty())
            &&& walk_bounded(group, Seq::<(usize, usize)>::empty(), v, o)
        }),
    decreases group_unvisited(group, visited), stack.len(),
{
    if stack.len() == 0 {
    } else {
        let (n, d) = stack.last();
        let rest = stack.drop_last();
        if visited.contains(n) || !group.contains(n) {
            assert forall|q: int, c: usize|
                0 <= q < order.len() && #[trigger] outgoing(g, group, order[q].0).contains(c) implies visited.contains(c)
                || exists|i: int| 0 <= i < rest.len() && rest[i].0 == c by {
                if !visited.contains(c) {
                    let i = choose|i: int| 0 <= i < stack.len() && stack[i].0 == c;
                    if i == stack.len() - 1 {
                        lemma_outgoing_in_group(
                            g.nodes,
                            g.links,
                            group,
                            order[q].0,
                            g.links.len() as int,
                            c,
                        );
                    } else {
                        assert(rest[i] == stack[i]);
                    }
                }
            }
            assert forall|i: int| 0 <= i < rest.len() && (#[trigger] rest[i]).1 == 0 implies rest.len() == 1
                && no_earlier_parent(g, group, order, rest[i].0, order.len() as int) by {
                assert(rest[i] == stack[i]);
            }
            assert forall|i: int| 0 <= i < rest.len() implies (#[trigger] rest[i]).1 <= order.len() by {
                assert(rest[i] == stack[i]);
            }
            lemma_dfs_roots(g, group, rest, visited, order);
        } else {
            lemma_group_unvisited_decreases(group, visited, n);
            let v2 = visited.push(n);
            let o2 = order.push((n, d));
            let children = outgoing(g, group, n);
            let s2 = rest + child_frames(children, d);
            assert(d <= order.len());
            assert(d + 1 < usize::MAX);
            assert forall|q: int, c: usize|
                0 <= q < o2.len() && #[trigger] outgoing(g, group, o2[q].0).contains(c) implies v2.contains(c)
                || exists|i: int| 0 <= i < s2.len() && s2[i].0 == c by {
                if q < order.len() {
                    assert(o2[q] == order[q]);
                    if !visited.contains(c) {
                        let i = choose|i: int| 0 <= i < stack.len() && stack[i].0 == c;
                        if i == stack.len() - 1 {
                            assert(v2[visited.len() as int] == c);
                        } else {
                            assert(s2[i] == stack[i]);
                        }
                    } else {
                        let w = choose|w: int| 0 <= w < visited.len() && visited[w] == c;
                        assert(v2[w] == c);
                    }
                } else {
                    assert(o2[q].0 == n);
                    let j = choose|j: int| 0 <= j < children.len() && children[j] == c;
                    let k = children.len() - 1 - j;
                    assert(s2[rest.len() + k] == child_frames(children, d)[k]);
                    assert(s2[rest.len() + k].0 == c);
                }
            }
            assert forall|r: int| 0 <= r < o2.len() && o2[r].1 == 0 implies #[trigger] no_earlier_parent(
                g,
                group,
                o2,
                o2[r].0,
                r,
            ) by {
                if r < order.len() {
                    assert(o2[r] == order[r]);
                    assert(no_earlier_parent(g, group, order, order[r].0, r));
                    lemma_no_earlier_parent_grows(g, group, order, (n, d), order[r].0, r);
                } else {
                    assert(stack[stack.len() - 1].1 == 0);
                    assert(no_earlier_parent(g, group, order, n, order.len() as int));
                    lemma_no_earlier_parent_grows(g, group, order, (n, d), n, order.len() as int);
                }
            }
            assert forall|i: int| 0 <= i < s2.len() && (#[trigger] s2[i]).1 == 0 implies s2.len() == 1
                && no_earlier_parent(g, group, o2, s2[i].0, o2.len() as int) by {
                if i < rest.len() {
                    assert(s2[i] == rest[i]);
                    assert(rest[i] == stack[i]);
                    assert(stack.len() == 1);
                } else {
                    let k = i - rest.len();
                    assert(s2[i] == child_frames(children, d)[k]);
                }
            }
            assert forall|i: int| 0 <= i < s2.len() implies (#[trigger] s2[i]).1 <= o2.len() by {
                if i < rest.len() {
                    assert(s2[i] == rest[i]);
                    assert(rest[i] == stack[i]);
                } else {
                    let k = i - rest.len();
                    assert(s2[i] == child_frames(children, d)[k]);
                }
            }
            lemma_dfs_roots(g, group, s2, v2, o2);
        }
    }
}

proof fn lemma_dfs_rest_roots(
    g: GraphV,
    group: Seq<usize>,
    k: int,
    visited: Seq<usize>,
    order: Seq<(usize, usize)>,
)
    requires
        group.len() < usize::MAX,
        roots_unlinked(g, group, order),
        walk_closed(g, group, order, visited, Seq::<(usize, usize)>::empty()),
        walk_bounded(group, Seq::<(usize, usize)>::empty(), visited, order),
    ensures
        roots_unlinked(g, group, dfs_rest(g, group, k, visited, order)),
    decreases group.len() - k,
{
    if 0 <= k < group.len() {
        if visited.contains(group[k]) {
            lemma_dfs_rest_roots(g, group, k + 1, visited, order);
        } else {
            let x = group[k];
            let st = seq![(x, 0usize)];
            assert forall|q: int| 0 <= q < order.len() && q < order.len() implies !#[trigger] outgoing(
                g,
                group,
                order[q].0,
            ).contains(x) by {
                if outgoing(g, group, order[q].0).contains(x) {
                    assert(visited.contains(x));
                }
            }
            assert(no_earlier_parent(g, group, order, x, order.len() as int));
            lemma_dfs_roots(g, group, st, visited, order);
            let (v, o) = dfs(g, group, st, visited, order);
            lemma_dfs_rest_roots(g, group, k + 1, v, o);
        }
    }
}

/// The starts of a group's walk: a node listed at depth 0 has no link to
/// it from any node listed before it, so every node that a listed node
/// links to is listed deeper. With the depth law above, depth 0 is for
/// the walk's root and for the nodes that no earlier node reaches.
pub proof fn lemma_walk_starts(g: GraphV, group: Seq<usize>)
    requires
        group.len() < usize::MAX,
    ensures
        forall|r: int|
            0 <= r < order_spec(g, group).len() && order_spec(g, group)[r].1 == 0
                ==> #[trigger] no_earlier_parent(
                g,
                group,
                order_spec(g, group),
                order_spec(g, group)[r].0,
                r,
            ),
{
    let root = group_root(g, group);
    let st = seq![(root, 0usize)];
    let e = Seq::<(usize, usize)>::empty();
    let ev = Seq::<usize>::empty();
    group.lemma_filter_len(not_visited_id(ev));
    lemma_dfs_roots(g, group, st, ev, e);
    let (v, o) = dfs(g, group, st, ev, e);
    lemma_dfs_rest_roots(g, group, 0, v, o);
}

/// A group of nodes joined by links.
pub struct GraphGroup {
    pub nodes: Vec<usize>,
}

/// A node of a group with its depth in the group's walk.
#[derive(Debug, Clone, Copy, PartialEq, Eq, Structural)]
pub struct OrderedNode {
    pub id: usize,
    pub depth: usize,
}

pub open spec fn groups_view(v: Seq<GraphGroup>) -> Seq<Seq<usize>> {
    v.map_values(|g: GraphGroup| g.nodes@)
}

pub open spec fn ordered_view(v: Seq<OrderedNode>) -> Seq<(usize, usize)> {
    v.map_values(|o: OrderedNode| (o.id, o.depth))
}

impl Graph {
    /// The id of the last node that has `pin`.
    fn node_of_pin(&self, pin: usize) -> (r: Option<usize>)
        ensures
            r == node_of(self@.nodes, pin),
    {
        let ghost ns = self@.nodes;
        proof {
            lemma_last_index(ns, has_pin(pin));
        }
        let mut k = self.nodes.len();
        while k > 0
            invariant
                ns == nodes_view(self.nodes@),
                k <= self.nodes@.len(),
                forall|j: int| k <= j < ns.len() ==> !has_pin(pin)(#[trigger] ns[j]),
            decreases k,
        {
            if node_pin_kind(&self.nodes[k - 1], pin).is_some() {
                proof {
                    lemma_last_index(ns, has_pin(pin));
                    assert(ns[k - 1] == self.nodes@[k - 1]@);
                    assert(has_pin(pin)(ns[k - 1]));
                    if let Some(i) = last_index(ns, has_pin(pin)) {
                        if i < k - 1 {
                            assert(!has_pin(pin)(ns[k - 1]));
                        }
                    }
                }
                return Some(self.nodes[k - 1].id());
            }
            k = k - 1;
        }
        proof {
            lemma_last_index(ns, has_pin(pin));
            if let Some(i) = last_index(ns, has_pin(pin)) {
                assert(!has_pin(pin)(ns[i]));
            }
        }
        None
    }

    fn neighbors_of(&self, id: usize) -> (r: Vec<usize>)
        ensures
            r@ == neighbors(self@, id),
    {
        let ghost g = self@;
        let mut r: Vec<usize> = Vec::new();
        let mut n: usize = 0;
        while n < self.links.len()
            invariant
                g == self@,
                n <= self.links@.len(),
                r@ == neighbors_upto(g.nodes, g.links, id, n as int),
            decreases self.links@.len() - n,
        {
            let l = self.links[n];
            match (self.node_of_pin(l.from), self.node_of_pin(l.to)) {
                (Some(f), Some(t)) => {
                    if f == id {
                        r.push(t);
                    }
                    if t == id {
                        r.push(f);
                    }
                },
                _ => {},
            }
            n = n + 1;
        }
        r
    }

    /// The nodes in groups joined by links (either way), in node order:
    /// each node not in an earlier group starts one, walked breadth first.
    pub fn connected_components(&self) -> (r: Vec<GraphGroup>)
        requires
            links_resolved(self@.nodes, self@.links),
        ensures
            groups_view(r@) == components_spec(self@),
            forall|k: int| 0 <= k < r@.len() ==> (#[trigger] r@[k]).nodes@.len() > 0,
    {
        let ghost g = self@;
        let mut groups: Vec<GraphGroup> = Vec::new();
        let mut visited: Vec<usize> = Vec::new();
        let mut i: usize = 0;
        proof {
            assert(groups_view(groups@) =~= Seq::<Seq<usize>>::empty());
            assert(visited@ =~= Seq::<usize>::empty());
        }
        while i < self.nodes.len()
            invariant
                g == self@,
                i <= self.nodes@.len(),
                (groups_view(groups@), visited@) == components_upto(g, i as int),
            decreases self.nodes@.len() - i,
        {
            let start = self.nodes[i].id();
            proof {
                assert(g.nodes[i as int] == self.nodes@[i as int]@);
            }
            if !pins_contain(&visited, start) {
                visited.push(start);
                let ghost v0 = visited@;
                let mut queue: Vec<usize> = vec![start];
                let mut head: usize = 0;
                let mut group: Vec<usize> = Vec::new();
                proof {
                    assert(queue@.subrange(0, 1) =~= seq![start]);
                    assert(group@ =~= Seq::<usize>::empty());
                }
                while head < queue.len()
                    invariant
                        g == self@,
                        head <= queue@.len(),
                        bfs(g, queue@.subrange(head as int, queue@.len() as int), visited@, group@)
                            == bfs(g, seq![start], v0, seq![]),
                    decreases unvisited_count(g.nodes, visited@), queue@.len() - head,
                {
                    let ghost q = queue@.subrange(head as int, queue@.len() as int);
                    let ghost vb = visited@;
                    let id = queue[head];
                    head = head + 1;
                    group.push(id);
                    let ns = self.neighbors_of(id);
                    let ghost qt = queue@.subrange(head as int, queue@.len() as int);
                    proof {
                        assert(q[0] == id);
                        assert(qt =~= q.drop_first());
                        lemma_neighbors_are_nodes(g.nodes, g.links, id, g.links.len() as int);
                        lemma_visit_upto(g.nodes, ns@, vb, qt, ns@.len() as int);
                    }
                    let ghost qb = queue@;
                    let mut j: usize = 0;
                    while j < ns.len()
                        invariant
                            j <= ns@.len(),
                            head <= qb.len(),
                            queue@.subrange(0, head as int) == qb.subrange(0, head as int),
                            qt == qb.subrange(head as int, qb.len() as int),
                            (visited@, queue@.subrange(head as int, queue@.len() as int))
                                == visit_upto(ns@, vb, qt, j as int),
                            queue@.len() >= head,
                        decreases ns@.len() - j,
                    {
                        let next = ns[j];
                        if !pins_contain(&visited, next) {
                            let ghost qq = queue@;
                            visited.push(next);
                            queue.push(next);
                            proof {
                                assert(queue@.subrange(head as int, queue@.len() as int)
                                    =~= qq.subrange(head as int, qq.len() as int).push(next));
                                assert(queue@.subrange(0, head as int) =~= qq.subrange(
                                    0,
                                    head as int,
                                ));
                            }
                        }
                        j = j + 1;
                    }
                }
                proof {
                    assert(queue@.subrange(head as int, queue@.len() as int) =~= Seq::<usize>::empty());
                }
                groups.push(GraphGroup { nodes: group });
                proof {
                    assert(groups_view(groups@) =~= components_upto(g, i as int).0.push(
                        bfs(g, seq![start], v0, seq![]).0,
                    ));
                }
            }
            i = i + 1;
        }
        proof {
            lemma_components_nonempty(g, g.nodes.len() as int);
            let all = components_upto(g, g.nodes.len() as int).0;
            assert(groups_view(groups@) == all);
            assert forall|k: int| 0 <= k < groups@.len() implies (#[trigger] groups@[k]).nodes@.len()
                > 0 by {
                assert(groups_view(groups@)[k] == groups@[k].nodes@);
                assert(all[k].len() > 0);
            }
        }
        groups
    }
}

/// The walk's bound: each visit leaves one fewer group entry unvisited,
/// and no frame is deeper than the visits so far.
pub open spec fn dfs_bounded(
    group: Seq<usize>,
    stack: Seq<(usize, usize)>,
    visited: Seq<usize>,
    order: Seq<(usize, usize)>,
) -> bool {
    &&& order.len() + group_unvisited(group, visited) <= group.len()
    &&& forall|i: int| 0 <= i < stack.len() ==> (#[trigger] stack[i]).1 <= order.len()
}

impl Graph {
    fn outgoing_of(&self, group: &Vec<usize>, id: usize) -> (r: Vec<usize>)
        ensures
            r@ == outgoing(self@, group@, id),
    {
        let ghost g = self@;
        let mut r: Vec<usize> = Vec::new();
        let mut n: usize = 0;
        while n < self.links.len()
            invariant
                g == self@,
                n <= self.links@.len(),
                r@ == outgoing_upto(g.nodes, g.links, group@, id, n as int),
            decreases self.links@.len() - n,
        {
            let l = self.links[n];
            match (self.node_of_pin(l.from), self.node_of_pin(l.to)) {
                (Some(f), Some(t)) => {
                    if f == id && pins_contain(group, f) && pins_contain(group, t) {
                        r.push(t);
                    }
                },
                _ => {},
            }
            n = n + 1;
        }
        r
    }

    fn has_incoming(&self, group: &Vec<usize>, id: usize) -> (r: bool)
        ensures
            r == !no_incoming(self@, group@)(id),
    {
        let ghost g = self@;
        let mut count: usize = 0;
        let mut n: usize = 0;
        while n < self.links.len()
            invariant
                g == self@,
                n <= self.links@.len(),
                count as nat == indegree_upto(g.nodes, g.links, group@, id, n as int),
                count <= n,
            decreases self.links@.len() - n,
        {
            let l = self.links[n];
            match (self.node_of_pin(l.from), self.node_of_pin(l.to)) {
                (Some(f), Some(t)) => {
                    if t == id && pins_contain(group, f) && pins_contain(group, t) {
                        count = count + 1;
                    }
                },
                _ => {},
            }
            n = n + 1;
        }
        count != 0
    }

    fn group_root_of(&self, nodes: &Vec<usize>) -> (r: usize)
        requires
            nodes@.len() > 0,
        ensures
            r == group_root(self@, nodes@),
    {
        let ghost g = self@;
        let mut i: usize = 0;
        while i < nodes.len()
            invariant
                g == self@,
                i <= nodes@.len(),
                forall|j: int| 0 <= j < i ==> !no_incoming(g, nodes@)(#[trigger] nodes@[j]),
            decreases nodes@.len() - i,
        {
            if !self.has_incoming(nodes, nodes[i]) {
                proof {
                    lemma_first_index_is(nodes@, no_incoming(g, nodes@), i as int);
                }
                return nodes[i];
            }
            i = i + 1;
        }
        proof {
            lemma_first_index_is(nodes@, no_incoming(g, nodes@), i as int);
        }
        nodes[0]
    }

    /// Walks depth first from the frames of `stack`, as `dfs` says.
    fn walk(
        &self,
        group: &Vec<usize>,
        stack: Vec<(usize, usize)>,
        visited: &mut Vec<usize>,
        order: &mut Vec<OrderedNode>,
    )
        requires
            dfs_bounded(group@, stack@, old(visited)@, ordered_view(old(order)@)),
        ensures
            (final(visited)@, ordered_view(final(order)@)) == dfs(
                self@,
                group@,
                stack@,
                old(visited)@,
                ordered_view(old(order)@),
            ),
            dfs_bounded(group@, Seq::empty(), final(visited)@, ordered_view(final(order)@)),
    {
        let ghost g = self@;
        let ghost target = dfs(g, group@, stack@, visited@, ordered_view(order@));
        let glen = group.len();
        let mut stack = stack;
        while stack.len() > 0
            invariant
                g == self@,
                glen == group@.len(),
                dfs(g, group@, stack@, visited@, ordered_view(order@)) == target,
                dfs_bounded(group@, stack@, visited@, ordered_view(order@)),
            decreases group_unvisited(group@, visited@), stack@.len(),
        {
            let ghost sb = stack@;
            let (n, d) = stack.pop().unwrap();
            proof {
                assert(sb.last() == (n, d));
                assert(stack@ =~= sb.drop_last());
                assert(d <= ordered_view(order@).len()) by {
                    assert(sb[sb.len() - 1].1 <= ordered_view(order@).len());
                }
            }
            if pins_contain(visited, n) || !pins_contain(group, n) {
                continue;
            }
            proof {
                lemma_group_unvisited_decreases(group@, visited@, n);
                assert(ordered_view(order@.push(OrderedNode { id: n, depth: d })) =~= ordered_view(
                    order@,
                ).push((n, d)));
            }
            visited.push(n);
            order.push(OrderedNode { id: n, depth: d });
            let children = self.outgoing_of(group, n);
            let ghost base = stack@;
            let mut k = children.len();
            while k > 0
                invariant
                    k <= children@.len(),
                    stack@ == base + child_frames(children@, d).subrange(
                        0,
                        (children@.len() - k) as int,
                    ),
                    d + 1 <= ordered_view(order@).len(),
                    ordered_view(order@).len() <= glen,
                    forall|i: int| 0 <= i < base.len() ==> (#[trigger] base[i]).1 <= ordered_view(
                        order@,
                    ).len(),
                    forall|i: int| 0 <= i < stack@.len() ==> (#[trigger] stack@[i]).1 <= ordered_view(
                        order@,
                    ).len(),
                decreases k,
            {
                let ghost sk = stack@;
                stack.push((children[k - 1], d + 1));
                proof {
                    let cf = child_frames(children@, d);
                    assert(cf[(children@.len() - k) as int] == (children@[k - 1], (d + 1) as usize));
                    assert(base + cf.subrange(0, (children@.len() - k + 1) as int) =~= sk.push(
                        (children@[k - 1], (d + 1) as usize),
                    ));
                }
                k = k - 1;
            }
            proof {
                let cf = child_frames(children@, d);
                assert(cf.subrange(0, cf.len() as int) =~= cf);
            }
        }
    }

    /// The nodes of a group with their depths: walked depth first from the
    /// group's first node that no link of the group enters (or its first
    /// node), following links within the group, and then from each node
    /// not reached yet, in the group's order.
    pub fn order_group(&self, group: &GraphGroup) -> (r: Vec<OrderedNode>)
        requires
            group.nodes@.len() > 0,
        ensures
            ordered_view(r@) == order_spec(self@, group.nodes@),
    {
        let ghost g = self@;
        let nodes = &group.nodes;
        let root = self.group_root_of(nodes);
        let mut visited: Vec<usize> = Vec::new();
        let mut order: Vec<OrderedNode> = Vec::new();
        proof {
            assert(visited@ =~= Seq::<usize>::empty());
            assert(ordered_view(order@) =~= Seq::<(usize, usize)>::empty());
            nodes@.lemma_filter_len(not_visited_id(visited@));
        }
        let start = vec![(root, 0usize)];
        proof {
            assert(start@ =~= seq![(group_root(g, nodes@), 0usize)]);
        }
        self.walk(nodes, start, &mut visited, &mut order);
        let ghost target = order_spec(g, nodes@);
        let mut k: usize = 0;
        while k < nodes.len()
            invariant
                g == self@,
                k <= nodes@.len(),
                dfs_rest(g, nodes@, k as int, visited@, ordered_view(order@)) == target,
                dfs_bounded(nodes@, Seq::empty(), visited@, ordered_view(order@)),
            decreases nodes@.len() - k,
        {
            if !pins_contain(&visited, nodes[k]) {
                let start = vec![(nodes[k], 0usize)];
                proof {
                    assert(start@ =~= seq![(nodes@[k as int], 0usize)]);
                }
                self.walk(nodes, start, &mut visited, &mut order);
            }
            k = k + 1;
        }
        order
    }
}

// ------------------------------------------------------------------------
// The links of a new graph join pins of its nodes
/// Some entry's node has `pin`.
pub open spec fn entries_have_pin(es: Seq<(Seq<char>, DialogV)>, pin: usize) -> bool {
    exists|i: int| 0 <= i < es.len() && #[trigger] es_node(es, i).pins().contains(pin)
}

pub open spec fn links_on_entries(es: Seq<(Seq<char>, DialogV)>, links: Seq<Link>) -> bool {
    forall|k: int|
        0 <= k < links.len() ==> entries_have_pin(es, #[trigger] links[k].from) && entries_have_pin(
            es,
            links[k].to,
        )
}

proof fn lemma_input_is_pin(es: Seq<(Seq<char>, DialogV)>, k: int)
    requires
        0 <= k < es.len(),
    ensures
        entries_have_pin(es, es_node(es, k).input()),
{
    assert(es_node(es, k).pins()[0] == es_node(es, k).input());
    assert(es_node(es, k).pins().contains(es_node(es, k).input()));
}

#[verifier::spinoff_prover]
proof fn lemma_link_events_on_entries(
    es: Seq<(Seq<char>, DialogV)>,
    st: LinkState,
    from: usize,
    evs: Seq<EventV>,
    n: int,
)
    requires
        0 <= n <= evs.len(),
        entries_have_pin(es, from),
        links_on_entries(es, st.links),
        links_on_entries(es, st.flow_links),
    ensures
        links_on_entries(es, link_events(es, st, from, evs, n).links),
        links_on_entries(es, link_events(es, st, from, evs, n).flow_links),
    decreases n,
{
    if n > 0 {
        lemma_link_events_on_entries(es, st, from, evs, n - 1);
        let prev = link_events(es, st, from, evs, n - 1);
        let cur = link_events(es, st, from, evs, n);
        assert(cur == link_event(es, prev, from, evs[n - 1]));
        match evs[n - 1] {
            EventV::Jump(t) => {
                lemma_last_index_of(entry_names(es), t);
                if let Some(k) = last_index_of(entry_names(es), t) {
                    lemma_input_is_pin(es, k);
                    assert(cur.flow_links == prev.flow_links);
                    assert forall|x: int| 0 <= x < cur.links.len() implies entries_have_pin(
                        es,
                        #[trigger] cur.links[x].from,
                    ) && entries_have_pin(es, cur.links[x].to) by {
                        if x < prev.links.len() {
                            assert(cur.links[x] == prev.links[x]);
                        }
                    }
                } else {
                    assert(cur == prev);
                }
            },
            EventV::SetMainChoicer(t) => {
                lemma_last_index_of(entry_names(es), t);
                if let Some(k) = last_index_of(entry_names(es), t) {
                    lemma_input_is_pin(es, k);
                    assert(cur.links == prev.links);
                    assert forall|x: int| 0 <= x < cur.flow_links.len() implies entries_have_pin(
                        es,
                        #[trigger] cur.flow_links[x].from,
                    ) && entries_have_pin(es, cur.flow_links[x].to) by {
                        if x < prev.flow_links.len() {
                            assert(cur.flow_links[x] == prev.flow_links[x]);
                        }
                    }
                } else {
                    assert(cur == prev);
                }
            },
            _ => {
                assert(cur == prev);
            },
        }
    }
}

proof fn lemma_link_nodes_on_entries(es: Seq<(Seq<char>, DialogV)>, st: LinkState, i: int, m: int)
    requires
        0 <= i < es.len(),
        0 <= m <= dialog_nodes_of(es[i].1).len(),
        links_on_entries(es, st.links),
        links_on_entries(es, st.flow_links),
    ensures
        links_on_entries(es, link_nodes(es, st, i, m).links),
        links_on_entries(es, link_nodes(es, st, i, m).flow_links),
    decreases m,
{
    if m > 0 {
        lemma_link_nodes_on_entries(es, st, i, m - 1);
        let from = node_from(es, i, m - 1);
        let n = es_node(es, i);
        if es[i].1 is Conversation {
            assert(n.pins()[1] == from);
        } else {
            assert(n.pins()[m] == from);
        }
        assert(n.pins().contains(from));
        let ns = dialog_nodes_of(es[i].1);
        lemma_link_events_on_entries(
            es,
            link_nodes(es, st, i, m - 1),
            from,
            ns[m - 1].events,
            ns[m - 1].events.len() as int,
        );
    }
}

proof fn lemma_link_entries_on_entries(es: Seq<(Seq<char>, DialogV)>, n: int)
    requires
        0 <= n <= es.len(),
    ensures
        links_on_entries(es, link_entries(es, n).links),
        links_on_entries(es, link_entries(es, n).flow_links),
    decreases n,
{
    if n > 0 {
        lemma_link_entries_on_entries(es, n - 1);
        lemma_link_nodes_on_entries(
            es,
            link_entries(es, n - 1),
            n - 1,
            dialog_nodes_of(es[n - 1].1).len() as int,
        );
    }
}

/// The links and flow links of a new graph join pins of its nodes, so
/// grouping and walking its nodes needs nothing more.
pub proof fn lemma_new_graph_links_resolved(es: Seq<(Seq<char>, DialogV)>)
    ensures
        links_resolved(graph_of(es).nodes, graph_of(es).links),
        links_resolved(graph_of(es).nodes, graph_of(es).flow_links),
{
    broadcast use vstd::seq_lib::group_to_multiset_ensures;

    let g = graph_of(es);
    let unsorted = Seq::new(es.len(), |i: int| es_node(es, i));
    lemma_sort_by_name_multiset(unsorted);
    lemma_link_entries_on_entries(es, es.len() as int);
    assert forall|pin: usize| entries_have_pin(es, pin) implies node_of(g.nodes, pin) is Some by {
        let i = choose|i: int| 0 <= i < es.len() && #[trigger] es_node(es, i).pins().contains(pin);
        assert(unsorted[i] == es_node(es, i));
        assert(unsorted.contains(unsorted[i]));
        assert(g.nodes.to_multiset().count(unsorted[i]) > 0);
        assert(g.nodes.contains(unsorted[i]));
        let m = choose|m: int| 0 <= m < g.nodes.len() && g.nodes[m] == unsorted[i];
        lemma_last_index(g.nodes, has_pin(pin));
        if last_index(g.nodes, has_pin(pin)) is None {
            assert(!has_pin(pin)(g.nodes[m]));
        }
    }
}

proof fn lemma_bfs_grows(g: GraphV, queue: Seq<usize>, visited: Seq<usize>, group: Seq<usize>)
    ensures
        bfs(g, queue, visited, group).0.len() >= group.len(),
        queue.len() > 0 ==> bfs(g, queue, visited, group).0.len() > group.len(),
    decreases unvisited_count(g.nodes, visited), queue.len(),
{
    if queue.len() > 0 {
        let id = queue[0];
        let ns = neighbors(g, id);
        let (v, q) = visit_upto(ns, visited, queue.drop_first(), ns.len() as int);
        lemma_neighbors_are_nodes(g.nodes, g.links, id, g.links.len() as int);
        lemma_visit_upto(g.nodes, ns, visited, queue.drop_first(), ns.len() as int);
        if v.len() == visited.len() {
            assert(v.subrange(visited.len() as int, v.len() as int) =~= Seq::<usize>::empty());
            assert(q =~= queue.drop_first());
            assert(v =~= visited);
        }
        lemma_bfs_grows(g, q, v, group.push(id));
    }
}

/// Every group of `connected_components` holds a node, so each can be
/// walked by `order_group`.
pub proof fn lemma_components_nonempty(g: GraphV, n: int)
    requires
        0 <= n <= g.nodes.len(),
    ensures
        forall|k: int|
            0 <= k < components_upto(g, n).0.len() ==> (#[trigger] components_upto(g, n).0[k]).len()
                > 0,
    decreases n,
{
    if n > 0 {
        lemma_components_nonempty(g, n - 1);
        let (groups, visited) = components_upto(g, n - 1);
        let start = g.nodes[n - 1].id();
        if !visited.contains(start) {
            lemma_bfs_grows(g, seq![start], visited.push(start), seq![]);
            let cur = components_upto(g, n).0;
            assert forall|k: int| 0 <= k < cur.len() implies (#[trigger] cur[k]).len() > 0 by {
                if k < groups.len() {
                    assert(cur[k] == groups[k]);
                }
            }
        }
    }
}

} // verus!
