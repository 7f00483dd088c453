//! A conversation's timeline: containers (one per speaker) of event blocks,
//! with a selected container or block, and its export to a dialog.
use crate::dialog::parser::{events_view, Dialog, DialogNode, DialogNodeV, DialogV, Event, EventV};
use vstd::prelude::*;

verus! {

/// What a timeline block does.
#[derive(Debug, PartialEq)]
pub enum TimelineBlockType {
    /// Set an animation and enum parameters (enum name, value name).
    SetParams { parameters: Vec<(String, String)>, anim: String },
    Text(String),
    /// Wait, for the seconds as written.
    Wait(String),
    Next,
}

pub enum TimelineBlockTypeV {
    SetParams { parameters: Seq<(Seq<char>, Seq<char>)>, anim: Seq<char> },
    Text(Seq<char>),
    Wait(Seq<char>),
    Next,
}

impl View for TimelineBlockType {
    type V = TimelineBlockTypeV;

    open spec fn view(&self) -> TimelineBlockTypeV {
        match self {
            TimelineBlockType::SetParams { parameters, anim } => TimelineBlockTypeV::SetParams {
                parameters: parameters@.map_values(|p: (String, String)| (p.0@, p.1@)),
                anim: anim@,
            },
            TimelineBlockType::Text(t) => TimelineBlockTypeV::Text(t@),
            TimelineBlockType::Wait(w) => TimelineBlockTypeV::Wait(w@),
            TimelineBlockType::Next => TimelineBlockTypeV::Next,
        }
    }
}

/// The parameters of a `Set` block after moving the one at `idx` one place
/// up (towards the start) or down, when there is such a place.
pub open spec fn moved_parameter(ps: Seq<(Seq<char>, Seq<char>)>, idx: int, up: bool) -> Seq<
    (Seq<char>, Seq<char>),
> {
    let target = if up {
        idx - 1
    } else {
        idx + 1
    };
    if 0 <= target < ps.len() {
        ps.update(idx, ps[target]).update(target, ps[idx])
    } else {
        ps
    }
}

impl TimelineBlockType {
    /// Moves the parameter at `idx` of a `Set` block one place up or down,
    /// swapping it with its neighbour; at either end nothing moves. Other
    /// blocks have no parameters.
    pub fn move_parameter(&mut self, idx: usize, up: bool)
        requires
            old(self)@ matches TimelineBlockTypeV::SetParams { parameters, .. } ==> idx
                < parameters.len(),
        ensures
            final(self)@ == match old(self)@ {
                TimelineBlockTypeV::SetParams { parameters, anim } => TimelineBlockTypeV::SetParams {
                    parameters: moved_parameter(parameters, idx as int, up),
                    anim,
                },
                other => other,
            },
    {
        if let TimelineBlockType::SetParams { parameters, .. } = self {
            let ghost before = parameters@;
            let target_ok = if up {
                idx > 0
            } else {
                idx < parameters.len() && parameters.len() - idx > 1
            };
            if target_ok {
                let lo = if up {
                    idx - 1
                } else {
                    idx
                };
                let x = parameters.remove(lo);
                parameters.insert(lo + 1, x);
                proof {
                    assert(parameters@.map_values(|p: (String, String)| (p.0@, p.1@))
                        =~= moved_parameter(
                        before.map_values(|p: (String, String)| (p.0@, p.1@)),
                        idx as int,
                        up,
                    ));
                }
            }
        }
    }

    /// Removes the parameter at `idx` of a `Set` block. Other blocks have
    /// no parameters.
    pub fn remove_parameter(&mut self, idx: usize)
        requires
            old(self)@ matches TimelineBlockTypeV::SetParams { parameters, .. } ==> idx
                < parameters.len(),
        ensures
            final(self)@ == match old(self)@ {
                TimelineBlockTypeV::SetParams { parameters, anim } => TimelineBlockTypeV::SetParams {
                    parameters: parameters.remove(idx as int),
                    anim,
                },
                other => other,
            },
    {
        if let TimelineBlockType::SetParams { parameters, .. } = self {
            let ghost before = parameters@;
            let _ = parameters.remove(idx);
            proof {
                assert(parameters@.map_values(|p: (String, String)| (p.0@, p.1@)) =~= before.map_values(
                    |p: (String, String)| (p.0@, p.1@),
                ).remove(idx as int));
            }
        }
    }

    /// Adds a parameter (enum name, value name) at the end of a `Set`
    /// block. Other blocks have no parameters.
    pub fn push_parameter(&mut self, enum_name: String, value: String)
        ensures
            final(self)@ == match old(self)@ {
                TimelineBlockTypeV::SetParams { parameters, anim } => TimelineBlockTypeV::SetParams {
                    parameters: parameters.push((enum_name@, value@)),
                    anim,
                },
                other => other,
            },
    {
        if let TimelineBlockType::SetParams { parameters, .. } = self {
            let ghost before = parameters@;
            parameters.push((enum_name, value));
            proof {
                assert(parameters@.map_values(|p: (String, String)| (p.0@, p.1@)) =~= before.map_values(
                    |p: (String, String)| (p.0@, p.1@),
                ).push((enum_name@, value@)));
            }
        }
    }

    /// A `Set` block with no animation and no parameters.
    pub fn empty_set() -> (r: Self)
        ensures
            r@ == (TimelineBlockTypeV::SetParams { parameters: seq![], anim: seq![] }),
    {
        let parameters: Vec<(String, String)> = Vec::new();
        let r = TimelineBlockType::SetParams { parameters, anim: String::new() };
        proof {
            assert(r@->SetParams_parameters =~= seq![]);
        }
        r
    }
}

/// A block of a container, with an id unique in it when made.
#[derive(Debug, PartialEq)]
pub struct TimelineBlock {
    pub id: usize,
    pub value: TimelineBlockType,
}

pub struct TimelineBlockV {
    pub id: usize,
    pub value: TimelineBlockTypeV,
}

impl View for TimelineBlock {
    type V = TimelineBlockV;

    open spec fn view(&self) -> TimelineBlockV {
        TimelineBlockV { id: self.id, value: self.value@ }
    }
}

/// A speaker's container of blocks.
#[derive(Debug, PartialEq)]
pub struct Container {
    pub id: usize,
    pub name: String,
    pub blocks: Vec<TimelineBlock>,
}

pub struct ContainerV {
    pub id: usize,
    pub name: Seq<char>,
    pub blocks: Seq<TimelineBlockV>,
}

pub open spec fn blocks_view(v: Seq<TimelineBlock>) -> Seq<TimelineBlockV> {
    v.map_values(|b: TimelineBlock| b@)
}

impl View for Container {
    type V = ContainerV;

    open spec fn view(&self) -> ContainerV {
        ContainerV { id: self.id, name: self.name@, blocks: blocks_view(self.blocks@) }
    }
}

/// The events a block exports to: a `Set` block gives its animation and
/// then its parameters.
pub open spec fn block_events(b: TimelineBlockTypeV) -> Seq<EventV> {
    match b {
        TimelineBlockTypeV::SetParams { parameters, anim } => seq![EventV::SetAnim(anim)]
            + parameters.map_values(|p: (Seq<char>, Seq<char>)| EventV::SetParameter(p.0, p.1)),
        TimelineBlockTypeV::Text(t) => seq![EventV::Text(t)],
        TimelineBlockTypeV::Wait(w) => seq![EventV::Wait(w)],
        TimelineBlockTypeV::Next => seq![],
    }
}

/// The events of blocks, in order.
pub open spec fn blocks_events(bs: Seq<TimelineBlockV>) -> Seq<EventV>
    decreases bs.len(),
{
    if bs.len() == 0 {
        seq![]
    } else {
        blocks_events(bs.drop_last()) + block_events(bs.last().value)
    }
}

/// No block of the container is a `Next` block, which has no export.
pub open spec fn exportable(c: ContainerV) -> bool {
    forall|k: int| 0 <= k < c.blocks.len() ==> !(#[trigger] c.blocks[k].value is Next)
}

/// The dialog node a container exports to.
pub open spec fn container_node(c: ContainerV) -> DialogNodeV {
    DialogNodeV { label: c.name, events: blocks_events(c.blocks) }
}

fn clone_parameters(v: &Vec<(String, String)>) -> (r: Vec<Event>)
    ensures
        events_view(r@) == v@.map_values(|p: (String, String)| (p.0@, p.1@)).map_values(
            |p: (Seq<char>, Seq<char>)| EventV::SetParameter(p.0, p.1),
        ),
{
    let ghost target = v@.map_values(|p: (String, String)| (p.0@, p.1@)).map_values(
        |p: (Seq<char>, Seq<char>)| EventV::SetParameter(p.0, p.1),
    );
    let mut r: Vec<Event> = Vec::new();
    let mut i: usize = 0;
    while i < v.len()
        invariant
            i <= v@.len(),
            target == v@.map_values(|p: (String, String)| (p.0@, p.1@)).map_values(
                |p: (Seq<char>, Seq<char>)| EventV::SetParameter(p.0, p.1),
            ),
            events_view(r@) =~= target.subrange(0, i as int),
        decreases v@.len() - i,
    {
        let e = Event::SetParameter(v[i].0.clone(), v[i].1.clone());
        proof {
            assert(events_view(r@.push(e)) =~= events_view(r@).push(e@));
        }
        r.push(e);
        i = i + 1;
    }
    proof {
        assert(target.subrange(0, v@.len() as int) =~= target);
    }
    r
}

fn clone_pairs(v: &Vec<(String, String)>) -> (r: Vec<(String, String)>)
    ensures
        r@.map_values(|p: (String, String)| (p.0@, p.1@)) == v@.map_values(
            |p: (String, String)| (p.0@, p.1@),
        ),
{
    let mut r: Vec<(String, String)> = Vec::new();
    let mut i: usize = 0;
    while i < v.len()
        invariant
            i <= v@.len(),
            r@.map_values(|p: (String, String)| (p.0@, p.1@)) =~= v@.map_values(
                |p: (String, String)| (p.0@, p.1@),
            ).subrange(0, i as int),
        decreases v@.len() - i,
    {
        let p = (v[i].0.clone(), v[i].1.clone());
        proof {
            assert(r@.push(p).map_values(|p: (String, String)| (p.0@, p.1@)) =~= r@.map_values(
                |p: (String, String)| (p.0@, p.1@),
            ).push((p.0@, p.1@)));
        }
        r.push(p);
        i = i + 1;
    }
    proof {
        let all = v@.map_values(|p: (String, String)| (p.0@, p.1@));
        assert(all.subrange(0, all.len() as int) =~= all);
    }
    r
}

impl Clone for TimelineBlockType {
    fn clone(&self) -> (r: Self)
        ensures
            r@ == self@,
    {
        match self {
            TimelineBlockType::SetParams { parameters, anim } => TimelineBlockType::SetParams {
                parameters: clone_pairs(parameters),
                anim: anim.clone(),
            },
            TimelineBlockType::Text(t) => TimelineBlockType::Text(t.clone()),
            TimelineBlockType::Wait(w) => TimelineBlockType::Wait(w.clone()),
            TimelineBlockType::Next => TimelineBlockType::Next,
        }
    }
}

impl Clone for TimelineBlock {
    fn clone(&self) -> (r: Self)
        ensures
            r@ == self@,
    {
        TimelineBlock { id: self.id, value: self.value.clone() }
    }
}

impl Clone for Container {
    fn clone(&self) -> (r: Self)
        ensures
            r@ == self@,
    {
        let blocks = self.blocks.clone();
        proof {
            assert forall|i: int| 0 <= i < self.blocks@.len() implies blocks@[i]@
                == self.blocks@[i]@ by {
                assert(cloned::<TimelineBlock>(self.blocks[i], blocks[i]));
            }
            assert(blocks_view(blocks@) =~= blocks_view(self.blocks@));
        }
        Container { id: self.id, name: self.name.clone(), blocks }
    }
}

impl Container {
    /// Adds a block at the end, with the number of blocks before it as id.
    pub fn add_block(&mut self, value: TimelineBlockType)
        ensures
            final(self)@ == (ContainerV {
                blocks: old(self)@.blocks.push(
                    TimelineBlockV { id: old(self)@.blocks.len() as usize, value: value@ },
                ),
                ..old(self)@
            }),
    {
        let id = self.blocks.len();
        let b = TimelineBlock { id, value };
        proof {
            assert(blocks_view(self.blocks@.push(b)) =~= blocks_view(self.blocks@).push(b@));
        }
        self.blocks.push(b);
    }

    /// The dialog node of this container: its name as label and its blocks'
    /// events in order. A `Next` block has no export.
    pub fn export_to_dialog_node(&self) -> (r: DialogNode)
        requires
            exportable(self@),
        ensures
            r@ == container_node(self@),
    {
        let mut events: Vec<Event> = Vec::new();
        let mut i: usize = 0;
        while i < self.blocks.len()
            invariant
                i <= self.blocks@.len(),
                exportable(self@),
                events_view(events@) =~= blocks_events(blocks_view(self.blocks@).subrange(0, i as int)),
            decreases self.blocks@.len() - i,
        {
            let ghost before = events_view(events@);
            let ghost bv = blocks_view(self.blocks@);
            proof {
                assert(bv.subrange(0, i + 1).drop_last() =~= bv.subrange(0, i as int));
                assert(bv[i as int] == self.blocks@[i as int]@);
                assert(!(bv[i as int].value is Next));
            }
            match &self.blocks[i].value {
                TimelineBlockType::Wait(seconds) => {
                    let e = Event::Wait(seconds.clone());
                    proof {
                        assert(events_view(events@.push(e)) =~= before.push(e@));
                    }
                    events.push(e);
                },
                TimelineBlockType::Text(text) => {
                    let e = Event::Text(text.clone());
                    proof {
                        assert(events_view(events@.push(e)) =~= before.push(e@));
                    }
                    events.push(e);
                },
                TimelineBlockType::SetParams { parameters, anim } => {
                    let e = Event::SetAnim(anim.clone());
                    proof {
                        assert(events_view(events@.push(e)) =~= before.push(e@));
                    }
                    events.push(e);
                    let mut ps = clone_parameters(parameters);
                    let ghost mid = events_view(events@);
                    proof {
                        assert(events_view(events@ + ps@) =~= mid + events_view(ps@));
                    }
                    events.append(&mut ps);
                },
                TimelineBlockType::Next => {},
            }
            proof {
                assert(blocks_events(bv.subrange(0, i + 1)) =~= before + block_events(
                    bv[i as int].value,
                ));
            }
            i = i + 1;
        }
        proof {
            assert(blocks_view(self.blocks@).subrange(0, self.blocks@.len() as int) =~= blocks_view(
                self.blocks@,
            ));
        }
        DialogNode { label: self.name.clone(), events }
    }
}

/// What is selected in a timeline, by position.
#[derive(Debug, PartialEq)]
pub enum Selection {
    /// The container at this position.
    Container(usize),
    /// The block at `.2` in the container at `.1`, whose id is `.0`.
    Block(usize, usize, usize),
}

/// The containers of a conversation and what is selected in them.
pub struct Timeline {
    containers: Vec<Container>,
    selected_container_id: Option<usize>,
    selected_block: Option<(usize, usize)>,
}

pub struct TimelineV {
    pub containers: Seq<ContainerV>,
    pub selected_container_id: Option<usize>,
    /// The selected block, as (container id, block id).
    pub selected_block: Option<(usize, usize)>,
}

pub open spec fn containers_view(v: Seq<Container>) -> Seq<ContainerV> {
    v.map_values(|c: Container| c@)
}

impl View for Timeline {
    type V = TimelineV;

    closed spec fn view(&self) -> TimelineV {
        TimelineV {
            containers: containers_view(self.containers@),
            selected_container_id: self.selected_container_id,
            selected_block: self.selected_block,
        }
    }
}

/// The position of the first container with id `id`.
pub open spec fn container_pos(cs: Seq<ContainerV>, id: usize) -> Option<int>
    decreases cs.len(),
{
    if cs.len() == 0 {
        None
    } else if cs[0].id == id {
        Some(0)
    } else {
        match container_pos(cs.drop_first(), id) {
            Some(k) => Some(k + 1),
            None => None,
        }
    }
}

/// The position of the first block with id `id`.
pub open spec fn block_pos(bs: Seq<TimelineBlockV>, id: usize) -> Option<int>
    decreases bs.len(),
{
    if bs.len() == 0 {
        None
    } else if bs[0].id == id {
        Some(0)
    } else {
        match block_pos(bs.drop_first(), id) {
            Some(k) => Some(k + 1),
            None => None,
        }
    }
}

pub proof fn lemma_container_pos(cs: Seq<ContainerV>, id: usize)
    ensures
        match container_pos(cs, id) {
            Some(k) => 0 <= k < cs.len() && cs[k].id == id && forall|j: int|
                0 <= j < k ==> cs[j].id != id,
            None => forall|j: int| 0 <= j < cs.len() ==> cs[j].id != id,
        },
    decreases cs.len(),
{
    if cs.len() > 0 && cs[0].id != id {
        lemma_container_pos(cs.drop_first(), id);
        assert forall|j: int| 0 < j < cs.len() implies cs[j] == cs.drop_first()[j - 1] by {}
    }
}

pub proof fn lemma_block_pos(bs: Seq<TimelineBlockV>, id: usize)
    ensures
        match block_pos(bs, id) {
            Some(k) => 0 <= k < bs.len() && bs[k].id == id && forall|j: int|
                0 <= j < k ==> bs[j].id != id,
            None => forall|j: int| 0 <= j < bs.len() ==> bs[j].id != id,
        },
    decreases bs.len(),
{
    if bs.len() > 0 && bs[0].id != id {
        lemma_block_pos(bs.drop_first(), id);
        assert forall|j: int| 0 < j < bs.len() implies bs[j] == bs.drop_first()[j - 1] by {}
    }
}

fn find_container(cs: &Vec<Container>, id: usize) -> (r: Option<usize>)
    ensures
        match r {
            Some(k) => container_pos(containers_view(cs@), id) == Some(k as int),
            None => container_pos(containers_view(cs@), id) is None,
        },
{
    let ghost cv = containers_view(cs@);
    proof {
        lemma_container_pos(cv, id);
    }
    let mut k: usize = 0;
    while k < cs.len()
        invariant
            cv == containers_view(cs@),
            k <= cs@.len(),
            forall|j: int| 0 <= j < k ==> cv[j].id != id,
        decreases cs@.len() - k,
    {
        if cs[k].id == id {
            proof {
                lemma_container_pos(cv, id);
                assert(cv[k as int].id == id);
                match container_pos(cv, id) {
                    Some(m) => {
                        if m != k {
                            assert(cv[m].id == id);
                        }
                    },
                    None => {},
                }
            }
            return Some(k);
        }
        k = k + 1;
    }
    proof {
        lemma_container_pos(cv, id);
        match container_pos(cv, id) {
            Some(m) => {
                assert(cv[m].id == id);
            },
            None => {},
        }
    }
    None
}

fn find_block(bs: &Vec<TimelineBlock>, id: usize) -> (r: Option<usize>)
    ensures
        match r {
            Some(k) => block_pos(blocks_view(bs@), id) == Some(k as int),
            None => block_pos(blocks_view(bs@), id) is None,
        },
{
    let ghost bv = blocks_view(bs@);
    proof {
        lemma_block_pos(bv, id);
    }
    let mut k: usize = 0;
    while k < bs.len()
        invariant
            bv == blocks_view(bs@),
            k <= bs@.len(),
            forall|j: int| 0 <= j < k ==> bv[j].id != id,
        decreases bs@.len() - k,
    {
        if bs[k].id == id {
            proof {
                lemma_block_pos(bv, id);
                assert(bv[k as int].id == id);
                match block_pos(bv, id) {
                    Some(m) => {
                        if m != k {
                            assert(bv[m].id == id);
                        }
                    },
                    None => {},
                }
            }
            return Some(k);
        }
        k = k + 1;
    }
    proof {
        lemma_block_pos(bv, id);
        match block_pos(bv, id) {
            Some(m) => {
                assert(bv[m].id == id);
            },
            None => {},
        }
    }
    None
}

/// What `get_selected` finds: the selected block where one is selected
/// (nothing if its container or itself is gone), else the selected
/// container.
pub open spec fn selection_of(t: TimelineV) -> Option<(int, Option<(usize, int)>)> {
    match t.selected_block {
        Some((cid, bid)) => match container_pos(t.containers, cid) {
            Some(ci) => match block_pos(t.containers[ci].blocks, bid) {
                Some(bi) => Some((ci, Some((cid, bi)))),
                None => None,
            },
            None => None,
        },
        None => match t.selected_container_id {
            Some(cid) => match container_pos(t.containers, cid) {
                Some(ci) => Some((ci, None)),
                None => None,
            },
            None => None,
        },
    }
}

impl Clone for Timeline {
    fn clone(&self) -> (r: Self)
        ensures
            r@ == self@,
    {
        let containers = self.containers.clone();
        proof {
            assert forall|i: int| 0 <= i < self.containers@.len() implies containers@[i]@
                == self.containers@[i]@ by {
                assert(cloned::<Container>(self.containers[i], containers[i]));
            }
            assert(containers_view(containers@) =~= containers_view(self.containers@));
        }
        Timeline {
            containers,
            selected_container_id: self.selected_container_id,
            selected_block: self.selected_block,
        }
    }
}

impl Timeline {
    /// An empty timeline with nothing selected.
    pub fn new() -> (r: Self)
        ensures
            r@ == (TimelineV {
                containers: seq![],
                selected_container_id: None,
                selected_block: None,
            }),
    {
        let r = Timeline { containers: Vec::new(), selected_container_id: None, selected_block: None };
        proof {
            assert(r@.containers =~= seq![]);
        }
        r
    }

    /// The containers, in order.
    pub fn containers(&self) -> (r: &Vec<Container>)
        ensures
            containers_view(r@) == self@.containers,
    {
        &self.containers
    }

    /// The container at position `idx`, to change.
    pub fn container_mut(&mut self, idx: usize) -> (r: &mut Container)
        requires
            idx < old(self)@.containers.len(),
        ensures
            (*r)@ == old(self)@.containers[idx as int],
            final(self)@ == (TimelineV {
                containers: old(self)@.containers.update(idx as int, (*final(r))@),
                ..old(self)@
            }),
    {
        proof {
            assert(containers_view(self.containers@)[idx as int] == self.containers@[idx as int]@);
            assert forall|x: Container| #[trigger]
                containers_view(self.containers@.update(idx as int, x)) =~= containers_view(
                    self.containers@,
                ).update(idx as int, x@) by {}
        }
        let r = &mut self.containers[idx];
        r
    }

    /// Selects the container with id `id`, and no block.
    pub fn select_container(&mut self, id: usize)
        ensures
            final(self)@ == (TimelineV {
                selected_container_id: Some(id),
                selected_block: None,
                ..old(self)@
            }),
    {
        self.selected_container_id = Some(id);
        self.selected_block = None;
    }

    /// Selects the block with id `block_id` in the container with id
    /// `container_id`.
    pub fn select_block(&mut self, container_id: usize, block_id: usize)
        ensures
            final(self)@ == (TimelineV {
                selected_container_id: Some(container_id),
                selected_block: Some((container_id, block_id)),
                ..old(self)@
            }),
    {
        self.selected_container_id = Some(container_id);
        self.selected_block = Some((container_id, block_id));
    }

    /// The selected block (with its container's id and position) or
    /// container, by position: see [`selection_of`].
    pub fn get_selected(&self) -> (r: Option<Selection>)
        ensures
            match selection_of(self@) {
                Some((ci, Some((cid, bi)))) => r == Some(Selection::Block(cid, ci as usize, bi as usize)),
                Some((ci, None)) => r == Some(Selection::Container(ci as usize)),
                None => r is None,
            },
    {
        proof {
            lemma_container_pos(self@.containers, self.selected_container_id.unwrap_or(0));
        }
        match self.selected_block {
            Some((container_id, block_id)) => {
                let container_idx = match find_container(&self.containers, container_id) {
                    Some(k) => k,
                    None => {
                        return None;
                    },
                };
                proof {
                    lemma_container_pos(self@.containers, container_id);
                    assert(self@.containers[container_idx as int] == self.containers@[container_idx as int]@);
                }
                match find_block(&self.containers[container_idx].blocks, block_id) {
                    Some(bi) => Some(Selection::Block(container_id, container_idx, bi)),
                    None => None,
                }
            },
            None => match self.selected_container_id {
                Some(container_id) => match find_container(&self.containers, container_id) {
                    Some(k) => Some(Selection::Container(k)),
                    None => None,
                },
                None => None,
            },
        }
    }

    /// Adds an empty container at the end, with the number of containers
    /// before it as id.
    pub fn push_back_container(&mut self, name: String)
        ensures
            final(self)@ == (TimelineV {
                containers: old(self)@.containers.push(
                    ContainerV {
                        id: old(self)@.containers.len() as usize,
                        name: name@,
                        blocks: seq![],
                    },
                ),
                ..old(self)@
            }),
    {
        let c = Container { id: self.containers.len(), name, blocks: Vec::new() };
        proof {
            assert(c@.blocks =~= seq![]);
            assert(containers_view(self.containers@.push(c)) =~= containers_view(
                self.containers@,
            ).push(c@));
        }
        self.containers.push(c);
    }

    /// Removes the first container with id `id`, if there is one.
    pub fn delete_container(&mut self, id: usize)
        ensures
            final(self)@ == (TimelineV {
                containers: match container_pos(old(self)@.containers, id) {
                    Some(k) => old(self)@.containers.remove(k),
                    None => old(self)@.containers,
                },
                ..old(self)@
            }),
    {
        match find_container(&self.containers, id) {
            Some(idx) => {
                proof {
                    lemma_container_pos(self@.containers, id);
                }
                let ghost before = self.containers@;
                self.containers.remove(idx);
                proof {
                    assert(containers_view(self.containers@) =~= containers_view(before).remove(
                        idx as int,
                    ));
                }
            },
            None => {},
        }
    }

    /// Removes the first block with id `block_id` from the first container
    /// with id `container_id`, if there are such.
    pub fn delete_block(&mut self, container_id: usize, block_id: usize)
        ensures
            final(self)@ == (TimelineV {
                containers: match container_pos(old(self)@.containers, container_id) {
                    Some(ci) => match block_pos(old(self)@.containers[ci].blocks, block_id) {
                        Some(bi) => old(self)@.containers.update(
                            ci,
                            ContainerV {
                                blocks: old(self)@.containers[ci].blocks.remove(bi),
                                ..old(self)@.containers[ci]
                            },
                        ),
                        None => old(self)@.containers,
                    },
                    None => old(self)@.containers,
                },
                ..old(self)@
            }),
    {
        match find_container(&self.containers, container_id) {
            Some(ci) => {
                proof {
                    lemma_container_pos(self@.containers, container_id);
                    assert(self@.containers[ci as int] == self.containers@[ci as int]@);
                }
                match find_block(&self.containers[ci].blocks, block_id) {
                    Some(bi) => {
                        proof {
                            lemma_block_pos(self@.containers[ci as int].blocks, block_id);
                        }
                        let c = self.container_mut(ci);
                        let ghost before = c.blocks@;
                        c.blocks.remove(bi);
                        proof {
                            assert(blocks_view(c.blocks@) =~= blocks_view(before).remove(bi as int));
                        }
                    },
                    None => {},
                }
            },
            None => {},
        }
    }

    /// Moves the block at `from` in the container at `container_idx` to
    /// position `to` (after taking it out), as dropping a dragged block does.
    pub fn move_block(&mut self, container_idx: usize, from: usize, to: usize)
        requires
            container_idx < old(self)@.containers.len(),
            from < old(self)@.containers[container_idx as int].blocks.len(),
            to < old(self)@.containers[container_idx as int].blocks.len(),
        ensures
            final(self)@ == (TimelineV {
                containers: old(self)@.containers.update(
                    container_idx as int,
                    ContainerV {
                        blocks: old(self)@.containers[container_idx as int].blocks.remove(
                            from as int,
                        ).insert(to as int, old(self)@.containers[container_idx as int].blocks[from as int]),
                        ..old(self)@.containers[container_idx as int]
                    },
                ),
                ..old(self)@
            }),
    {
        let c = self.container_mut(container_idx);
        let ghost before = c.blocks@;
        let b = c.blocks.remove(from);
        c.blocks.insert(to, b);
        proof {
            assert(blocks_view(c.blocks@) =~= blocks_view(before).remove(from as int).insert(
                to as int,
                blocks_view(before)[from as int],
            ));
        }
    }

    /// Moves the container at `from` to position `to` (after taking it
    /// out), as dropping a dragged container does.
    pub fn move_container(&mut self, from: usize, to: usize)
        requires
            from < old(self)@.containers.len(),
            to < old(self)@.containers.len(),
        ensures
            final(self)@ == (TimelineV {
                containers: old(self)@.containers.remove(from as int).insert(
                    to as int,
                    old(self)@.containers[from as int],
                ),
                ..old(self)@
            }),
    {
        let ghost before = self.containers@;
        let c = self.containers.remove(from);
        self.containers.insert(to, c);
        proof {
            assert(containers_view(self.containers@) =~= containers_view(before).remove(
                from as int,
            ).insert(to as int, containers_view(before)[from as int]));
        }
    }

    /// The conversation of this timeline: one node per container, in order.
    /// A `Next` block has no export.
    pub fn export_to_dialog(&self) -> (r: Dialog)
        requires
            forall|k: int| 0 <= k < self@.containers.len() ==> exportable(#[trigger] self@.containers[k]),
        ensures
            r@ == DialogV::Conversation(self@.containers.map_values(|c: ContainerV| container_node(c))),
    {
        let mut nodes: Vec<DialogNode> = Vec::new();
        let mut i: usize = 0;
        while i < self.containers.len()
            invariant
                i <= self.containers@.len(),
                forall|k: int| 0 <= k < self@.containers.len() ==> exportable(#[trigger] self@.containers[k]),
                nodes@.map_values(|n: DialogNode| n@) =~= self@.containers.map_values(
                    |c: ContainerV| container_node(c),
                ).subrange(0, i as int),
            decreases self.containers@.len() - i,
        {
            proof {
                assert(self@.containers[i as int] == self.containers@[i as int]@);
            }
            let n = self.containers[i].export_to_dialog_node();
            proof {
                assert(nodes@.push(n).map_values(|n: DialogNode| n@) =~= nodes@.map_values(
                    |n: DialogNode| n@,
                ).push(n@));
            }
            nodes.push(n);
            i = i + 1;
        }
        proof {
            let all = self@.containers.map_values(|c: ContainerV| container_node(c));
            assert(all.subrange(0, all.len() as int) =~= all);
            assert(crate::dialog::parser::nodes_view(nodes@) =~= nodes@.map_values(|n: DialogNode| n@));
        }
        Dialog::Conversation(nodes)
    }
}

} // verus!
