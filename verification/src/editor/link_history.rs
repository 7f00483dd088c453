//! Why no two links of a kind ever share an id, however edits, undos and
//! redos follow each other.
//!
//! Each recorded edit, seen from one kind of link (links or flow links),
//! adds a link in place of another, removes one, brings back a group, or
//! leaves them alone. Alongside the links in the graph stands a set of
//! ids: those of the links as the history would have them, which may keep
//! ids of links that an unrecorded edit took away. Undoing and redoing move
//! that set exactly back and forth, and the ids in the graph stay in it.
use crate::editor::graph::{
    clamp, command_below, id_is_not, joins_none_of, not_joining, push_opt, redo_apply, redo_spec,
    undo_apply, undo_spec, without_id, CommandV, GraphV, Link,
};
use vstd::prelude::*;

verus! {

/// What an edit does to one kind of link.
pub enum LinkEdit {
    /// `link` came in, in place of `replaced`.
    Add(Link, Option<Link>),
    /// The link at the index left.
    Remove(usize, Link),
    /// These links left with a node.
    Bulk(Seq<Link>),
    /// No link of this kind changed.
    Other,
}

/// The links of one kind: flow links where `flow`, links otherwise.
pub open spec fn kind_links(g: GraphV, flow: bool) -> Seq<Link> {
    if flow {
        g.flow_links
    } else {
        g.links
    }
}

/// What `c` does to the links of one kind.
pub open spec fn link_edit(c: CommandV, flow: bool) -> LinkEdit {
    match c {
        CommandV::AddLink { link, replaced } => if flow {
            LinkEdit::Other
        } else {
            LinkEdit::Add(link, replaced)
        },
        CommandV::AddFlowLink { link, replaced } => if flow {
            LinkEdit::Add(link, replaced)
        } else {
            LinkEdit::Other
        },
        CommandV::RemoveLink { index, link } => if flow {
            LinkEdit::Other
        } else {
            LinkEdit::Remove(index, link)
        },
        CommandV::RemoveFlowLink { index, link } => if flow {
            LinkEdit::Remove(index, link)
        } else {
            LinkEdit::Other
        },
        CommandV::RemoveNode { links, flow_links, .. } => LinkEdit::Bulk(
            if flow {
                flow_links
            } else {
                links
            },
        ),
        _ => LinkEdit::Other,
    }
}

/// The links after reverting `e`.
pub open spec fn undo_links(s: Seq<Link>, e: LinkEdit) -> Seq<Link> {
    match e {
        LinkEdit::Add(l, r) => push_opt(without_id(s, l.id), r),
        LinkEdit::Remove(index, l) => s.insert(clamp(index, s.len()), l),
        LinkEdit::Bulk(ls) => s + ls,
        LinkEdit::Other => s,
    }
}

/// The links after doing `e` again.
pub open spec fn redo_links(s: Seq<Link>, e: LinkEdit) -> Seq<Link> {
    match e {
        LinkEdit::Add(l, r) => match r {
            Some(r) => without_id(s, r.id),
            None => s,
        }.push(l),
        LinkEdit::Remove(_, l) => without_id(s, l.id),
        LinkEdit::Bulk(ls) => not_joining(s, ls),
        LinkEdit::Other => s,
    }
}

/// The ids of a list of links.
pub open spec fn link_ids(s: Seq<Link>) -> Set<usize> {
    Set::new(|k: usize| exists|i: int| 0 <= i < s.len() && #[trigger] s[i].id == k)
}

/// No two links share an id.
pub open spec fn distinct_link_ids(s: Seq<Link>) -> bool {
    forall|i: int, j: int| 0 <= i < j < s.len() ==> s[i].id != s[j].id
}

/// Reverting `e` where the history has the ids `u` gives no id twice.
pub open spec fn undo_edit_ok(u: Set<usize>, e: LinkEdit) -> bool {
    match e {
        LinkEdit::Add(l, r) => u.contains(l.id) && (r matches Some(r) ==> !u.remove(l.id).contains(
            r.id,
        )),
        LinkEdit::Remove(_, l) => !u.contains(l.id),
        LinkEdit::Bulk(ls) => distinct_link_ids(ls) && link_ids(ls).disjoint(u),
        LinkEdit::Other => true,
    }
}

/// The ids after reverting `e`.
pub open spec fn undo_set(u: Set<usize>, e: LinkEdit) -> Set<usize> {
    match e {
        LinkEdit::Add(l, r) => match r {
            Some(r) => u.remove(l.id).insert(r.id),
            None => u.remove(l.id),
        },
        LinkEdit::Remove(_, l) => u.insert(l.id),
        LinkEdit::Bulk(ls) => u + link_ids(ls),
        LinkEdit::Other => u,
    }
}

/// Doing `e` again where the history has the ids `u` gives no id twice.
pub open spec fn redo_edit_ok(u: Set<usize>, e: LinkEdit) -> bool {
    match e {
        LinkEdit::Add(l, r) => match r {
            Some(r) => u.contains(r.id) && !u.remove(r.id).contains(l.id),
            None => !u.contains(l.id),
        },
        LinkEdit::Remove(_, l) => u.contains(l.id),
        LinkEdit::Bulk(ls) => distinct_link_ids(ls) && link_ids(ls).subset_of(u),
        LinkEdit::Other => true,
    }
}

/// The ids after doing `e` again.
pub open spec fn redo_set(u: Set<usize>, e: LinkEdit) -> Set<usize> {
    match e {
        LinkEdit::Add(l, r) => match r {
            Some(r) => u.remove(r.id),
            None => u,
        }.insert(l.id),
        LinkEdit::Remove(_, l) => u.remove(l.id),
        LinkEdit::Bulk(ls) => u - link_ids(ls),
        LinkEdit::Other => u,
    }
}

/// Every done edit, newest first, can be reverted without giving an id
/// twice.
pub open spec fn done_links_ok(u: Set<usize>, done: Seq<CommandV>, flow: bool) -> bool
    decreases done.len(),
{
    if done.len() == 0 {
        true
    } else {
        let e = link_edit(done.last(), flow);
        undo_edit_ok(u, e) && done_links_ok(undo_set(u, e), done.drop_last(), flow)
    }
}

/// Every undone edit, newest first, can be done again without giving an id
/// twice.
pub open spec fn undone_links_ok(u: Set<usize>, undone: Seq<CommandV>, flow: bool) -> bool
    decreases undone.len(),
{
    if undone.len() == 0 {
        true
    } else {
        let e = link_edit(undone.last(), flow);
        redo_edit_ok(u, e) && undone_links_ok(redo_set(u, e), undone.drop_last(), flow)
    }
}

/// `x` is one of the links that `e` names.
pub open spec fn edit_has(e: LinkEdit, x: Link) -> bool {
    match e {
        LinkEdit::Add(l, r) => x == l || r == Some(x),
        LinkEdit::Remove(_, l) => x == l,
        LinkEdit::Bulk(ls) => ls.contains(x),
        LinkEdit::Other => false,
    }
}

/// `x` is a link of the kind in the graph or in its history.
pub open spec fn in_kind(g: GraphV, flow: bool, x: Link) -> bool {
    ||| kind_links(g, flow).contains(x)
    ||| exists|i: int| 0 <= i < g.done.len() && edit_has(link_edit(#[trigger] g.done[i], flow), x)
    ||| exists|i: int|
        0 <= i < g.undone.len() && edit_has(link_edit(#[trigger] g.undone[i], flow), x)
}

/// Two links of the kind, in the graph or its history, with one id are the
/// same link.
pub open spec fn kind_consistent(g: GraphV, flow: bool) -> bool {
    forall|a: Link, b: Link|
        #![trigger in_kind(g, flow, a), in_kind(g, flow, b)]
        in_kind(g, flow, a) && in_kind(g, flow, b) && a.id == b.id ==> a == b
}

/// The links of one kind have distinct ids within the ids `u` that the
/// history has, and the history can be undone and redone from `u`.
pub open spec fn kind_wf(g: GraphV, u: Set<usize>, flow: bool) -> bool {
    &&& distinct_link_ids(kind_links(g, flow))
    &&& link_ids(kind_links(g, flow)).subset_of(u)
    &&& forall|k: usize| u.contains(k) ==> k < g.next_id
    &&& done_links_ok(u, g.done, flow)
    &&& undone_links_ok(u, g.undone, flow)
    &&& kind_consistent(g, flow)
}

/// Neither kind of link has two with one id, now or after any undo or
/// redo.
pub open spec fn links_wf(g: GraphV) -> bool {
    &&& exists|u: Set<usize>| #[trigger] kind_wf(g, u, false)
    &&& exists|v: Set<usize>| #[trigger] kind_wf(g, v, true)
}

// ------------------------------------------------------------------------
// Sets of ids
pub proof fn lemma_undo_redo_set(u: Set<usize>, e: LinkEdit)
    requires
        undo_edit_ok(u, e),
    ensures
        redo_edit_ok(undo_set(u, e), e),
        redo_set(undo_set(u, e), e) == u,
{
    match e {
        LinkEdit::Add(l, r) => {
            match r {
                Some(r) => {
                    assert(undo_set(u, e).remove(r.id).insert(l.id) =~= u);
                },
                None => {
                    assert(u.remove(l.id).insert(l.id) =~= u);
                },
            }
        },
        LinkEdit::Remove(_, l) => {
            assert(u.insert(l.id).remove(l.id) =~= u);
        },
        LinkEdit::Bulk(ls) => {
            assert((u + link_ids(ls)) - link_ids(ls) =~= u);
        },
        LinkEdit::Other => {},
    }
}

pub proof fn lemma_redo_undo_set(u: Set<usize>, e: LinkEdit)
    requires
        redo_edit_ok(u, e),
    ensures
        undo_edit_ok(redo_set(u, e), e),
        undo_set(redo_set(u, e), e) == u,
{
    match e {
        LinkEdit::Add(l, r) => {
            match r {
                Some(r) => {
                    assert(redo_set(u, e).remove(l.id) =~= u.remove(r.id));
                    assert(redo_set(u, e).remove(l.id).insert(r.id) =~= u);
                },
                None => {
                    assert(u.insert(l.id).remove(l.id) =~= u);
                },
            }
        },
        LinkEdit::Remove(_, l) => {
            assert(u.remove(l.id).insert(l.id) =~= u);
        },
        LinkEdit::Bulk(ls) => {
            assert((u - link_ids(ls)) + link_ids(ls) =~= u);
        },
        LinkEdit::Other => {},
    }
}

// ------------------------------------------------------------------------
// Lists of links
pub proof fn lemma_link_ids_contains(s: Seq<Link>, i: int)
    requires
        0 <= i < s.len(),
    ensures
        link_ids(s).contains(s[i].id),
{
}

pub proof fn lemma_filter_links<A>(s: Seq<Link>, p: spec_fn(Link) -> bool)
    requires
        distinct_link_ids(s),
    ensures
        distinct_link_ids(s.filter(p)),
        link_ids(s.filter(p)).subset_of(link_ids(s)),
        forall|i: int| 0 <= i < s.filter(p).len() ==> p(#[trigger] s.filter(p)[i]),
        forall|x: Link| s.filter(p).contains(x) ==> s.contains(x),
    decreases s.len(),
{
    reveal_with_fuel(Seq::filter, 1);
    if s.len() > 0 {
        let t = s.drop_last();
        let x = s.last();
        assert(t.push(x) =~= s);
        assert(distinct_link_ids(t));
        lemma_filter_links::<A>(t, p);
        t.lemma_filter_push(x, p);
        assert forall|k: usize| link_ids(t).contains(k) implies link_ids(s).contains(k) by {
            let i = choose|i: int| 0 <= i < t.len() && #[trigger] t[i].id == k;
            assert(s[i] == t[i]);
        }
        assert forall|y: Link| s.filter(p).contains(y) implies s.contains(y) by {
            s.lemma_filter_contains_rev(p, y);
        }
        if p(x) {
            let f = t.filter(p);
            assert(!link_ids(t).contains(x.id)) by {
                if link_ids(t).contains(x.id) {
                    let i = choose|i: int| 0 <= i < t.len() && #[trigger] t[i].id == x.id;
                    assert(s[i].id == s[s.len() - 1].id);
                }
            }
            assert forall|i: int, j: int| 0 <= i < j < f.push(x).len() implies f.push(x)[i].id
                != f.push(x)[j].id by {
                if j == f.len() {
                    assert(link_ids(f).contains(f[i].id));
                }
            }
            assert forall|k: usize| link_ids(f.push(x)).contains(k) implies link_ids(s).contains(
                k,
            ) by {
                let i = choose|i: int| 0 <= i < f.push(x).len() && #[trigger] f.push(x)[i].id == k;
                if i < f.len() {
                    assert(link_ids(f).contains(k));
                } else {
                    assert(s[s.len() - 1].id == k);
                }
            }
        }
    }
}

pub proof fn lemma_push_link(s: Seq<Link>, x: Link)
    requires
        distinct_link_ids(s),
        !link_ids(s).contains(x.id),
    ensures
        distinct_link_ids(s.push(x)),
        link_ids(s.push(x)) == link_ids(s).insert(x.id),
{
    assert forall|i: int, j: int| 0 <= i < j < s.push(x).len() implies s.push(x)[i].id != s.push(
        x,
    )[j].id by {
        if j == s.len() {
            assert(link_ids(s).contains(s[i].id));
        }
    }
    assert forall|k: usize| #[trigger] link_ids(s.push(x)).contains(k) == link_ids(s).insert(
        x.id,
    ).contains(k) by {
        if link_ids(s).contains(k) {
            let i = choose|i: int| 0 <= i < s.len() && #[trigger] s[i].id == k;
            assert(s.push(x)[i].id == k);
        }
        if k == x.id {
            assert(s.push(x)[s.len() as int].id == k);
        }
        if link_ids(s.push(x)).contains(k) {
            let i = choose|i: int| 0 <= i < s.push(x).len() && #[trigger] s.push(x)[i].id == k;
            if i < s.len() {
                assert(s[i].id == k);
            }
        }
    }
    assert(link_ids(s.push(x)) =~= link_ids(s).insert(x.id));
}

pub proof fn lemma_push_opt_link(s: Seq<Link>, o: Option<Link>)
    requires
        distinct_link_ids(s),
        o matches Some(x) ==> !link_ids(s).contains(x.id),
    ensures
        distinct_link_ids(push_opt(s, o)),
        link_ids(push_opt(s, o)) == match o {
            Some(x) => link_ids(s).insert(x.id),
            None => link_ids(s),
        },
{
    if let Some(x) = o {
        lemma_push_link(s, x);
    }
}

pub proof fn lemma_insert_link(s: Seq<Link>, i: int, x: Link)
    requires
        distinct_link_ids(s),
        !link_ids(s).contains(x.id),
        0 <= i <= s.len(),
    ensures
        distinct_link_ids(s.insert(i, x)),
        link_ids(s.insert(i, x)) == link_ids(s).insert(x.id),
{
    let t = s.insert(i, x);
    assert forall|a: int| 0 <= a < t.len() && a != i implies #[trigger] t[a] == s[if a < i {
        a
    } else {
        a - 1
    }] by {}
    assert forall|a: int, b: int| 0 <= a < b < t.len() implies t[a].id != t[b].id by {
        if a == i {
            assert(link_ids(s).contains(s[b - 1].id));
            assert(t[b] == s[b - 1]);
        } else if b == i {
            assert(t[a] == s[a]);
            assert(link_ids(s).contains(s[a].id));
        } else {
            let sa = if a < i {
                a
            } else {
                a - 1
            };
            let sb = if b < i {
                b
            } else {
                b - 1
            };
            assert(t[a] == s[sa]);
            assert(t[b] == s[sb]);
        }
    }
    assert forall|k: usize| #[trigger] link_ids(t).contains(k) == link_ids(s).insert(x.id).contains(
        k,
    ) by {
        if link_ids(s).contains(k) {
            let j = choose|j: int| 0 <= j < s.len() && #[trigger] s[j].id == k;
            let a = if j < i {
                j
            } else {
                j + 1
            };
            assert(t[a] == s[j]);
        }
        if k == x.id {
            assert(t[i].id == k);
        }
        if link_ids(t).contains(k) {
            let a = choose|a: int| 0 <= a < t.len() && #[trigger] t[a].id == k;
            if a != i {
                let j = if a < i {
                    a
                } else {
                    a - 1
                };
                assert(t[a] == s[j]);
            }
        }
    }
    assert(link_ids(t) =~= link_ids(s).insert(x.id));
}

pub proof fn lemma_append_links(s: Seq<Link>, t: Seq<Link>)
    requires
        distinct_link_ids(s),
        distinct_link_ids(t),
        link_ids(s).disjoint(link_ids(t)),
    ensures
        distinct_link_ids(s + t),
        link_ids(s + t) == link_ids(s) + link_ids(t),
{
    let a = s + t;
    assert forall|i: int, j: int| 0 <= i < j < a.len() implies a[i].id != a[j].id by {
        if j < s.len() {
        } else if i >= s.len() {
            assert(a[i] == t[i - s.len()]);
            assert(a[j] == t[j - s.len()]);
        } else {
            assert(a[j] == t[j - s.len()]);
            assert(link_ids(s).contains(s[i].id));
            assert(link_ids(t).contains(t[j - s.len()].id));
        }
    }
    assert forall|k: usize| #[trigger] link_ids(a).contains(k) == (link_ids(s) + link_ids(
        t,
    )).contains(k) by {
        if link_ids(s).contains(k) {
            let j = choose|j: int| 0 <= j < s.len() && #[trigger] s[j].id == k;
            assert(a[j] == s[j]);
        }
        if link_ids(t).contains(k) {
            let j = choose|j: int| 0 <= j < t.len() && #[trigger] t[j].id == k;
            assert(a[s.len() + j] == t[j]);
        }
        if link_ids(a).contains(k) {
            let j = choose|j: int| 0 <= j < a.len() && #[trigger] a[j].id == k;
            if j >= s.len() {
                assert(a[j] == t[j - s.len()]);
            }
        }
    }
    assert(link_ids(a) =~= link_ids(s) + link_ids(t));
}

/// Dropping the links with id `k` leaves no link with that id.
pub proof fn lemma_without_id_links(s: Seq<Link>, k: usize)
    requires
        distinct_link_ids(s),
    ensures
        distinct_link_ids(without_id(s, k)),
        link_ids(without_id(s, k)).subset_of(link_ids(s).remove(k)),
        forall|x: Link| without_id(s, k).contains(x) ==> s.contains(x),
{
    lemma_filter_links::<Link>(s, id_is_not(k));
    let f = without_id(s, k);
    assert forall|j: usize| link_ids(f).contains(j) implies link_ids(s).remove(k).contains(j) by {
        let i = choose|i: int| 0 <= i < f.len() && #[trigger] f[i].id == j;
        assert(id_is_not(k)(f[i]));
    }
}

/// Reverting `e` on links with distinct ids within `u` gives links with
/// distinct ids within the ids after it, each from the links or from `e`.
pub proof fn lemma_undo_links(s: Seq<Link>, u: Set<usize>, e: LinkEdit)
    requires
        distinct_link_ids(s),
        link_ids(s).subset_of(u),
        undo_edit_ok(u, e),
    ensures
        distinct_link_ids(undo_links(s, e)),
        link_ids(undo_links(s, e)).subset_of(undo_set(u, e)),
        forall|x: Link| undo_links(s, e).contains(x) ==> s.contains(x) || edit_has(e, x),
{
    match e {
        LinkEdit::Add(l, r) => {
            lemma_without_id_links(s, l.id);
            let w = without_id(s, l.id);
            lemma_push_opt_link(w, r);
            assert forall|x: Link| push_opt(w, r).contains(x) implies s.contains(x) || edit_has(
                e,
                x,
            ) by {
                if let Some(y) = r {
                    let i = choose|i: int| 0 <= i < w.push(y).len() && w.push(y)[i] == x;
                    if i < w.len() {
                        assert(w[i] == x);
                        assert(w.contains(x));
                    }
                }
            }
        },
        LinkEdit::Remove(index, l) => {
            let i = clamp(index, s.len());
            lemma_insert_link(s, i, l);
            assert forall|x: Link| s.insert(i, l).contains(x) implies s.contains(x) || edit_has(
                e,
                x,
            ) by {
                let j = choose|j: int| 0 <= j < s.insert(i, l).len() && s.insert(i, l)[j] == x;
                if j < i {
                    assert(s[j] == x);
                } else if j > i {
                    assert(s[j - 1] == x);
                }
            }
        },
        LinkEdit::Bulk(ls) => {
            lemma_append_links(s, ls);
            assert forall|x: Link| (s + ls).contains(x) implies s.contains(x) || edit_has(e, x) by {
                let j = choose|j: int| 0 <= j < (s + ls).len() && (s + ls)[j] == x;
                if j < s.len() {
                    assert(s[j] == x);
                } else {
                    assert(ls[j - s.len()] == x);
                }
            }
        },
        LinkEdit::Other => {},
    }
}

/// Doing `e` again on links with distinct ids within `u` gives links with
/// distinct ids within the ids after it, each from the links or from `e`;
/// for a group that left, a link with the id of one of the group is that
/// link.
pub proof fn lemma_redo_links(s: Seq<Link>, u: Set<usize>, e: LinkEdit)
    requires
        distinct_link_ids(s),
        link_ids(s).subset_of(u),
        redo_edit_ok(u, e),
        e matches LinkEdit::Bulk(ls) ==> forall|x: Link, y: Link|
            s.contains(x) && ls.contains(y) && x.id == y.id ==> x == y,
    ensures
        distinct_link_ids(redo_links(s, e)),
        link_ids(redo_links(s, e)).subset_of(redo_set(u, e)),
        forall|x: Link| redo_links(s, e).contains(x) ==> s.contains(x) || edit_has(e, x),
{
    match e {
        LinkEdit::Add(l, r) => {
            let w = match r {
                Some(r) => without_id(s, r.id),
                None => s,
            };
            if let Some(r) = r {
                lemma_without_id_links(s, r.id);
            }
            assert(link_ids(w).subset_of(match r {
                Some(r) => u.remove(r.id),
                None => u,
            }));
            lemma_push_link(w, l);
            assert forall|x: Link| w.push(l).contains(x) implies s.contains(x) || edit_has(e, x) by {
                let i = choose|i: int| 0 <= i < w.push(l).len() && w.push(l)[i] == x;
                if i < w.len() {
                    assert(w[i] == x);
                    assert(w.contains(x));
                }
            }
        },
        LinkEdit::Remove(_, l) => {
            lemma_without_id_links(s, l.id);
        },
        LinkEdit::Bulk(ls) => {
            let p = joins_none_of(ls);
            lemma_filter_links::<Link>(s, p);
            let f = s.filter(p);
            assert forall|k: usize| link_ids(f).contains(k) implies (u - link_ids(ls)).contains(
                k,
            ) by {
                let i = choose|i: int| 0 <= i < f.len() && #[trigger] f[i].id == k;
                assert(link_ids(s).contains(k));
                if link_ids(ls).contains(k) {
                    let j = choose|j: int| 0 <= j < ls.len() && #[trigger] ls[j].id == k;
                    assert(f.contains(f[i]));
                    assert(s.contains(f[i]));
                    assert(ls.contains(ls[j]));
                    assert(f[i] == ls[j]);
                    assert(p(f[i]));
                    assert(ls[j].from == f[i].from && ls[j].to == f[i].to);
                }
            }
        },
        LinkEdit::Other => {},
    }
}

// ------------------------------------------------------------------------
// Undo and redo
pub proof fn lemma_apply_links(g: GraphV, c: CommandV, flow: bool)
    ensures
        kind_links(undo_apply(g, c), flow) == undo_links(kind_links(g, flow), link_edit(c, flow)),
        kind_links(redo_apply(g, c), flow) == redo_links(kind_links(g, flow), link_edit(c, flow)),
{
}

/// The ids that an edit names are below `n` when the command's are.
pub proof fn lemma_edit_below(c: CommandV, flow: bool, n: usize)
    requires
        command_below(c, n),
    ensures
        forall|x: Link| edit_has(link_edit(c, flow), x) ==> x.id < n,
{
    assert forall|x: Link| edit_has(link_edit(c, flow), x) implies x.id < n by {
        match c {
            CommandV::RemoveNode { links, flow_links, .. } => {
                let ls = if flow {
                    flow_links
                } else {
                    links
                };
                let k = choose|k: int| 0 <= k < ls.len() && ls[k] == x;
                assert(ls[k].id < n);
            },
            _ => {},
        }
    }
}

/// Undoing keeps the links of a kind apart.
pub proof fn lemma_undo_kind(g: GraphV, u: Set<usize>, flow: bool)
    requires
        kind_wf(g, u, flow),
        g.done.len() > 0,
        command_below(g.done.last(), g.next_id),
    ensures
        kind_wf(undo_spec(g), undo_set(u, link_edit(g.done.last(), flow)), flow),
{
    let c = g.done.last();
    let e = link_edit(c, flow);
    let h = GraphV { done: g.done.drop_last(), undone: g.undone.push(c), ..g };
    let a = undo_apply(h, c);
    let u2 = undo_set(u, e);
    lemma_apply_links(h, c, flow);
    lemma_undo_links(kind_links(g, flow), u, e);
    lemma_undo_redo_set(u, e);
    assert(a.undone.drop_last() =~= g.undone);
    lemma_edit_below(c, flow, g.next_id);
    assert forall|k: usize| u2.contains(k) implies k < a.next_id by {
        match e {
            LinkEdit::Add(l, r) => {
                assert(edit_has(e, l));
                if let Some(y) = r {
                    assert(edit_has(e, y));
                }
            },
            LinkEdit::Remove(_, l) => {
                assert(edit_has(e, l));
            },
            LinkEdit::Bulk(ls) => {
                if link_ids(ls).contains(k) {
                    let j = choose|j: int| 0 <= j < ls.len() && #[trigger] ls[j].id == k;
                    assert(edit_has(e, ls[j]));
                }
            },
            LinkEdit::Other => {},
        }
    }
    assert forall|x: Link| in_kind(a, flow, x) implies in_kind(g, flow, x) by {
        if kind_links(a, flow).contains(x) {
            if !kind_links(g, flow).contains(x) {
                assert(edit_has(link_edit(g.done[g.done.len() - 1], flow), x));
            }
        } else if exists|i: int|
            0 <= i < a.done.len() && edit_has(link_edit(#[trigger] a.done[i], flow), x) {
            let i = choose|i: int|
                0 <= i < a.done.len() && edit_has(link_edit(#[trigger] a.done[i], flow), x);
            assert(a.done[i] == g.done[i]);
        } else {
            let i = choose|i: int|
                0 <= i < a.undone.len() && edit_has(link_edit(#[trigger] a.undone[i], flow), x);
            if i < g.undone.len() {
                assert(a.undone[i] == g.undone[i]);
            } else {
                assert(edit_has(link_edit(g.done[g.done.len() - 1], flow), x));
            }
        }
    }
    assert(kind_consistent(a, flow)) by {
        assert forall|x: Link, y: Link|
            #![trigger in_kind(a, flow, x), in_kind(a, flow, y)]
            in_kind(a, flow, x) && in_kind(a, flow, y) && x.id == y.id implies x == y by {
            assert(in_kind(g, flow, x));
            assert(in_kind(g, flow, y));
        }
    }
}

/// Redoing keeps the links of a kind apart.
pub proof fn lemma_redo_kind(g: GraphV, u: Set<usize>, flow: bool)
    requires
        kind_wf(g, u, flow),
        g.undone.len() > 0,
        command_below(g.undone.last(), g.next_id),
    ensures
        kind_wf(redo_spec(g), redo_set(u, link_edit(g.undone.last(), flow)), flow),
{
    let c = g.undone.last();
    let e = link_edit(c, flow);
    let h = GraphV { undone: g.undone.drop_last(), done: g.done.push(c), ..g };
    let a = redo_apply(h, c);
    let u2 = redo_set(u, e);
    lemma_apply_links(h, c, flow);
    let s = kind_links(g, flow);
    if let LinkEdit::Bulk(ls) = e {
        assert forall|x: Link, y: Link| s.contains(x) && ls.contains(y) && x.id == y.id implies x
            == y by {
            assert(in_kind(g, flow, x));
            assert(edit_has(link_edit(g.undone[g.undone.len() - 1], flow), y));
            assert(in_kind(g, flow, y));
        }
    }
    lemma_redo_links(s, u, e);
    lemma_redo_undo_set(u, e);
    assert(a.done.drop_last() =~= g.done);
    lemma_edit_below(c, flow, g.next_id);
    assert forall|k: usize| u2.contains(k) implies k < a.next_id by {
        match e {
            LinkEdit::Add(l, r) => {
                assert(edit_has(e, l));
            },
            _ => {},
        }
    }
    assert forall|x: Link| in_kind(a, flow, x) implies in_kind(g, flow, x) by {
        if kind_links(a, flow).contains(x) {
            if !kind_links(g, flow).contains(x) {
                assert(edit_has(link_edit(g.undone[g.undone.len() - 1], flow), x));
            }
        } else if exists|i: int|
            0 <= i < a.undone.len() && edit_has(link_edit(#[trigger] a.undone[i], flow), x) {
            let i = choose|i: int|
                0 <= i < a.undone.len() && edit_has(link_edit(#[trigger] a.undone[i], flow), x);
            assert(a.undone[i] == g.undone[i]);
        } else {
            let i = choose|i: int|
                0 <= i < a.done.len() && edit_has(link_edit(#[trigger] a.done[i], flow), x);
            if i < g.done.len() {
                assert(a.done[i] == g.done[i]);
            } else {
                assert(edit_has(link_edit(g.undone[g.undone.len() - 1], flow), x));
            }
        }
    }
    assert(kind_consistent(a, flow)) by {
        assert forall|x: Link, y: Link|
            #![trigger in_kind(a, flow, x), in_kind(a, flow, y)]
            in_kind(a, flow, x) && in_kind(a, flow, y) && x.id == y.id implies x == y by {
            assert(in_kind(g, flow, x));
            assert(in_kind(g, flow, y));
        }
    }
}

/// Undoing keeps both kinds of link apart.
pub proof fn lemma_undo_links_wf(g: GraphV)
    requires
        links_wf(g),
        g.done.len() > 0 ==> command_below(g.done.last(), g.next_id),
    ensures
        links_wf(undo_spec(g)),
{
    if g.done.len() > 0 {
        let u = choose|u: Set<usize>| #[trigger] kind_wf(g, u, false);
        let v = choose|v: Set<usize>| #[trigger] kind_wf(g, v, true);
        lemma_undo_kind(g, u, false);
        lemma_undo_kind(g, v, true);
    }
}

/// Redoing keeps both kinds of link apart.
pub proof fn lemma_redo_links_wf(g: GraphV)
    requires
        links_wf(g),
        g.undone.len() > 0 ==> command_below(g.undone.last(), g.next_id),
    ensures
        links_wf(redo_spec(g)),
{
    if g.undone.len() > 0 {
        let u = choose|u: Set<usize>| #[trigger] kind_wf(g, u, false);
        let v = choose|v: Set<usize>| #[trigger] kind_wf(g, v, true);
        lemma_redo_kind(g, u, false);
        lemma_redo_kind(g, v, true);
    }
}

// ------------------------------------------------------------------------
// Edits
/// An edit that records `c`, which reverts to the ids `u` from the ids
/// `u2`, keeps the links of a kind apart; the links it brings are the ones
/// the graph or its history had, or a new one with the next id.
pub proof fn lemma_recorded_kind(
    g: GraphV,
    u: Set<usize>,
    a: GraphV,
    c: CommandV,
    flow: bool,
    u2: Set<usize>,
)
    requires
        kind_wf(g, u, flow),
        forall|x: Link| in_kind(g, flow, x) ==> x.id < g.next_id,
        a.done == g.done.push(c),
        a.undone == Seq::<CommandV>::empty(),
        g.next_id <= a.next_id,
        distinct_link_ids(kind_links(a, flow)),
        link_ids(kind_links(a, flow)).subset_of(u2),
        forall|k: usize| u2.contains(k) ==> k < a.next_id,
        undo_edit_ok(u2, link_edit(c, flow)),
        undo_set(u2, link_edit(c, flow)) == u,
        forall|x: Link| in_kind(a, flow, x) ==> in_kind(g, flow, x) || x.id == g.next_id,
        forall|x: Link, y: Link|
            in_kind(a, flow, x) && in_kind(a, flow, y) && x.id == g.next_id && y.id == g.next_id
                ==> x == y,
    ensures
        kind_wf(a, u2, flow),
{
    assert(a.done.drop_last() =~= g.done);
    assert(kind_consistent(a, flow)) by {
        assert forall|x: Link, y: Link|
            #![trigger in_kind(a, flow, x), in_kind(a, flow, y)]
            in_kind(a, flow, x) && in_kind(a, flow, y) && x.id == y.id implies x == y by {
            if x.id != g.next_id {
                assert(in_kind(g, flow, x));
                assert(in_kind(g, flow, y));
            }
        }
    }
}

/// An edit that leaves the history alone and keeps some of the links of a
/// kind keeps them apart.
pub proof fn lemma_unrecorded_kind(g: GraphV, u: Set<usize>, a: GraphV, flow: bool)
    requires
        kind_wf(g, u, flow),
        a.done == g.done,
        a.undone == g.undone,
        g.next_id <= a.next_id,
        forall|x: Link| kind_links(a, flow).contains(x) ==> kind_links(g, flow).contains(x),
        distinct_link_ids(kind_links(a, flow)),
    ensures
        kind_wf(a, u, flow),
{
    let s = kind_links(a, flow);
    assert forall|k: usize| link_ids(s).contains(k) implies u.contains(k) by {
        let i = choose|i: int| 0 <= i < s.len() && #[trigger] s[i].id == k;
        assert(s.contains(s[i]));
        let t = kind_links(g, flow);
        let j = choose|j: int| 0 <= j < t.len() && t[j] == s[i];
        assert(link_ids(t).contains(k));
    }
    assert forall|x: Link| in_kind(a, flow, x) implies in_kind(g, flow, x) by {}
    assert(kind_consistent(a, flow)) by {
        assert forall|x: Link, y: Link|
            #![trigger in_kind(a, flow, x), in_kind(a, flow, y)]
            in_kind(a, flow, x) && in_kind(a, flow, y) && x.id == y.id implies x == y by {
            assert(in_kind(g, flow, x));
            assert(in_kind(g, flow, y));
        }
    }
}

/// Two links of a list with distinct ids that share an id are one link.
pub proof fn lemma_distinct_same(s: Seq<Link>, x: Link, y: Link)
    requires
        distinct_link_ids(s),
        s.contains(x),
        s.contains(y),
        x.id == y.id,
    ensures
        x == y,
{
    let i = choose|i: int| 0 <= i < s.len() && s[i] == x;
    let j = choose|j: int| 0 <= j < s.len() && s[j] == y;
    if i < j {
        assert(s[i].id != s[j].id);
    } else if j < i {
        assert(s[j].id != s[i].id);
    }
}

/// Removing the link at `i` keeps the others' ids apart and drops its id.
pub proof fn lemma_remove_link(s: Seq<Link>, i: int)
    requires
        distinct_link_ids(s),
        0 <= i < s.len(),
    ensures
        distinct_link_ids(s.remove(i)),
        link_ids(s.remove(i)).subset_of(link_ids(s).remove(s[i].id)),
        forall|x: Link| s.remove(i).contains(x) ==> s.contains(x),
{
    let t = s.remove(i);
    assert forall|a: int| 0 <= a < t.len() implies #[trigger] t[a] == s[if a < i {
        a
    } else {
        a + 1
    }] by {}
    assert forall|a: int, b: int| 0 <= a < b < t.len() implies t[a].id != t[b].id by {
        let sa = if a < i {
            a
        } else {
            a + 1
        };
        let sb = if b < i {
            b
        } else {
            b + 1
        };
        assert(t[a] == s[sa]);
        assert(t[b] == s[sb]);
    }
    assert forall|k: usize| link_ids(t).contains(k) implies link_ids(s).remove(s[i].id).contains(
        k,
    ) by {
        let a = choose|a: int| 0 <= a < t.len() && #[trigger] t[a].id == k;
        let sa = if a < i {
            a
        } else {
            a + 1
        };
        assert(t[a] == s[sa]);
        assert(s[sa].id != s[i].id);
    }
    assert forall|x: Link| t.contains(x) implies s.contains(x) by {
        let a = choose|a: int| 0 <= a < t.len() && t[a] == x;
        let sa = if a < i {
            a
        } else {
            a + 1
        };
        assert(t[a] == s[sa]);
    }
}

/// After an edit that records `c` and clears the undone stack, a link of
/// the kind is in the graph, in the history before, or named by `c`.
pub proof fn lemma_in_kind_push(g: GraphV, a: GraphV, c: CommandV, flow: bool)
    requires
        a.done == g.done.push(c),
        a.undone == Seq::<CommandV>::empty(),
    ensures
        forall|x: Link| #[trigger]
            in_kind(a, flow, x) ==> kind_links(a, flow).contains(x) || in_kind(g, flow, x)
                || edit_has(link_edit(c, flow), x),
{
    assert forall|x: Link| #[trigger]
        in_kind(a, flow, x) implies kind_links(a, flow).contains(x) || in_kind(g, flow, x)
            || edit_has(link_edit(c, flow), x) by {
        if !kind_links(a, flow).contains(x) {
            let i = choose|i: int|
                0 <= i < a.done.len() && edit_has(link_edit(#[trigger] a.done[i], flow), x);
            if i < g.done.len() {
                assert(a.done[i] == g.done[i]);
            }
        }
    }
}

} // verus!
