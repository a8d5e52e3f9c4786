//! The application state machine: the domain actions rows can emit, how a
//! click maps to one, how the on-screen keyboard edits state, and what each
//! action asks of the backing store.
//!
//! Store reads and writes themselves happen outside; this module decides,
//! and hands the caller a command to run, after which the caller rebuilds
//! the tree from a fresh snapshot and commits the action.

use vstd::prelude::*;
use crate::node::{Error, Record, Session, Tree};
use crate::idmap::keys_of;
use crate::ftree::FNode;
use crate::editor::{CCursor, CCursorRange, delete_previous_char, delete_selected, insert_char};

verus! {

/// A domain action a frame can emit.
#[derive(Clone, Copy, PartialEq, Eq, Structural, Debug)]
pub enum Action {
    Add(u64, u64),
    Delete(u64, u64),
    Rename,
    SetDueDate,
    AddSession,
    Toggle(u64, u64),
    MoveInto(u64, u64),
    MoveOut,
    Import,
    Export,
    Nothing,
}

/// A key of the on-screen keyboard.
#[derive(Clone, Copy, PartialEq, Eq, Structural, Debug)]
pub enum Key {
    Char(char),
    Enter,
    Backspace,
    CapsLock,
}

/// An interactive element of a row.
#[derive(Clone, Copy, PartialEq, Eq, Structural, Debug)]
pub enum Element {
    Checkbox,
    Label,
    AddButton,
    DelButton,
}

/// What an action asks of the backing store: a mutation, a bare reload, or
/// nothing at all. After a mutation or `Refresh` the caller rebuilds the
/// tree from a fresh snapshot.
pub enum StoreCmd {
    AddChild(u64, Vec<char>),
    Delete(u64, u64),
    Rename(Vec<u64>, Vec<char>),
    SetDueDate(Vec<u64>, i64),
    AddSession(Vec<u64>, Session),
    Import,
    Export,
    Refresh,
    Nothing,
}

/// The action a click on a row's element emits. A label click descends into
/// the node, and a row can be deleted, only when the row is not the pass's
/// root (whose parent position is itself).
pub fn click_action(row: &FNode, elem: Element) -> (a: Action)
    ensures
        elem is Checkbox ==> a == Action::Toggle(row.pid, row.id),
        elem is Label ==> a == (if row.pid != row.id {
            Action::MoveInto(row.pid, row.id)
        } else {
            Action::Nothing
        }),
        elem is AddButton ==> a == Action::Add(row.pid, row.id),
        elem is DelButton ==> a == (if row.pid != row.id {
            Action::Delete(row.pid, row.id)
        } else {
            Action::Nothing
        }),
{
    match elem {
        Element::Checkbox => Action::Toggle(row.pid, row.id),
        Element::Label => if row.pid != row.id {
            Action::MoveInto(row.pid, row.id)
        } else {
            Action::Nothing
        },
        Element::AddButton => Action::Add(row.pid, row.id),
        Element::DelButton => if row.pid != row.id {
            Action::Delete(row.pid, row.id)
        } else {
            Action::Nothing
        },
    }
}

/// Copy a character line.
fn copy_chars(v: &Vec<char>) -> (r: Vec<char>)
    ensures
        r@ == v@,
{
    let mut r: Vec<char> = Vec::new();
    let mut i: usize = 0;
    while i < v.len()
        invariant
            i <= v@.len(),
            r@ =~= v@.take(i as int),
        decreases v@.len() - i,
    {
        r.push(v[i]);
        proof {
            assert(r@ =~= v@.take(i + 1));
        }
        i += 1;
    }
    proof {
        assert(v@.take(v@.len() as int) =~= v@);
    }
    r
}

/// The currently selected ids, in the membership relation's walk order.
fn selection_id_list(tree: &Tree) -> (v: Vec<u64>)
    requires
        tree.wf(),
    ensures
        v@ == keys_of(tree.sel_seq()),
{
    let mut walk = tree.selection_ids();
    let mut v: Vec<u64> = Vec::new();
    let ghost all = keys_of(tree.sel_seq());
    let mut going = true;
    while going
        invariant
            v@ + walk.remaining() == all,
            !going ==> walk.remaining().len() == 0,
        decreases walk.remaining().len() + (if going {
            1int
        } else {
            0int
        }),
    {
        match walk.next() {
            Some(id) => {
                v.push(id);
                proof {
                    assert(v@ + walk.remaining() =~= all);
                }
            },
            None => {
                going = false;
            },
        }
    }
    proof {
        assert(v@ =~= all);
    }
    v
}

/// The whole in-memory application state around the tree: where the view is
/// rooted, the navigation stack, the pending action, the keyboard line, and
/// the date-picker endpoints.
pub struct Grus {
    pub tree: Tree,
    pub root_pid: u64,
    pub root_id: u64,
    pub stack: Vec<(u64, u64)>,
    pub todo: Action,
    pub vboard_text: Vec<char>,
    pub vboard_caps: bool,
    pub start_date: i64,
    pub end_date: i64,
}

impl Grus {
    /// Build the state from a first store snapshot; a failed read surfaces
    /// its error and no state is produced.
    pub fn new(snapshot: Vec<Result<Record, Error>>) -> (r: Result<Grus, Error>)
        ensures
            (forall|i: int| 0 <= i < snapshot@.len() ==> snapshot@[i] is Ok) ==> r is Ok,
            r is Ok ==> {
                let s = r->Ok_0;
                &&& s.tree.wf()
                &&& s.tree.node_map() == crate::node::snap_nodes(snapshot@)
                &&& s.tree.link_map() == crate::node::snap_links(snapshot@)
                &&& s.tree.sel_seq().len() == 0
                &&& s.root_pid == 0
                &&& s.root_id == 0
                &&& s.stack@.len() == 0
                &&& s.todo is Nothing
                &&& s.vboard_text@.len() == 0
                &&& s.vboard_caps == false
            },
            r is Err ==> exists|i: int|
                0 <= i < snapshot@.len() && #[trigger] (snapshot@[i]) is Err && (forall|j: int|
                    0 <= j < i ==> snapshot@[j] is Ok) && r->Err_0 == snapshot@[i]->Err_0,
    {
        match Tree::from_store(snapshot) {
            Ok(tree) => Ok(
                Grus {
                    tree,
                    root_pid: 0,
                    root_id: 0,
                    stack: Vec::new(),
                    todo: Action::Nothing,
                    vboard_text: Vec::new(),
                    vboard_caps: false,
                    start_date: 0,
                    end_date: 0,
                },
            ),
            Err(e) => Err(e),
        }
    }

    /// Decide what an action does: apply its in-memory part and hand back
    /// the store command the caller must run before rebuilding the tree.
    pub fn perform_action(&mut self, action: Action) -> (cmd: StoreCmd)
        requires
            old(self).tree.wf(),
        ensures
            final(self).tree.wf(),
            action matches Action::Toggle(pid, id) ==> {
                &&& final(self).tree.sel_map() == crate::node::spec_toggle(
                    old(self).tree.sel_map(),
                    pid,
                    id,
                )
                &&& final(self).tree.node_seq() == old(self).tree.node_seq()
                &&& final(self).tree.link_seq() == old(self).tree.link_seq()
                &&& cmd is Nothing
            },
            action matches Action::MoveInto(pid, id) ==> {
                &&& final(self).stack@ == old(self).stack@.push(
                    (old(self).root_pid, old(self).root_id),
                )
                &&& final(self).root_pid == pid
                &&& final(self).root_id == id
                &&& final(self).tree == old(self).tree
                &&& cmd is Refresh
            },
            action is MoveOut && old(self).stack@.len() > 0 ==> {
                &&& final(self).stack@ == old(self).stack@.drop_last()
                &&& final(self).root_pid == old(self).stack@.last().0
                &&& final(self).root_id == old(self).stack@.last().1
                &&& final(self).tree == old(self).tree
                &&& cmd is Refresh
            },
            action is MoveOut && old(self).stack@.len() == 0 ==> {
                &&& final(self).stack@ == old(self).stack@
                &&& final(self).root_pid == old(self).root_pid
                &&& final(self).root_id == old(self).root_id
                &&& final(self).tree == old(self).tree
                &&& final(self).todo == old(self).todo
                &&& final(self).vboard_text@ == old(self).vboard_text@
                &&& final(self).vboard_caps == old(self).vboard_caps
                &&& final(self).start_date == old(self).start_date
                &&& final(self).end_date == old(self).end_date
                &&& cmd is Nothing
            },
            action matches Action::Add(opid, id) ==> *final(self) == *old(self) && (cmd matches
                StoreCmd::AddChild(aid, t) && aid == id && t@ == old(self).vboard_text@),
            action matches Action::Delete(pid, id) ==> *final(self) == *old(self) && cmd == (
            StoreCmd::Delete(pid, id)),
            action is Rename ==> *final(self) == *old(self) && (cmd matches StoreCmd::Rename(
                ids,
                t,
            ) && ids@ == keys_of(old(self).tree.sel_seq()) && t@ == old(self).vboard_text@),
            action is SetDueDate ==> *final(self) == *old(self) && (cmd matches
                StoreCmd::SetDueDate(ids, d) && ids@ == keys_of(old(self).tree.sel_seq()) && d
                == old(self).end_date),
            action is AddSession ==> *final(self) == *old(self) && (cmd matches
                StoreCmd::AddSession(ids, s) && ids@ == keys_of(old(self).tree.sel_seq()) && s == (
            Session { start: old(self).start_date, end: old(self).end_date })),
            action is Import ==> *final(self) == *old(self) && cmd is Import,
            action is Export ==> *final(self) == *old(self) && cmd is Export,
            action is Nothing ==> *final(self) == *old(self) && cmd is Nothing,
    {
        match action {
            Action::Add(_, id) => StoreCmd::AddChild(id, copy_chars(&self.vboard_text)),
            Action::Delete(pid, id) => StoreCmd::Delete(pid, id),
            Action::Rename => StoreCmd::Rename(
                selection_id_list(&self.tree),
                copy_chars(&self.vboard_text),
            ),
            Action::SetDueDate => StoreCmd::SetDueDate(
                selection_id_list(&self.tree),
                self.end_date,
            ),
            Action::AddSession => StoreCmd::AddSession(
                selection_id_list(&self.tree),
                Session { start: self.start_date, end: self.end_date },
            ),
            Action::Toggle(pid, id) => {
                self.tree.toggle(pid, id);
                StoreCmd::Nothing
            },
            Action::Import => StoreCmd::Import,
            Action::Export => StoreCmd::Export,
            Action::MoveInto(pid, id) => {
                self.stack.push((self.root_pid, self.root_id));
                self.root_pid = pid;
                self.root_id = id;
                StoreCmd::Refresh
            },
            Action::MoveOut => {
                match self.stack.pop() {
                    Some((root_pid, root_id)) => {
                        self.root_pid = root_pid;
                        self.root_id = root_id;
                        StoreCmd::Refresh
                    },
                    None => StoreCmd::Nothing,
                }
            },
            Action::Nothing => StoreCmd::Nothing,
        }
    }

    /// Commit an action's deferred in-memory part once its store command and
    /// the rebuild have succeeded: a finished add or rename clears the
    /// keyboard line.
    pub fn finish_store(&mut self, action: Action)
        ensures
            (action is Add || action is Rename) ==> final(self).vboard_text@ == Seq::<
                char,
            >::empty(),
            !(action is Add || action is Rename) ==> final(self).vboard_text@ == old(self).vboard_text@,
            final(self).tree == old(self).tree,
            final(self).root_pid == old(self).root_pid,
            final(self).root_id == old(self).root_id,
            final(self).stack@ == old(self).stack@,
            final(self).todo == old(self).todo,
            final(self).vboard_caps == old(self).vboard_caps,
            final(self).start_date == old(self).start_date,
            final(self).end_date == old(self).end_date,
    {
        match action {
            Action::Add(_, _) => {
                self.vboard_text = Vec::new();
            },
            Action::Rename => {
                self.vboard_text = Vec::new();
            },
            _ => {},
        }
    }

    /// Route the action a tree pass emitted: an add opens the keyboard and
    /// highlights the target; delete, toggle and navigation are dispatched
    /// at once; anything else does nothing.
    pub fn route_tree_action(&mut self, a: Action) -> (dispatch: Action)
        ensures
            a matches Action::Add(pid, id) ==> {
                &&& final(self).todo == a
                &&& final(self).tree.highlight() == Some(id)
                &&& final(self).tree.node_seq() == old(self).tree.node_seq()
                &&& final(self).tree.link_seq() == old(self).tree.link_seq()
                &&& final(self).tree.sel_seq() == old(self).tree.sel_seq()
                &&& dispatch is Nothing
            },
            (a is Delete || a is Toggle || a is MoveInto || a is MoveOut) ==> *final(self) == *old(self) && dispatch == a,
            !(a is Add || a is Delete || a is Toggle || a is MoveInto || a is MoveOut) ==> *final(self) == *old(self) && dispatch is Nothing,
            old(self).tree.wf() ==> final(self).tree.wf(),
    {
        match a {
            Action::Add(pid, id) => {
                self.todo = Action::Add(pid, id);
                self.tree.set_highlighted(Some(id));
                Action::Nothing
            },
            Action::Delete(_, _) => a,
            Action::Toggle(_, _) => a,
            Action::MoveInto(_, _) => a,
            Action::MoveOut => a,
            _ => Action::Nothing,
        }
    }

    /// Feed one key of the on-screen keyboard into the state: characters and
    /// backspace edit the line at the cursor, enter fires the pending action
    /// and drops the highlight, caps-lock flips the shift state. Returns the
    /// new cursor, if the key moved it, and the action to dispatch.
    pub fn apply_key(&mut self, key: Key, cursor: Option<CCursorRange>) -> (r: (
        Option<CCursor>,
        Action,
    ))
        requires
            old(self).tree.wf(),
            cursor matches Some(rg) ==> rg.primary.index <= old(self).vboard_text@.len()
                && rg.secondary.index <= old(self).vboard_text@.len(),
            old(self).vboard_text@.len() < usize::MAX,
        ensures
            final(self).tree.wf(),
            key matches Key::Char(c) ==> r.1 is Nothing && (match cursor {
                Some(rg) => {
                    let lo = if rg.primary.index <= rg.secondary.index {
                        rg.primary.index
                    } else {
                        rg.secondary.index
                    };
                    let hi = if rg.primary.index <= rg.secondary.index {
                        rg.secondary.index
                    } else {
                        rg.primary.index
                    };
                    &&& final(self).vboard_text@ == (old(self).vboard_text@.take(lo as int) + old(self).vboard_text@.skip(hi as int)).insert(lo as int, c)
                    &&& r.0 == Some(CCursor { index: (lo + 1) as usize, prefer_next_row: true })
                },
                Option::None => final(self).vboard_text@ == old(self).vboard_text@.push(c) && r.0
                    is None,
            }),
            key is Enter ==> {
                &&& r.1 == old(self).todo
                &&& final(self).todo is Nothing
                &&& final(self).tree.highlight() is None
                &&& final(self).vboard_text@ == old(self).vboard_text@
            },
            key is Backspace ==> r.1 is Nothing && (match cursor {
                Some(rg) => if rg.primary == rg.secondary {
                    &&& (rg.primary.index > 0 ==> final(self).vboard_text@ == old(self).vboard_text@.remove(rg.primary.index - 1) && r.0 == Some(
                        CCursor { index: (rg.primary.index - 1) as usize, prefer_next_row: true },
                    ))
                    &&& (rg.primary.index == 0 ==> final(self).vboard_text@ == old(self).vboard_text@ && r.0 == Some(rg.primary))
                } else {
                    let lo = if rg.primary.index <= rg.secondary.index {
                        rg.primary.index
                    } else {
                        rg.secondary.index
                    };
                    let hi = if rg.primary.index <= rg.secondary.index {
                        rg.secondary.index
                    } else {
                        rg.primary.index
                    };
                    &&& final(self).vboard_text@ == old(self).vboard_text@.take(lo as int) + old(self).vboard_text@.skip(hi as int)
                    &&& r.0 == Some(CCursor { index: lo, prefer_next_row: true })
                },
                Option::None => final(self).vboard_text@ == old(self).vboard_text@ && r.0 is None,
            }),
            key is CapsLock ==> final(self).vboard_caps == !old(self).vboard_caps && final(self).vboard_text@ == old(self).vboard_text@ && r.1 is Nothing,
    {
        match key {
            Key::Char(c) => {
                match cursor {
                    Some(rg) => {
                        let mut cc = delete_selected(&mut self.vboard_text, &rg);
                        insert_char(&mut cc, &mut self.vboard_text, c);
                        (Some(cc), Action::Nothing)
                    },
                    None => {
                        self.vboard_text.push(c);
                        (None, Action::Nothing)
                    },
                }
            },
            Key::Enter => {
                let a = self.todo;
                self.todo = Action::Nothing;
                self.tree.set_highlighted(None);
                (None, a)
            },
            Key::Backspace => {
                match cursor {
                    Some(rg) => {
                        let cc = if rg.primary.index == rg.secondary.index
                            && rg.primary.prefer_next_row == rg.secondary.prefer_next_row {
                            delete_previous_char(&mut self.vboard_text, rg.primary)
                        } else {
                            delete_selected(&mut self.vboard_text, &rg)
                        };
                        (Some(cc), Action::Nothing)
                    },
                    None => (None, Action::Nothing),
                }
            },
            Key::CapsLock => {
                self.vboard_caps = !self.vboard_caps;
                (None, Action::Nothing)
            },
        }
    }
}

} // verus!
