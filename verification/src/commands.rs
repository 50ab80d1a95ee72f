//! The undo and redo stacks of a project.

use vstd::prelude::*;
use crate::edits::{Edit, EditView, after_undo, apply_edit, edit_runs, undo_restores_when};
use crate::project::{ProjectWorld, WorldView, ordered_contents, world_well_formed};
use crate::edits::lemma_undo_restores;

verus! {

/// The edits that undo what was done, and those that redo what was undone;
/// the last of each is the next to run.
pub struct CommandManager {
    undo: Vec<Edit>,
    redo: Vec<Edit>,
}

/// The two stacks, as plain values.
pub struct CommandStacks {
    pub undo: Seq<EditView>,
    pub redo: Seq<EditView>,
}

impl View for CommandManager {
    type V = CommandStacks;

    closed spec fn view(&self) -> CommandStacks {
        CommandStacks {
            undo: self.undo@.map_values(|e: Edit| e@),
            redo: self.redo@.map_values(|e: Edit| e@),
        }
    }
}

/// What one undo (or, with the stacks swapped, one redo) does: the last edit
/// of `from` runs on `w`; what it hands back goes onto `to`.
pub open spec fn step(from: Seq<EditView>, to: Seq<EditView>, w: WorldView) -> (Seq<EditView>, Seq<EditView>, WorldView) {
    if from.len() == 0 {
        (from, to, w)
    } else {
        let (w1, back) = apply_edit(w, from.last());
        (
            from.drop_last(),
            match back {
                Some(b) => to.push(b),
                None => to,
            },
            w1,
        )
    }
}

impl CommandManager {
    /// Both stacks empty.
    pub fn new() -> (m: Self)
        ensures
            m@.undo.len() == 0,
            m@.redo.len() == 0,
    {
        let m = CommandManager { undo: Vec::new(), redo: Vec::new() };
        proof {
            assert(m@.undo =~= Seq::<EditView>::empty());
            assert(m@.redo =~= Seq::<EditView>::empty());
        }
        m
    }

    /// Records the edit that undoes what was just done; what was undone can
    /// no longer be redone.
    pub fn add_undo(&mut self, command: Edit)
        ensures
            final(self)@.undo == old(self)@.undo.push(command@),
            final(self)@.redo.len() == 0,
    {
        let ghost before = self@;
        self.undo.push(command);
        self.redo.clear();
        proof {
            assert(self@.undo =~= before.undo.push(command@));
        }
    }

    /// Runs the last undo edit, if there is one, and records the edit it hands
    /// back for redoing.
    pub fn undo(&mut self, world: &mut ProjectWorld)
        requires
            old(self)@.undo.len() > 0 ==> edit_runs(old(world)@, old(self)@.undo.last()),
        ensures
            (final(self)@.undo, final(self)@.redo, final(world)@) == step(old(self)@.undo, old(self)@.redo, old(world)@),
    {
        let ghost before = self@;
        match self.undo.pop() {
            None => {},
            Some(command) => {
                proof {
                    assert(self@.undo =~= before.undo.drop_last());
                }
                match command.execute(world) {
                    Some(back) => {
                        self.redo.push(back);
                        proof {
                            assert(self@.redo =~= before.redo.push(back@));
                        }
                    },
                    None => {},
                }
            },
        }
    }

    /// Runs the last redo edit, if there is one, and records the edit it hands
    /// back for undoing.
    pub fn redo(&mut self, world: &mut ProjectWorld)
        requires
            old(self)@.redo.len() > 0 ==> edit_runs(old(world)@, old(self)@.redo.last()),
        ensures
            (final(self)@.redo, final(self)@.undo, final(world)@) == step(old(self)@.redo, old(self)@.undo, old(world)@),
    {
        let ghost before = self@;
        match self.redo.pop() {
            None => {},
            Some(command) => {
                proof {
                    assert(self@.redo =~= before.redo.drop_last());
                }
                match command.execute(world) {
                    Some(back) => {
                        self.undo.push(back);
                        proof {
                            assert(self@.undo =~= before.undo.push(back@));
                        }
                    },
                    None => {},
                }
            },
        }
    }

    /// Whether there is something to undo.
    pub fn can_undo(&self) -> (b: bool)
        ensures
            b == (self@.undo.len() > 0),
    {
        self.undo.len() > 0
    }

    /// Whether there is something to redo.
    pub fn can_redo(&self) -> (b: bool)
        ensures
            b == (self@.redo.len() > 0),
    {
        self.redo.len() > 0
    }

    /// Forgets everything that could be undone or redone.
    pub fn clear(&mut self)
        ensures
            final(self)@.undo.len() == 0,
            final(self)@.redo.len() == 0,
    {
        self.undo.clear();
        self.redo.clear();
    }

    /// Whether the last undo edit can run on `world`.
    pub fn undo_runs(&self, world: &ProjectWorld) -> (b: bool)
        ensures
            b == (self@.undo.len() > 0 ==> edit_runs(world@, self@.undo.last())),
    {
        let n = self.undo.len();
        if n == 0 {
            true
        } else {
            self.undo[n - 1].runs_on(world)
        }
    }

    /// Whether the last redo edit can run on `world`.
    pub fn redo_runs(&self, world: &ProjectWorld) -> (b: bool)
        ensures
            b == (self@.redo.len() > 0 ==> edit_runs(world@, self@.redo.last())),
    {
        let n = self.redo.len();
        if n == 0 {
            true
        } else {
            self.redo[n - 1].runs_on(world)
        }
    }
}

impl Default for CommandManager {
    /// Both stacks empty.
    fn default() -> (m: Self)
        ensures
            m@.undo.len() == 0,
            m@.redo.len() == 0,
    {
        CommandManager::new()
    }
}

/// Undoing and then redoing gives back the project as the mixer shows it and
/// the redo stack, and leaves as many edits to undo as before, when the edit
/// undone can be undone exactly (see `undo_restores_when`).
pub proof fn lemma_undo_then_redo(m: CommandStacks, w: WorldView)
    requires
        world_well_formed(w),
        w.next_entity < u64::MAX,
        m.undo.len() > 0,
        edit_runs(w, m.undo.last()),
        undo_restores_when(w, m.undo.last()),
        apply_edit(w, m.undo.last()).1 is Some,
    ensures
        ({
            let (u1, r1, w1) = step(m.undo, m.redo, w);
            &&& r1.len() > 0 && edit_runs(w1, r1.last())
            &&& {
                let (r2, u2, w2) = step(r1, u1, w1);
                &&& ordered_contents(w2) == ordered_contents(w)
                &&& r2 == m.redo
                &&& u2.len() == m.undo.len()
            }
        }),
{
    let e = m.undo.last();
    lemma_undo_restores(w, e);
    let (u1, r1, w1) = step(m.undo, m.redo, w);
    assert(r1.last() == apply_edit(w, e).1.unwrap());
    assert(r1.drop_last() =~= m.redo);
    assert(step(r1, u1, w1).2 == after_undo(w, e).0);
}

} // verus!
