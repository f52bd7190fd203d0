//! An undo-redo library built on the command pattern: client code changes a
//! receiver by applying reversible commands, and a history moves forwards and
//! backwards through them. Adjacent commands that share a merge id are fused
//! into one step, and several histories can be grouped under one active
//! selection.
//!
//! Merging is id based: a command whose `id` is `Some(k)`, pushed right after
//! an entry whose id is the same `Some(k)`, joins that entry instead of opening
//! a new one.

mod group;
mod merger;
mod record;

pub use group::{all_clean, index_of, Group, GroupError, GroupView};
pub use merger::{lemma_pair_order, lemma_undo_chain_last, redo_chain, redo_trace, undo_chain, undo_trace, Merger};
pub use record::{
    after_push, after_redo, after_undo, lemma_push_drops_undone, lemma_push_is_clean,
    lemma_redo_undo_clean_state, lemma_same_id_merges, lemma_signal_on_transition,
    lemma_merge_push_restores, lemma_merged_redo_reapplies, lemma_merged_undo_restores, lemma_push_restores, lemma_round_trip, lemma_undo_restores, undo_inverts_redo, undoes_to, redo_inverts_undo,
    lemma_undo_all, merges, report, undo_times, History, Record, cause,
    placed, pushed,
};

use vstd::prelude::*;

verus! {

/// The merge key of a command, as the history's contracts see it.
///
/// The key does not depend on the receiver, so a history's state can speak of
/// it without naming one. Implementations outside Verus write an empty impl
/// and keep the default; code generic over the trait never assumes it.
pub trait MergeId: Sized {
    /// The key used for automatic merging; `None` never merges.
    open spec fn spec_id(&self) -> Option<u32> {
        None
    }
}

/// Base functionality for all commands.
///
/// `redo` must leave the receiver so that a following `undo` restores it as it
/// was; that is the implementor's duty, the history only orders the calls.
///
/// An implementation states what its calls do through `spec_id` (of
/// `MergeId`), `redone` and `undone`, and the history's contracts are phrased
/// over them. Their default bodies claim nothing, so that implementations
/// outside Verus need not give them; code generic over the trait never
/// assumes the defaults.
pub trait Command<R, E>: MergeId {
    /// `redo` took the command from `c0` to `c1` and the receiver from `r0`
    /// to `r1`, and returned `res`.
    open spec fn redone(c0: Self, r0: R, c1: Self, r1: R, res: Result<(), E>) -> bool {
        true
    }

    /// `undo` took the command from `c0` to `c1` and the receiver from `r0`
    /// to `r1`, and returned `res`.
    open spec fn undone(c0: Self, r0: R, c1: Self, r1: R, res: Result<(), E>) -> bool {
        true
    }

    /// Applies the command to the receiver.
    fn redo(&mut self, receiver: &mut R) -> (r: Result<(), E>)
        ensures
            Self::redone(*old(self), *old(receiver), *final(self), *final(receiver), r),
    ;

    /// Restores the receiver as it was before `redo` was called.
    fn undo(&mut self, receiver: &mut R) -> (r: Result<(), E>)
        ensures
            Self::undone(*old(self), *old(receiver), *final(self), *final(receiver), r),
    ;

    /// The key used for automatic merging; `None` never merges.
    fn id(&self) -> (r: Option<u32>)
        ensures
            r == self.spec_id(),
    ;
}

impl<C: MergeId> MergeId for Box<C> {
    open spec fn spec_id(&self) -> Option<u32> {
        (**self).spec_id()
    }
}

impl<R, E, C: Command<R, E>> Command<R, E> for Box<C> {
    open spec fn redone(c0: Self, r0: R, c1: Self, r1: R, res: Result<(), E>) -> bool {
        C::redone(*c0, r0, *c1, r1, res)
    }

    open spec fn undone(c0: Self, r0: R, c1: Self, r1: R, res: Result<(), E>) -> bool {
        C::undone(*c0, r0, *c1, r1, res)
    }

    fn redo(&mut self, receiver: &mut R) -> Result<(), E> {
        (**self).redo(receiver)
    }

    fn undo(&mut self, receiver: &mut R) -> Result<(), E> {
        (**self).undo(receiver)
    }

    fn id(&self) -> Option<u32> {
        (**self).id()
    }
}

/// Receives the history's clean/dirty transitions.
pub trait Signal: Sized {
    /// Every transition the listener has been told of, oldest first. A
    /// listener that Verus checks gives its own definition.
    open spec fn heard(&self) -> Seq<Transition> {
        Seq::empty()
    }

    /// Called when the history goes from dirty to clean.
    fn on_clean(&mut self)
        ensures
            final(self).heard() == old(self).heard().push(Transition::Clean),
    ;

    /// Called when the history goes from clean to dirty.
    fn on_dirty(&mut self)
        ensures
            final(self).heard() == old(self).heard().push(Transition::Dirty),
    ;
}

/// A listener that acts on no transition; it only keeps, as ghost state,
/// the transitions it was told of.
pub struct Silent {
    heard: Ghost<Seq<Transition>>,
}

impl Silent {
    /// A listener that has heard nothing yet.
    pub fn new() -> (r: Self)
        ensures
            r.heard() == Seq::<Transition>::empty(),
    {
        Silent { heard: Ghost(Seq::empty()) }
    }
}

impl Signal for Silent {
    closed spec fn heard(&self) -> Seq<Transition> {
        self.heard@
    }

    fn on_clean(&mut self) {
        self.heard = Ghost(self.heard@.push(Transition::Clean));
    }

    fn on_dirty(&mut self) {
        self.heard = Ghost(self.heard@.push(Transition::Dirty));
    }
}

/// A crossing of the clean/dirty boundary, as reported to a `Signal`.
#[derive(Debug, Clone, Copy, PartialEq, Eq, Structural)]
pub enum Transition {
    Clean,
    Dirty,
}

/// An error that holds the position of the entry whose command failed and
/// the command's own error.
#[derive(Debug, PartialEq, Eq)]
pub struct Error<E>(pub usize, pub E);

} // verus!
