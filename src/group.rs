use crate::record::{after_push, after_redo, after_undo, report, History, Record};
use crate::{Command, Error, MergeId, Signal, Transition};
use vstd::prelude::*;

verus! {

/// Why a group could not carry out an operation.
#[derive(Debug, Clone, Copy, PartialEq, Eq, Structural)]
pub enum GroupError {
    /// No member has the given id.
    NotFound,
    /// No member is active.
    NoActiveHistory,
}

/// The abstract state of a group.
pub struct GroupView {
    /// The id of each member, in the order they were added.
    pub ids: Seq<u64>,
    /// The state of each member.
    pub members: Seq<History>,
    /// The member that receives forwarded operations.
    pub active: Option<u64>,
    /// The id the next added member gets.
    pub next: nat,
    /// Every aggregate transition reported to the group's signal, oldest first.
    pub fired: Seq<Transition>,
}

/// The position of `id` in `ids`.
pub open spec fn index_of(ids: Seq<u64>, id: u64) -> int {
    choose|i: int| 0 <= i < ids.len() && ids[i] == id
}

/// Every history of `members` is clean.
pub open spec fn all_clean(members: Seq<History>) -> bool {
    forall|i: int| 0 <= i < members.len() ==> (#[trigger] members[i]).clean()
}

impl GroupView {
    /// Well-formed: ids unique and below `next`, the active id a member's,
    /// every member well-formed.
    pub open spec fn inv(self) -> bool {
        &&& self.ids.len() == self.members.len()
        &&& forall|i: int, j: int|
            0 <= i < self.ids.len() && 0 <= j < self.ids.len() && i != j ==> self.ids[i]
                != self.ids[j]
        &&& forall|i: int| 0 <= i < self.ids.len() ==> self.ids[i] < self.next
        &&& forall|i: int| 0 <= i < self.members.len() ==> (#[trigger] self.members[i]).inv()
        &&& self.active matches Some(a) ==> self.ids.contains(a)
    }

    /// The group is clean iff every member is.
    pub open spec fn clean(self) -> bool {
        all_clean(self.members)
    }

    /// The position of the active member.
    pub open spec fn active_index(self) -> int {
        index_of(self.ids, self.active->0)
    }

    /// The state of the active member.
    pub open spec fn active_member(self) -> History {
        self.members[self.active_index()]
    }

    /// The group with the active member's state replaced by `h`, and the
    /// aggregate transition that this makes reported.
    pub open spec fn forward(self, h: History) -> GroupView {
        let members = self.members.update(self.active_index(), h);
        let after = GroupView { members, ..self };
        GroupView { fired: report(self.fired, self.clean(), after.clean()), ..after }
    }
}

/// A registry of records with at most one active member. Operations are
/// forwarded to the active member, and the group's signal hears when the
/// aggregate state (clean iff every member is) changes.
pub struct Group<C, S> {
    members: Vec<(u64, Record<C, S>)>,
    active: Option<u64>,
    next: u64,
    signal: S,
}

impl<C: MergeId, S: Signal> View for Group<C, S> {
    type V = GroupView;

    closed spec fn view(&self) -> GroupView {
        GroupView {
            ids: self.members@.map_values(|p: (u64, Record<C, S>)| p.0),
            members: self.members@.map_values(|p: (u64, Record<C, S>)| p.1@),
            active: self.active,
            next: self.next as nat,
            fired: self.signal.heard(),
        }
    }
}

impl<C: MergeId, S: Signal> Group<C, S> {
    /// Well-formed: the view's invariant, and every member record well-formed.
    pub open spec fn wf(&self) -> bool {
        &&& self@.inv()
        &&& self.records().len() == self@.ids.len()
        &&& forall|i: int| 0 <= i < self.records().len() ==> (#[trigger] self.records()[i]).wf()
    }

    /// The member records, in the order of `self@.ids`.
    pub closed spec fn records(&self) -> Seq<Record<C, S>> {
        self.members@.map_values(|p: (u64, Record<C, S>)| p.1)
    }

    /// An empty group, clean and with no active member.
    pub fn new(signal: S) -> (r: Self)
        ensures
            r.wf(),
            r@.ids.len() == 0,
            r@.active is None,
            r@.next == 0,
            r@.fired == signal.heard(),
    {
        let r = Group { members: Vec::new(), active: None, next: 0, signal };
        proof {
            assert(r@.ids =~= Seq::<u64>::empty());
            assert(r@.members =~= Seq::<History>::empty());
        }
        r
    }

    /// The position of the member with id `id`, if there is one.
    fn find(&self, id: u64) -> (r: Option<usize>)
        requires
            self.wf(),
        ensures
            r matches Some(i) ==> i < self@.ids.len() && i == index_of(self@.ids, id),
            r is None <==> !self@.ids.contains(id),
    {
        let mut i: usize = 0;
        while i < self.members.len()
            invariant
                self.wf(),
                i <= self@.ids.len(),
                forall|j: int| 0 <= j < i ==> self@.ids[j] != id,
            decreases self@.ids.len() - i,
        {
            if self.members[i].0 == id {
                proof {
                    assert(self@.ids[i as int] == id);
                    let k = index_of(self@.ids, id);
                    assert(0 <= k < self@.ids.len() && self@.ids[k] == id);
                }
                return Some(i);
            }
            i = i + 1;
        }
        None
    }

    /// The signal that hears this group's transitions.
    pub fn signal(&self) -> (r: &S)
        ensures
            r.heard() == self@.fired,
    {
        &self.signal
    }

    /// True iff every member is clean.
    pub fn is_clean(&self) -> (r: bool)
        requires
            self.wf(),
        ensures
            r == self@.clean(),
    {
        let mut i: usize = 0;
        while i < self.members.len()
            invariant
                self.wf(),
                i <= self@.members.len(),
                forall|j: int| 0 <= j < i ==> (#[trigger] self@.members[j]).clean(),
            decreases self@.members.len() - i,
        {
            proof {
                assert(self@.members[i as int] == self.members@[i as int].1@);
                assert(self.records()[i as int] == self.members@[i as int].1);
            }
            if !self.members[i].1.is_clean() {
                return false;
            }
            i = i + 1;
        }
        true
    }

    /// True iff some member is dirty.
    pub fn is_dirty(&self) -> (r: bool)
        requires
            self.wf(),
        ensures
            r == !self@.clean(),
    {
        !self.is_clean()
    }

    /// Tells the signal of the aggregate transition from `before` to the
    /// present state.
    fn notify(&mut self, before: bool)
        requires
            old(self).wf(),
        ensures
            final(self).wf(),
            final(self).records() == old(self).records(),
            final(self)@ == (GroupView {
                fired: report(old(self)@.fired, before, old(self)@.clean()),
                ..old(self)@
            }),
    {
        let after = self.is_clean();
        if before != after {
            if after {
                self.signal.on_clean();
            } else {
                self.signal.on_dirty();
            }
        }
    }

    /// Adds `record` as a member under a fresh id, which it returns. Ids are
    /// handed out in increasing order and never reused.
    pub fn add(&mut self, record: Record<C, S>) -> (r: u64)
        requires
            old(self).wf(),
            record.wf(),
            old(self)@.next < u64::MAX,
        ensures
            final(self).wf(),
            r == old(self)@.next,
            final(self)@.ids == old(self)@.ids.push(r),
            final(self)@.members == old(self)@.members.push(record@),
            final(self).records() == old(self).records().push(record),
            final(self)@.active == old(self)@.active,
            final(self)@.next == old(self)@.next + 1,
            final(self)@.fired == report(
                old(self)@.fired,
                old(self)@.clean(),
                old(self)@.clean() && record@.clean(),
            ),
    {
        let ghost v = self@;
        let ghost vr = self.records();
        let before = self.is_clean();
        let id = self.next;
        self.members.push((id, record));
        self.next = self.next + 1;
        proof {
            assert(self@.ids =~= v.ids.push(id));
            assert(self@.members =~= v.members.push(record@));
            assert(self.records() =~= vr.push(record));
            assert(forall|a: u64| v.ids.contains(a) ==> self@.ids.contains(a)) by {
                assert forall|a: u64| v.ids.contains(a) implies self@.ids.contains(a) by {
                    let k = choose|k: int| 0 <= k < v.ids.len() && v.ids[k] == a;
                    assert(self@.ids[k] == a);
                }
            }
            assert(self@.clean() == (v.clean() && record@.clean())) by {
                if v.clean() && record@.clean() {
                    assert forall|i: int| 0 <= i < self@.members.len() implies (
                    #[trigger] self@.members[i]).clean() by {
                        if i < v.members.len() {
                            assert(self@.members[i] == v.members[i]);
                        }
                    }
                }
                if self@.clean() {
                    assert(self@.members[v.members.len() as int] == record@);
                    assert forall|i: int| 0 <= i < v.members.len() implies (
                    #[trigger] v.members[i]).clean() by {
                        assert(self@.members[i] == v.members[i]);
                    }
                }
            }
        }
        self.notify(before);
        id
    }

    /// Makes the member with id `id` the active one; `NotFound` if there is
    /// none, and then nothing changes.
    pub fn set_active(&mut self, id: u64) -> (r: Result<(), GroupError>)
        requires
            old(self).wf(),
        ensures
            final(self).wf(),
            r is Ok <==> old(self)@.ids.contains(id),
            r matches Err(e) ==> e == GroupError::NotFound && final(self)@ == old(self)@,
            r is Ok ==> final(self)@ == (GroupView { active: Some(id), ..old(self)@ }),
    {
        match self.find(id) {
            Some(_) => {
                self.active = Some(id);
                Ok(())
            },
            None => Err(GroupError::NotFound),
        }
    }

    /// Takes the member with id `id` out of the group and returns it;
    /// `NotFound` if there is none, and then nothing changes. If it was
    /// active, no member is active afterwards. Its id is not handed out again.
    pub fn remove(&mut self, id: u64) -> (r: Result<Record<C, S>, GroupError>)
        requires
            old(self).wf(),
        ensures
            final(self).wf(),
            r is Ok <==> old(self)@.ids.contains(id),
            r matches Err(e) ==> e == GroupError::NotFound && final(self)@ == old(self)@,
            r matches Ok(rec) ==> {
                let i = index_of(old(self)@.ids, id);
                let members = old(self)@.members.remove(i);
                &&& rec.wf()
                &&& rec@ == old(self)@.members[i]
                &&& rec == old(self).records()[i]
                &&& final(self).records() == old(self).records().remove(i)
                &&& final(self)@.ids == old(self)@.ids.remove(i)
                &&& final(self)@.members == members
                &&& final(self)@.active == (if old(self)@.active == Some(id) {
                    None
                } else {
                    old(self)@.active
                })
                &&& final(self)@.next == old(self)@.next
                &&& final(self)@.fired == report(old(self)@.fired, old(self)@.clean(), all_clean(members))
            },
    {
        let ghost v = self@;
        let i = match self.find(id) {
            Some(i) => i,
            None => {
                return Err(GroupError::NotFound);
            },
        };
        let ghost vr = self.records();
        let before = self.is_clean();
        let (_, rec) = self.members.remove(i);
        if self.active == Some(id) {
            self.active = None;
        }
        proof {
            assert(rec@ == v.members[i as int]);
            assert(self@.ids =~= v.ids.remove(i as int));
            assert(self@.members =~= v.members.remove(i as int));
            assert(self.records() =~= vr.remove(i as int));
            assert(rec == vr[i as int]);
            assert forall|k: int| 0 <= k < self.records().len() implies (
            #[trigger] self.records()[k]).wf() by {
                if k < i {
                    assert(self.records()[k] == vr[k]);
                } else {
                    assert(self.records()[k] == vr[k + 1]);
                }
            }
            assert forall|a: u64| self@.ids.contains(a) implies v.ids.contains(a) && a != id by {
                let k = choose|k: int| 0 <= k < self@.ids.len() && self@.ids[k] == a;
                if k < i {
                    assert(v.ids[k] == a);
                } else {
                    assert(v.ids[k + 1] == a);
                }
            }
            assert forall|k: int| 0 <= k < self@.members.len() implies (
            #[trigger] self@.members[k]).inv() by {
                if k < i {
                    assert(self@.members[k] == v.members[k]);
                } else {
                    assert(self@.members[k] == v.members[k + 1]);
                }
            }
            assert(rec@.inv());
            assert forall|a: int, b: int|
                0 <= a < self@.ids.len() && 0 <= b < self@.ids.len() && a != b implies self@.ids[a]
                != self@.ids[b] by {
                let a2 = if a < i { a } else { a + 1 };
                let b2 = if b < i { b } else { b + 1 };
                assert(self@.ids[a] == v.ids[a2]);
                assert(self@.ids[b] == v.ids[b2]);
            }
            assert forall|a: int| 0 <= a < self@.ids.len() implies self@.ids[a] < self@.next by {
                let a2 = if a < i { a } else { a + 1 };
                assert(self@.ids[a] == v.ids[a2]);
            }
            if let Some(a) = self@.active {
                assert(v.ids.contains(a));
                let k = choose|k: int| 0 <= k < v.ids.len() && v.ids[k] == a;
                assert(k != i);
                if k < i {
                    assert(self@.ids[k] == a);
                } else {
                    assert(self@.ids[k - 1] == a);
                }
            }
        }
        self.notify(before);
        Ok(rec)
    }

    /// Pushes `cmd` onto the active member, as `Record::push` does, and hands
    /// back its result; `NoActiveHistory` if no member is active, and then
    /// nothing changes.
    pub fn push<R, E>(&mut self, receiver: &mut R, cmd: C) -> (r: Result<
        Result<(), Error<E>>,
        GroupError,
    >)
        where C: Command<R, E>,
        requires
            old(self).wf(),
        ensures
            final(self).wf(),
            old(self)@.active is None ==> (r matches Err(GroupError::NoActiveHistory))
                && final(self)@ == old(self)@ && *final(receiver) == *old(receiver),
            old(self)@.active is Some ==> {
                let i = old(self)@.active_index();
                &&& r is Ok
                &&& final(self).records() == old(self).records().update(i, final(self).records()[i])
                &&& Record::<C, S>::push_post(
                    old(self).records()[i],
                    cmd, *old(receiver),
                    final(self).records()[i],
                    *final(receiver),
                    r->Ok_0,
                )
                &&& final(self)@ == old(self)@.forward(
                    History {
                        ids: final(self)@.active_member().ids,
                        ..after_push(old(self)@.active_member(), cmd.spec_id())
                    },
                )
                &&& r matches Ok(Err(e)) ==> e.0 == final(self)@.active_member().cursor - 1
            },
    {
        let i = match self.active_position() {
            Some(i) => i,
            None => {
                return Err(GroupError::NoActiveHistory);
            },
        };
        let ghost v = self@;
        let before = self.is_clean();
        let ghost vr = self.records();
        proof {
            assert(self.records()[i as int] == self.members@[i as int].1);
        }
        let r = self.members[i].1.push(receiver, cmd);
        proof {
            assert(self.records() =~= vr.update(i as int, self.records()[i as int]));
            assert(self@.ids =~= v.ids);
            assert(forall|k: int|
                0 <= k < v.members.len() && k != i ==> self@.members[k] == v.members[k]);
        }
        self.settle(Ghost(v), i, before);
        Ok(r)
    }

    /// Redoes on the active member, as `Record::redo` does, and hands back its
    /// result; `NoActiveHistory` if no member is active, and then nothing
    /// changes.
    pub fn redo<R, E>(&mut self, receiver: &mut R) -> (r: Result<Result<(), Error<E>>, GroupError>)
        where C: Command<R, E>,
        requires
            old(self).wf(),
        ensures
            final(self).wf(),
            old(self)@.active is None ==> (r matches Err(GroupError::NoActiveHistory))
                && final(self)@ == old(self)@ && *final(receiver) == *old(receiver),
            old(self)@.active is Some ==> {
                let i = old(self)@.active_index();
                &&& r is Ok
                &&& final(self).records() == old(self).records().update(i, final(self).records()[i])
                &&& Record::<C, S>::redo_post(
                    old(self).records()[i],
                    *old(receiver),
                    final(self).records()[i],
                    *final(receiver),
                    r->Ok_0,
                )
                &&& r matches Ok(Ok(())) ==> final(self)@ == old(self)@.forward(
                    History { ids: final(self)@.active_member().ids, ..after_redo(old(self)@.active_member()) },
                )
                &&& r matches Ok(Err(e)) ==> final(self)@ == old(self)@.forward(
                    History { ids: final(self)@.active_member().ids, ..old(self)@.active_member() },
                ) && e.0 == old(self)@.active_member().cursor
            },
    {
        let i = match self.active_position() {
            Some(i) => i,
            None => {
                return Err(GroupError::NoActiveHistory);
            },
        };
        let ghost v = self@;
        let before = self.is_clean();
        let ghost vr = self.records();
        proof {
            assert(self.records()[i as int] == self.members@[i as int].1);
        }
        let r = self.members[i].1.redo(receiver);
        proof {
            assert(self.records() =~= vr.update(i as int, self.records()[i as int]));
            assert(self@.ids =~= v.ids);
            assert(forall|k: int|
                0 <= k < v.members.len() && k != i ==> self@.members[k] == v.members[k]);
        }
        self.settle(Ghost(v), i, before);
        proof {
            if r is Err {
                assert(v.members.update(i as int, v.members[i as int]) =~= v.members);
            }
        }
        Ok(r)
    }

    /// Undoes on the active member, as `Record::undo` does, and hands back its
    /// result; `NoActiveHistory` if no member is active, and then nothing
    /// changes.
    pub fn undo<R, E>(&mut self, receiver: &mut R) -> (r: Result<Result<(), Error<E>>, GroupError>)
        where C: Command<R, E>,
        requires
            old(self).wf(),
        ensures
            final(self).wf(),
            old(self)@.active is None ==> (r matches Err(GroupError::NoActiveHistory))
                && final(self)@ == old(self)@ && *final(receiver) == *old(receiver),
            old(self)@.active is Some ==> {
                let i = old(self)@.active_index();
                &&& r is Ok
                &&& final(self).records() == old(self).records().update(i, final(self).records()[i])
                &&& Record::<C, S>::undo_post(
                    old(self).records()[i],
                    *old(receiver),
                    final(self).records()[i],
                    *final(receiver),
                    r->Ok_0,
                )
                &&& final(self)@ == old(self)@.forward(
                    History {
                        ids: final(self)@.active_member().ids,
                        ..after_undo(old(self)@.active_member(), r matches Ok(Ok(())))
                    },
                )
                &&& r matches Ok(Err(e)) ==> e.0 == final(self)@.active_member().cursor
            },
    {
        let i = match self.active_position() {
            Some(i) => i,
            None => {
                return Err(GroupError::NoActiveHistory);
            },
        };
        let ghost v = self@;
        let before = self.is_clean();
        let ghost vr = self.records();
        proof {
            assert(self.records()[i as int] == self.members@[i as int].1);
        }
        let r = self.members[i].1.undo(receiver);
        proof {
            assert(self.records() =~= vr.update(i as int, self.records()[i as int]));
            assert(self@.ids =~= v.ids);
            assert(forall|k: int|
                0 <= k < v.members.len() && k != i ==> self@.members[k] == v.members[k]);
        }
        self.settle(Ghost(v), i, before);
        Ok(r)
    }

    /// The position of the active member, if one is active.
    fn active_position(&self) -> (r: Option<usize>)
        requires
            self.wf(),
        ensures
            r is None <==> self@.active is None,
            r matches Some(i) ==> i < self@.ids.len() && i == self@.active_index(),
    {
        match self.active {
            Some(a) => self.find(a),
            None => None,
        }
    }

    /// Restores the invariant and reports the aggregate transition after the
    /// member at `i` of the group `v` has changed.
    fn settle(&mut self, v: Ghost<GroupView>, i: usize, before: bool)
        requires
            v@.inv(),
            i < v@.ids.len(),
            before == v@.clean(),
            old(self)@.ids == v@.ids,
            old(self)@.active == v@.active,
            old(self)@.next == v@.next,
            old(self)@.fired == v@.fired,
            old(self)@.members.len() == v@.members.len(),
            old(self)@.members[i as int].inv(),
            old(self).records().len() == v@.ids.len(),
            forall|k: int| 0 <= k < old(self).records().len() ==> (#[trigger] old(self).records()[k]).wf(),
            forall|k: int| 0 <= k < v@.members.len() && k != i ==> old(self)@.members[k] == v@.members[k],
        ensures
            final(self).wf(),
            final(self).records() == old(self).records(),
            final(self)@ == (GroupView {
                members: v@.members.update(i as int, old(self)@.members[i as int]),
                fired: report(v@.fired, before, (GroupView {
                    members: v@.members.update(i as int, old(self)@.members[i as int]),
                    ..v@
                }).clean()),
                ..v@
            }),
    {
        proof {
            assert(self@.members =~= v@.members.update(i as int, self@.members[i as int]));
            assert forall|k: int| 0 <= k < self@.members.len() implies (
            #[trigger] self@.members[k]).inv() by {
                if k != i {
                    assert(self@.members[k] == v@.members[k]);
                }
            }
        }
        self.notify(before);
    }
}

} // verus!
