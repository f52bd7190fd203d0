use crate::merger::{lemma_undo_chain_last, redo_chain, redo_trace, undo_chain, undo_trace, Merger};
use crate::{Command, Error, MergeId, Signal, Transition};
use vstd::prelude::*;

verus! {

/// The abstract state of a record.
pub struct History {
    /// The merge id of each entry, oldest first.
    pub ids: Seq<Option<u32>>,
    /// How many commands each entry fuses.
    pub sizes: Seq<nat>,
    /// Entries below the cursor are done, the others undone.
    pub cursor: nat,
    /// Every transition reported to the signal so far, oldest first.
    pub fired: Seq<Transition>,
}

impl History {
    pub open spec fn len(self) -> nat {
        self.sizes.len()
    }

    /// Well-formed: one id per entry, the cursor in range, no empty entry.
    pub open spec fn inv(self) -> bool {
        &&& self.ids.len() == self.sizes.len()
        &&& self.cursor <= self.len()
        &&& forall|i: int| 0 <= i < self.len() ==> #[trigger] self.sizes[i] >= 1
    }

    /// Nothing is left to redo.
    pub open spec fn clean(self) -> bool {
        self.cursor == self.len()
    }
}

/// A push of a command with merge id `k` fuses it into the last done entry.
pub open spec fn merges(v: History, k: Option<u32>) -> bool {
    v.cursor > 0 && k is Some && v.ids[v.cursor - 1] == k
}

/// The state after pushing a command with merge id `k`: the undone tail is
/// dropped, the command joins the last entry or opens a new one, the cursor
/// ends at the end, and `Clean` is reported if the record was dirty.
pub open spec fn after_push(v: History, k: Option<u32>) -> History {
    let ids = v.ids.take(v.cursor as int);
    let sizes = v.sizes.take(v.cursor as int);
    let fired = if v.clean() { v.fired } else { v.fired.push(Transition::Clean) };
    if merges(v, k) {
        History {
            ids,
            sizes: sizes.update(v.cursor - 1, sizes[v.cursor - 1] + 1),
            cursor: v.cursor,
            fired,
        }
    } else {
        History { ids: ids.push(k), sizes: sizes.push(1), cursor: v.cursor + 1, fired }
    }
}

/// The state after a successful redo: one more entry is done, and `Clean` is
/// reported if that was the last one. A clean record stays as it is.
pub open spec fn after_redo(v: History) -> History {
    if v.clean() {
        v
    } else {
        History {
            cursor: v.cursor + 1,
            fired: if v.cursor + 1 == v.len() { v.fired.push(Transition::Clean) } else { v.fired },
            ..v
        }
    }
}

/// The state after an undo, successful or not: one entry less is done, and
/// on success `Dirty` is reported if the record was clean. A record with
/// nothing done stays as it is.
pub open spec fn after_undo(v: History, ok: bool) -> History {
    if v.cursor == 0 {
        v
    } else {
        History {
            cursor: (v.cursor - 1) as nat,
            fired: if ok && v.clean() { v.fired.push(Transition::Dirty) } else { v.fired },
            ..v
        }
    }
}

/// `fired` extended by the transition, if any, from the aggregate `before` to
/// the aggregate `after`.
pub open spec fn report(fired: Seq<Transition>, before: bool, after: bool) -> Seq<Transition> {
    if before == after {
        fired
    } else if after {
        fired.push(Transition::Clean)
    } else {
        fired.push(Transition::Dirty)
    }
}

/// A push leaves the record clean and well-formed, whatever the merge id.
pub proof fn lemma_push_is_clean(v: History, k: Option<u32>)
    requires
        v.inv(),
    ensures
        after_push(v, k).inv(),
        after_push(v, k).clean(),
{
}

/// A redo of the last undone entry leaves the record clean; an undo of a
/// done entry, successful or not, leaves it dirty.
pub proof fn lemma_redo_undo_clean_state(v: History, ok: bool)
    requires
        v.inv(),
    ensures
        !v.clean() && v.cursor + 1 == v.len() ==> after_redo(v).clean(),
        v.cursor > 0 ==> !after_undo(v, ok).clean(),
        after_redo(v).inv(),
        after_undo(v, ok).inv(),
{
}

/// After some entries were undone, a push drops them for good: the record is
/// clean, so a following redo changes nothing, no more than one entry
/// stands above the old cursor, and those below it keep their ids.
pub proof fn lemma_push_drops_undone(v: History, k: Option<u32>)
    requires
        v.inv(),
        v.cursor < v.len(),
    ensures
        after_redo(after_push(v, k)) == after_push(v, k),
        after_push(v, k).len() <= v.cursor + 1,
        after_push(v, k).ids.take(v.cursor as int) == v.ids.take(v.cursor as int),
{
    let w = after_push(v, k);
    assert(w.ids.take(v.cursor as int) =~= v.ids.take(v.cursor as int));
}

/// Two commands pushed one after the other with the same id `Some(a)` share
/// one entry: the second push adds no entry, the last entry holds one command
/// more, and a single undo steps back over both.
pub proof fn lemma_same_id_merges(v: History, a: u32)
    requires
        v.inv(),
    ensures
        ({
            let w = after_push(v, Some(a));
            let x = after_push(w, Some(a));
            &&& x.len() == w.len()
            &&& x.sizes.last() == w.sizes.last() + 1
            &&& x.ids.last() == Some(a)
            &&& after_undo(x, true).cursor == x.cursor - 1
            &&& after_undo(x, true).cursor + 1 == x.len()
        }),
{
    let w = after_push(v, Some(a));
    assert(merges(w, Some(a)));
}

/// The signal hears exactly one transition when a push, a redo or a
/// successful undo crosses the clean/dirty boundary, the side it crossed
/// to, and nothing otherwise.
pub proof fn lemma_signal_on_transition(v: History, k: Option<u32>)
    requires
        v.inv(),
    ensures
        after_push(v, k).fired == report(v.fired, v.clean(), after_push(v, k).clean()),
        after_redo(v).fired == report(v.fired, v.clean(), after_redo(v).clean()),
        after_undo(v, true).fired == report(v.fired, v.clean(), after_undo(v, true).clean()),
{
}

/// The state after `n` successful undos.
pub open spec fn undo_times(v: History, n: nat) -> History
    decreases n,
{
    if n == 0 {
        v
    } else {
        after_undo(undo_times(v, (n - 1) as nat), true)
    }
}

proof fn lemma_undo_times_step(v: History, m: nat)
    requires
        v.inv(),
        v.clean(),
        m <= v.len(),
    ensures
        undo_times(v, m).cursor == v.len() - m,
        undo_times(v, m).ids == v.ids,
        undo_times(v, m).sizes == v.sizes,
        undo_times(v, m).fired == (if m == 0 {
            v.fired
        } else {
            v.fired.push(Transition::Dirty)
        }),
    decreases m,
{
    if m > 0 {
        lemma_undo_times_step(v, (m - 1) as nat);
    }
}

/// Undoing every entry of a clean record, each undo succeeding, walks the
/// cursor back to the start and keeps every entry for a redo; the signal
/// hears `on_dirty` once, on the first undo.
pub proof fn lemma_undo_all(v: History)
    requires
        v.inv(),
        v.clean(),
    ensures
        undo_times(v, v.len()).cursor == 0,
        undo_times(v, v.len()).ids == v.ids,
        undo_times(v, v.len()).sizes == v.sizes,
        v.len() > 0 ==> undo_times(v, v.len()).fired == v.fired.push(Transition::Dirty),
{
    lemma_undo_times_step(v, v.len());
}

/// The command's own result inside a record's result.
pub open spec fn cause<E>(r: Result<(), Error<E>>) -> Result<(), E> {
    match r {
        Ok(()) => Ok(()),
        Err(e) => Err(e.1),
    }
}

/// The most recently pushed command of the entries `cs`.
pub open spec fn pushed<C>(cs: Seq<Seq<C>>) -> C {
    cs.last().last()
}

/// The entries `cs` once the undone ones past `cursor` are dropped and `c`
/// is added: fused into the last entry if `merge`, else as an entry of its
/// own.
pub open spec fn placed<C>(cs: Seq<Seq<C>>, cursor: nat, merge: bool, c: C) -> Seq<Seq<C>> {
    let kept = cs.take(cursor as int);
    if merge {
        kept.update(cursor - 1, kept[cursor - 1].push(c))
    } else {
        kept.push(seq![c])
    }
}

/// A linear undo-redo history of commands, with a cursor between the done
/// and the undone entries, and a signal told of clean/dirty transitions.
pub struct Record<C, S> {
    entries: Vec<Merger<C>>,
    cursor: usize,
    signal: S,
}

impl<C: MergeId, S: Signal> View for Record<C, S> {
    type V = History;

    closed spec fn view(&self) -> History {
        History {
            ids: self.entries@.map_values(|e: Merger<C>| e.merge_id()),
            sizes: self.entries@.map_values(|e: Merger<C>| e.size()),
            cursor: self.cursor as nat,
            fired: self.signal.heard(),
        }
    }
}

impl<C, S> Record<C, S> {
    /// The commands of each entry, oldest entry first, each in push order.
    pub closed spec fn commands(&self) -> Seq<Seq<C>> {
        self.entries@.map_values(|e: Merger<C>| e.commands())
    }
}

impl<C: MergeId, S: Signal> Record<C, S> {
    /// Well-formed, with one command sequence per entry: as many commands as
    /// the entry's size, and the entry's id that of its first command.
    pub open spec fn wf(&self) -> bool {
        &&& self@.inv()
        &&& self.commands().len() == self@.len()
        &&& forall|i: int|
            0 <= i < self@.len() ==> (#[trigger] self.commands()[i]).len() == self@.sizes[i]
                && self@.ids[i] == self.commands()[i][0].spec_id()
    }

    /// What `push` owes: the record `a` becomes `b` and the receiver `r0`
    /// becomes `r1`. The undone entries are dropped; `cmd` is redone once and
    /// joins the last entry when its id is the same `Some`, else opens a new
    /// one; the record ends clean; the result is the command's own, with
    /// the entry's position on failure.
    pub open spec fn push_post<R, E>(a: Self, cmd: C, r0: R, b: Self, r1: R, r: Result<(), Error<E>>) -> bool
        where C: Command<R, E>,
    {
        &&& b@ == (History { ids: b@.ids, ..after_push(a@, cmd.spec_id()) })
        &&& b@.clean()
        &&& C::redone(cmd, r0, pushed(b.commands()), r1, cause(r))
        &&& b.commands() == placed(
            a.commands(),
            a@.cursor,
            merges(a@, cmd.spec_id()),
            pushed(b.commands()),
        )
        &&& r matches Err(e) ==> e.0 == b@.cursor - 1
    }

    /// What `redo` owes: a clean record, and the receiver, stay as they are
    /// and the result is `Ok`; otherwise the first undone entry is redone,
    /// the result is that entry's own, and only on success does the cursor
    /// move.
    pub open spec fn redo_post<R, E>(a: Self, r0: R, b: Self, r1: R, r: Result<(), Error<E>>) -> bool
        where C: Command<R, E>,
    {
        &&& a@.clean() ==> {
            &&& r is Ok
            &&& b@ == a@
            &&& b.commands() == a.commands()
            &&& r1 == r0
        }
        &&& !a@.clean() ==> {
            let i = a@.cursor as int;
            &&& b.commands() == a.commands().update(i, b.commands()[i])
            &&& redo_chain(
                a.commands()[i],
                r0,
                b.commands()[i],
                r1,
                cause(r),
            )
            &&& r is Ok ==> b@ == (History { ids: b@.ids, ..after_redo(a@) })
            &&& r matches Err(e) ==> b@ == (History { ids: b@.ids, ..a@ }) && e.0 == i
        }
    }

    /// What `undo` owes: with nothing done, the record and the receiver stay
    /// as they are and the result is `Ok`; otherwise the cursor moves back
    /// and the last done entry is undone, the result being that entry's own.
    pub open spec fn undo_post<R, E>(a: Self, r0: R, b: Self, r1: R, r: Result<(), Error<E>>) -> bool
        where C: Command<R, E>,
    {
        &&& b@ == (History { ids: b@.ids, ..after_undo(a@, r is Ok) })
        &&& a@.cursor == 0 ==> {
            &&& r is Ok
            &&& b.commands() == a.commands()
            &&& r1 == r0
        }
        &&& a@.cursor > 0 ==> {
            let i = a@.cursor - 1;
            &&& b.commands() == a.commands().update(i, b.commands()[i])
            &&& undo_chain(
                a.commands()[i],
                r0,
                b.commands()[i],
                r1,
                cause(r),
            )
            &&& r matches Err(e) ==> e.0 == i
        }
    }

    /// An empty, clean record that reports to `signal`.
    pub fn new(signal: S) -> (r: Self)
        ensures
            r.wf(),
            r@.len() == 0,
            r@.cursor == 0,
            r@.fired == signal.heard(),
    {
        let r = Record { entries: Vec::new(), cursor: 0, signal };
        proof {
            assert(r@.ids =~= Seq::<Option<u32>>::empty());
            assert(r@.sizes =~= Seq::<nat>::empty());
        }
        r
    }

    /// An empty, clean record with room for `capacity` entries.
    pub fn with_capacity(capacity: usize, signal: S) -> (r: Self)
        ensures
            r.wf(),
            r@.len() == 0,
            r@.cursor == 0,
            r@.fired == signal.heard(),
    {
        let r = Record {
            entries: Vec::with_capacity(capacity),
            cursor: 0,
            signal,
        };
        proof {
            assert(r@.ids =~= Seq::<Option<u32>>::empty());
            assert(r@.sizes =~= Seq::<nat>::empty());
        }
        r
    }

    /// Replaces the signal.
    pub fn with_signal(self, signal: S) -> (r: Self)
        requires
            self.wf(),
        ensures
            r.wf(),
            r@ == (History { fired: signal.heard(), ..self@ }),
            r.commands() == self.commands(),
    {
        Record { signal, ..self }
    }

    /// The signal that hears this record's transitions.
    pub fn signal(&self) -> (r: &S)
        ensures
            r.heard() == self@.fired,
    {
        &self.signal
    }

    /// The entry at position `i`, such as the one an `Error` points at.
    pub fn entry(&self, i: usize) -> (r: &Merger<C>)
        requires
            i < self@.len(),
        ensures
            r.commands() == self.commands()[i as int],
            r.merge_id() == self@.ids[i as int],
    {
        &self.entries[i]
    }

    /// How many entries the record holds, done and undone.
    pub fn len(&self) -> (r: usize)
        ensures
            r == self@.len(),
    {
        self.entries.len()
    }

    /// True iff nothing is left to redo.
    pub fn is_clean(&self) -> (r: bool)
        requires
            self.wf(),
        ensures
            r == self@.clean(),
    {
        self.cursor == self.entries.len()
    }

    /// True iff something is left to redo.
    pub fn is_dirty(&self) -> (r: bool)
        requires
            self.wf(),
        ensures
            r == !self@.clean(),
    {
        !self.is_clean()
    }

    /// Pushes `cmd` and redoes it. The undone entries are dropped first; the
    /// command then joins the last entry if their merge ids are the same
    /// `Some`, or opens a new entry. Afterwards the record is clean, and the
    /// signal hears `on_clean` if it was dirty.
    ///
    /// A failing `redo` leaves the command in the record all the same; its
    /// error comes back with the entry's position.
    pub fn push<R, E>(&mut self, receiver: &mut R, cmd: C) -> (r: Result<(), Error<E>>)
        where C: Command<R, E>,
        requires
            old(self).wf(),
        ensures
            final(self).wf(),
            Self::push_post(*old(self), cmd, *old(receiver), *final(self), *final(receiver), r),
    {
        let ghost v = self@;
        let ghost vc = self.commands();
        let was_clean = self.cursor == self.entries.len();
        self.entries.truncate(self.cursor);
        proof {
            assert(self@.ids =~= v.ids.take(v.cursor as int));
            assert(self@.sizes =~= v.sizes.take(v.cursor as int));
            assert(self.commands() =~= vc.take(v.cursor as int));
        }
        let ghost t = self@;
        let ghost tc = self.commands();
        let id = cmd.id();
        let n = self.entries.len();
        let mut cmd = cmd;
        let res = cmd.redo(receiver);
        let merge = if n > 0 {
            match (id, self.entries[n - 1].key::<R, E>()) {
                (Some(a), Some(b)) => a == b,
                _ => false,
            }
        } else {
            false
        };
        if merge {
            let mut last = self.entries.pop().unwrap();
            last.merge(cmd);
            self.entries.push(last);
            proof {
                assert(self@.ids =~= t.ids);
                assert(self@.sizes =~= t.sizes.update(n - 1, t.sizes[n - 1] + 1));
                assert(self.commands() =~= tc.update(n - 1, tc[n - 1].push(cmd)));
            }
        } else {
            self.entries.push(Merger::new(cmd));
            proof {
                assert(self@.sizes =~= t.sizes.push(1));
                assert(self.commands() =~= tc.push(seq![cmd]));
            }
        }
        self.cursor = self.entries.len();
        if !was_clean {
            self.signal.on_clean();
        }
        proof {
            assert(merge == merges(v, id));
            assert(pushed(self.commands()) == cmd);
        }
        match res {
            Ok(()) => {
                proof {
                    assert(res == Ok::<(), E>(res->Ok_0));
                }
                Ok(())
            },
            Err(e) => Err(Error(self.cursor - 1, e)),
        }
    }

    /// Redoes the first undone entry. Does nothing on a clean record. On
    /// success the cursor moves forward, and the signal hears `on_clean` if
    /// the record became clean; on failure nothing changes.
    pub fn redo<R, E>(&mut self, receiver: &mut R) -> (r: Result<(), Error<E>>)
        where C: Command<R, E>,
        requires
            old(self).wf(),
        ensures
            final(self).wf(),
            Self::redo_post(*old(self), *old(receiver), *final(self), *final(receiver), r),
    {
        if self.cursor == self.entries.len() {
            return Ok(());
        }
        let ghost v = self@;
        let ghost vc = self.commands();
        let i = self.cursor;
        let res = self.entries[i].redo_all(receiver);
        proof {
            assert(self@.sizes =~= v.sizes);
            assert(self.commands() =~= vc.update(i as int, self.commands()[i as int]));
        }
        match res {
            Ok(()) => {
                proof {
                    assert(res == Ok::<(), E>(res->Ok_0));
                }
                self.cursor = i + 1;
                if self.cursor == self.entries.len() {
                    self.signal.on_clean();
                }
                Ok(())
            },
            Err(e) => Err(Error(i, e)),
        }
    }

    /// Undoes the last done entry. Does nothing when no entry is done. The
    /// cursor moves back before the entry is undone, so it has moved on
    /// failure too; on success the signal hears `on_dirty` if the record was
    /// clean.
    pub fn undo<R, E>(&mut self, receiver: &mut R) -> (r: Result<(), Error<E>>)
        where C: Command<R, E>,
        requires
            old(self).wf(),
        ensures
            final(self).wf(),
            Self::undo_post(*old(self), *old(receiver), *final(self), *final(receiver), r),
    {
        if self.cursor == 0 {
            return Ok(());
        }
        let ghost v = self@;
        let ghost vc = self.commands();
        let was_clean = self.cursor == self.entries.len();
        self.cursor = self.cursor - 1;
        let i = self.cursor;
        let res = self.entries[i].undo_all(receiver);
        proof {
            assert(self@.sizes =~= v.sizes);
            assert(self.commands() =~= vc.update(i as int, self.commands()[i as int]));
        }
        match res {
            Ok(()) => {
                proof {
                    assert(res == Ok::<(), E>(res->Ok_0));
                }
                if was_clean {
                    self.signal.on_dirty();
                }
                Ok(())
            },
            Err(e) => Err(Error(i, e)),
        }
    }
}

/// Every command of type `C` is inverted by its `undo`: a successful redo
/// followed by a successful undo gives the receiver back.
pub open spec fn undo_inverts_redo<R, E, C: Command<R, E>>() -> bool {
    forall|c0: C, x: R, c1: C, y: R, c2: C, z: R|
        #![trigger C::redone(c0, x, c1, y, Ok(())), C::undone(c1, y, c2, z, Ok(()))]
        C::redone(c0, x, c1, y, Ok(())) && C::undone(c1, y, c2, z, Ok(())) ==> z == x
}

/// Every successful undo of the chain `cs` from `from` ends at `to`.
pub open spec fn undoes_to<R, E, C: Command<R, E>>(cs: Seq<C>, from: R, to: R) -> bool {
    forall|c2: Seq<C>, r: R| #[trigger] undo_chain(cs, from, c2, r, Ok(())) ==> r == to
}

impl<C: MergeId, S: Signal> Record<C, S> {
    /// `st` holds the receiver before each done entry from `base` on, and
    /// after the last: undoing done entry `base + k` from `st[k + 1]` gives
    /// `st[k]`.
    pub open spec fn restores<R, E>(self, base: nat, st: Seq<R>) -> bool
        where C: Command<R, E>,
    {
        &&& base <= self@.cursor
        &&& st.len() == self@.cursor - base + 1
        &&& forall|k: int|
            0 <= k < self@.cursor - base ==> #[trigger] undoes_to(
                self.commands()[base + k],
                st[k + 1],
                st[k],
            )
    }
}

/// A successful push of a command that opens an entry of its own keeps
/// `restores`, the receiver before the push joining `st` below the new one.
pub proof fn lemma_push_restores<C: MergeId, S: Signal, R, E>(
    a: Record<C, S>,
    base: nat,
    st: Seq<R>,
    cmd: C,
    b: Record<C, S>,
    r1: R,
    rp: Result<(), Error<E>>,
)
    where C: Command<R, E>,
    requires
        a.wf(),
        undo_inverts_redo::<R, E, C>(),
        a.restores(base, st),
        !merges(a@, cmd.spec_id()),
        Record::<C, S>::push_post(a, cmd, st.last(), b, r1, rp),
        rp is Ok,
    ensures
        b.restores(base, st.push(r1)),
        b@.cursor == a@.cursor + 1,
{
    let i = a@.cursor as int;
    let r0 = st.last();
    let p = pushed(b.commands());
    let st2 = st.push(r1);
    assert(cause(rp) == Ok::<(), E>(()));
    assert(b.commands()[i] == seq![p]);
    assert forall|j: int| 0 <= j < b@.cursor - base implies #[trigger] undoes_to(
        b.commands()[base + j],
        st2[j + 1],
        st2[j],
    ) by {
        let k = base + j;
        if k < i {
            assert(b.commands()[k] == a.commands()[k]);
            assert(undoes_to(a.commands()[base + j], st[j + 1], st[j]));
            assert(st2[j + 1] == st[j + 1] && st2[j] == st[j]);
        } else {
            assert(st2[j + 1] == r1 && st2[j] == r0);
            assert forall|c2: Seq<C>, r: R| #[trigger]
                undo_chain(b.commands()[k], st2[j + 1], c2, r, Ok(())) implies r == st2[j] by {
                let (rs, m) = choose|rs: Seq<R>, m: int|
                    rs[0] == st2[j + 1] && #[trigger] undo_trace(
                        b.commands()[k],
                        c2,
                        rs,
                        m,
                        r,
                        Ok(()),
                    );
                assert(m == 1);
                let c0 = b.commands()[k];
                let n = c0.len() as int;
                let t: int = 0;
                assert(C::undone(c0[n - 1 - t], rs[t], c2[n - 1 - t], rs[t + 1], Ok(())));
                assert(c0[n - 1 - t] == p);
                assert(C::redone(cmd, r0, p, r1, Ok(())));
            }
        }
    }
}

/// A successful undo from the receiver `st.last()` of a record that
/// `restores` `st` gives the receiver before the last done entry, and keeps
/// `restores` for the rest of `st`.
pub proof fn lemma_undo_restores<C: MergeId, S: Signal, R, E>(
    b: Record<C, S>,
    base: nat,
    st: Seq<R>,
    c: Record<C, S>,
    r2: R,
    ru: Result<(), Error<E>>,
)
    where C: Command<R, E>,
    requires
        b.wf(),
        b.restores(base, st),
        b@.cursor > base,
        Record::<C, S>::undo_post(b, st.last(), c, r2, ru),
        ru is Ok,
    ensures
        r2 == st[b@.cursor - base - 1],
        c.restores(base, st.drop_last()),
        c@.cursor == b@.cursor - 1,
{
    let i = b@.cursor - 1;
    let j0 = b@.cursor - base - 1;
    assert(cause(ru) == Ok::<(), E>(()));
    assert(undoes_to(b.commands()[base + j0], st[j0 + 1], st[j0]));
    assert(undo_chain(b.commands()[i], st.last(), c.commands()[i], r2, Ok(())));
    let st2 = st.drop_last();
    assert forall|j: int| 0 <= j < c@.cursor - base implies #[trigger] undoes_to(
        c.commands()[base + j],
        st2[j + 1],
        st2[j],
    ) by {
        assert(c.commands()[base + j] == b.commands()[base + j]);
        assert(undoes_to(b.commands()[base + j], st[j + 1], st[j]));
    }
}

/// The pushes `0 .. j` of a run, each opening an entry of its own, build up
/// `restores` from the start of the run.
#[verifier::spinoff_prover]
proof fn lemma_pushes_restore<C: MergeId, S: Signal, R, E>(
    recs: Seq<Record<C, S>>,
    cmds: Seq<C>,
    rs: Seq<R>,
    res: Seq<Result<(), Error<E>>>,
    j: nat,
)
    where C: Command<R, E>,
    requires
        undo_inverts_redo::<R, E, C>(),
        j <= cmds.len(),
        recs.len() > cmds.len(),
        rs.len() > cmds.len(),
        res.len() >= cmds.len(),
        forall|k: int| 0 <= k <= cmds.len() ==> (#[trigger] recs[k]).wf(),
        forall|k: int| 0 <= k < cmds.len() ==> (#[trigger] cmds[k]).spec_id() is None,
        forall|k: int|
            0 <= k < cmds.len() ==> #[trigger] Record::<C, S>::push_post(
                recs[k],
                cmds[k],
                rs[k],
                recs[k + 1],
                rs[k + 1],
                res[k],
            ) && res[k] is Ok,
    ensures
        recs[j as int].restores(recs[0]@.cursor, rs.take(j + 1 as int)),
        recs[j as int]@.cursor == recs[0]@.cursor + j,
    decreases j,
{
    let base = recs[0]@.cursor;
    if j == 0 {
        assert(recs[0].restores(base, rs.take(1)));
    } else {
        let k = (j - 1) as int;
        lemma_pushes_restore(recs, cmds, rs, res, (j - 1) as nat);
        assert(Record::<C, S>::push_post(recs[k], cmds[k], rs[k], recs[k + 1], rs[k + 1], res[k]));
        assert(rs.take(j as int).last() == rs[k]);
        lemma_push_restores(recs[k], base, rs.take(j as int), cmds[k], recs[k + 1], rs[k + 1], res[k]);
        assert(rs.take(j as int).push(rs[k + 1]) =~= rs.take(j + 1 as int));
    }
}

/// After the `n` pushes of a run, its undos `0 .. t` walk the receiver back
/// through the states the pushes went through.
#[verifier::spinoff_prover]
proof fn lemma_undos_restore<C: MergeId, S: Signal, R, E>(
    recs: Seq<Record<C, S>>,
    rs: Seq<R>,
    res: Seq<Result<(), Error<E>>>,
    n: nat,
    t: nat,
)
    where C: Command<R, E>,
    requires
        t <= n,
        recs.len() == 2 * n + 1,
        rs.len() == 2 * n + 1,
        res.len() == 2 * n,
        forall|k: int| 0 <= k < recs.len() ==> (#[trigger] recs[k]).wf(),
        recs[n as int].restores(recs[0]@.cursor, rs.take(n + 1 as int)),
        recs[n as int]@.cursor == recs[0]@.cursor + n,
        forall|k: int|
            n <= k < 2 * n ==> #[trigger] Record::<C, S>::undo_post(
                recs[k],
                rs[k],
                recs[k + 1],
                rs[k + 1],
                res[k],
            ) && res[k] is Ok,
    ensures
        recs[n + t as int].restores(recs[0]@.cursor, rs.take(n - t + 1)),
        recs[n + t as int]@.cursor == recs[0]@.cursor + n - t,
        rs[n + t as int] == rs[n - t],
    decreases t,
{
    let base = recs[0]@.cursor;
    if t > 0 {
        lemma_undos_restore(recs, rs, res, n, (t - 1) as nat);
        let k = n + t - 1;
        let st = rs.take(n - t + 2);
        assert(Record::<C, S>::undo_post(recs[k], rs[k], recs[k + 1], rs[k + 1], res[k]));
        assert(st.last() == rs[k]);
        lemma_undo_restores(recs[k], base, st, recs[k + 1], rs[k + 1], res[k]);
        assert(st.drop_last() =~= rs.take(n - t + 1));
    }
}

/// Pushing `n` commands that each open an entry of their own, then undoing
/// `n` times, every call succeeding, gives the receiver back as it was before
/// the pushes and puts the cursor back where it stood, when every command's
/// `undo` inverts its `redo`. Step `k` of the run takes `recs[k]` to
/// `recs[k + 1]` and the receiver `rs[k]` to `rs[k + 1]`, returning `res[k]`.
pub proof fn lemma_round_trip<C: MergeId, S: Signal, R, E>(
    recs: Seq<Record<C, S>>,
    cmds: Seq<C>,
    rs: Seq<R>,
    res: Seq<Result<(), Error<E>>>,
)
    where C: Command<R, E>,
    requires
        undo_inverts_redo::<R, E, C>(),
        recs.len() == 2 * cmds.len() + 1,
        rs.len() == 2 * cmds.len() + 1,
        res.len() == 2 * cmds.len(),
        forall|k: int| 0 <= k < recs.len() ==> (#[trigger] recs[k]).wf(),
        forall|k: int| 0 <= k < cmds.len() ==> (#[trigger] cmds[k]).spec_id() is None,
        forall|k: int|
            0 <= k < cmds.len() ==> #[trigger] Record::<C, S>::push_post(
                recs[k],
                cmds[k],
                rs[k],
                recs[k + 1],
                rs[k + 1],
                res[k],
            ) && res[k] is Ok,
        forall|k: int|
            cmds.len() <= k < 2 * cmds.len() ==> #[trigger] Record::<C, S>::undo_post(
                recs[k],
                rs[k],
                recs[k + 1],
                rs[k + 1],
                res[k],
            ) && res[k] is Ok,
    ensures
        rs.last() == rs[0],
        recs.last()@.cursor == recs[0]@.cursor,
{
    let n = cmds.len();
    lemma_pushes_restore(recs, cmds, rs, res, n);
    lemma_undos_restore(recs, rs, res, n, n);
}

/// A successful push of a command that merges into the last done entry, that
/// entry lying past `base`, keeps `restores`: the receiver after the push
/// takes the place of the one after the entry.
pub proof fn lemma_merge_push_restores<C: MergeId, S: Signal, R, E>(
    a: Record<C, S>,
    base: nat,
    st: Seq<R>,
    cmd: C,
    b: Record<C, S>,
    r1: R,
    rp: Result<(), Error<E>>,
)
    where C: Command<R, E>,
    requires
        a.wf(),
        undo_inverts_redo::<R, E, C>(),
        a.restores(base, st),
        a@.cursor > base,
        merges(a@, cmd.spec_id()),
        Record::<C, S>::push_post(a, cmd, st.last(), b, r1, rp),
        rp is Ok,
    ensures
        b.restores(base, st.drop_last().push(r1)),
        b@.cursor == a@.cursor,
        b@.len() == a@.cursor,
{
    let i = a@.cursor - 1;
    let j0 = i - base;
    let r0 = st.last();
    let p = pushed(b.commands());
    let st2 = st.drop_last().push(r1);
    assert(cause(rp) == Ok::<(), E>(()));
    assert(b.commands()[i] == a.commands()[i].push(p));
    assert(C::redone(cmd, r0, p, r1, Ok(())));
    assert forall|j: int| 0 <= j < b@.cursor - base implies #[trigger] undoes_to(
        b.commands()[base + j],
        st2[j + 1],
        st2[j],
    ) by {
        let k = base + j;
        assert(undoes_to(a.commands()[base + j], st[j + 1], st[j]));
        if j < j0 {
            assert(b.commands()[k] == a.commands()[k]);
            assert(st2[j + 1] == st[j + 1] && st2[j] == st[j]);
        } else {
            assert(st2[j + 1] == r1 && st2[j] == st[j] && st[j + 1] == r0);
            assert forall|c2: Seq<C>, z: R| #[trigger]
                undo_chain(b.commands()[k], st2[j + 1], c2, z, Ok(())) implies z == st2[j] by {
                lemma_undo_chain_last(a.commands()[k], p, r1, c2, z);
                let m = choose|m: R|
                    C::undone(p, r1, c2.last(), m, Ok(())) && #[trigger] undo_chain(
                        a.commands()[k],
                        m,
                        c2.drop_last(),
                        z,
                        Ok(()),
                    );
                assert(m == r0);
            }
        }
    }
}

/// Two commands pushed one after the other, the second merging into the
/// entry the first opened, share one entry, and one successful undo gives
/// the receiver back as it was before the first push, when every command's
/// `undo` inverts its `redo`.
pub proof fn lemma_merged_undo_restores<C: MergeId, S: Signal, R, E>(
    a0: Record<C, S>,
    ca: C,
    r0: R,
    a1: Record<C, S>,
    r1: R,
    p1: Result<(), Error<E>>,
    cb: C,
    a2: Record<C, S>,
    r2: R,
    p2: Result<(), Error<E>>,
    a3: Record<C, S>,
    r3: R,
    u: Result<(), Error<E>>,
)
    where C: Command<R, E>,
    requires
        undo_inverts_redo::<R, E, C>(),
        a0.wf(),
        a1.wf(),
        a2.wf(),
        !merges(a0@, ca.spec_id()),
        Record::<C, S>::push_post(a0, ca, r0, a1, r1, p1),
        p1 is Ok,
        merges(a1@, cb.spec_id()),
        Record::<C, S>::push_post(a1, cb, r1, a2, r2, p2),
        p2 is Ok,
        Record::<C, S>::undo_post(a2, r2, a3, r3, u),
        u is Ok,
    ensures
        a2@.len() == a1@.len(),
        a2@.sizes.last() == 2,
        r3 == r0,
        a3@.cursor == a0@.cursor,
{
    let base = a0@.cursor;
    let st0 = seq![r0];
    assert(a0.restores(base, st0));
    lemma_push_restores(a0, base, st0, ca, a1, r1, p1);
    let st1 = st0.push(r1);
    assert(st1.last() == r1);
    lemma_merge_push_restores(a1, base, st1, cb, a2, r2, p2);
    let st2 = st1.drop_last().push(r2);
    assert(st2.last() == r2);
    lemma_undo_restores(a2, base, st2, a3, r3, u);
    assert(a1@.sizes.last() == 1);
}

/// Every command of type `C` is put back by its `redo`: a successful undo
/// followed by a successful redo gives the receiver back as it was before the
/// undo.
pub open spec fn redo_inverts_undo<R, E, C: Command<R, E>>() -> bool {
    forall|c1: C, y: R, c2: C, z: R, c3: C, w: R|
        #![trigger C::undone(c1, y, c2, z, Ok(())), C::redone(c2, z, c3, w, Ok(()))]
        C::undone(c1, y, c2, z, Ok(())) && C::redone(c2, z, c3, w, Ok(())) ==> w == y
}

/// Undoing the last done entry, made of two merged commands, and redoing it,
/// both succeeding, reapplies both commands: the receiver and the cursor come
/// back to where they were, when every command's `redo` puts back what its
/// `undo` took away.
pub proof fn lemma_merged_redo_reapplies<C: MergeId, S: Signal, R, E>(
    a: Record<C, S>,
    r0: R,
    b: Record<C, S>,
    r1: R,
    u: Result<(), Error<E>>,
    c: Record<C, S>,
    r2: R,
    d: Result<(), Error<E>>,
)
    where C: Command<R, E>,
    requires
        redo_inverts_undo::<R, E, C>(),
        a.wf(),
        b.wf(),
        a@.cursor > 0,
        a@.sizes[a@.cursor - 1] == 2,
        Record::<C, S>::undo_post(a, r0, b, r1, u),
        u is Ok,
        Record::<C, S>::redo_post(b, r1, c, r2, d),
        d is Ok,
    ensures
        r2 == r0,
        c@.cursor == a@.cursor,
{
    let i = a@.cursor - 1;
    assert(cause(u) == Ok::<(), E>(()));
    assert(cause(d) == Ok::<(), E>(()));
    let c0 = a.commands()[i];
    let c1 = b.commands()[i];
    let c2 = c.commands()[i];
    assert(c0.len() == 2);
    let (us, m) = choose|us: Seq<R>, m: int| us[0] == r0 && #[trigger] undo_trace(c0, c1, us, m, r1, Ok(()));
    assert(m == 2);
    let n: int = 2;
    let t0: int = 0;
    let t1: int = 1;
    assert(C::undone(c0[n - 1 - t0], us[t0], c1[n - 1 - t0], us[t0 + 1], Ok(())));
    assert(C::undone(c0[n - 1 - t1], us[t1], c1[n - 1 - t1], us[t1 + 1], Ok(())));
    assert(!b@.clean());
    let (rs, k) = choose|rs: Seq<R>, k: int| rs[0] == r1 && #[trigger] redo_trace(c1, c2, rs, k, r2, Ok(()));
    assert(k == 2);
    let k0: int = 0;
    let k1: int = 1;
    assert(C::redone(c1[k0], rs[k0], c2[k0], rs[k0 + 1], Ok(())));
    assert(C::redone(c1[k1], rs[k1], c2[k1], rs[k1 + 1], Ok(())));
    assert(rs[1] == us[1]);
}

} // verus!
