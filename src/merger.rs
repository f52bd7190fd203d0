use crate::{Command, MergeId};
use vstd::prelude::*;

verus! {

/// `rs` and `n` witness a redo of the chain `c0` into `c1`: the first `n`
/// commands succeeded one after the other, taking the receiver through `rs`;
/// if `n` is the whole chain the result is `Ok` and the receiver ends at
/// `rs[n]`, else command `n` failed with `res`, leaving the receiver at `r1`,
/// and the commands after it were not run.
pub open spec fn redo_trace<R, E, C: Command<R, E>>(
    c0: Seq<C>,
    c1: Seq<C>,
    rs: Seq<R>,
    n: int,
    r1: R,
    res: Result<(), E>,
) -> bool {
    &&& c1.len() == c0.len()
    &&& 0 <= n <= c0.len()
    &&& rs.len() == n + 1
    &&& forall|k: int| 0 <= k < n ==> #[trigger] C::redone(c0[k], rs[k], c1[k], rs[k + 1], Ok(()))
    &&& forall|k: int| n < k < c0.len() ==> #[trigger] c1[k] == c0[k]
    &&& if n == c0.len() {
        res is Ok && r1 == rs[n]
    } else {
        res is Err && C::redone(c0[n], rs[n], c1[n], r1, res)
    }
}

/// Redoing the chain `c0` from receiver `r0` runs its commands front to back,
/// stops at the first failure and returns it, else returns `Ok`; it leaves
/// the chain as `c1` and the receiver as `r1`.
pub open spec fn redo_chain<R, E, C: Command<R, E>>(
    c0: Seq<C>,
    r0: R,
    c1: Seq<C>,
    r1: R,
    res: Result<(), E>,
) -> bool {
    exists|rs: Seq<R>, n: int| rs[0] == r0 && #[trigger] redo_trace(c0, c1, rs, n, r1, res)
}

/// `rs` and `m` witness an undo of the chain `c0` into `c1`: the last `m`
/// commands succeeded one after the other, last first, taking the receiver
/// through `rs`; if `m` is the whole chain the result is `Ok` and the
/// receiver ends at `rs[m]`, else the next command back failed with `res`,
/// leaving the receiver at `r1`, and the commands before it were not run.
pub open spec fn undo_trace<R, E, C: Command<R, E>>(
    c0: Seq<C>,
    c1: Seq<C>,
    rs: Seq<R>,
    m: int,
    r1: R,
    res: Result<(), E>,
) -> bool {
    let n = c0.len() as int;
    &&& c1.len() == c0.len()
    &&& 0 <= m <= n
    &&& rs.len() == m + 1
    &&& forall|t: int|
        0 <= t < m ==> #[trigger] C::undone(c0[n - 1 - t], rs[t], c1[n - 1 - t], rs[t + 1], Ok(()))
    &&& forall|k: int| 0 <= k < n - 1 - m ==> #[trigger] c1[k] == c0[k]
    &&& if m == n {
        res is Ok && r1 == rs[m]
    } else {
        res is Err && C::undone(c0[n - 1 - m], rs[m], c1[n - 1 - m], r1, res)
    }
}

/// Undoing the chain `c0` from receiver `r0` runs its commands back to
/// front, stops at the first failure and returns it, else returns `Ok`; it
/// leaves the chain as `c1` and the receiver as `r1`.
pub open spec fn undo_chain<R, E, C: Command<R, E>>(
    c0: Seq<C>,
    r0: R,
    c1: Seq<C>,
    r1: R,
    res: Result<(), E>,
) -> bool {
    exists|rs: Seq<R>, m: int| rs[0] == r0 && #[trigger] undo_trace(c0, c1, rs, m, r1, res)
}

/// In an entry of two commands `a` then `b`, a successful redo redoes `a`
/// and then `b`, and a successful undo undoes `b` and then `a`.
pub proof fn lemma_pair_order<R, E, C: Command<R, E>>(
    c0: Seq<C>,
    r0: R,
    c1: Seq<C>,
    r1: R,
    c2: Seq<C>,
    r2: R,
)
    requires
        c0.len() == 2,
        redo_chain(c0, r0, c1, r1, Ok(())),
        undo_chain(c1, r1, c2, r2, Ok(())),
    ensures
        exists|m: R|
            C::redone(c0[0], r0, c1[0], m, Ok(())) && #[trigger] C::redone(c0[1], m, c1[1], r1, Ok(())),
        exists|m: R|
            C::undone(c1[1], r1, c2[1], m, Ok(())) && #[trigger] C::undone(c1[0], m, c2[0], r2, Ok(())),
{
    let (rs, n) = choose|rs: Seq<R>, n: int| rs[0] == r0 && #[trigger] redo_trace(c0, c1, rs, n, r1, Ok(()));
    assert(n == 2);
    let k0: int = 0;
    let k1: int = 1;
    assert(C::redone(c0[k0], rs[k0], c1[k0], rs[k0 + 1], Ok(())));
    assert(C::redone(c0[k1], rs[k1], c1[k1], rs[k1 + 1], Ok(())));
    let (us, m) = choose|us: Seq<R>, m: int| us[0] == r1 && #[trigger] undo_trace(c1, c2, us, m, r2, Ok(()));
    assert(m == 2);
    let t0: int = 0;
    let t1: int = 1;
    let k: int = 2;
    assert(C::undone(c1[k - 1 - t0], us[t0], c2[k - 1 - t0], us[t0 + 1], Ok(())));
    assert(C::undone(c1[k - 1 - t1], us[t1], c2[k - 1 - t1], us[t1 + 1], Ok(())));
}

/// A successful undo of the chain `cs` followed by `x` undoes `x` first, and
/// then `cs` from where that left the receiver.
pub proof fn lemma_undo_chain_last<R, E, C: Command<R, E>>(
    cs: Seq<C>,
    x: C,
    r: R,
    c2: Seq<C>,
    z: R,
)
    requires
        undo_chain(cs.push(x), r, c2, z, Ok(())),
    ensures
        exists|m: R|
            C::undone(x, r, c2.last(), m, Ok(())) && #[trigger] undo_chain(
                cs,
                m,
                c2.drop_last(),
                z,
                Ok(()),
            ),
{
    let c0 = cs.push(x);
    let n = c0.len() as int;
    let (rs, mm) = choose|rs: Seq<R>, mm: int|
        rs[0] == r && #[trigger] undo_trace(c0, c2, rs, mm, z, Ok(()));
    assert(mm == n);
    let t0: int = 0;
    assert(C::undone(c0[n - 1 - t0], rs[t0], c2[n - 1 - t0], rs[t0 + 1], Ok(())));
    assert(c0[n - 1] == x);
    let m = rs[1];
    let rs2 = rs.subrange(1, n + 1);
    let c3 = c2.drop_last();
    let n2 = n - 1;
    assert forall|t: int| 0 <= t < n2 implies #[trigger] C::undone(
        cs[n2 - 1 - t],
        rs2[t],
        c3[n2 - 1 - t],
        rs2[t + 1],
        Ok(()),
    ) by {
        let u = t + 1;
        assert(C::undone(c0[n - 1 - u], rs[u], c2[n - 1 - u], rs[u + 1], Ok(())));
        assert(c0[n - 1 - u] == cs[n2 - 1 - t]);
        assert(c2[n - 1 - u] == c3[n2 - 1 - t]);
    }
    assert(undo_trace(cs, c3, rs2, n2, z, Ok(())));
    assert(undo_chain(cs, m, c3, z, Ok(())));
}

/// One slot of a history: the command that opened it, followed by every
/// command merged into it, in the order they were pushed. The slot's merge id
/// is the id of its first command, read from that command whenever asked.
#[derive(Debug)]
pub struct Merger<C> {
    cmds: Vec<C>,
}

impl<C> Merger<C> {
    /// The merge id of the slot: its first command's.
    pub open spec fn merge_id(&self) -> Option<u32>
        where C: MergeId,
    {
        if self.commands().len() > 0 {
            self.commands()[0].spec_id()
        } else {
            None
        }
    }

    /// The commands of the slot, in push order.
    pub closed spec fn commands(&self) -> Seq<C> {
        self.cmds@
    }

    /// How many commands the slot holds.
    pub open spec fn size(&self) -> nat {
        self.commands().len()
    }

    /// A slot holding the single command `cmd`.
    pub fn new(cmd: C) -> (r: Self)
        ensures
            r.commands() == seq![cmd],
    {
        let mut cmds: Vec<C> = Vec::new();
        cmds.push(cmd);
        proof {
            assert(cmds@ =~= seq![cmd]);
        }
        Merger { cmds }
    }

    /// The merge id of the slot, asked of its first command.
    pub fn key<R, E>(&self) -> (r: Option<u32>)
        where C: Command<R, E>,
        ensures
            r == self.merge_id(),
    {
        if self.cmds.len() > 0 {
            self.cmds[0].id()
        } else {
            None
        }
    }

    /// The commands of the slot, in push order.
    pub fn as_slice(&self) -> (r: &[C])
        ensures
            r@ == self.commands(),
    {
        self.cmds.as_slice()
    }

    /// Fuses `cmd` into the slot, after the commands already there.
    pub fn merge(&mut self, cmd: C)
        ensures
            final(self).commands() == old(self).commands().push(cmd),
    {
        self.cmds.push(cmd);
    }

    /// Redoes the commands of the slot front to back, stopping at the first
    /// failure.
    pub fn redo_all<R, E>(&mut self, receiver: &mut R) -> (r: Result<(), E>)
        where C: Command<R, E>,
        ensures
            final(self).size() == old(self).size(),
            redo_chain(old(self).commands(), *old(receiver), final(self).commands(), *final(receiver), r),
    {
        let ghost c0 = self.cmds@;
        let ghost rs: Seq<R> = seq![*receiver];
        let n = self.cmds.len();
        let mut j: usize = 0;
        while j < n
            invariant
                n == c0.len(),
                c0 == old(self).cmds@,
                self.cmds@.len() == n,
                j <= n,
                rs.len() == j + 1,
                rs[0] == *old(receiver),
                rs[j as int] == *receiver,
                forall|k: int| 0 <= k < j ==> #[trigger] C::redone(c0[k], rs[k], self.cmds@[k], rs[k + 1], Ok(())),
                forall|k: int| j <= k < n ==> #[trigger] self.cmds@[k] == c0[k],
            decreases n - j,
        {
            let ghost before = *receiver;
            let ghost cs = self.cmds@;
            let r = self.cmds[j].redo(receiver);
            match r {
                Ok(()) => {},
                Err(e) => {
                    proof {
                        assert(redo_trace(c0, self.cmds@, rs, j as int, *receiver, r));
                    }
                    return Err(e);
                },
            }
            proof {
                let rs0 = rs;
                rs = rs.push(*receiver);
                assert(r is Ok);
                assert(r == Ok::<(), E>(r->Ok_0));
                assert forall|k: int| 0 <= k < j + 1 implies #[trigger] C::redone(
                    c0[k],
                    rs[k],
                    self.cmds@[k],
                    rs[k + 1],
                    Ok(()),
                ) by {
                    if k < j {
                        assert(self.cmds@[k] == cs[k]);
                        assert(rs[k] == rs0[k] && rs[k + 1] == rs0[k + 1]);
                    } else {
                        assert(rs[k] == before);
                    }
                }
            }
            j = j + 1;
        }
        proof {
            assert(redo_trace(c0, self.cmds@, rs, n as int, *receiver, Ok::<(), E>(())));
        }
        Ok(())
    }

    /// Undoes the commands of the slot back to front, stopping at the first
    /// failure.
    pub fn undo_all<R, E>(&mut self, receiver: &mut R) -> (r: Result<(), E>)
        where C: Command<R, E>,
        ensures
            final(self).size() == old(self).size(),
            undo_chain(old(self).commands(), *old(receiver), final(self).commands(), *final(receiver), r),
    {
        let ghost c0 = self.cmds@;
        let ghost rs: Seq<R> = seq![*receiver];
        let n = self.cmds.len();
        let mut j: usize = n;
        while j > 0
            invariant
                n == c0.len(),
                c0 == old(self).cmds@,
                self.cmds@.len() == n,
                j <= n,
                rs.len() == n - j + 1,
                rs[0] == *old(receiver),
                rs[n - j] == *receiver,
                forall|t: int|
                    0 <= t < n - j ==> #[trigger] C::undone(
                        c0[n - 1 - t],
                        rs[t],
                        self.cmds@[n - 1 - t],
                        rs[t + 1],
                        Ok(()),
                    ),
                forall|k: int| 0 <= k < j ==> #[trigger] self.cmds@[k] == c0[k],
            decreases j,
        {
            j = j - 1;
            let ghost before = *receiver;
            let ghost cs = self.cmds@;
            let r = self.cmds[j].undo(receiver);
            match r {
                Ok(()) => {},
                Err(e) => {
                    proof {
                        assert(undo_trace(c0, self.cmds@, rs, (n - 1 - j) as int, *receiver, r));
                    }
                    return Err(e);
                },
            }
            proof {
                let rs0 = rs;
                rs = rs.push(*receiver);
                assert(r is Ok);
                assert(r == Ok::<(), E>(r->Ok_0));
                assert forall|t: int| 0 <= t < n - j implies #[trigger] C::undone(
                    c0[n - 1 - t],
                    rs[t],
                    self.cmds@[n - 1 - t],
                    rs[t + 1],
                    Ok(()),
                ) by {
                    if t < n - 1 - j {
                        assert(self.cmds@[n - 1 - t] == cs[n - 1 - t]);
                        assert(rs[t] == rs0[t] && rs[t + 1] == rs0[t + 1]);
                    } else {
                        assert(rs[t] == before);
                    }
                }
            }
        }
        proof {
            assert(undo_trace(c0, self.cmds@, rs, n as int, *receiver, Ok::<(), E>(())));
        }
        Ok(())
    }
}

impl<C: MergeId> MergeId for Merger<C> {
    open spec fn spec_id(&self) -> Option<u32> {
        self.merge_id()
    }
}

impl<R, E, C: Command<R, E>> Command<R, E> for Merger<C> {
    open spec fn redone(c0: Self, r0: R, c1: Self, r1: R, res: Result<(), E>) -> bool {
        redo_chain(c0.commands(), r0, c1.commands(), r1, res)
    }

    open spec fn undone(c0: Self, r0: R, c1: Self, r1: R, res: Result<(), E>) -> bool {
        undo_chain(c0.commands(), r0, c1.commands(), r1, res)
    }

    fn redo(&mut self, receiver: &mut R) -> Result<(), E> {
        self.redo_all(receiver)
    }

    fn undo(&mut self, receiver: &mut R) -> Result<(), E> {
        self.undo_all(receiver)
    }

    fn id(&self) -> Option<u32> {
        self.key()
    }
}

} // verus!
