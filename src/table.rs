use vstd::prelude::*;

use crate::connection::{Phase, Stage};

verus! {

/// One live connection: its transport handle and its phase.
pub struct Connection<S> {
    pub socket: S,
    pub phase: Phase,
}

/// The result of one non-blocking accept on the listener.
pub enum Accepted<S> {
    Connection(S),
    WouldBlock,
    Failed,
}

/// The connections that the event loop drives, in order of admission.
pub struct ConnectionTable<S> {
    pub connections: Vec<Connection<S>>,
}

/// `s` without the elements whose positions are in `gone`, in order.
pub open spec fn keep_unlisted<T>(s: Seq<T>, gone: Set<int>) -> Seq<T>
    decreases s.len(),
{
    if s.len() == 0 {
        Seq::empty()
    } else {
        let rest = keep_unlisted(s.drop_last(), gone);
        if gone.contains(s.len() - 1) {
            rest
        } else {
            rest.push(s.last())
        }
    }
}

/// Positions strictly increasing, each below `len`.
pub open spec fn valid_positions(p: Seq<usize>, len: nat) -> bool {
    &&& forall|i: int, j: int| 0 <= i < j < p.len() ==> p[i] < p[j]
    &&& forall|i: int| 0 <= i < p.len() ==> #[trigger] p[i] < len
}

/// The positions in `p`, as a set of integers.
pub open spec fn position_set(p: Seq<usize>) -> Set<int> {
    Set::new(|x: int| exists|i: int| 0 <= i < p.len() && p[i] as int == x)
}

proof fn lemma_keep_unaffected<T>(s: Seq<T>, q: int, gone: Set<int>)
    requires
        -1 <= q,
        forall|x: int| gone.contains(x) ==> x > q,
    ensures
        keep_unlisted(s, gone).len() >= if s.len() <= q + 1 {
            s.len() as int
        } else {
            q + 1
        },
        s.len() <= q + 1 ==> keep_unlisted(s, gone) == s,
    decreases s.len(),
{
    if s.len() > 0 {
        lemma_keep_unaffected(s.drop_last(), q, gone);
        if s.len() <= q + 1 {
            assert(s.drop_last().push(s.last()) =~= s);
        }
    }
}

proof fn lemma_keep_remove<T>(s: Seq<T>, q: int, gone: Set<int>)
    requires
        0 <= q < s.len(),
        forall|x: int| gone.contains(x) ==> x > q,
    ensures
        keep_unlisted(s, gone).len() > q,
        keep_unlisted(s, gone).remove(q) == keep_unlisted(s, gone.insert(q)),
    decreases s.len(),
{
    let d = s.drop_last();
    let more = gone.insert(q);
    if s.len() - 1 == q {
        lemma_keep_unaffected(d, q - 1, gone);
        lemma_keep_unaffected(d, q - 1, more);
        assert(keep_unlisted(s, gone) == d.push(s.last()));
        assert(d.push(s.last()).remove(q) =~= d);
    } else {
        lemma_keep_remove(d, q, gone);
        if !gone.contains(s.len() - 1) {
            let k = keep_unlisted(d, gone);
            assert(k.push(s.last()).remove(q) =~= k.remove(q).push(s.last()));
        }
    }
}

/// The positions below `n` that are not in `gone`, in increasing order.
pub open spec fn unlisted_indices(n: nat, gone: Set<int>) -> Seq<int>
    decreases n,
{
    if n == 0 {
        Seq::empty()
    } else {
        let r = unlisted_indices((n - 1) as nat, gone);
        if gone.contains(n - 1) {
            r
        } else {
            r.push(n - 1)
        }
    }
}

/// Removing listed positions neither drops nor reorders anything else: what
/// remains is, in order, exactly the elements at the positions not listed,
/// each once.
pub proof fn lemma_removal_keeps_the_others<T>(s: Seq<T>, gone: Set<int>)
    ensures
        keep_unlisted(s, gone).len() == unlisted_indices(s.len(), gone).len(),
        forall|k: int|
            0 <= k < unlisted_indices(s.len(), gone).len() ==> 0 <= #[trigger] unlisted_indices(
                s.len(),
                gone,
            )[k] < s.len() && keep_unlisted(s, gone)[k] == s[unlisted_indices(s.len(), gone)[k]],
        forall|k: int, l: int|
            0 <= k < l < unlisted_indices(s.len(), gone).len() ==> unlisted_indices(
                s.len(),
                gone,
            )[k] < unlisted_indices(s.len(), gone)[l],
        forall|i: int|
            0 <= i < s.len() ==> (!gone.contains(i) <==> unlisted_indices(
                s.len(),
                gone,
            ).contains(i)),
    decreases s.len(),
{
    if s.len() > 0 {
        let d = s.drop_last();
        lemma_removal_keeps_the_others(d, gone);
        let id = unlisted_indices(d.len(), gone);
        assert(forall|k: int| 0 <= k < id.len() ==> d[#[trigger] id[k]] == s[id[k]]);
        if !gone.contains(s.len() - 1) {
            let id2 = id.push(s.len() - 1);
            assert forall|i: int| 0 <= i < s.len() implies (!gone.contains(i) <==> id2.contains(
                i,
            )) by {
                if i == s.len() - 1 {
                    assert(id2[id.len() as int] == i);
                } else if id2.contains(i) {
                    let k = choose|k: int| 0 <= k < id2.len() && id2[k] == i;
                    assert(id[k] == i);
                } else if !gone.contains(i) {
                    let k = choose|k: int| 0 <= k < id.len() && id[k] == i;
                    assert(id2[k] == i);
                }
            }
        } else {
            assert(!id.contains(s.len() - 1));
        }
    }
}

impl<S> ConnectionTable<S> {
    /// An empty table.
    pub fn new() -> (t: ConnectionTable<S>)
        ensures
            t.connections@.len() == 0,
    {
        ConnectionTable { connections: Vec::new() }
    }

    /// The number of live connections.
    pub fn len(&self) -> (n: usize)
        ensures
            n == self.connections@.len(),
    {
        self.connections.len()
    }

    /// Admits the result of one accept: a new connection is appended in the
    /// reading phase with nothing filled, a would-block changes nothing, and a
    /// listener error is reported as `false`, with the table unchanged.
    pub fn admit_new(&mut self, a: Accepted<S>) -> (ok: bool)
        ensures
            ok == !(a is Failed),
            a matches Accepted::Connection(s) ==> {
                &&& final(self).connections@.len() == old(self).connections@.len() + 1
                &&& final(self).connections@.drop_last() == old(self).connections@
                &&& final(self).connections@.last().socket == s
                &&& final(self).connections@.last().phase.stage() == Stage::Reading(Seq::empty())
                &&& final(self).connections@.last().phase.wf()
            },
            !(a is Connection) ==> final(self).connections@ == old(self).connections@,
    {
        match a {
            Accepted::Connection(socket) => {
                self.connections.push(Connection { socket, phase: Phase::new() });
                assert(self.connections@.drop_last() =~= old(self).connections@);
                true
            },
            Accepted::WouldBlock => true,
            Accepted::Failed => false,
        }
    }

    /// Removes the connections at the `completed` positions, taken in
    /// descending order so that each removal leaves the positions still to be
    /// removed valid; every other connection stays, in its order.
    pub fn reap(&mut self, completed: &Vec<usize>)
        requires
            valid_positions(completed@, old(self).connections@.len() as nat),
        ensures
            final(self).connections@ == keep_unlisted(
                old(self).connections@,
                position_set(completed@),
            ),
    {
        let ghost s = self.connections@;
        let mut j: usize = completed.len();
        proof {
            lemma_keep_unaffected(s, s.len() as int, position_set(completed@.subrange(j as int, j as int)));
            assert(position_set(completed@.subrange(j as int, j as int)) =~= Set::empty());
        }
        while j > 0
            invariant
                j <= completed@.len(),
                valid_positions(completed@, s.len() as nat),
                self.connections@ == keep_unlisted(
                    s,
                    position_set(completed@.subrange(j as int, completed@.len() as int)),
                ),
            decreases j,
        {
            let q = completed[j - 1];
            let ghost later = position_set(completed@.subrange(j as int, completed@.len() as int));
            proof {
                assert forall|x: int| later.contains(x) implies x > q by {
                    let i = choose|i: int|
                        0 <= i < completed@.len() - j && completed@.subrange(
                            j as int,
                            completed@.len() as int,
                        )[i] as int == x;
                    assert(completed@[j + i] > completed@[j - 1]);
                }
                lemma_keep_remove(s, q as int, later);
                assert(later.insert(q as int) =~= position_set(
                    completed@.subrange(j - 1, completed@.len() as int),
                )) by {
                    let sub = completed@.subrange(j - 1, completed@.len() as int);
                    assert(sub[0] == q);
                    assert forall|x: int| #[trigger] later.contains(x) implies position_set(
                        sub,
                    ).contains(x) by {
                        let i = choose|i: int|
                            0 <= i < completed@.len() - j && completed@.subrange(
                                j as int,
                                completed@.len() as int,
                            )[i] as int == x;
                        assert(sub[i + 1] as int == x);
                    }
                    assert forall|x: int| #[trigger] position_set(sub).contains(x) implies later.insert(
                        q as int,
                    ).contains(x) by {
                        let i = choose|i: int| 0 <= i < sub.len() && sub[i] as int == x;
                        if i > 0 {
                            assert(completed@.subrange(j as int, completed@.len() as int)[i - 1]
                                == sub[i]);
                        }
                    }
                }
            }
            self.connections.remove(q);
            j = j - 1;
        }
        proof {
            assert(completed@.subrange(0, completed@.len() as int) =~= completed@);
        }
    }
}

} // verus!
