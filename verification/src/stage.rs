//! The write stage: finished blocks arrive in any order and leave in
//! stream order. A block whose turn has not come waits in the reorder
//! buffer; the block whose turn it is leaves at once, followed by every
//! waiting block that continues the run.

use vstd::prelude::*;

use crate::block::Tcontent;
use crate::reorder::Reorder;

verus! {

/// The abstract state of the write stage: the order of the next block to
/// leave, and the blocks waiting, keyed by their order.
pub type StageState = (u64, Map<u64, Tcontent>);

/// The first position at or after `k` that holds no waiting block
/// (positions stop at `u64::MAX`).
pub open spec fn run_end(pending: Map<u64, Tcontent>, k: int) -> int
    decreases u64::MAX - k,
{
    if 0 <= k < u64::MAX && pending.contains_key(k as u64) {
        run_end(pending, k + 1)
    } else {
        k
    }
}

/// The blocks that leave when `first`, numbered `e`, arrives: `first` and
/// then the waiting blocks numbered `e + 1` up to `end - 1`.
pub open spec fn released(pending: Map<u64, Tcontent>, first: Tcontent, e: int, end: int) -> Seq<
    Tcontent,
> {
    Seq::new((end - e) as nat, |j: int| if j == 0 { first } else { pending[(e + j) as u64] })
}

/// The waiting blocks with the keys strictly between `e` and `end` taken out.
pub open spec fn drained(pending: Map<u64, Tcontent>, e: int, end: int) -> Map<u64, Tcontent> {
    pending.remove_keys(Set::new(|k: u64| e < k && k < end))
}

/// What the write stage does with one arriving block: the next state and
/// the blocks that leave, in order.
pub open spec fn step(s: StageState, c: Tcontent) -> (StageState, Seq<Tcontent>) {
    if c.order == s.0 {
        let end = run_end(s.1, s.0 + 1);
        ((end as u64, drained(s.1, s.0 as int, end)), released(s.1, c, s.0 as int, end))
    } else {
        ((s.0, s.1.insert(c.order, c)), Seq::empty())
    }
}

/// The write stage fed `arrivals` one after the other from its start: the
/// final state and every block that left, in the order they left.
pub open spec fn replay(arrivals: Seq<Tcontent>) -> (StageState, Seq<Tcontent>)
    decreases arrivals.len(),
{
    if arrivals.len() == 0 {
        ((0u64, Map::empty()), Seq::empty())
    } else {
        let prev = replay(arrivals.drop_last());
        let next = step(prev.0, arrivals.last());
        (next.0, prev.1 + next.1)
    }
}

/// The write stage of the pipeline: the order of the block expected next,
/// and the blocks that came back before their turn.
pub struct OrderedWriter {
    reorder_engine: Reorder,
    expected_ordered: u64,
}

impl View for OrderedWriter {
    type V = StageState;

    closed spec fn view(&self) -> StageState {
        (self.expected_ordered, self.reorder_engine@)
    }
}

proof fn lemma_run_end(p: Map<u64, Tcontent>, a: int, b: int)
    requires
        0 <= a <= b <= u64::MAX,
        forall|k: u64| a <= k < b ==> p.contains_key(k),
        b == u64::MAX || !p.contains_key(b as u64),
    ensures
        run_end(p, a) == b,
    decreases b - a,
{
    if a < b {
        lemma_run_end(p, a + 1, b);
    }
}

/// `run_end` stops at the first position, from `a` on, that holds no
/// waiting block.
proof fn lemma_run_end_props(p: Map<u64, Tcontent>, a: int)
    requires
        0 <= a <= u64::MAX,
    ensures
        a <= run_end(p, a) <= u64::MAX,
        forall|k: u64| a <= k < run_end(p, a) ==> p.contains_key(k),
        run_end(p, a) == u64::MAX || !p.contains_key(run_end(p, a) as u64),
    decreases u64::MAX - a,
{
    if a < u64::MAX && p.contains_key(a as u64) {
        lemma_run_end_props(p, a + 1);
    }
}

/// Some block among the first `i` arrivals has order `k`.
pub open spec fn arrived(arrivals: Seq<Tcontent>, i: int, k: int) -> bool {
    exists|j: int| 0 <= j < i && #[trigger] arrivals[j].order == k
}

/// The arrivals are `n` blocks carrying the orders `0..n` in some order: each
/// order below `n` occurs once, and no other order occurs.
pub open spec fn is_numbering(arrivals: Seq<Tcontent>, n: nat) -> bool {
    &&& arrivals.len() == n
    &&& forall|j: int| 0 <= j < arrivals.len() ==> #[trigger] arrivals[j].order < n
    &&& forall|i: int, j: int|
        0 <= i < j < arrivals.len() ==> #[trigger] arrivals[i].order != #[trigger] arrivals[j].order
    &&& forall|k: int| 0 <= k < n ==> arrived(arrivals, arrivals.len() as int, k)
}

/// What holds of the write stage after the first `i` arrivals.
spec fn replay_inv(arrivals: Seq<Tcontent>, n: nat, i: int) -> bool {
    let r = replay(arrivals.take(i));
    let e = r.0.0;
    let p = r.0.1;
    let out = r.1;
    &&& e <= n
    &&& forall|k: int| 0 <= k < e ==> arrived(arrivals, i, k)
    &&& !arrived(arrivals, i, e as int)
    &&& out.len() == e
    &&& forall|j: int|
        0 <= j < i && #[trigger] arrivals[j].order < e ==> out[arrivals[j].order as int]
            == arrivals[j]
    &&& forall|j: int|
        0 <= j < i && #[trigger] arrivals[j].order > e ==> p.contains_key(arrivals[j].order)
            && p[arrivals[j].order] == arrivals[j]
    &&& forall|k: u64| #[trigger] p.contains_key(k) ==> k > e && arrived(arrivals, i, k as int)
}

proof fn lemma_replay_inv(arrivals: Seq<Tcontent>, n: nat, i: int)
    requires
        n < u64::MAX,
        is_numbering(arrivals, n),
        0 <= i <= arrivals.len(),
    ensures
        replay_inv(arrivals, n, i),
    decreases i,
{
    if i == 0 {
        assert(arrivals.take(0) =~= Seq::<Tcontent>::empty());
        assert(!arrived(arrivals, 0, 0));
        return;
    }
    lemma_replay_inv(arrivals, n, i - 1);
    let pre = arrivals.take(i);
    assert(pre.drop_last() =~= arrivals.take(i - 1));
    assert(pre.last() == arrivals[i - 1]);
    let r0 = replay(arrivals.take(i - 1));
    let e = r0.0.0;
    let p = r0.0.1;
    let out = r0.1;
    let a = arrivals[i - 1];
    let o = a.order;
    assert(replay(pre) == (step(r0.0, a).0, out + step(r0.0, a).1));
    // `a` is the only arrival so far with its order
    assert(!arrived(arrivals, i - 1, o as int)) by {
        if arrived(arrivals, i - 1, o as int) {
            let j = choose|j: int| 0 <= j < i - 1 && #[trigger] arrivals[j].order == o;
            assert(arrivals[j].order != arrivals[i - 1].order);
        }
    }
    assert forall|k: int| arrived(arrivals, i - 1, k) implies arrived(arrivals, i, k) by {
        let j = choose|j: int| 0 <= j < i - 1 && #[trigger] arrivals[j].order == k;
        assert(0 <= j < i && arrivals[j].order == k);
    }
    assert(arrived(arrivals, i, o as int)) by {
        assert(arrivals[i - 1].order == o);
    }
    assert forall|k: int| arrived(arrivals, i, k) && k != o implies arrived(arrivals, i - 1, k) by {
        let j = choose|j: int| 0 <= j < i && #[trigger] arrivals[j].order == k;
        assert(j != i - 1);
    }
    if o != e {
        assert(o > e) by {
            if o < e {
                assert(arrived(arrivals, i - 1, o as int));
            }
        }
        let p2 = p.insert(o, a);
        assert forall|j: int|
            0 <= j < i && #[trigger] arrivals[j].order > e implies p2.contains_key(
            arrivals[j].order,
        ) && p2[arrivals[j].order] == arrivals[j] by {
            if j < i - 1 {
                assert(arrivals[j].order != arrivals[i - 1].order);
            }
        }
    } else {
        let end = run_end(p, e + 1);
        lemma_run_end_props(p, e + 1);
        // every waiting block has an order below `n`
        assert forall|k: u64| #[trigger] p.contains_key(k) implies k < n by {
            let j = choose|j: int| 0 <= j < i - 1 && #[trigger] arrivals[j].order == k;
        }
        assert(end <= n) by {
            if end > n {
                assert(p.contains_key(n as u64));
            }
        }
        let p2 = drained(p, e as int, end);
        let out2 = out + released(p, a, e as int, end);
        assert(step(r0.0, a) == ((end as u64, p2), released(p, a, e as int, end)));
        assert forall|k: int| 0 <= k < end implies arrived(arrivals, i, k) by {
            if k < e {
            } else if k == e {
            } else {
                assert(p.contains_key(k as u64));
            }
        }
        assert(!arrived(arrivals, i, end)) by {
            if arrived(arrivals, i, end) {
                let j = choose|j: int| 0 <= j < i && #[trigger] arrivals[j].order == end;
                assert(j != i - 1);
                assert(arrivals[j].order > e);
            }
        }
        assert forall|j: int|
            0 <= j < i && #[trigger] arrivals[j].order < end implies out2[arrivals[j].order as int]
            == arrivals[j] by {
            let oj = arrivals[j].order;
            if oj < e {
            } else if oj == e {
                if j != i - 1 {
                    assert(arrived(arrivals, i - 1, e as int));
                }
            } else {
                assert(j != i - 1);
                assert(p[oj] == arrivals[j]);
                assert(out2[oj as int] == released(p, a, e as int, end)[oj - e]);
            }
        }
        assert forall|j: int|
            0 <= j < i && #[trigger] arrivals[j].order > end implies p2.contains_key(
            arrivals[j].order,
        ) && p2[arrivals[j].order] == arrivals[j] by {
            assert(j != i - 1);
        }
        assert forall|k: u64| #[trigger] p2.contains_key(k) implies k > end && arrived(
            arrivals,
            i,
            k as int,
        ) by {
            assert(p.contains_key(k));
        }
    }
}

/// The write stage hands out the blocks in stream order whatever order they
/// arrive in: when the arrivals carry the orders `0..n`, each exactly once,
/// block `k` is the `k`-th to leave, all `n` blocks leave, none is left
/// waiting, and the stage then expects block `n`.
pub proof fn lemma_writes_in_stream_order(arrivals: Seq<Tcontent>, n: nat)
    requires
        n < u64::MAX,
        is_numbering(arrivals, n),
    ensures
        replay(arrivals).0.0 == n,
        replay(arrivals).0.1 == Map::<u64, Tcontent>::empty(),
        replay(arrivals).1.len() == n,
        forall|j: int|
            0 <= j < arrivals.len() ==> replay(arrivals).1[#[trigger] arrivals[j].order as int]
                == arrivals[j],
{
    let len = arrivals.len() as int;
    lemma_replay_inv(arrivals, n, len);
    assert(arrivals.take(len) =~= arrivals);
    let r = replay(arrivals);
    let e = r.0.0;
    assert(e == n) by {
        if e < n {
            assert(arrived(arrivals, len, e as int));
        }
    }
    assert(r.0.1 =~= Map::<u64, Tcontent>::empty()) by {
        assert forall|k: u64| !r.0.1.contains_key(k) by {
            if r.0.1.contains_key(k) {
                let j = choose|j: int| 0 <= j < len && #[trigger] arrivals[j].order == k;
            }
        }
    }
}

/// Handing out what `c` releases never needs a position past `u64::MAX`:
/// when `c` is the block in turn, its order is below `u64::MAX` and the run
/// it starts does not reach a block waiting at `u64::MAX`.
pub open spec fn run_fits(s: StageState, c: Tcontent) -> bool {
    c.order == s.0 ==> {
        &&& s.0 < u64::MAX
        &&& !(run_end(s.1, s.0 + 1) == u64::MAX && s.1.contains_key(u64::MAX))
    }
}

/// What one arriving block does to the write stage. A block out of turn
/// leaves nothing and waits under its order, every other waiting block
/// untouched. The block in turn leaves first, followed by the waiting blocks
/// of the next positions, one per position, each taken out of the buffer;
/// the stage then expects the first position after them that holds no
/// waiting block, and every other waiting block stays as it was.
pub proof fn lemma_step_effect(s: StageState, c: Tcontent)
    requires
        forall|k: u64| #[trigger] s.1.contains_key(k) ==> s.1[k].order == k,
        run_fits(s, c),
    ensures
        ({
            let s2 = step(s, c).0;
            let out = step(s, c).1;
            &&& c.order != s.0 ==> {
                &&& out.len() == 0
                &&& s2.0 == s.0
                &&& s2.1.contains_key(c.order) && s2.1[c.order] == c
                &&& forall|k: u64|
                    k != c.order ==> (#[trigger] s2.1.contains_key(k) == s.1.contains_key(k) && (
                    s.1.contains_key(k) ==> s2.1[k] == s.1[k]))
            }
            &&& c.order == s.0 ==> {
                &&& out.len() >= 1
                &&& out[0] == c
                &&& s2.0 == s.0 + out.len()
                &&& forall|j: int| 0 <= j < out.len() ==> (#[trigger] out[j]).order == s.0 + j
                &&& forall|j: int|
                    1 <= j < out.len() ==> s.1.contains_key((s.0 + j) as u64) && #[trigger] out[j]
                        == s.1[(s.0 + j) as u64] && !s2.1.contains_key((s.0 + j) as u64)
                &&& !s.1.contains_key(s2.0)
                &&& forall|k: u64|
                    !(s.0 < k < s2.0) ==> (#[trigger] s2.1.contains_key(k) == s.1.contains_key(k)
                        && (s.1.contains_key(k) ==> s2.1[k] == s.1[k]))
            }
        }),
{
    let e = s.0;
    if c.order == e {
        lemma_run_end_props(s.1, e + 1);
        let end = run_end(s.1, e + 1);
        let out = released(s.1, c, e as int, end);
        assert forall|j: int| 1 <= j < out.len() implies s.1.contains_key((e + j) as u64) && #[trigger] out[j]
            == s.1[(e + j) as u64] by {
            assert(e + 1 <= e + j && e + j < end);
        }
        assert forall|j: int| 0 <= j < out.len() implies (#[trigger] out[j]).order == e + j by {
            if j >= 1 {
                assert(e + 1 <= e + j && e + j < end);
                assert(s.1.contains_key((e + j) as u64));
            }
        }
    }
}

/// Some position after `e` holds no waiting block.
pub open spec fn has_gap_after(pending: Map<u64, Tcontent>, e: u64) -> bool {
    exists|k: u64| e < k && !pending.contains_key(k)
}

/// Taking in `c` stays within `u64` positions exactly when `c` is not the
/// block in turn, or it is, its order is below `u64::MAX`, and some later
/// position holds no waiting block (so the run it starts ends in time). In
/// particular waiting blocks right after `c` never stand in the way unless
/// they fill every position up to `u64::MAX`.
pub proof fn lemma_run_fits_meaning(s: StageState, c: Tcontent)
    ensures
        run_fits(s, c) <==> (c.order != s.0 || (s.0 < u64::MAX && has_gap_after(s.1, s.0))),
{
    if c.order == s.0 && s.0 < u64::MAX {
        lemma_run_end_props(s.1, s.0 + 1);
        let end = run_end(s.1, s.0 + 1);
        if run_end(s.1, s.0 + 1) == u64::MAX && s.1.contains_key(u64::MAX) {
            assert forall|k: u64| s.0 < k implies s.1.contains_key(k) by {
                if k < u64::MAX {
                    assert(s.0 + 1 <= k < end);
                }
            }
        } else {
            if end < u64::MAX {
                assert(!s.1.contains_key(end as u64));
            } else {
                assert(!s.1.contains_key(u64::MAX));
            }
        }
    }
}

impl OrderedWriter {
    /// Finitely many blocks wait, each stored under its own order.
    pub closed spec fn wf(&self) -> bool {
        &&& self.reorder_engine@.dom().finite()
        &&& forall|k: u64| #[trigger]
            self.reorder_engine@.contains_key(k) ==> self.reorder_engine@[k].order == k
    }

    /// A write stage that expects block 0 and holds nothing.
    pub fn new() -> (w: OrderedWriter)
        ensures
            w.wf(),
            w@ == (0u64, Map::<u64, Tcontent>::empty()),
            w@.1.dom().finite(),
    {
        OrderedWriter { reorder_engine: Reorder::new(), expected_ordered: 0 }
    }

    /// The order of the block that leaves next.
    pub fn expected(&self) -> (e: u64)
        ensures
            e == self@.0,
    {
        self.expected_ordered
    }

    /// Whether `accept` can take `content` without counting past
    /// `u64::MAX`.
    pub fn can_accept(&self, content: &Tcontent) -> (b: bool)
        ensures
            b == run_fits(self@, *content),
            b <==> (content.order != self@.0 || (self@.0 < u64::MAX && has_gap_after(
                self@.1,
                self@.0,
            ))),
    {
        proof {
            lemma_run_fits_meaning(self@, *content);
        }
        if content.order != self.expected_ordered {
            return true;
        }
        if self.expected_ordered == u64::MAX {
            return false;
        }
        let ghost p = self.reorder_engine@;
        let mut k: u64 = self.expected_ordered + 1;
        while k < u64::MAX && self.reorder_engine.contains(k)
            invariant
                self.expected_ordered < k <= u64::MAX,
                p == self.reorder_engine@,
                forall|j: u64| self.expected_ordered < j < k ==> p.contains_key(j),
            decreases u64::MAX - k,
        {
            k = k + 1;
        }
        proof {
            lemma_run_end(p, self.expected_ordered + 1, k as int);
        }
        !(k == u64::MAX && self.reorder_engine.contains(u64::MAX))
    }

    /// Takes in one finished block and returns the blocks that can now be
    /// written, in stream order: none if `content` is early, else `content`
    /// followed by the waiting blocks that continue the run.
    pub fn accept(&mut self, content: Tcontent) -> (ready: Vec<Tcontent>)
        requires
            old(self).wf(),
            run_fits(old(self)@, content),
        ensures
            final(self).wf(),
            final(self)@.1.dom().finite(),
            (final(self)@, ready@) == step(old(self)@, content),
    {
        let ghost e0: int = self.expected_ordered as int;
        let ghost p0 = self.reorder_engine@;
        let ghost c0 = content;
        if content.order != self.expected_ordered {
            self.reorder_engine.enqueue(content);
            return Vec::new();
        }
        let ghost end = run_end(p0, e0 + 1);
        proof {
            lemma_run_end_props(p0, e0 + 1);
        }
        let mut content = content;
        let mut ready: Vec<Tcontent> = Vec::new();
        loop
            invariant_except_break
                content.order == self.expected_ordered,
                self.expected_ordered < end,
                forall|k: u64| e0 < k <= self.expected_ordered ==> #[trigger] p0.contains_key(k),
                content == (if self.expected_ordered == e0 {
                    c0
                } else {
                    p0[self.expected_ordered]
                }),
                ready@ == released(p0, c0, e0, self.expected_ordered as int),
                self.reorder_engine@ == drained(p0, e0, self.expected_ordered + 1),
            invariant
                forall|k: u64| #[trigger] p0.contains_key(k) ==> p0[k].order == k,
                self.reorder_engine@.dom().finite(),
                c0.order == e0,
                e0 < u64::MAX,
                e0 <= self.expected_ordered,
                e0 + 1 <= end <= u64::MAX,
                forall|k: u64| e0 + 1 <= k < end ==> p0.contains_key(k),
                end == u64::MAX || !p0.contains_key(end as u64),
                !(end == u64::MAX && p0.contains_key(u64::MAX)),
            ensures
                self.expected_ordered == end,
                ready@ == released(p0, c0, e0, end),
                self.reorder_engine@ == drained(p0, e0, end),
            decreases u64::MAX - self.expected_ordered,
        {
            ready.push(content);
            assert(ready@ =~= released(p0, c0, e0, self.expected_ordered + 1));
            self.expected_ordered = self.expected_ordered + 1;
            match self.reorder_engine.remove(self.expected_ordered) {
                Some(value) => {
                    assert(p0.contains_key(self.expected_ordered));
                    assert(self.reorder_engine@ =~= drained(p0, e0, self.expected_ordered + 1));
                    content = value;
                },
                None => {
                    assert(!p0.contains_key(self.expected_ordered));
                    assert(self.reorder_engine@ =~= drained(p0, e0, self.expected_ordered as int));
                    break ;
                },
            }
        }
        ready
    }
}

} // verus!
