//! Putting the finished blocks back together when they have all been
//! collected: a stable sort by stream position, then the results one after
//! the other.

use vstd::prelude::*;

use crate::block::Tcontent;
use crate::stage::{arrived, is_numbering, lemma_writes_in_stream_order, replay};

verus! {

broadcast use vstd::seq_lib::group_filter_ensures;

/// The blocks of `s` stand in order of their `order`.
pub open spec fn sorted_by_order(s: Seq<Tcontent>) -> bool {
    forall|i: int, j: int| 0 <= i < j < s.len() ==> #[trigger] s[i].order <= #[trigger] s[j].order
}

/// The test "has order `o`".
pub open spec fn has_order(o: u64) -> spec_fn(Tcontent) -> bool {
    |b: Tcontent| b.order == o
}

/// The blocks of `s` that have order `o`, in their order in `s`.
pub open spec fn with_order(s: Seq<Tcontent>, o: u64) -> Seq<Tcontent> {
    s.filter(has_order(o))
}

/// `r` is `s` stably sorted by order: sorted, and for every order the blocks
/// that carry it come in the same sequence as in `s`.
pub open spec fn is_stable_sort_of(r: Seq<Tcontent>, s: Seq<Tcontent>) -> bool {
    &&& r.len() == s.len()
    &&& sorted_by_order(r)
    &&& forall|o: u64| #[trigger] with_order(r, o) == with_order(s, o)
}

/// The result bytes of the blocks of `s`, one block after the other.
pub open spec fn payloads(s: Seq<Tcontent>) -> Seq<u8>
    decreases s.len(),
{
    if s.len() == 0 {
        Seq::empty()
    } else {
        payloads(s.drop_last()) + s.last().payload_view()
    }
}

/// No blocks give no bytes, and one more block adds exactly its result
/// bytes at the end.
pub proof fn lemma_payloads_push(s: Seq<Tcontent>, b: Tcontent)
    ensures
        payloads(Seq::<Tcontent>::empty()) == Seq::<u8>::empty(),
        payloads(s.push(b)) == payloads(s) + b.payload_view(),
{
    assert(s.push(b).drop_last() =~= s);
}

/// The bytes of the blocks of `s` number the sum of their result sizes.
pub proof fn lemma_payloads_len(s: Seq<Tcontent>)
    requires
        forall|k: int| 0 <= k < s.len() ==> (#[trigger] s[k]).has_valid_output(),
    ensures
        payloads(s).len() == total_output(s),
    decreases s.len(),
{
    if s.len() > 0 {
        lemma_payloads_len(s.drop_last());
        assert(s.last() == s[s.len() - 1]);
    }
}

/// The sum of the result sizes of the blocks of `s`.
pub open spec fn total_output(s: Seq<Tcontent>) -> nat
    decreases s.len(),
{
    if s.len() == 0 {
        0
    } else {
        total_output(s.drop_last()) + s.last().output_size as nat
    }
}

proof fn lemma_insert_in_place(s: Seq<Tcontent>, p: int, x: Tcontent, t: Seq<Tcontent>)
    requires
        0 <= p <= s.len(),
        sorted_by_order(s),
        forall|k: int| 0 <= k < p ==> s[k].order <= x.order,
        forall|k: int| p <= k < s.len() ==> s[k].order > x.order,
        forall|o: u64| #[trigger] with_order(s, o) == with_order(t, o),
    ensures
        sorted_by_order(s.insert(p, x)),
        forall|o: u64| #[trigger] with_order(s.insert(p, x), o) == with_order(t.push(x), o),
{
    let ins = s.insert(p, x);
    let front = s.take(p);
    let back = s.skip(p);
    assert(ins =~= front.push(x) + back);
    assert(s =~= front + back);
    assert forall|o: u64| #[trigger] with_order(ins, o) == with_order(t.push(x), o) by {
        let f = has_order(o);
        Seq::filter_distributes_over_add(front.push(x), back, f);
        Seq::filter_distributes_over_add(front, back, f);
        front.lemma_filter_push(x, f);
        t.lemma_filter_push(x, f);
        assert(with_order(s, o) == with_order(t, o));
        if o == x.order {
            assert forall|k: int| 0 <= k < back.len() implies !f(back[k]) by {
                assert(back[k] == s[p + k]);
            }
            back.lemma_all_neg_filter_empty(f);
            assert(back.filter(f) =~= Seq::<Tcontent>::empty());
            assert(s.filter(f) =~= front.filter(f));
        }
    }
}

/// A stable sort neither loses nor invents blocks: every block of the
/// result is one of the input and every block of the input is in the
/// result; and its orders never decrease.
pub proof fn lemma_stable_sort_keeps_blocks(r: Seq<Tcontent>, s: Seq<Tcontent>)
    requires
        is_stable_sort_of(r, s),
    ensures
        r.len() == s.len(),
        forall|i: int| 0 <= i < r.len() ==> s.contains(#[trigger] r[i]),
        forall|j: int| 0 <= j < s.len() ==> r.contains(#[trigger] s[j]),
        forall|i: int, j: int| 0 <= i <= j < r.len() ==> r[i].order <= r[j].order,
{
    assert forall|i: int| 0 <= i < r.len() implies s.contains(#[trigger] r[i]) by {
        let f = has_order(r[i].order);
        assert(with_order(r, r[i].order) == with_order(s, r[i].order));
        assert(r.filter(f).contains(r[i]));
        s.lemma_filter_contains_rev(f, r[i]);
    }
    assert forall|j: int| 0 <= j < s.len() implies r.contains(#[trigger] s[j]) by {
        let f = has_order(s[j].order);
        assert(with_order(r, s[j].order) == with_order(s, s[j].order));
        assert(s.filter(f).contains(s[j]));
        r.lemma_filter_contains_rev(f, s[j]);
    }
    assert forall|i: int, j: int| 0 <= i <= j < r.len() implies r[i].order <= r[j].order by {
        if i < j {
            assert(r[i].order <= r[j].order);
        }
    }
}

/// Sorts the blocks by order, keeping blocks of equal order in the sequence
/// they came in.
pub fn sort_by_order(v: Vec<Tcontent>) -> (r: Vec<Tcontent>)
    ensures
        is_stable_sort_of(r@, v@),
{
    let ghost orig = v@;
    let mut rest = v;
    let mut sorted: Vec<Tcontent> = Vec::new();
    let ghost mut done: int = 0;
    proof {
        assert(rest@ =~= orig.skip(0));
        assert(sorted@ =~= orig.take(0));
    }
    while rest.len() > 0
        invariant
            0 <= done <= orig.len(),
            rest@ == orig.skip(done),
            sorted.len() == done,
            sorted_by_order(sorted@),
            forall|o: u64| #[trigger] with_order(sorted@, o) == with_order(orig.take(done), o),
        decreases rest.len(),
    {
        let x = rest.remove(0);
        let mut p: usize = 0;
        while p < sorted.len() && sorted[p].order <= x.order
            invariant
                p <= sorted.len(),
                forall|k: int| 0 <= k < p ==> sorted@[k].order <= x.order,
            decreases sorted.len() - p,
        {
            p = p + 1;
        }
        proof {
            assert forall|k: int| p <= k < sorted.len() implies sorted@[k].order > x.order by {
                assert(sorted@[p as int].order <= sorted@[k].order);
            }
            lemma_insert_in_place(sorted@, p as int, x, orig.take(done));
            assert(orig.take(done).push(x) =~= orig.take(done + 1));
            assert(rest@ =~= orig.skip(done + 1));
            done = done + 1;
        }
        sorted.insert(p, x);
    }
    proof {
        assert(orig.take(done) =~= orig);
    }
    sorted
}

/// The result bytes of all `blocks`, one after the other.
pub fn concat_payloads(blocks: &Vec<Tcontent>) -> (out: Vec<u8>)
    requires
        forall|k: int| 0 <= k < blocks.len() ==> (#[trigger] blocks@[k]).has_valid_output(),
    ensures
        out@ == payloads(blocks@),
        out@.len() == total_output(blocks@),
{
    let mut out: Vec<u8> = Vec::new();
    let mut i: usize = 0;
    while i < blocks.len()
        invariant
            i <= blocks.len(),
            forall|k: int| 0 <= k < blocks.len() ==> (#[trigger] blocks@[k]).has_valid_output(),
            out@ == payloads(blocks@.take(i as int)),
        decreases blocks.len() - i,
    {
        let piece = blocks[i].payload();
        out.extend_from_slice(piece);
        proof {
            assert(blocks@.take(i + 1).drop_last() =~= blocks@.take(i as int));
            assert(out@ =~= payloads(blocks@.take(i as int)) + piece@);
        }
        i = i + 1;
    }
    proof {
        assert(blocks@.take(blocks.len() as int) =~= blocks@);
        lemma_payloads_len(blocks@);
    }
    out
}

/// The whole output of a run that collected every finished block: the
/// blocks stably sorted by order, their results one after the other.
pub fn assemble_output(collection: Vec<Tcontent>) -> (out: Vec<u8>)
    requires
        forall|k: int|
            0 <= k < collection.len() ==> (#[trigger] collection@[k]).has_valid_output(),
    ensures
        exists|r: Seq<Tcontent>| is_stable_sort_of(r, collection@) && out@ == payloads(r),
{
    let sorted = sort_by_order(collection);
    proof {
        assert forall|k: int| 0 <= k < sorted.len() implies (#[trigger] sorted@[k]).has_valid_output() by {
            let o = sorted@[k].order;
            let f = has_order(o);
            assert(with_order(sorted@, o) == with_order(collection@, o));
            assert(sorted@.filter(f).contains(sorted@[k]));
            collection@.lemma_filter_contains_rev(f, sorted@[k]);
            let j = choose|j: int| 0 <= j < collection.len() && collection@[j] == sorted@[k];
            assert(collection@[j].has_valid_output());
        }
    }
    concat_payloads(&sorted)
}

/// Filtering keeps exactly `s[j]` when it is the only element that passes.
proof fn lemma_filter_single(s: Seq<Tcontent>, j: int, f: spec_fn(Tcontent) -> bool)
    requires
        0 <= j < s.len(),
        f(s[j]),
        forall|i: int| 0 <= i < s.len() && i != j ==> !f(#[trigger] s[i]),
    ensures
        s.filter(f) == seq![s[j]],
{
    let front = s.take(j);
    let back = s.skip(j + 1);
    assert(s =~= front.push(s[j]) + back);
    assert forall|k: int| 0 <= k < front.len() implies !f(front[k]) by {
        assert(front[k] == s[k]);
    }
    assert forall|k: int| 0 <= k < back.len() implies !f(back[k]) by {
        assert(back[k] == s[j + 1 + k]);
    }
    front.lemma_all_neg_filter_empty(f);
    back.lemma_all_neg_filter_empty(f);
    Seq::filter_distributes_over_add(front.push(s[j]), back, f);
    front.lemma_filter_push(s[j], f);
    assert(front.filter(f) =~= Seq::<Tcontent>::empty());
    assert(back.filter(f) =~= Seq::<Tcontent>::empty());
    assert(s.filter(f) =~= seq![s[j]]);
}

/// Two elements that pass make a filtered sequence of at least two.
proof fn lemma_filter_two(s: Seq<Tcontent>, i: int, j: int, f: spec_fn(Tcontent) -> bool)
    requires
        0 <= i < j < s.len(),
        f(s[i]),
        f(s[j]),
    ensures
        s.filter(f).len() >= 2,
{
    let front = s.take(j);
    let back = s.skip(j);
    assert(s =~= front + back);
    Seq::filter_distributes_over_add(front, back, f);
    assert(front[i] == s[i]);
    assert(back[0] == s[j]);
    assert(front.filter(f).contains(front[i]));
    assert(back.filter(f).contains(back[0]));
}

proof fn lemma_increasing_from_below(r: Seq<Tcontent>, k: int)
    requires
        0 <= k < r.len(),
        forall|i: int, j: int| 0 <= i < j < r.len() ==> #[trigger] r[i].order < #[trigger] r[j].order,
    ensures
        r[k].order >= k,
    decreases k,
{
    if k > 0 {
        lemma_increasing_from_below(r, k - 1);
        assert(r[k - 1].order < r[k].order);
    }
}

proof fn lemma_increasing_from_above(r: Seq<Tcontent>, k: int)
    requires
        0 <= k < r.len(),
        forall|i: int| 0 <= i < r.len() ==> #[trigger] r[i].order < r.len(),
        forall|i: int, j: int| 0 <= i < j < r.len() ==> #[trigger] r[i].order < #[trigger] r[j].order,
    ensures
        r[k].order <= k,
    decreases r.len() - k,
{
    if k < r.len() - 1 {
        lemma_increasing_from_above(r, k + 1);
        assert(r[k].order < r[k + 1].order);
    }
}

/// The two ways of writing the output agree: when the finished blocks carry
/// the orders `0..n`, each once, sorting the whole collection stably by
/// order gives exactly the blocks, in exactly the order, that the streaming
/// write stage hands out as they arrive; so both write the same bytes.
pub proof fn lemma_sorted_collection_matches_stream(
    arrivals: Seq<Tcontent>,
    n: nat,
    r: Seq<Tcontent>,
)
    requires
        n < u64::MAX,
        is_numbering(arrivals, n),
        is_stable_sort_of(r, arrivals),
    ensures
        r == replay(arrivals).1,
        payloads(r) == payloads(replay(arrivals).1),
{
    lemma_writes_in_stream_order(arrivals, n);
    let out = replay(arrivals).1;
    // each order occurs in exactly one arrival
    assert forall|j: int| 0 <= j < arrivals.len() implies #[trigger] with_order(
        arrivals,
        arrivals[j].order,
    ) == seq![arrivals[j]] by {
        let f = has_order(arrivals[j].order);
        assert forall|i: int| 0 <= i < arrivals.len() && i != j implies !f(
            #[trigger] arrivals[i],
        ) by {
            if i < j {
                assert(arrivals[i].order != arrivals[j].order);
            } else {
                assert(arrivals[j].order != arrivals[i].order);
            }
        }
        lemma_filter_single(arrivals, j, f);
    }
    // every block of `r` is one of the arrivals
    assert forall|i: int| #![trigger r[i]] 0 <= i < r.len() implies exists|j: int|
        0 <= j < arrivals.len() && #[trigger] arrivals[j] == r[i] by {
        let o = r[i].order;
        let f = has_order(o);
        assert(with_order(r, o) == with_order(arrivals, o));
        assert(r.filter(f).contains(r[i]));
        arrivals.lemma_filter_contains_rev(f, r[i]);
    }
    assert forall|i: int| 0 <= i < r.len() implies #[trigger] r[i].order < r.len() by {
        let j = choose|j: int| 0 <= j < arrivals.len() && #[trigger] arrivals[j] == r[i];
    }
    // the orders in `r` strictly increase
    assert forall|i: int, i2: int| 0 <= i < i2 < r.len() implies #[trigger] r[i].order
        < #[trigger] r[i2].order by {
        if r[i].order == r[i2].order {
            let o = r[i].order;
            let j = choose|j: int| 0 <= j < arrivals.len() && #[trigger] arrivals[j] == r[i];
            lemma_filter_two(r, i, i2, has_order(o));
            assert(with_order(r, o) == with_order(arrivals, arrivals[j].order));
        }
    }
    assert forall|k: int| 0 <= k < r.len() implies #[trigger] r[k] == out[k] by {
        lemma_increasing_from_below(r, k);
        lemma_increasing_from_above(r, k);
        let o = r[k].order;
        let j = choose|j: int| 0 <= j < arrivals.len() && #[trigger] arrivals[j] == r[k];
        let f = has_order(o);
        assert(with_order(r, o) == with_order(arrivals, arrivals[j].order));
        assert(out[arrivals[j].order as int] == arrivals[j]);
    }
    assert(r =~= out);
}

} // verus!
