//! Which logged operations a reopened database replays.
use crate::wal::{sorted_by_seq, WalFrame};
use vstd::prelude::*;

verus! {

/// The frame was logged after the snapshot that covers sequence numbers up to `snapshot_seq`.
pub open spec fn after_snapshot<Op>(snapshot_seq: u64) -> spec_fn(WalFrame<Op>) -> bool {
    |f: WalFrame<Op>| f.seq > snapshot_seq
}

/// The highest of `start` and the sequence numbers of `frames`.
pub open spec fn highest_seq<Op>(frames: Seq<WalFrame<Op>>, start: u64) -> u64
    decreases frames.len(),
{
    if frames.len() == 0 {
        start
    } else {
        let rest = highest_seq(frames.drop_last(), start);
        if frames.last().seq > rest {
            frames.last().seq
        } else {
            rest
        }
    }
}

proof fn lemma_highest_seq_bounds<Op>(frames: Seq<WalFrame<Op>>, start: u64)
    ensures
        highest_seq(frames, start) >= start,
        forall|i: int| 0 <= i < frames.len() ==> #[trigger] frames[i].seq <= highest_seq(frames, start),
        highest_seq(frames, start) == start || exists|i: int|
            0 <= i < frames.len() && #[trigger] frames[i].seq == highest_seq(frames, start),
    decreases frames.len(),
{
    if frames.len() > 0 {
        let init = frames.drop_last();
        lemma_highest_seq_bounds(init, start);
        assert forall|i: int| 0 <= i < frames.len() implies #[trigger] frames[i].seq <= highest_seq(
            frames,
            start,
        ) by {
            if i < frames.len() - 1 {
                assert(frames[i] == init[i]);
            }
        }
        if highest_seq(frames, start) != start && highest_seq(frames, start) != frames.last().seq {
            let i = choose|i: int| 0 <= i < init.len() && #[trigger] init[i].seq == highest_seq(init, start);
            assert(frames[i] == init[i]);
        }
        if highest_seq(frames, start) == frames.last().seq {
            assert(frames[frames.len() - 1].seq == highest_seq(frames, start));
        }
    }
}

/// Given the logged frames in sequence order and the sequence number a snapshot
/// covers, the frames to replay (those logged after it, in order) and the
/// sequence number the database resumes from (the highest one seen).
pub fn replay_after_snapshot<Op>(frames: Vec<WalFrame<Op>>, snapshot_seq: u64) -> (r: (
    Vec<WalFrame<Op>>,
    u64,
))
    ensures
        r.0@ == frames@.filter(after_snapshot(snapshot_seq)),
        r.1 == highest_seq(r.0@, snapshot_seq),
        forall|i: int| 0 <= i < r.0@.len() ==> snapshot_seq < #[trigger] r.0@[i].seq <= r.1,
        r.1 == snapshot_seq || exists|i: int| 0 <= i < r.0@.len() && #[trigger] r.0@[i].seq == r.1,
        sorted_by_seq(frames@) ==> sorted_by_seq(r.0@),
{
    let ghost keep = after_snapshot::<Op>(snapshot_seq);
    let ghost all = frames@;
    let mut rest = frames;
    let mut pending: Vec<WalFrame<Op>> = Vec::new();
    // Reverse, so the frames can be taken from the back in their original order.
    while rest.len() > 0
        invariant
            all == rest@ + pending@.reverse(),
        decreases rest@.len(),
    {
        let f = rest.pop().unwrap();
        let ghost before = pending@;
        pending.push(f);
        proof {
            assert(pending@.reverse() =~= seq![f] + before.reverse());
        }
    }
    proof {
        assert(all =~= pending@.reverse());
        reveal(Seq::filter);
        assert(all.take(0) =~= Seq::<WalFrame<Op>>::empty());
        assert(Seq::<WalFrame<Op>>::empty().filter(keep) =~= Seq::<WalFrame<Op>>::empty());
    }
    let mut kept: Vec<WalFrame<Op>> = Vec::new();
    let mut last = snapshot_seq;
    let ghost mut taken: int = 0;
    while pending.len() > 0
        invariant
            keep == after_snapshot::<Op>(snapshot_seq),
            0 <= taken <= all.len(),
            taken + pending@.len() == all.len(),
            pending@.reverse() == all.skip(taken),
            kept@ == all.take(taken).filter(keep),
            last == highest_seq(kept@, snapshot_seq),
        decreases pending@.len(),
    {
        let ghost before_pending = pending@;
        let ghost before_kept = kept@;
        let f = pending.pop().unwrap();
        proof {
            assert(before_pending.reverse()[0] == f);
            assert(all.skip(taken)[0] == all[taken]);
            assert(all[taken] == f);
            assert forall|i: int| 0 <= i < pending@.len() implies #[trigger] pending@.reverse()[i]
                == all.skip(taken + 1)[i] by {
                assert(pending@.reverse()[i] == before_pending.reverse()[i + 1]);
                assert(all.skip(taken)[i + 1] == all.skip(taken + 1)[i]);
            }
            assert(pending@.reverse() =~= all.skip(taken + 1));
            assert(all.take(taken + 1) =~= all.take(taken).push(f));
            all.take(taken).lemma_filter_push(f, keep);
        }
        if f.seq > snapshot_seq {
            if f.seq > last {
                last = f.seq;
            }
            kept.push(f);
            proof {
                assert(kept@.drop_last() =~= before_kept);
            }
        }
        proof {
            taken = taken + 1;
        }
    }
    proof {
        assert(all.take(all.len() as int) =~= all);
        lemma_highest_seq_bounds(kept@, snapshot_seq);
        assert forall|i: int| 0 <= i < kept@.len() implies snapshot_seq < #[trigger] kept@[i].seq by {
            all.lemma_filter_pred(keep, i);
        }
        if sorted_by_seq(all) {
            assert forall|i: int, j: int| 0 <= i <= j < kept@.len() implies kept@[i].seq <= kept@[j].seq by {
                lemma_filter_keeps_order(all, keep, i, j);
            }
        }
    }
    (kept, last)
}

/// Filtering keeps the order: two kept frames come from positions in the same order.
proof fn lemma_filter_keeps_order<Op>(
    s: Seq<WalFrame<Op>>,
    p: spec_fn(WalFrame<Op>) -> bool,
    i: int,
    j: int,
)
    requires
        sorted_by_seq(s),
        0 <= i <= j < s.filter(p).len(),
    ensures
        s.filter(p)[i].seq <= s.filter(p)[j].seq,
    decreases s.len(),
{
    reveal(Seq::filter);
    if s.len() > 0 {
        let init = s.drop_last();
        assert(sorted_by_seq(init));
        init.lemma_filter_len(p);
        if p(s.last()) {
            assert(s.filter(p) == init.filter(p).push(s.last()));
            if j < init.filter(p).len() {
                lemma_filter_keeps_order(init, p, i, j);
            } else {
                let k = init.filter(p).len() as int;
                if i < k {
                    init.lemma_filter_contains_rev(p, init.filter(p)[i]);
                    assert(init.filter(p).contains(init.filter(p)[i]));
                    let m = choose|m: int| 0 <= m < init.len() && init[m] == init.filter(p)[i];
                    assert(s[m] == init[m]);
                }
            }
        } else {
            assert(s.filter(p) == init.filter(p));
            lemma_filter_keeps_order(init, p, i, j);
        }
    }
}


proof fn lemma_filter_multiset_count<A>(s: Seq<A>, p: spec_fn(A) -> bool, x: A)
    ensures
        s.filter(p).to_multiset().count(x) == if p(x) {
            s.to_multiset().count(x)
        } else {
            0
        },
    decreases s.len(),
{
    broadcast use vstd::seq_lib::group_to_multiset_ensures;
    broadcast use vstd::multiset::group_multiset_axioms;

    reveal(Seq::filter);
    if s.len() == 0 {
        assert(s.filter(p) =~= Seq::<A>::empty());
        assert(s.to_multiset() =~= vstd::multiset::Multiset::<A>::empty());
        assert(s.filter(p).to_multiset() =~= vstd::multiset::Multiset::<A>::empty());
    } else {
        let init = s.drop_last();
        let last = s.last();
        lemma_filter_multiset_count(init, p, x);
        assert(s =~= init.push(last));
        vstd::seq_lib::to_multiset_build(init, last);
        if p(last) {
            assert(s.filter(p) == init.filter(p).push(last));
            vstd::seq_lib::to_multiset_build(init.filter(p), last);
        } else {
            assert(s.filter(p) == init.filter(p));
        }
    }
}

/// Law: reopening loses and repeats nothing. Whatever order the log files are
/// read in, once their frames are put in sequence order, the frames replayed
/// are, counted with multiplicity, exactly those logged after the snapshot,
/// and they come in sequence order.
pub proof fn law_replay_covers_log_after_snapshot<Op>(
    logged: Seq<WalFrame<Op>>,
    ordered: Seq<WalFrame<Op>>,
    snapshot_seq: u64,
)
    requires
        sorted_by_seq(ordered),
        ordered.to_multiset() == logged.to_multiset(),
    ensures
        sorted_by_seq(ordered.filter(after_snapshot(snapshot_seq))),
        ordered.filter(after_snapshot(snapshot_seq)).to_multiset() == logged.filter(
            after_snapshot(snapshot_seq),
        ).to_multiset(),
        forall|i: int|
            0 <= i < ordered.filter(after_snapshot(snapshot_seq)).len() ==> #[trigger] ordered.filter(
                after_snapshot(snapshot_seq),
            )[i].seq > snapshot_seq,
{
    let p = after_snapshot::<Op>(snapshot_seq);
    assert forall|i: int, j: int| 0 <= i <= j < ordered.filter(p).len() implies ordered.filter(
        p,
    )[i].seq <= ordered.filter(p)[j].seq by {
        lemma_filter_keeps_order(ordered, p, i, j);
    }
    assert forall|x: WalFrame<Op>| ordered.filter(p).to_multiset().count(x) == logged.filter(
        p,
    ).to_multiset().count(x) by {
        lemma_filter_multiset_count(ordered, p, x);
        lemma_filter_multiset_count(logged, p, x);
    }
    assert(ordered.filter(p).to_multiset() =~= logged.filter(p).to_multiset());
    assert forall|i: int| 0 <= i < ordered.filter(p).len() implies #[trigger] ordered.filter(
        p,
    )[i].seq > snapshot_seq by {
        ordered.lemma_filter_pred(p, i);
    }
}
} // verus!
