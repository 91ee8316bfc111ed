//! Transport server core.
//!
//! A server owns a table of [`ClientId`] → connection, each connection a
//! streaming decoder.  New connections are accepted without blocking and
//! each gets the next id from a wrapping counter.  Receives fan out over
//! the table; a hard I/O failure marks the client for removal, and removal
//! is deferred until the full scan completes, so it never perturbs the
//! iteration in progress.  Sends to an absent id are a silent no-op: the
//! peer is already gone.
//!
//! The sockets themselves live with the caller, which polls them and hands
//! each poll's [`ReadOutcome`] to the core.

use crate::client::ReadOutcome;
use crate::codec::{good_frames, residual_of, StreamDecoder};
use crate::id::{id_after, ClientId};
use vstd::prelude::*;

verus! {

/// The table as the contracts see it: for each registered client, in table
/// order, its id and its retained decode buffer.
pub type Entries = Seq<(ClientId, Seq<u8>)>;

/// The ids of a table, in table order.
pub open spec fn ids_of(es: Entries) -> Seq<ClientId> {
    Seq::new(es.len(), |k: int| es[k].0)
}

/// Whether `id` is registered in `es`.
pub open spec fn has_id(es: Entries, id: ClientId) -> bool {
    exists|k: int| 0 <= k < es.len() && es[k].0 == id
}

/// Every key maps to one entry: no id occurs twice.
pub open spec fn distinct_ids(es: Entries) -> bool {
    forall|j: int, k: int| 0 <= j < k < es.len() ==> es[j].0 != es[k].0
}

/// The index of `id` in `es`, or -1 when absent.
pub open spec fn find_id(es: Entries, id: ClientId) -> int
    decreases es.len(),
{
    if es.len() == 0 {
        -1
    } else if es[0].0 == id {
        0
    } else {
        let r = find_id(es.drop_first(), id);
        if r < 0 {
            -1
        } else {
            r + 1
        }
    }
}

/// What `find_id` finds: the first entry with that id, or certainty that
/// none exists.
pub proof fn lemma_find_id(es: Entries, id: ClientId)
    ensures
        find_id(es, id) == -1 <==> !has_id(es, id),
        find_id(es, id) >= 0 ==> {
            &&& 0 <= find_id(es, id) < es.len()
            &&& es[find_id(es, id)].0 == id
            &&& forall|j: int| 0 <= j < find_id(es, id) ==> es[j].0 != id
        },
    decreases es.len(),
{
    if es.len() == 0 {
    } else if es[0].0 == id {
        assert(has_id(es, id));
    } else {
        let d = es.drop_first();
        lemma_find_id(d, id);
        if find_id(d, id) >= 0 {
            let r = find_id(es, id);
            assert(es[r] == d[r - 1]);
            assert(has_id(es, id));
            assert forall|j: int| 0 <= j < r implies es[j].0 != id by {
                if j >= 1 {
                    assert(es[j] == d[j - 1]);
                }
            }
        } else {
            assert forall|k: int| 0 <= k < es.len() implies es[k].0 != id by {
                if k >= 1 && es[k].0 == id {
                    assert(d[k - 1].0 == id);
                    assert(has_id(d, id));
                }
            }
        }
    }
}

/// Registering `id` afresh: an existing entry is replaced by one with an
/// empty buffer, a new id is appended.
pub open spec fn insert_fresh(es: Entries, id: ClientId) -> Entries {
    let k = find_id(es, id);
    if k >= 0 {
        es.update(k, (id, Seq::empty()))
    } else {
        es.push((id, Seq::empty()))
    }
}

/// Accepting `n` pending connections in a row: each gets the next counter
/// value as its id, and the counter wraps on overflow.
pub open spec fn accept_model(es: Entries, next: usize, n: int) -> (Entries, usize)
    decreases n,
{
    if n <= 0 {
        (es, next)
    } else {
        accept_model(insert_fresh(es, ClientId(next)), id_after(next, 1), n - 1)
    }
}

/// Accepting one more connection extends the run at its end.
pub proof fn lemma_accept_model_snoc(es: Entries, next: usize, n: int)
    requires
        0 <= n,
    ensures
        accept_model(es, next, n + 1) == {
            let m = accept_model(es, next, n);
            (insert_fresh(m.0, ClientId(m.1)), id_after(m.1, 1))
        },
    decreases n,
{
    if n == 0 {
        reveal_with_fuel(accept_model, 2);
    } else {
        lemma_accept_model_snoc(insert_fresh(es, ClientId(next)), id_after(next, 1), n - 1);
    }
}

/// After accepting `n` connections the counter stands `n` steps further,
/// wrapping included.
pub proof fn lemma_accept_model_next(es: Entries, next: usize, n: int)
    requires
        0 <= n,
    ensures
        accept_model(es, next, n).1 == id_after(next, n),
    decreases n,
{
    if n == 0 {
        crate::id::lemma_id_after_no_wrap(next, 0);
    } else {
        lemma_accept_model_next(insert_fresh(es, ClientId(next)), id_after(next, 1), n - 1);
        crate::id::lemma_id_after_add(next, 1, n - 1);
    }
}

/// Registering one id never unregisters another.
pub proof fn lemma_insert_fresh_keeps(es: Entries, x: ClientId, y: ClientId)
    requires
        has_id(es, x),
    ensures
        has_id(insert_fresh(es, y), x),
{
    lemma_find_id(es, y);
    let j = choose|j: int| 0 <= j < es.len() && es[j].0 == x;
    let k = find_id(es, y);
    if k >= 0 {
        if j == k {
            assert(insert_fresh(es, y)[k].0 == x);
        } else {
            assert(insert_fresh(es, y)[j].0 == x);
        }
    } else {
        assert(insert_fresh(es, y)[j].0 == x);
    }
}

/// One client's poll outcome folded into a receive scan.  Raw bytes go
/// through that client's streaming decoder: the complete well-formed
/// frames join the batch list (only a non-empty batch is reported) and the
/// residual stays in the entry.  Nothing ready changes nothing.  A hard
/// failure marks the client dead — the entry stays until the deferred
/// sweep.  An id no longer in the table is skipped.
pub open spec fn receive_step(
    es: Entries,
    dead: Seq<ClientId>,
    got: Seq<(ClientId, Seq<Seq<u8>>)>,
    id: ClientId,
    outcome: ReadOutcome,
) -> (Entries, Seq<ClientId>, Seq<(ClientId, Seq<Seq<u8>>)>) {
    let k = find_id(es, id);
    if k < 0 {
        (es, dead, got)
    } else {
        match outcome {
            ReadOutcome::Data(d) => {
                let frames = good_frames(es[k].1 + d@);
                let es2 = es.update(k, (id, residual_of(es[k].1 + d@)));
                if frames.len() > 0 {
                    (es2, dead, got.push((id, frames)))
                } else {
                    (es2, dead, got)
                }
            },
            ReadOutcome::WouldBlock => (es, dead, got),
            ReadOutcome::HardError => (es, dead.push(id), got),
        }
    }
}

/// A whole receive scan: the poll outcomes folded in order over the table.
/// Yields the table with every decoder advanced, the ids that failed hard,
/// and the non-empty batches in scan order.
pub open spec fn receive_model(es: Entries, outs: Seq<(ClientId, ReadOutcome)>) -> (
    Entries,
    Seq<ClientId>,
    Seq<(ClientId, Seq<Seq<u8>>)>,
)
    decreases outs.len(),
{
    if outs.len() == 0 {
        (es, Seq::empty(), Seq::empty())
    } else {
        let p = receive_model(es, outs.drop_last());
        receive_step(p.0, p.1, p.2, outs.last().0, outs.last().1)
    }
}

/// A receive scan never adds, drops or reorders table entries: it only
/// advances their buffers, so every id keeps its place.
pub proof fn lemma_receive_model_ids(es: Entries, outs: Seq<(ClientId, ReadOutcome)>)
    ensures
        receive_model(es, outs).0.len() == es.len(),
        forall|j: int|
            0 <= j < es.len() ==> #[trigger] receive_model(es, outs).0[j].0 == es[j].0,
    decreases outs.len(),
{
    if outs.len() > 0 {
        lemma_receive_model_ids(es, outs.drop_last());
        let p = receive_model(es, outs.drop_last());
        lemma_find_id(p.0, outs.last().0);
    }
}

/// The entries kept after removing every id in `gone`.
pub open spec fn keep_pred(gone: Seq<ClientId>) -> spec_fn((ClientId, Seq<u8>)) -> bool {
    |e: (ClientId, Seq<u8>)| !gone.contains(e.0)
}

pub open spec fn remove_ids(es: Entries, gone: Seq<ClientId>) -> Entries {
    es.filter(keep_pred(gone))
}

/// Removal keeps ids distinct, keeps only registered ids, and truly drops
/// every removed id.
pub proof fn lemma_remove_ids(es: Entries, gone: Seq<ClientId>)
    requires
        distinct_ids(es),
    ensures
        distinct_ids(remove_ids(es, gone)),
        forall|j: int|
            0 <= j < remove_ids(es, gone).len() ==> has_id(es, #[trigger] remove_ids(es, gone)[j].0)
                && !gone.contains(remove_ids(es, gone)[j].0),
        forall|id: ClientId| #[trigger] gone.contains(id) ==> !has_id(remove_ids(es, gone), id),
    decreases es.len(),
{
    reveal(Seq::filter);
    let f = remove_ids(es, gone);
    if es.len() > 0 {
        let d = es.drop_last();
        assert(distinct_ids(d));
        lemma_remove_ids(d, gone);
        let fd = remove_ids(d, gone);
        if keep_pred(gone)(es.last()) {
            assert(f == fd.push(es.last()));
            assert forall|j: int| 0 <= j < f.len() implies has_id(es, #[trigger] f[j].0)
                && !gone.contains(f[j].0) by {
                if j < f.len() - 1 {
                    assert(f[j] == fd[j]);
                    let w = choose|k: int| 0 <= k < d.len() && d[k].0 == fd[j].0;
                    assert(es[w].0 == f[j].0);
                } else {
                    assert(es[es.len() - 1].0 == f[j].0);
                }
            }
            assert forall|j: int, k: int| 0 <= j < k < f.len() implies f[j].0 != f[k].0 by {
                if k < f.len() - 1 {
                    assert(f[j] == fd[j] && f[k] == fd[k]);
                } else {
                    assert(f[j] == fd[j]);
                    let w = choose|m: int| 0 <= m < d.len() && d[m].0 == fd[j].0;
                    assert(es[w].0 == f[j].0 && es[es.len() - 1].0 == f[k].0);
                }
            }
        } else {
            assert(f == fd);
            assert forall|j: int| 0 <= j < f.len() implies has_id(es, #[trigger] f[j].0)
                && !gone.contains(f[j].0) by {
                let w = choose|k: int| 0 <= k < d.len() && d[k].0 == fd[j].0;
                assert(es[w].0 == f[j].0);
            }
        }
    }
    assert forall|id: ClientId| #[trigger] gone.contains(id) implies !has_id(f, id) by {
        if has_id(f, id) {
            let j = choose|j: int| 0 <= j < f.len() && f[j].0 == id;
            assert(!gone.contains(f[j].0));
        }
    }
}

/// The bytes each poll outcome carried; nothing for a poll that carried
/// none.
pub open spec fn outs_data(outs: Seq<(ClientId, ReadOutcome)>) -> Seq<Seq<u8>> {
    Seq::new(
        outs.len(),
        |k: int|
            match outs[k].1 {
                ReadOutcome::Data(d) => d@,
                _ => Seq::<u8>::empty(),
            },
    )
}

/// The frame batches of a scan's reports, in scan order.
pub open spec fn batch_payloads(got: Seq<(ClientId, Seq<Seq<u8>>)>) -> Seq<Seq<Seq<u8>>> {
    Seq::new(got.len(), |k: int| got[k].1)
}

/// The (id, frame) pairs one reported batch queues, in frame order.
pub open spec fn batch_pairs(b: (ClientId, Seq<Seq<u8>>)) -> Seq<(ClientId, Seq<u8>)> {
    Seq::new(b.1.len(), |i: int| (b.0, b.1[i]))
}

/// The pairs a whole scan's reports queue, in scan order.
pub open spec fn scan_pairs(bs: Seq<(ClientId, Seq<Seq<u8>>)>) -> Seq<(ClientId, Seq<u8>)>
    decreases bs.len(),
{
    if bs.len() == 0 {
        Seq::empty()
    } else {
        batch_pairs(bs.first()) + scan_pairs(bs.drop_first())
    }
}

/// The abstract contents of an inbound queue of (id, frame) pairs.
pub open spec fn pair_views(s: Seq<(ClientId, Vec<u8>)>) -> Seq<(ClientId, Seq<u8>)> {
    Seq::new(s.len(), |i: int| (s[i].0, s[i].1@))
}

/// The abstract contents of a scan's reports.
pub open spec fn report_views(s: Seq<(ClientId, Vec<Vec<u8>>)>) -> Seq<(ClientId, Seq<Seq<u8>>)> {
    Seq::new(s.len(), |i: int| (s[i].0, s[i].1.deep_view()))
}

/// The receive phase's last step: push every frame of every reported
/// batch, paired with its client's id, onto the inbound queue — in scan
/// order, frames in stream order, nothing else.
pub fn fill_inbound(
    inbound: &mut crate::queue::MessagesToRead<(ClientId, Vec<u8>)>,
    batches: Vec<(ClientId, Vec<Vec<u8>>)>,
)
    ensures
        pair_views(final(inbound)@) == pair_views(old(inbound)@) + scan_pairs(
            report_views(batches@),
        ),
{
    let ghost target = pair_views(old(inbound)@) + scan_pairs(report_views(batches@));
    let mut rest = batches;
    while rest.len() > 0
        invariant
            pair_views(inbound@) + scan_pairs(report_views(rest@)) == target,
        decreases rest@.len(),
    {
        let ghost restv = rest@;
        let b = rest.remove(0);
        let id = b.0;
        let mut frames = b.1;
        proof {
            restv.remove_ensures(0);
            assert(report_views(restv).first() == (id, frames.deep_view()));
            assert(report_views(restv).drop_first() =~~= report_views(rest@));
            assert(scan_pairs(report_views(restv)) == batch_pairs((id, frames.deep_view()))
                + scan_pairs(report_views(rest@)));
        }
        while frames.len() > 0
            invariant
                pair_views(inbound@) + batch_pairs((id, frames.deep_view())) + scan_pairs(
                    report_views(rest@),
                ) == target,
            decreases frames@.len(),
        {
            let ghost framesv = frames.deep_view();
            let ghost inb_prev = pair_views(inbound@);
            let ghost fv0 = frames@;
            let f = frames.remove(0);
            inbound.push((id, f));
            proof {
                fv0.remove_ensures(0);
                assert(f@ == framesv[0]);
                assert(frames.deep_view() =~~= framesv.drop_first());
                assert(pair_views(inbound@) =~= inb_prev.push((id, f@)));
                assert(batch_pairs((id, framesv)) =~= seq![(id, framesv[0])] + batch_pairs(
                    (id, frames.deep_view()),
                ));
                assert(pair_views(inbound@) + batch_pairs((id, frames.deep_view())) + scan_pairs(
                    report_views(rest@),
                ) =~= target);
            }
        }
        proof {
            assert(batch_pairs((id, frames.deep_view())) =~= Seq::<(ClientId, Seq<u8>)>::empty());
        }
    }
    proof {
        assert(scan_pairs(report_views(rest@)) =~= Seq::<(ClientId, Seq<u8>)>::empty());
        assert(pair_views(inbound@) =~= target);
    }
}

/// A scan of one client folds its buffer exactly as the codec's `feed_all`
/// does: when every outcome is data for `id`, no client fails, only that
/// entry's buffer moves, the reports all name `id`, and their frames
/// concatenate to everything the stream completed.
proof fn lemma_delivery_fold(es: Entries, id: ClientId, outs: Seq<(ClientId, ReadOutcome)>)
    requires
        distinct_ids(es),
        has_id(es, id),
        forall|k: int| 0 <= k < outs.len() ==> (#[trigger] outs[k]).0 == id && outs[k].1 is Data,
    ensures
        ({
            let j = find_id(es, id);
            let m = receive_model(es, outs);
            let fa = crate::codec::feed_all(es[j].1, outs_data(outs));
            &&& m.1 == Seq::<ClientId>::empty()
            &&& m.0 == es.update(j, (id, fa.1))
            &&& forall|k: int| 0 <= k < m.2.len() ==> (#[trigger] m.2[k]).0 == id
            &&& batch_payloads(m.2).flatten() == fa.0
        }),
    decreases outs.len(),
{
    lemma_find_id(es, id);
    let j = find_id(es, id);
    let chunks = outs_data(outs);
    if outs.len() == 0 {
        assert(chunks =~= Seq::<Seq<u8>>::empty());
        assert(es[j] == (id, es[j].1));
        assert(es.update(j, (id, es[j].1)) =~= es);
        assert(batch_payloads(Seq::empty()).flatten() =~= Seq::<Seq<u8>>::empty());
    } else {
        let pre = outs.drop_last();
        lemma_delivery_fold(es, id, pre);
        let m1 = receive_model(es, pre);
        let fa1 = crate::codec::feed_all(es[j].1, outs_data(pre));
        assert(outs_data(pre) =~= chunks.drop_last());
        let d = outs.last().1->Data_0;
        assert(chunks.last() == d@);
        let fa = crate::codec::feed_all(es[j].1, chunks);
        // the updated table still finds `id` at `j`
        assert forall|x: int, y: int| 0 <= x < y < m1.0.len() implies m1.0[x].0 != m1.0[y].0 by {
            assert(es[x].0 != es[y].0);
        }
        lemma_find_id(m1.0, id);
        assert(m1.0[j].0 == id);
        assert(find_id(m1.0, id) == j) by {
            let r = find_id(m1.0, id);
            if r < j {
                assert(m1.0[r].0 == es[r].0);
            } else if r > j {
                assert(m1.0[j].0 == id);
            }
        }
        assert(m1.0[j].1 == fa1.1);
        let frames = good_frames(fa1.1 + d@);
        let m = receive_model(es, outs);
        assert(m == receive_step(m1.0, m1.1, m1.2, id, outs.last().1));
        assert(m.0 =~= es.update(j, (id, fa.1)));
        if frames.len() > 0 {
            assert(m.2 == m1.2.push((id, frames)));
            assert(batch_payloads(m.2) =~= batch_payloads(m1.2).push(frames));
            crate::codec::lemma_push_flatten(batch_payloads(m1.2), frames);
        } else {
            assert(frames =~= Seq::<Seq<u8>>::empty());
            assert(batch_payloads(m.2).flatten() + frames =~= batch_payloads(m.2).flatten());
        }
    }
}

/// In-order, exactly-once delivery to the server: a connected client
/// sends the well-formed frames `fs` as one byte stream; the server's
/// receive scans see that stream as data outcomes cut at arbitrary
/// boundaries, with no I/O error.  Then no client is removed, every other
/// entry is untouched, the client's buffer ends empty, and the reported
/// batches — what the receive phase pushes into the inbound queue —
/// concatenate to exactly `fs`, in order.
pub proof fn lemma_in_order_delivery(
    es: Entries,
    id: ClientId,
    outs: Seq<(ClientId, ReadOutcome)>,
    fs: Seq<Seq<u8>>,
)
    requires
        distinct_ids(es),
        has_id(es, id),
        es[find_id(es, id)].1 == Seq::<u8>::empty(),
        forall|k: int| 0 <= k < outs.len() ==> (#[trigger] outs[k]).0 == id && outs[k].1 is Data,
        outs_data(outs).flatten() == fs.flatten(),
        forall|k: int|
            0 <= k < fs.len() ==> crate::codec::delimited(#[trigger] fs[k])
                && crate::codec::json_accepts(fs[k]),
    ensures
        receive_model(es, outs).1 == Seq::<ClientId>::empty(),
        receive_model(es, outs).0 == es.update(
            find_id(es, id),
            (id, Seq::<u8>::empty()),
        ),
        forall|k: int|
            0 <= k < receive_model(es, outs).2.len() ==> (#[trigger] receive_model(
                es,
                outs,
            ).2[k]).0 == id,
        batch_payloads(receive_model(es, outs).2).flatten() == fs,
{
    lemma_find_id(es, id);
    lemma_delivery_fold(es, id, outs);
    crate::codec::lemma_stream_delivery(outs_data(outs), fs);
}

/// From some point of the scan on, a client once dead stays dead.
proof fn lemma_dead_from(es: Entries, outs: Seq<(ClientId, ReadOutcome)>, k: int, j: int)
    requires
        distinct_ids(es),
        0 <= k < outs.len(),
        has_id(es, outs[k].0),
        outs[k].1 is HardError,
        k < j <= outs.len(),
    ensures
        receive_model(es, outs.take(j)).1.contains(outs[k].0),
    decreases j,
{
    let id = outs[k].0;
    assert(outs.take(j).drop_last() =~= outs.take(j - 1));
    assert(outs.take(j).last() == outs[j - 1]);
    let p = receive_model(es, outs.take(j - 1));
    if j - 1 == k {
        lemma_receive_model_ids(es, outs.take(k));
        lemma_find_id(p.0, id);
        let w = choose|w: int| 0 <= w < es.len() && es[w].0 == id;
        assert(p.0[w].0 == id);
        assert(has_id(p.0, id));
        assert(receive_model(es, outs.take(j)).1 == p.1.push(id));
        assert(receive_model(es, outs.take(j)).1[p.1.len() as int] == id);
    } else {
        lemma_dead_from(es, outs, k, j - 1);
        let i = choose|i: int| 0 <= i < p.1.len() && p.1[i] == id;
        let next = receive_model(es, outs.take(j)).1;
        assert(next == p.1 || next == p.1.push(outs[j - 1].0));
        assert(next[i] == id);
    }
}

/// A client whose receive failed hard during a scan is gone when the scan
/// ends: absent from the swept table, so absent from the next `iter`, and
/// a `send` to it reports the silent no-op.
pub proof fn lemma_failed_receive_absent(
    es: Entries,
    marked: Seq<ClientId>,
    outs: Seq<(ClientId, ReadOutcome)>,
    k: int,
)
    requires
        distinct_ids(es),
        0 <= k < outs.len(),
        has_id(es, outs[k].0),
        outs[k].1 is HardError,
    ensures
        receive_model(es, outs).1.contains(outs[k].0),
        !has_id(
            remove_ids(receive_model(es, outs).0, marked + receive_model(es, outs).1),
            outs[k].0,
        ),
{
    let id = outs[k].0;
    lemma_dead_from(es, outs, k, outs.len() as int);
    assert(outs.take(outs.len() as int) =~= outs);
    let m = receive_model(es, outs);
    lemma_receive_model_ids(es, outs);
    assert forall|x: int, y: int| 0 <= x < y < m.0.len() implies m.0[x].0 != m.0[y].0 by {
        assert(es[x].0 != es[y].0);
    }
    let i = choose|i: int| 0 <= i < m.1.len() && m.1[i] == id;
    assert((marked + m.1)[marked.len() + i] == id);
    assert((marked + m.1).contains(id));
    lemma_failed_client_gone(m.0, marked + m.1, id);
}

/// Once a send or receive on a client has failed — marking it — the sweep
/// that closes the phase drops it for good: the id is absent from the
/// table, so `iter` no longer lists it and a `send` to it is the silent
/// no-op.
pub proof fn lemma_failed_client_gone(es: Entries, marked: Seq<ClientId>, id: ClientId)
    requires
        distinct_ids(es),
        marked.contains(id),
    ensures
        !has_id(remove_ids(es, marked), id),
        forall|j: int|
            0 <= j < ids_of(remove_ids(es, marked)).len() ==> ids_of(remove_ids(es, marked))[j]
                != id,
{
    lemma_remove_ids(es, marked);
    let f = remove_ids(es, marked);
    assert forall|j: int| 0 <= j < ids_of(f).len() implies ids_of(f)[j] != id by {
        if f[j].0 == id {
            assert(has_id(f, id));
        }
    }
}

/// One registered connection: its id and its streaming decode state.
struct Connection {
    id: ClientId,
    dec: StreamDecoder,
}

/// The entries a connection list stands for.
spec fn seq_entries(cs: Seq<Connection>) -> Entries {
    Seq::new(cs.len(), |k: int| (cs[k].id, cs[k].dec@))
}

/// The server core: the client table, the wrapping id counter, and the
/// list of clients marked for deferred removal.
pub struct ComServer {
    clients: Vec<Connection>,
    next_available_id: ClientId,
    to_be_removed: Vec<ClientId>,
}

impl ComServer {
    /// The table as the contracts see it.
    pub closed spec fn entries(&self) -> Entries {
        seq_entries(self.clients@)
    }

    /// The id the next accepted connection will get.
    pub closed spec fn next_id(&self) -> ClientId {
        self.next_available_id
    }

    /// The ids marked for removal, not yet swept.
    pub closed spec fn marked(&self) -> Seq<ClientId> {
        self.to_be_removed@
    }

    /// The table invariant: every id is registered at most once.
    pub open spec fn wf(&self) -> bool {
        distinct_ids(self.entries())
    }

    /// A fresh server: empty table, counter at zero, nothing marked.  The
    /// listening socket it serves lives with the caller.
    pub fn new() -> (r: ComServer)
        ensures
            r.wf(),
            r.entries() == Seq::<(ClientId, Seq<u8>)>::empty(),
            r.next_id() == (ClientId(0)),
            r.marked() == Seq::<ClientId>::empty(),
    {
        let r = ComServer {
            clients: Vec::new(),
            next_available_id: ClientId(0),
            to_be_removed: Vec::new(),
        };
        proof {
            assert(r.entries() =~= Seq::<(ClientId, Seq<u8>)>::empty());
        }
        r
    }

    /// Register one accepted connection under `id` with a fresh decoder.
    fn register(&mut self, id: ClientId)
        requires
            old(self).wf(),
        ensures
            final(self).wf(),
            final(self).entries() == insert_fresh(old(self).entries(), id),
            final(self).next_id() == old(self).next_id(),
            final(self).marked() == old(self).marked(),
    {
        let ghost es0 = self.entries();
        let mut k: usize = 0;
        while k < self.clients.len()
            invariant
                k <= self.clients@.len(),
                es0 == self.entries(),
                es0 == old(self).entries(),
                distinct_ids(es0),
                self.next_available_id == old(self).next_id(),
                self.to_be_removed@ == old(self).marked(),
                forall|j: int| 0 <= j < k ==> es0[j].0 != id,
            decreases self.clients@.len() - k,
        {
            if self.clients[k].id == id {
                proof {
                    lemma_find_id(es0, id);
                    assert(es0[k as int].0 == id);
                    assert(has_id(es0, id));
                    assert(find_id(es0, id) == k as int);
                }
                let ghost before = self.clients@;
                let conn = self.clients.remove(k);
                self.clients.insert(k, Connection { id, dec: StreamDecoder::new() });
                proof {
                    before.remove_ensures(k as int);
                    assert forall|j: int| 0 <= j < self.clients@.len() implies seq_entries(
                        self.clients@,
                    )[j] == insert_fresh(es0, id)[j] by {
                        if j < k as int {
                            assert(before.remove(k as int)[j] == before[j]);
                        } else if j > k as int {
                            assert(before.remove(k as int)[j - 1] == before[j]);
                        }
                    }
                    assert(seq_entries(self.clients@) =~~= insert_fresh(es0, id));
                    assert forall|i: int, j: int|
                        0 <= i < j < self.entries().len() implies self.entries()[i].0
                        != self.entries()[j].0 by {
                        assert(es0[i].0 != es0[j].0);
                    }
                }
                return ;
            }
            k = k + 1;
        }
        proof {
            lemma_find_id(es0, id);
            if find_id(es0, id) >= 0 {
                assert(es0[find_id(es0, id)].0 != id);
            }
        }
        let ghost before = self.clients@;
        self.clients.push(Connection { id, dec: StreamDecoder::new() });
        proof {
            assert(seq_entries(self.clients@) =~~= insert_fresh(es0, id));
            assert forall|i: int, j: int|
                0 <= i < j < self.entries().len() implies self.entries()[i].0
                != self.entries()[j].0 by {
                if j < self.entries().len() - 1 {
                    assert(es0[i].0 != es0[j].0);
                } else {
                    assert(es0[i].0 != id);
                }
            }
        }
    }

    /// Accept `pending` connections that the listener yielded before
    /// reporting none left: each gets the next id off the wrapping
    /// counter, in order, and is registered with a fresh decoder.  The
    /// returned ids pair up with the accepted sockets, first to first.
    pub fn accept_connections(&mut self, pending: usize) -> (r: Vec<ClientId>)
        requires
            old(self).wf(),
        ensures
            final(self).wf(),
            final(self).marked() == old(self).marked(),
            final(self).entries() == accept_model(
                old(self).entries(),
                old(self).next_id().0,
                pending as int,
            ).0,
            final(self).next_id().0 == id_after(old(self).next_id().0, pending as int),
            r@.len() == pending,
            forall|k: int|
                0 <= k < pending ==> r@[k] == (ClientId(
                    id_after(old(self).next_id().0, k),
                )),
            forall|k: int| 0 <= k < pending ==> has_id(final(self).entries(), #[trigger] r@[k]),
    {
        let ghost es0 = self.entries();
        let ghost next0 = self.next_available_id.0;
        let mut out: Vec<ClientId> = Vec::new();
        let mut i: usize = 0;
        proof {
            crate::id::lemma_id_after_no_wrap(next0, 0);
        }
        while i < pending
            invariant
                i <= pending,
                self.wf(),
                es0 == old(self).entries(),
                next0 == old(self).next_id().0,
                self.to_be_removed@ == old(self).marked(),
                out@.len() == i,
                forall|k: int| 0 <= k < i ==> out@[k] == (ClientId(id_after(next0, k))),
                forall|k: int| 0 <= k < i ==> has_id(self.entries(), #[trigger] out@[k]),
                self.entries() == accept_model(es0, next0, i as int).0,
                self.next_available_id.0 == id_after(next0, i as int),
            decreases pending - i,
        {
            let id = self.next_available_id;
            self.register(id);
            self.next_available_id = ClientId(self.next_available_id.0.wrapping_add(1));
            out.push(id);
            proof {
                lemma_accept_model_snoc(es0, next0, i as int);
                lemma_accept_model_next(es0, next0, i as int);
                crate::id::lemma_id_after_one(id_after(next0, i as int));
                crate::id::lemma_id_after_add(next0, i as int, 1);
                assert(has_id(self.entries(), id)) by {
                    lemma_find_id(accept_model(es0, next0, i as int).0, id);
                    let es1 = accept_model(es0, next0, i as int).0;
                    if find_id(es1, id) >= 0 {
                        assert(self.entries()[find_id(es1, id)].0 == id);
                    } else {
                        assert(self.entries()[self.entries().len() - 1].0 == id);
                    }
                }
                assert forall|k: int| 0 <= k < i + 1 implies has_id(
                    self.entries(),
                    #[trigger] out@[k],
                ) by {
                    if k < i as int {
                        lemma_insert_fresh_keeps(accept_model(es0, next0, i as int).0, out@[k], id);
                    }
                }
            }
            i = i + 1;
        }
        out
    }

    /// The current live ids, in table order: the fan-out set for
    /// broadcasting, reflecting the table at call time.
    pub fn iter(&self) -> (r: Vec<ClientId>)
        ensures
            r@ == ids_of(self.entries()),
    {
        let mut out: Vec<ClientId> = Vec::new();
        let mut k: usize = 0;
        while k < self.clients.len()
            invariant
                k <= self.clients@.len(),
                out@ == ids_of(self.entries()).take(k as int),
            decreases self.clients@.len() - k,
        {
            out.push(self.clients[k].id);
            proof {
                assert(out@ =~= ids_of(self.entries()).take(k + 1));
            }
            k = k + 1;
        }
        proof {
            assert(out@ =~= ids_of(self.entries()));
        }
        out
    }

    /// Where `id` sits in the table, if anywhere.
    fn find_index(&self, id: ClientId) -> (r: (bool, usize))
        ensures
            r.0 <==> find_id(self.entries(), id) >= 0,
            r.0 ==> r.1 as int == find_id(self.entries(), id),
    {
        let mut k: usize = 0;
        while k < self.clients.len()
            invariant
                k <= self.clients@.len(),
                forall|j: int| 0 <= j < k ==> self.entries()[j].0 != id,
            decreases self.clients@.len() - k,
        {
            if self.clients[k].id == id {
                proof {
                    lemma_find_id(self.entries(), id);
                    assert(self.entries()[k as int].0 == id);
                    assert(has_id(self.entries(), id));
                }
                return (true, k);
            }
            k = k + 1;
        }
        proof {
            lemma_find_id(self.entries(), id);
            if find_id(self.entries(), id) >= 0 {
                assert(self.entries()[find_id(self.entries(), id)].0 != id);
            }
        }
        (false, 0)
    }

    /// One receive scan over the table: for each `(id, outcome)` pair —
    /// one non-blocking poll of that client's socket — fold the outcome
    /// in, as [`receive_step`] describes.  Returns the non-empty decoded
    /// batches in scan order.  Clients that failed hard, and any marked
    /// before the scan, are removed after the full scan completes — never
    /// during it — and the mark list is left empty.
    pub fn receive_all(&mut self, outcomes: Vec<(ClientId, ReadOutcome)>) -> (batches: Vec<
        (ClientId, Vec<Vec<u8>>),
    >)
        requires
            old(self).wf(),
        ensures
            final(self).wf(),
            final(self).next_id() == old(self).next_id(),
            final(self).marked() == Seq::<ClientId>::empty(),
            final(self).entries() == remove_ids(
                receive_model(old(self).entries(), outcomes@).0,
                old(self).marked() + receive_model(old(self).entries(), outcomes@).1,
            ),
            batches@.len() == receive_model(old(self).entries(), outcomes@).2.len(),
            forall|k: int|
                0 <= k < batches@.len() ==> {
                    &&& (#[trigger] batches@[k]).0 == receive_model(
                        old(self).entries(),
                        outcomes@,
                    ).2[k].0
                    &&& batches@[k].1.deep_view() == receive_model(
                        old(self).entries(),
                        outcomes@,
                    ).2[k].1
                },
    {
        let ghost es0 = self.entries();
        let ghost marked0 = self.marked();
        let mut batches: Vec<(ClientId, Vec<Vec<u8>>)> = Vec::new();
        let mut i: usize = 0;
        proof {
            assert(outcomes@.take(0) =~= Seq::<(ClientId, ReadOutcome)>::empty());
            assert(self.to_be_removed@ =~= marked0 + Seq::<ClientId>::empty());
        }
        while i < outcomes.len()
            invariant
                i <= outcomes@.len(),
                es0 == old(self).entries(),
                marked0 == old(self).marked(),
                distinct_ids(es0),
                self.next_available_id == old(self).next_id(),
                self.wf(),
                ({
                    let m = receive_model(es0, outcomes@.take(i as int));
                    &&& self.entries() == m.0
                    &&& self.to_be_removed@ == marked0 + m.1
                    &&& batches@.len() == m.2.len()
                    &&& forall|k: int|
                        0 <= k < batches@.len() ==> {
                            &&& (#[trigger] batches@[k]).0 == m.2[k].0
                            &&& batches@[k].1.deep_view() == m.2[k].1
                        }
                }),
            decreases outcomes@.len() - i,
        {
            let ghost m_prev = receive_model(es0, outcomes@.take(i as int));
            proof {
                assert(outcomes@.take(i + 1).drop_last() =~= outcomes@.take(i as int));
                assert(outcomes@.take(i + 1).last() == outcomes@[i as int]);
            }
            let pair = &outcomes[i];
            let id = pair.0;
            let (found, k) = self.find_index(id);
            match &pair.1 {
                ReadOutcome::WouldBlock => {},
                ReadOutcome::HardError => {
                    if found {
                        self.to_be_removed.push(id);
                        proof {
                            assert(self.to_be_removed@ =~= marked0 + receive_model(
                                es0,
                                outcomes@.take(i + 1),
                            ).1);
                        }
                    }
                },
                ReadOutcome::Data(d) => {
                    if found {
                        let ghost before = self.clients@;
                        let ghost entry = m_prev.0[k as int];
                        proof {
                            lemma_find_id(m_prev.0, id);
                            assert((k as int) < self.clients@.len());
                        }
                        let mut conn = self.clients.remove(k);
                        let frames = conn.dec.feed(d);
                        self.clients.insert(k, conn);
                        proof {
                            assert(entry.0 == id);
                            before.remove_ensures(k as int);
                            before.remove(k as int).insert_ensures(k as int, self.clients@[k as int]);
                            vstd::seq_lib::lemma_update_is_remove_insert(
                                before,
                                k as int,
                                self.clients@[k as int],
                            );
                            assert(self.clients@ == before.update(k as int, self.clients@[k as int]));
                            assert(seq_entries(self.clients@) =~~= m_prev.0.update(
                                k as int,
                                (id, residual_of(entry.1 + d@)),
                            ));
                            assert forall|x: int, y: int|
                                0 <= x < y < self.entries().len() implies self.entries()[x].0
                                != self.entries()[y].0 by {
                                assert(m_prev.0[x].0 != m_prev.0[y].0);
                            }
                        }
                        if frames.len() > 0 {
                            batches.push((id, frames));
                            proof {
                                assert(good_frames(entry.1 + d@).len() > 0);
                            }
                        } else {
                            proof {
                                assert(good_frames(entry.1 + d@).len() == 0);
                            }
                        }
                    }
                },
            }
            i = i + 1;
        }
        proof {
            assert(outcomes@.take(outcomes@.len() as int) =~= outcomes@);
        }
        self.sweep_removals();
        batches
    }

    /// Look `client_id` up for a send: true means the connection is
    /// registered and the caller should write the payload to it; false
    /// means the peer is already gone and the send is a silent no-op.
    pub fn send(&self, client_id: ClientId) -> (live: bool)
        ensures
            live == has_id(self.entries(), client_id),
    {
        proof {
            lemma_find_id(self.entries(), client_id);
        }
        let mut k: usize = 0;
        while k < self.clients.len()
            invariant
                k <= self.clients@.len(),
                forall|j: int| 0 <= j < k ==> self.entries()[j].0 != client_id,
            decreases self.clients@.len() - k,
        {
            if self.clients[k].id == client_id {
                proof {
                    assert(self.entries()[k as int].0 == client_id);
                }
                return true;
            }
            k = k + 1;
        }
        proof {
            if has_id(self.entries(), client_id) {
                let j = choose|j: int|
                    0 <= j < self.entries().len() && self.entries()[j].0 == client_id;
                assert(self.entries()[j].0 != client_id);
            }
        }
        false
    }

    /// A send or receive on `client_id` hit a hard I/O failure: mark it
    /// for removal.  The entry stays until the deferred sweep, so marking
    /// never perturbs an iteration in progress.
    pub fn mark_failed(&mut self, client_id: ClientId)
        ensures
            final(self).entries() == old(self).entries(),
            final(self).next_id() == old(self).next_id(),
            final(self).marked() == old(self).marked().push(client_id),
    {
        self.to_be_removed.push(client_id);
    }

    /// Apply the deferred removals: every marked id leaves the table, and
    /// the mark list empties.  Run after a full receive scan or send
    /// drain, never during one.
    pub fn sweep_removals(&mut self)
        requires
            old(self).wf(),
        ensures
            final(self).wf(),
            final(self).entries() == remove_ids(old(self).entries(), old(self).marked()),
            final(self).next_id() == old(self).next_id(),
            final(self).marked() == Seq::<ClientId>::empty(),
    {
        proof {
            lemma_remove_ids(self.entries(), self.marked());
        }
        let ghost es0 = self.entries();
        let ghost gone = self.marked();
        let mut kept: Vec<Connection> = Vec::new();
        proof {
            assert(seq_entries(kept@) =~= es0.take(0).filter(keep_pred(gone)));
            assert(seq_entries(self.clients@) =~= es0.subrange(0, es0.len() as int));
        }
        while self.clients.len() > 0
            invariant
                es0 == old(self).entries(),
                gone == old(self).marked(),
                self.to_be_removed@ == gone,
                self.next_available_id == old(self).next_id(),
                self.clients@.len() <= es0.len(),
                seq_entries(self.clients@) == es0.subrange(
                    es0.len() - self.clients@.len(),
                    es0.len() as int,
                ),
                seq_entries(kept@) == es0.take(es0.len() - self.clients@.len()).filter(
                    keep_pred(gone),
                ),
            decreases self.clients@.len(),
        {
            let ghost done = es0.len() - self.clients@.len();
            let ghost before = self.clients@;
            let conn = self.clients.remove(0);
            proof {
                assert(seq_entries(before)[0] == es0[done]);
                before.remove_ensures(0);
                assert(self.clients@ == before.remove(0));
                assert forall|j: int| 0 <= j < self.clients@.len() implies seq_entries(
                    self.clients@,
                )[j] == es0.subrange(done + 1, es0.len() as int)[j] by {
                    assert(before.remove(0)[j] == before[j + 1]);
                    assert(seq_entries(before)[j + 1] == es0.subrange(done, es0.len() as int)[j
                        + 1]);
                }
                assert(seq_entries(self.clients@) =~~= es0.subrange(done + 1, es0.len() as int));
                crate::codec::lemma_filter_take_step(es0, keep_pred(gone), done);
            }
            if !id_list_contains(&self.to_be_removed, conn.id) {
                let ghost prevk = seq_entries(kept@);
                kept.push(conn);
                proof {
                    assert(seq_entries(kept@) =~= prevk.push(es0[done]));
                }
            }
        }
        proof {
            assert(es0.take(es0.len() as int) =~= es0);
        }
        self.clients = kept;
        self.to_be_removed = Vec::new();
    }
}

/// Whether `list` holds `id`.
fn id_list_contains(list: &Vec<ClientId>, id: ClientId) -> (r: bool)
    ensures
        r == list@.contains(id),
{
    let mut k: usize = 0;
    while k < list.len()
        invariant
            k <= list@.len(),
            forall|j: int| 0 <= j < k ==> list@[j] != id,
        decreases list@.len() - k,
    {
        if list[k] == id {
            return true;
        }
        k = k + 1;
    }
    false
}

} // verus!
