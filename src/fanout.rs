use vstd::prelude::*;
use crate::codec::{decoded, encode_message, frame_of, single_line, ChatMessage, CodecError};
use crate::registry::{keep, lemma_keep_contains, Registry};

verus! {

/// The frames that connection `id` has been sent over a log of delivery
/// passes, oldest first.
pub open spec fn inbox(log: Seq<(Seq<char>, Seq<u64>)>, id: u64) -> Seq<Seq<char>>
    decreases log.len(),
{
    if log.len() == 0 {
        Seq::empty()
    } else {
        let rest = inbox(log.drop_last(), id);
        if log.last().1.contains(id) {
            rest.push(log.last().0)
        } else {
            rest
        }
    }
}

/// One broadcast: the message is encoded once, then written to each
/// registered connection in registry order, and the outcome of each write
/// is recorded; `finish` then drops the connections whose write failed.
///
/// The caller holds the registry exclusively from the first write to
/// `finish`, so that two passes never interleave.
pub struct Delivery {
    frame: String,
    delivered: Vec<bool>,
}

impl Delivery {
    /// The frame that this pass writes.
    pub closed spec fn frame_view(&self) -> Seq<char> {
        self.frame@
    }

    /// The outcome of each write so far, by registry position.
    pub closed spec fn outcomes(&self) -> Seq<bool> {
        self.delivered@
    }

    /// Encodes `m` for a new pass. Encoding never fails; were it to, there
    /// would be no pass, and no connection would receive anything.
    pub fn start(m: &ChatMessage) -> (r: Result<Delivery, CodecError>)
        ensures
            r is Ok,
            r->Ok_0.frame_view() == frame_of(*m),
            single_line(r->Ok_0.frame_view()),
            decoded(r->Ok_0.frame_view()) == Some((m.username@, m.content@)),
            r->Ok_0.outcomes() == Seq::<bool>::empty(),
    {
        match encode_message(m) {
            Ok(frame) => Ok(Delivery { frame, delivered: Vec::new() }),
            Err(e) => Err(e),
        }
    }

    /// The frame to write to each connection.
    pub fn frame(&self) -> (r: &str)
        ensures
            r@ == self.frame_view(),
    {
        self.frame.as_str()
    }

    /// The registry position that the next write goes to.
    pub fn position(&self) -> (r: usize)
        ensures
            r == self.outcomes().len(),
    {
        self.delivered.len()
    }

    /// Records whether the write to the next position succeeded.
    pub fn record(&mut self, written: bool)
        ensures
            final(self).frame_view() == old(self).frame_view(),
            final(self).outcomes() == old(self).outcomes().push(written),
    {
        self.delivered.push(written);
    }

    /// Ends the pass: every connection whose write failed leaves the
    /// registry, the others stay in their order, and the pass is logged.
    /// Returns the ids that received the frame.
    pub fn finish<H>(self, registry: &mut Registry<H>) -> (r: Vec<u64>)
        requires
            old(registry).wf(),
            self.outcomes().len() == old(registry).ids().len(),
        ensures
            final(registry).wf(),
            final(registry).ids() == keep(old(registry).ids(), self.outcomes()),
            final(registry).handles() == keep(old(registry).handles(), self.outcomes()),
            final(registry).next_id() == old(registry).next_id(),
            r@ == final(registry).ids(),
            final(registry).log() == old(registry).log().push((self.frame_view(), r@)),
            forall|i: int|
                0 <= i < self.outcomes().len() ==> (final(registry).ids().contains(
                    old(registry).ids()[i],
                ) <==> self.outcomes()[i]),
    {
        registry.finish_pass(self.frame.as_str(), &self.delivered)
    }
}

/// When every write of a pass succeeds, the registry keeps all N
/// connections, and each of them has the pass's frame as the newest entry
/// of what it was sent.
pub proof fn lemma_healthy_pass_reaches_all(
    log: Seq<(Seq<char>, Seq<u64>)>,
    frame: Seq<char>,
    ids: Seq<u64>,
    delivered: Seq<bool>,
)
    requires
        delivered.len() == ids.len(),
        forall|i: int| 0 <= i < delivered.len() ==> delivered[i],
    ensures
        keep(ids, delivered) == ids,
        forall|id: u64|
            ids.contains(id) ==> inbox(log.push((frame, keep(ids, delivered))), id) == inbox(
                log,
                id,
            ).push(frame),
{
    lemma_keep_all_delivered(ids, delivered);
    assert forall|id: u64| ids.contains(id) implies inbox(
        log.push((frame, keep(ids, delivered))),
        id,
    ) == inbox(log, id).push(frame) by {
        assert(log.push((frame, keep(ids, delivered))).drop_last() =~= log);
    }
}

proof fn lemma_keep_all_delivered(ids: Seq<u64>, delivered: Seq<bool>)
    requires
        delivered.len() == ids.len(),
        forall|i: int| 0 <= i < delivered.len() ==> delivered[i],
    ensures
        keep(ids, delivered) == ids,
    decreases ids.len(),
{
    if ids.len() > 0 {
        lemma_keep_all_delivered(ids.drop_first(), delivered.drop_first());
        assert(seq![ids[0]] + ids.drop_first() =~= ids);
    }
}

/// A connection that is not registered before a pass is not registered
/// after it: a pass only ever removes.
pub proof fn lemma_absent_stays_absent(ids: Seq<u64>, delivered: Seq<bool>, id: u64)
    requires
        delivered.len() == ids.len(),
        !ids.contains(id),
    ensures
        !keep(ids, delivered).contains(id),
{
    lemma_keep_contains(ids, delivered, id);
    if exists|i: int| 0 <= i < ids.len() && ids[i] == id && delivered[i] {
        let i = choose|i: int| 0 <= i < ids.len() && ids[i] == id && delivered[i];
        assert(ids.contains(id));
    }
}

proof fn lemma_inbox_prefix(log: Seq<(Seq<char>, Seq<u64>)>, k: int, id: u64)
    requires
        0 <= k <= log.len(),
    ensures
        inbox(log.subrange(0, k), id).len() <= inbox(log, id).len(),
        inbox(log, id).subrange(0, inbox(log.subrange(0, k), id).len() as int) == inbox(
            log.subrange(0, k),
            id,
        ),
    decreases log.len(),
{
    if k == log.len() {
        assert(log.subrange(0, k) =~= log);
        assert(inbox(log, id).subrange(0, inbox(log, id).len() as int) =~= inbox(log, id));
    } else {
        let shorter = log.drop_last();
        assert(shorter.subrange(0, k) =~= log.subrange(0, k));
        lemma_inbox_prefix(shorter, k, id);
        let a = inbox(log.subrange(0, k), id);
        assert(inbox(log, id).subrange(0, a.len() as int) =~= inbox(shorter, id).subrange(
            0,
            a.len() as int,
        ));
    }
}

proof fn lemma_inbox_slot(log: Seq<(Seq<char>, Seq<u64>)>, i: int, id: u64)
    requires
        0 <= i < log.len(),
        log[i].1.contains(id),
    ensures
        inbox(log.subrange(0, i + 1), id) == inbox(log.subrange(0, i), id).push(log[i].0),
{
    let upto = log.subrange(0, i + 1);
    assert(upto.drop_last() =~= log.subrange(0, i));
}

/// Passes reach every recipient in the order in which they ran: if pass
/// `i` precedes pass `j` and both reached connection `id`, then the frame
/// of `i` stands before the frame of `j` in what `id` was sent.
pub proof fn lemma_passes_keep_order(log: Seq<(Seq<char>, Seq<u64>)>, i: int, j: int, id: u64)
    requires
        0 <= i < j < log.len(),
        log[i].1.contains(id),
        log[j].1.contains(id),
    ensures
        exists|p: int, q: int|
            0 <= p < q < inbox(log, id).len() && inbox(log, id)[p] == log[i].0 && inbox(
                log,
                id,
            )[q] == log[j].0,
{
    let b = inbox(log, id);
    let p = inbox(log.subrange(0, i), id).len() as int;
    let q = inbox(log.subrange(0, j), id).len() as int;
    lemma_inbox_slot(log, i, id);
    lemma_inbox_slot(log, j, id);
    lemma_inbox_prefix(log, i + 1, id);
    lemma_inbox_prefix(log, j + 1, id);
    let upto_j = log.subrange(0, j);
    assert(upto_j.subrange(0, i + 1) =~= log.subrange(0, i + 1));
    lemma_inbox_prefix(upto_j, i + 1, id);
    let ai = inbox(log.subrange(0, i + 1), id);
    let aj = inbox(log.subrange(0, j + 1), id);
    assert(ai[p] == log[i].0);
    assert(b.subrange(0, ai.len() as int)[p] == b[p]);
    assert(aj[q] == log[j].0);
    assert(b.subrange(0, aj.len() as int)[q] == b[q]);
    assert(p < q);
}

} // verus!
