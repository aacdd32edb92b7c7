//! The state of a reader that asks a helper thread for bytes and hands them
//! to its caller: the bytes received but not yet delivered, and the sizes of
//! the reads requested but not yet answered.
use vstd::prelude::*;

use std::collections::VecDeque;

verus! {

/// The sum of a sequence of sizes.
pub open spec fn seq_sum(s: Seq<usize>) -> int
    decreases s.len(),
{
    if s.len() == 0 {
        0
    } else {
        seq_sum(s.drop_last()) + s.last()
    }
}

/// The smaller of two numbers.
pub open spec fn min_int(a: int, b: int) -> int {
    if a <= b {
        a
    } else {
        b
    }
}

/// What a delivery of at most `remaining` unread bytes gives: the bytes
/// delivered, oldest first, and the state after it.
pub open spec fn view_fill(v: ReadStateView, remaining: usize) -> (Seq<u8>, ReadStateView) {
    let k = min_int(remaining as int, v.unread.len() as int);
    (v.unread.take(k), ReadStateView { unread: v.unread.skip(k), pending: v.pending })
}

/// What the answer to the oldest request gives, with room for `remaining`
/// bytes: the bytes delivered at once, and the state after it, where the
/// rest of the answer waits unread.
pub open spec fn view_complete(v: ReadStateView, answer: Option<Seq<u8>>, remaining: usize) -> (
    Seq<u8>,
    ReadStateView,
) {
    match answer {
        Some(data) => {
            let k = min_int(remaining as int, data.len() as int);
            (data.take(k), ReadStateView { unread: data.skip(k), pending: v.pending.drop_first() })
        },
        None => (Seq::empty(), ReadStateView { unread: Seq::empty(), pending: v.pending.drop_first() }),
    }
}

/// The bytes of an answer, if there are any.
pub open spec fn answer_view(answer: Option<Vec<u8>>) -> Option<Seq<u8>> {
    match answer {
        Some(data) => Some(data@),
        None => None,
    }
}

/// What a reader's state holds: the bytes received and not yet delivered,
/// and the sizes of the requested reads not yet answered, oldest first.
pub struct ReadStateView {
    pub unread: Seq<u8>,
    pub pending: Seq<usize>,
}

/// The next thing a read does.
pub enum ReadDecision {
    /// Nothing to read into: the read is done.
    Done,
    /// Deliver unread bytes.
    Deliver,
    /// Send a new request to the helper thread, then await an answer.
    Request,
    /// Await the answer to a request already sent.
    Await,
}

/// The bookkeeping of a reader fed by a helper thread.
pub struct ReadState {
    available: Option<(Vec<u8>, usize, usize)>,
    pending_reads: VecDeque<usize>,
    pending_total: usize,
}

impl View for ReadState {
    type V = ReadStateView;

    closed spec fn view(&self) -> ReadStateView {
        ReadStateView {
            unread: match self.available {
                Some((data, start, len)) => data@.subrange(start as int, start + len),
                None => Seq::empty(),
            },
            pending: self.pending_reads@,
        }
    }
}

impl ReadState {
    /// Well-formedness: the unread bytes lie within the buffer that holds
    /// them, there is a buffer only while some of it is unread, and the
    /// running total of the requested sizes is their sum.
    pub closed spec fn wf(&self) -> bool {
        &&& match self.available {
            Some((data, start, len)) => start + len <= data@.len() && len > 0,
            None => true,
        }
        &&& self.pending_total == seq_sum(self.pending_reads@)
    }

    /// The total of the sizes requested and not yet answered: always the sum
    /// of the pending requests.
    pub fn pending_total(&self) -> (t: usize)
        requires
            self.wf(),
        ensures
            t == seq_sum(self@.pending),
    {
        self.pending_total
    }

    /// Whether some request is still waiting for its answer.
    pub fn has_pending(&self) -> (r: bool)
        requires
            self.wf(),
        ensures
            r == (self@.pending.len() > 0),
    {
        self.pending_reads.len() > 0
    }

    /// A state with nothing received and nothing requested.
    pub fn new() -> (s: Self)
        ensures
            s.wf(),
            s@.unread == Seq::<u8>::empty(),
            s@.pending == Seq::<usize>::empty(),
    {
        ReadState { available: None, pending_reads: VecDeque::new(), pending_total: 0 }
    }

    /// Delivers to `buf` as many unread bytes as fit in `remaining`, oldest
    /// first, and keeps the rest. Returns whether there were unread bytes.
    pub fn fill_from_available(&mut self, buf: &mut Vec<u8>, remaining: usize) -> (filled: bool)
        requires
            old(self).wf(),
        ensures
            final(self).wf(),
            filled == (old(self)@.unread.len() > 0),
            final(buf)@ == old(buf)@ + view_fill(old(self)@, remaining).0,
            final(self)@ == view_fill(old(self)@, remaining).1,
    {
        let ghost unread = self@.unread;
        match self.available.take() {
            Some((data, start, len)) => {
                let to_return = if len < remaining {
                    len
                } else {
                    remaining
                };
                let ghost b0 = buf@;
                let mut i: usize = 0;
                while i < to_return
                    invariant
                        0 <= i <= to_return <= len,
                        start + len <= data.len(),
                        unread == data@.subrange(start as int, start + len),
                        buf@ == b0 + unread.take(i as int),
                    decreases to_return - i,
                {
                    buf.push(data[start + i]);
                    i = i + 1;
                    proof {
                        assert(buf@ =~= b0 + unread.take(i as int));
                    }
                }
                if to_return < len {
                    self.available = Some((data, start + to_return, len - to_return));
                    proof {
                        assert(self@.unread =~= unread.skip(to_return as int));
                    }
                } else {
                    proof {
                        assert(self@.unread =~= unread.skip(to_return as int));
                    }
                }
                true
            },
            None => {
                proof {
                    assert(buf@ =~= old(buf)@ + unread.take(0));
                    assert(unread.skip(0) =~= unread);
                }
                false
            },
        }
    }

    /// What a read into room for `remaining` bytes does next: a read with no
    /// room is done at once, as any reader's; unread bytes are delivered;
    /// otherwise a new request is sent when the reads already requested cannot
    /// account for the room, and then the answer is awaited.
    pub fn poll_decision(&self, remaining: usize) -> (d: ReadDecision)
        requires
            self.wf(),
        ensures
            remaining == 0 ==> d is Done,
            remaining > 0 && self@.unread.len() > 0 ==> d is Deliver,
            remaining > 0 && self@.unread.len() == 0 && seq_sum(self@.pending) < remaining ==> d is Request,
            remaining > 0 && self@.unread.len() == 0 && seq_sum(self@.pending) >= remaining ==> d is Await,
    {
        if remaining == 0 {
            ReadDecision::Done
        } else if self.available.is_some() {
            ReadDecision::Deliver
        } else if self.pending_total < remaining {
            ReadDecision::Request
        } else {
            ReadDecision::Await
        }
    }

    /// Records a request of `amount` bytes sent to the helper thread.
    pub fn record_request(&mut self, amount: usize)
        requires
            old(self).wf(),
            seq_sum(old(self)@.pending) + amount <= usize::MAX,
        ensures
            final(self).wf(),
            final(self)@.pending == old(self)@.pending.push(amount),
            final(self)@.unread == old(self)@.unread,
    {
        let ghost p = self.pending_reads@;
        self.pending_reads.push_back(amount);
        self.pending_total = self.pending_total + amount;
        proof {
            assert(self.pending_reads@.drop_last() =~= p);
        }
    }

    /// Takes the answer to the oldest request: `Some` with the bytes read, or
    /// `None` when the read failed or the helper thread is gone. The bytes
    /// read are delivered to `buf` as far as `remaining` allows, and the rest
    /// wait as unread bytes.
    pub fn complete_request(&mut self, answer: Option<Vec<u8>>, buf: &mut Vec<u8>, remaining: usize)
        requires
            old(self).wf(),
            old(self)@.pending.len() > 0,
            old(self)@.unread.len() == 0,
        ensures
            final(self).wf(),
            final(buf)@ == old(buf)@ + view_complete(old(self)@, answer_view(answer), remaining).0,
            final(self)@ == view_complete(old(self)@, answer_view(answer), remaining).1,
    {
        proof {
            lemma_sum_drop_first(self.pending_reads@);
            lemma_sum_nonneg(self.pending_reads@.drop_first());
        }
        let front = self.pending_reads.pop_front();
        match front {
            Some(req_len) => {
                self.pending_total = self.pending_total - req_len;
                proof {
                    assert(self.pending_reads@ =~= old(self)@.pending.drop_first());
                }
            },
            None => {},
        }
        match answer {
            Some(data) => {
                let len = data.len();
                if len > 0 {
                    let ghost d = data@;
                    self.available = Some((data, 0, len));
                    proof {
                        assert(self@.unread =~= d);
                    }
                    self.fill_from_available(buf, remaining);
                } else {
                    proof {
                        assert(buf@ =~= old(buf)@ + data@.take(0));
                        assert(self@.unread =~= data@.skip(0));
                    }
                }
            },
            None => {},
        }
    }
}

/// The sum of a non-empty sequence is its first item plus the sum of the rest.
pub proof fn lemma_sum_drop_first(s: Seq<usize>)
    requires
        s.len() > 0,
    ensures
        seq_sum(s) == s[0] + seq_sum(s.drop_first()),
    decreases s.len(),
{
    if s.len() > 1 {
        lemma_sum_drop_first(s.drop_last());
        assert(s.drop_last().drop_first() =~= s.drop_first().drop_last());
        assert(s.drop_first().last() == s.last());
        assert(s.drop_last()[0] == s[0]);
    } else {
        assert(s.drop_last() =~= Seq::<usize>::empty());
        assert(s.drop_first() =~= Seq::<usize>::empty());
    }
}

/// A sum of sizes is never negative.
pub proof fn lemma_sum_nonneg(s: Seq<usize>)
    ensures
        seq_sum(s) >= 0,
    decreases s.len(),
{
    if s.len() > 0 {
        lemma_sum_nonneg(s.drop_last());
    }
}

/// One thing that happens to a reader's state.
pub enum ReadEvent {
    /// A delivery of unread bytes into room for this many bytes.
    Fill(usize),
    /// A request of this many bytes sent to the helper thread.
    Request(usize),
    /// The answer to the oldest request (`None` when the read failed or the
    /// helper thread is gone), with room for this many bytes.
    Answer(Option<Seq<u8>>, usize),
}

/// What one event gives: the bytes delivered, and the state after it.
pub open spec fn view_step(v: ReadStateView, e: ReadEvent) -> (Seq<u8>, ReadStateView) {
    match e {
        ReadEvent::Fill(remaining) => view_fill(v, remaining),
        ReadEvent::Request(amount) => (
            Seq::empty(),
            ReadStateView { unread: v.unread, pending: v.pending.push(amount) },
        ),
        ReadEvent::Answer(answer, remaining) => view_complete(v, answer, remaining),
    }
}

/// When an event can happen: an answer comes only for a pending request, and
/// only once the unread bytes are all delivered.
pub open spec fn step_allowed(v: ReadStateView, e: ReadEvent) -> bool {
    match e {
        ReadEvent::Answer(_, _) => v.unread.len() == 0 && v.pending.len() > 0,
        _ => true,
    }
}

/// What a run of events gives: all the bytes delivered, in order, and the
/// state at the end.
pub open spec fn run_reads(v: ReadStateView, es: Seq<ReadEvent>) -> (Seq<u8>, ReadStateView)
    decreases es.len(),
{
    if es.len() == 0 {
        (Seq::empty(), v)
    } else {
        let before = run_reads(v, es.drop_last());
        let last = view_step(before.1, es.last());
        (before.0 + last.0, last.1)
    }
}

/// Whether every event of a run can happen when it does.
pub open spec fn run_allowed(v: ReadStateView, es: Seq<ReadEvent>) -> bool
    decreases es.len(),
{
    if es.len() == 0 {
        true
    } else {
        run_allowed(v, es.drop_last()) && step_allowed(run_reads(v, es.drop_last()).1, es.last())
    }
}

/// All the bytes that the answers of a run bring, in order.
pub open spec fn answered_bytes(es: Seq<ReadEvent>) -> Seq<u8>
    decreases es.len(),
{
    if es.len() == 0 {
        Seq::empty()
    } else {
        answered_bytes(es.drop_last()) + match es.last() {
            ReadEvent::Answer(Some(data), _) => data,
            _ => Seq::empty(),
        }
    }
}

/// The sizes that the requests of a run ask for, in order.
pub open spec fn requested_sizes(es: Seq<ReadEvent>) -> Seq<usize>
    decreases es.len(),
{
    if es.len() == 0 {
        Seq::empty()
    } else {
        match es.last() {
            ReadEvent::Request(amount) => requested_sizes(es.drop_last()).push(amount),
            _ => requested_sizes(es.drop_last()),
        }
    }
}

/// How many answers a run holds.
pub open spec fn answer_count(es: Seq<ReadEvent>) -> nat
    decreases es.len(),
{
    if es.len() == 0 {
        0
    } else {
        answer_count(es.drop_last()) + match es.last() {
            ReadEvent::Answer(_, _) => 1nat,
            _ => 0nat,
        }
    }
}

/// Law: over any run of reads, no byte is lost, repeated or reordered: the
/// bytes delivered, followed by those still unread, are the bytes unread at
/// the start followed by all that the answers brought; and the answers are
/// matched to the requests first in, first out.
pub proof fn lemma_run_conserves_bytes(v: ReadStateView, es: Seq<ReadEvent>)
    requires
        run_allowed(v, es),
    ensures
        run_reads(v, es).0 + run_reads(v, es).1.unread == v.unread + answered_bytes(es),
        answer_count(es) <= v.pending.len() + requested_sizes(es).len(),
        run_reads(v, es).1.pending == (v.pending + requested_sizes(es)).skip(answer_count(es) as int),
    decreases es.len(),
{
    if es.len() == 0 {
        assert(v.pending + requested_sizes(es) =~= v.pending);
        assert(v.pending.skip(0) =~= v.pending);
        assert(v.unread + answered_bytes(es) =~= v.unread);
        assert(run_reads(v, es).0 + v.unread =~= v.unread);
    } else {
        let p = es.drop_last();
        lemma_run_conserves_bytes(v, p);
        let before = run_reads(v, p);
        let d0 = before.0;
        let v0 = before.1;
        let a = v.pending + requested_sizes(p);
        let k = answer_count(p) as int;
        match es.last() {
            ReadEvent::Fill(remaining) => {
                let kk = min_int(remaining as int, v0.unread.len() as int);
                assert(v0.unread.take(kk) + v0.unread.skip(kk) =~= v0.unread);
                assert(d0 + v0.unread.take(kk) + v0.unread.skip(kk) =~= d0 + v0.unread);
                assert(answered_bytes(p) + Seq::<u8>::empty() =~= answered_bytes(p));
            },
            ReadEvent::Request(amount) => {
                assert(d0 + Seq::<u8>::empty() =~= d0);
                assert(answered_bytes(p) + Seq::<u8>::empty() =~= answered_bytes(p));
                assert(a.push(amount) =~= v.pending + requested_sizes(es));
                assert(a.skip(k).push(amount) =~= a.push(amount).skip(k));
            },
            ReadEvent::Answer(answer, remaining) => {
                assert(v0.unread.len() == 0);
                assert(d0 + v0.unread =~= d0);
                assert(a.skip(k).drop_first() =~= a.skip(k + 1));
                match answer {
                    Some(data) => {
                        let kk = min_int(remaining as int, data.len() as int);
                        assert(data.take(kk) + data.skip(kk) =~= data);
                        assert(d0 + data.take(kk) + data.skip(kk) =~= d0 + data);
                        assert(v.unread + answered_bytes(p) + data =~= v.unread + (answered_bytes(p) + data));
                    },
                    None => {
                        assert(d0 + Seq::<u8>::empty() + Seq::<u8>::empty() =~= d0);
                        assert(answered_bytes(p) + Seq::<u8>::empty() =~= answered_bytes(p));
                    },
                }
            },
        }
    }
}

/// Law: one event delivers as many bytes as fit: the smaller of its room and
/// the bytes it has at hand (the unread ones for a delivery, the answer's for
/// an answer), taken from the front, with the rest left unread; a request
/// delivers nothing and only adds itself to the end of the pending queue. So
/// a read with room delivers nothing only when the answer is empty or
/// missing (the end of the input, or a failure).
pub proof fn lemma_step_delivery(v: ReadStateView, e: ReadEvent)
    ensures
        match e {
            ReadEvent::Fill(remaining) => {
                &&& view_step(v, e).0.len() == min_int(remaining as int, v.unread.len() as int)
                &&& view_step(v, e).0 + view_step(v, e).1.unread == v.unread
                &&& view_step(v, e).1.pending == v.pending
            },
            ReadEvent::Request(amount) => {
                &&& view_step(v, e).0.len() == 0
                &&& view_step(v, e).1.unread == v.unread
                &&& view_step(v, e).1.pending == v.pending.push(amount)
            },
            ReadEvent::Answer(answer, remaining) => {
                &&& view_step(v, e).1.pending == v.pending.drop_first()
                &&& match answer {
                    Some(data) => {
                        &&& view_step(v, e).0.len() == min_int(remaining as int, data.len() as int)
                        &&& view_step(v, e).0 + view_step(v, e).1.unread == data
                    },
                    None => view_step(v, e).0.len() == 0 && view_step(v, e).1.unread.len() == 0,
                }
            },
        },
{
    match e {
        ReadEvent::Fill(remaining) => {
            let k = min_int(remaining as int, v.unread.len() as int);
            assert(v.unread.take(k) + v.unread.skip(k) =~= v.unread);
        },
        ReadEvent::Request(_) => {},
        ReadEvent::Answer(answer, remaining) => {
            match answer {
                Some(data) => {
                    let k = min_int(remaining as int, data.len() as int);
                    assert(data.take(k) + data.skip(k) =~= data);
                },
                None => {},
            }
        },
    }
}

/// Law: when the answers of a run are the successive pieces of a byte
/// stream, the bytes delivered over the run, in order, are a prefix of that
/// stream: nothing lost, repeated or reordered.
pub proof fn lemma_run_delivers_prefix(v: ReadStateView, es: Seq<ReadEvent>, stream: Seq<u8>)
    requires
        run_allowed(v, es),
        v.unread.len() == 0,
        answered_bytes(es).len() <= stream.len(),
        answered_bytes(es) == stream.take(answered_bytes(es).len() as int),
    ensures
        run_reads(v, es).0.len() <= answered_bytes(es).len(),
        run_reads(v, es).0 == stream.take(run_reads(v, es).0.len() as int),
{
    lemma_run_conserves_bytes(v, es);
    let d = run_reads(v, es).0;
    let u = run_reads(v, es).1.unread;
    let a = answered_bytes(es);
    assert(v.unread + a =~= a);
    assert(d + u == a);
    assert forall|i: int| 0 <= i < d.len() implies d[i] == stream.take(d.len() as int)[i] by {
        assert((d + u)[i] == d[i]);
        assert(a[i] == stream[i]);
    }
    assert(d =~= stream.take(d.len() as int));
}

} // verus!
