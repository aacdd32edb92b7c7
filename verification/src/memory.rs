//! A bounded memory of the most recent complete lines of a byte stream.
use vstd::prelude::*;

use crate::observer::AsyncWriteObserver;

verus! {

/// The byte that ends a line.
pub const NEWLINE: u8 = 10u8;

/// The bytes of `s` after its last newline (all of `s` when it holds none).
pub open spec fn pending_tail(s: Seq<u8>) -> Seq<u8>
    decreases s.len(),
{
    if s.len() == 0 {
        Seq::empty()
    } else if s.last() == NEWLINE {
        Seq::empty()
    } else {
        pending_tail(s.drop_last()).push(s.last())
    }
}

/// The complete lines of `s`, in order: each one runs up to and including a
/// newline, starting just after the previous newline (or at the start of `s`).
pub open spec fn complete_lines(s: Seq<u8>) -> Seq<Seq<u8>>
    decreases s.len(),
{
    if s.len() == 0 {
        Seq::empty()
    } else if s.last() == NEWLINE {
        complete_lines(s.drop_last()).push(pending_tail(s.drop_last()).push(NEWLINE))
    } else {
        complete_lines(s.drop_last())
    }
}

/// The last `n` items of `s` (all of them when there are at most `n`).
pub open spec fn keep_last<A>(s: Seq<A>, n: nat) -> Seq<A> {
    if s.len() <= n {
        s
    } else {
        s.skip(s.len() - n)
    }
}

/// What a memory holds: the bytes of the line being received, the complete
/// lines kept, oldest first, and how many lines it keeps at most.
pub struct MemoryView {
    pub buf: Seq<u8>,
    pub lines: Seq<Seq<u8>>,
    pub capacity: nat,
}

/// The memory after one more complete line: the oldest line goes when the
/// memory is full.
pub open spec fn after_append(m: MemoryView, line: Seq<u8>) -> MemoryView {
    MemoryView { buf: m.buf, lines: keep_last(m.lines.push(line), m.capacity), capacity: m.capacity }
}

/// The memory after a write of `data`: the lines that the write completes are
/// added (the oldest going first when the memory is full), and the bytes after
/// the last newline wait in `buf`.
pub open spec fn after_write(m: MemoryView, data: Seq<u8>) -> MemoryView {
    let all = m.buf + data;
    MemoryView {
        buf: pending_tail(all),
        lines: keep_last(m.lines + complete_lines(all), m.capacity),
        capacity: m.capacity,
    }
}

/// The invariant of a memory: at most `capacity` lines, and no newline in the
/// line being received.
pub open spec fn memory_inv(m: MemoryView) -> bool {
    &&& m.lines.len() <= m.capacity
    &&& !m.buf.contains(NEWLINE)
}

/// Keeps the last lines written through it, up to a fixed number of lines.
pub struct Memory {
    buf: Vec<u8>,
    lines: Vec<Vec<u8>>,
    capacity: usize,
}

impl View for Memory {
    type V = MemoryView;

    closed spec fn view(&self) -> MemoryView {
        MemoryView {
            buf: self.buf@,
            lines: self.lines@.map_values(|l: Vec<u8>| l@),
            capacity: self.capacity as nat,
        }
    }
}

impl Memory {
    /// Well-formedness of a memory.
    pub open spec fn wf(&self) -> bool {
        memory_inv(self@)
    }

    /// An empty memory that keeps at most `capacity` lines.
    pub fn new(capacity: usize) -> (m: Self)
        ensures
            m.wf(),
            m@.buf == Seq::<u8>::empty(),
            m@.lines == Seq::<Seq<u8>>::empty(),
            m@.capacity == capacity,
    {
        let m = Memory { buf: Vec::new(), lines: Vec::with_capacity(capacity), capacity };
        assert(m@.lines =~= Seq::<Seq<u8>>::empty());
        m
    }

    /// The lines kept, oldest first.
    pub fn lines(&self) -> (r: &Vec<Vec<u8>>)
        ensures
            r@.map_values(|l: Vec<u8>| l@) == self@.lines,
    {
        &self.lines
    }

    /// The bytes of the line being received.
    pub fn pending(&self) -> (r: &Vec<u8>)
        ensures
            r@ == self@.buf,
    {
        &self.buf
    }

    /// Adds a complete line, removing the oldest line first when the memory
    /// is full.
    pub fn append_line(&mut self, line: Vec<u8>)
        requires
            old(self).wf(),
            old(self)@.capacity > 0,
        ensures
            final(self).wf(),
            final(self)@ == after_append(old(self)@, line@),
    {
        let ghost old_lines = self@.lines;
        if self.lines.len() >= self.capacity {
            self.lines.remove(0);
        }
        self.lines.push(line);
        proof {
            let f = |l: Vec<u8>| l@;
            let s = old_lines.push(line@);
            if old_lines.len() >= self.capacity {
                assert(self.lines@.map_values(f) =~= s.skip(s.len() - self.capacity));
            } else {
                assert(self.lines@.map_values(f) =~= s);
            }
        }
    }
}

impl AsyncWriteObserver for Memory {
    /// A write is taken when the memory is well formed, and, where it keeps
    /// no line at all, when the write completes no line.
    open spec fn accepts_write(&self, data: Seq<u8>) -> bool {
        &&& self.wf()
        &&& (self@.capacity > 0 || !data.contains(NEWLINE))
    }

    /// A flush changes nothing.
    fn flush(&mut self)
        ensures
            final(self)@ == old(self)@,
    {
    }

    /// A shutdown changes nothing.
    fn shutdown(&mut self)
        ensures
            final(self)@ == old(self)@,
    {
    }

    /// Splits the bytes into lines: each line that the write completes is
    /// kept, and the bytes after the last newline wait for the rest of their
    /// line.
    fn write(&mut self, data: &[u8])
        ensures
            final(self).wf(),
            final(self)@ == after_write(old(self)@, data@),
    {
        let ghost m0 = self@;
        let ghost all = m0.buf + data@;
        let ghost base = m0.buf.len();
        proof {
            lemma_no_newline_fixed(m0.buf);
            assert(all.take(base as int) =~= m0.buf);
            assert(m0.lines + Seq::<Seq<u8>>::empty() =~= m0.lines);
        }
        let mut i: usize = 0;
        while i < data.len()
            invariant
                0 <= i <= data.len(),
                all == m0.buf + data@,
                base == m0.buf.len(),
                self.capacity == m0.capacity,
                self.wf(),
                m0.capacity > 0 || !data@.contains(NEWLINE),
                self@.buf == pending_tail(all.take(base + i)),
                self@.lines == keep_last(m0.lines + complete_lines(all.take(base + i)), m0.capacity),
            decreases data.len() - i,
        {
            let b = data[i];
            let ghost pre = all.take(base + i);
            let ghost post = all.take(base + i + 1);
            proof {
                assert(post.drop_last() =~= pre);
                assert(post.last() == b);
            }
            self.buf.push(b);
            if b == NEWLINE {
                proof {
                    assert(data@.contains(NEWLINE)) by {
                        assert(data@[i as int] == NEWLINE);
                    }
                }
                let mut line: Vec<u8> = Vec::new();
                std::mem::swap(&mut line, &mut self.buf);
                proof {
                    assert(self.buf@ =~= pending_tail(post));
                    assert(!self.buf@.contains(NEWLINE));
                }
                self.append_line(line);
                proof {
                    let n = m0.capacity;
                    let a = m0.lines + complete_lines(pre);
                    lemma_keep_last_push(a, line@, n);
                    assert(m0.lines + complete_lines(post) =~= a.push(line@));
                }
            } else {
                proof {
                    lemma_tail_no_newline(post);
                    assert(complete_lines(post) == complete_lines(pre));
                }
            }
            i += 1;
        }
        proof {
            assert(all.take(base + i) =~= all);
            lemma_tail_no_newline(all);
        }
    }
}

/// A sequence with no newline is its own pending tail and completes no line.
pub proof fn lemma_no_newline_fixed(s: Seq<u8>)
    requires
        !s.contains(NEWLINE),
    ensures
        pending_tail(s) == s,
        complete_lines(s) == Seq::<Seq<u8>>::empty(),
    decreases s.len(),
{
    if s.len() > 0 {
        assert(s.drop_last().contains(NEWLINE) ==> s.contains(NEWLINE)) by {
            if s.drop_last().contains(NEWLINE) {
                let j = choose|j: int| 0 <= j < s.drop_last().len() && s.drop_last()[j] == NEWLINE;
                assert(s[j] == NEWLINE);
            }
        }
        assert(s[s.len() - 1] != NEWLINE);
        lemma_no_newline_fixed(s.drop_last());
        assert(s.drop_last().push(s.last()) =~= s);
    }
}

/// The pending tail never holds a newline.
pub proof fn lemma_tail_no_newline(s: Seq<u8>)
    ensures
        !pending_tail(s).contains(NEWLINE),
    decreases s.len(),
{
    if s.len() > 0 && s.last() != NEWLINE {
        lemma_tail_no_newline(s.drop_last());
        let t = pending_tail(s.drop_last());
        assert forall|j: int| 0 <= j < t.push(s.last()).len() implies t.push(s.last())[j] != NEWLINE by {
            if j < t.len() {
                assert(!t.contains(NEWLINE));
                if t[j] == NEWLINE {
                    assert(t.contains(NEWLINE));
                }
            }
        }
    }
}

/// Keeping the last `n` items after each push is keeping the last `n` at the end.
pub proof fn lemma_keep_last_push<A>(s: Seq<A>, x: A, n: nat)
    requires
        n > 0,
    ensures
        keep_last(keep_last(s, n).push(x), n) == keep_last(s.push(x), n),
{
    let k = keep_last(s, n);
    if s.len() <= n {
    } else {
        assert(k.push(x).len() == n + 1);
        assert(keep_last(k.push(x), n) =~= keep_last(s.push(x), n));
    }
}

/// Law: writing `a` and then `b` leaves a memory as writing `a + b` at once;
/// how the stream is cut into writes does not matter.
pub proof fn lemma_write_split(m: MemoryView, a: Seq<u8>, b: Seq<u8>)
    ensures
        after_write(after_write(m, a), b) == after_write(m, a + b),
{
    let x = m.buf + a;
    lemma_split_stream(x, b);
    assert(m.buf + (a + b) =~= x + b);
    lemma_keep_last_concat(m.lines + complete_lines(x), complete_lines(pending_tail(x) + b), m.capacity);
    assert(m.lines + complete_lines(x) + complete_lines(pending_tail(x) + b) =~= m.lines + (complete_lines(x)
        + complete_lines(pending_tail(x) + b)));
}

/// Law: no byte is lost or reordered: the complete lines of a stream, joined,
/// followed by its pending tail, give back the stream.
pub proof fn lemma_lines_reassemble(s: Seq<u8>)
    ensures
        complete_lines(s).flatten() + pending_tail(s) == s,
    decreases s.len(),
{
    if s.len() > 0 {
        let p = s.drop_last();
        lemma_lines_reassemble(p);
        let f = complete_lines(p).flatten();
        let t = pending_tail(p);
        let c = s.last();
        assert(p.push(c) =~= s);
        if c == NEWLINE {
            complete_lines(p).lemma_flatten_push(t.push(NEWLINE));
            assert(complete_lines(s) == complete_lines(p).push(t.push(NEWLINE)));
            assert(complete_lines(s).flatten() == f + t.push(NEWLINE));
            assert(f + t.push(NEWLINE) =~= (f + t).push(NEWLINE));
            assert(complete_lines(s).flatten() + pending_tail(s) =~= s);
        } else {
            assert(pending_tail(s) == t.push(c));
            assert(f + t.push(c) =~= (f + t).push(c));
            assert(complete_lines(s).flatten() + pending_tail(s) =~= s);
        }
    } else {
        assert(complete_lines(s).flatten() + pending_tail(s) =~= s);
    }
}

/// Law: each complete line ends with a newline and holds no other.
pub proof fn lemma_line_shape(s: Seq<u8>, i: int)
    requires
        0 <= i < complete_lines(s).len(),
    ensures
        complete_lines(s)[i].len() > 0,
        complete_lines(s)[i].last() == NEWLINE,
        !complete_lines(s)[i].drop_last().contains(NEWLINE),
    decreases s.len(),
{
    let p = s.drop_last();
    if s.last() == NEWLINE && i == complete_lines(p).len() {
        lemma_tail_no_newline(p);
        assert(complete_lines(s)[i].drop_last() =~= pending_tail(p));
    } else {
        lemma_line_shape(p, i);
    }
}

/// Cutting a stream in two: the pending tail and the lines of the whole come
/// from the lines of the first part and what its tail becomes with the rest.
pub proof fn lemma_split_stream(x: Seq<u8>, b: Seq<u8>)
    ensures
        pending_tail(x + b) == pending_tail(pending_tail(x) + b),
        complete_lines(x + b) == complete_lines(x) + complete_lines(pending_tail(x) + b),
    decreases b.len(),
{
    let t = pending_tail(x);
    if b.len() == 0 {
        lemma_tail_no_newline(x);
        lemma_no_newline_fixed(t);
        assert(x + b =~= x);
        assert(t + b =~= t);
        assert(complete_lines(x) + Seq::<Seq<u8>>::empty() =~= complete_lines(x));
    } else {
        let b0 = b.drop_last();
        lemma_split_stream(x, b0);
        assert((x + b).drop_last() =~= x + b0);
        assert((t + b).drop_last() =~= t + b0);
        assert((x + b).last() == b.last());
        assert((t + b).last() == b.last());
        if b.last() == NEWLINE {
            assert(complete_lines(x + b) =~= complete_lines(x) + complete_lines(t + b));
        } else {
            assert(complete_lines(x + b) =~= complete_lines(x) + complete_lines(t + b));
        }
    }
}

/// Keeping the last `n` items twice is keeping them once.
pub proof fn lemma_keep_last_concat<A>(a: Seq<A>, b: Seq<A>, n: nat)
    ensures
        keep_last(keep_last(a, n) + b, n) == keep_last(a + b, n),
{
    if a.len() > n {
        let k = keep_last(a, n);
        assert(k + b =~= (a + b).skip(a.len() - n));
        assert(keep_last(k + b, n) =~= keep_last(a + b, n));
    }
}

/// The memory after appending the lines of `ls`, one after another.
pub open spec fn after_appends(m: MemoryView, ls: Seq<Seq<u8>>) -> MemoryView
    decreases ls.len(),
{
    if ls.len() == 0 {
        m
    } else {
        after_append(after_appends(m, ls.drop_last()), ls.last())
    }
}

/// The memory after the writes of `ds`, one after another.
pub open spec fn after_writes(m: MemoryView, ds: Seq<Seq<u8>>) -> MemoryView
    decreases ds.len(),
{
    if ds.len() == 0 {
        m
    } else {
        after_write(after_writes(m, ds.drop_last()), ds.last())
    }
}

/// Law: after a run of appends, a memory that keeps some lines holds the
/// most recent `capacity` of its lines and the appended ones, oldest first;
/// a fresh memory holds the last `min(n, capacity)` appended lines.
pub proof fn lemma_appends_keep_latest(m: MemoryView, ls: Seq<Seq<u8>>)
    requires
        memory_inv(m),
        m.capacity > 0,
    ensures
        after_appends(m, ls).lines == keep_last(m.lines + ls, m.capacity),
        after_appends(m, ls).lines.len() <= m.capacity,
        after_appends(m, ls).buf == m.buf,
        after_appends(m, ls).capacity == m.capacity,
    decreases ls.len(),
{
    if ls.len() == 0 {
        assert(m.lines + ls =~= m.lines);
    } else {
        let p = ls.drop_last();
        lemma_appends_keep_latest(m, p);
        lemma_keep_last_push(m.lines + p, ls.last(), m.capacity);
        assert((m.lines + p).push(ls.last()) =~= m.lines + ls);
    }
}

/// Law: a run of writes leaves a memory as one write of all their bytes; in
/// particular a fresh memory then holds the bytes after the last newline of
/// the stream, and its last `capacity` complete lines, oldest first.
pub proof fn lemma_writes_as_one(m: MemoryView, ds: Seq<Seq<u8>>)
    requires
        memory_inv(m),
    ensures
        after_writes(m, ds) == after_write(m, ds.flatten()),
        m.buf.len() == 0 && m.lines.len() == 0 ==> after_writes(m, ds).buf == pending_tail(ds.flatten())
            && after_writes(m, ds).lines == keep_last(complete_lines(ds.flatten()), m.capacity),
    decreases ds.len(),
{
    if ds.len() == 0 {
        lemma_no_newline_fixed(m.buf);
        assert(m.buf + ds.flatten() =~= m.buf);
        assert(m.lines + Seq::<Seq<u8>>::empty() =~= m.lines);
        assert(after_write(m, ds.flatten()) == m);
    } else {
        let p = ds.drop_last();
        lemma_writes_as_one(m, p);
        lemma_write_split(m, p.flatten(), ds.last());
        p.lemma_flatten_push(ds.last());
        assert(p.push(ds.last()) =~= ds);
    }
    if m.buf.len() == 0 && m.lines.len() == 0 {
        assert(m.buf + ds.flatten() =~= ds.flatten());
        assert(m.lines + complete_lines(ds.flatten()) =~= complete_lines(ds.flatten()));
    }
}

/// How many newlines `s` holds.
pub open spec fn newline_count(s: Seq<u8>) -> nat {
    s.filter(|b: u8| b == NEWLINE).len()
}

/// Law: keeping the last `n` items keeps exactly `min(len, n)` of them, and
/// they are the last ones, in order.
pub proof fn lemma_keep_last_is_suffix<A>(s: Seq<A>, n: nat)
    ensures
        keep_last(s, n).len() == if s.len() <= n {
            s.len()
        } else {
            n
        },
        forall|i: int|
            0 <= i < keep_last(s, n).len() ==> #[trigger] keep_last(s, n)[i] == s[s.len()
                - keep_last(s, n).len() + i],
{
}

/// Law: a stream completes as many lines as it holds newlines.
pub proof fn lemma_line_count(s: Seq<u8>)
    ensures
        complete_lines(s).len() == newline_count(s),
    decreases s.len(),
{
    reveal(Seq::filter);
    if s.len() > 0 {
        lemma_line_count(s.drop_last());
    }
}

/// Law: a fresh memory of capacity `n`, after any writes, holds exactly
/// `min(k, n)` lines, where `k` is the number of newlines written: the last
/// complete lines of the stream, oldest first.
pub proof fn lemma_fresh_memory_holds_latest_lines(m: MemoryView, ds: Seq<Seq<u8>>)
    requires
        m.buf.len() == 0,
        m.lines.len() == 0,
    ensures
        ({
            let all = ds.flatten();
            let k = newline_count(all);
            let kept = after_writes(m, ds).lines;
            &&& kept.len() == if k <= m.capacity {
                k
            } else {
                m.capacity
            }
            &&& forall|i: int|
                0 <= i < kept.len() ==> #[trigger] kept[i] == complete_lines(all)[k - kept.len() + i]
        }),
{
    assert(!m.buf.contains(NEWLINE));
    lemma_writes_as_one(m, ds);
    lemma_line_count(ds.flatten());
    lemma_keep_last_is_suffix(complete_lines(ds.flatten()), m.capacity);
}

} // verus!
