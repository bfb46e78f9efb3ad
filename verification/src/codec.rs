//! A zero-allocation, bounded-memory line-framing codec.
//!
//! A [`ReadLine`] owns a fixed-capacity ring buffer and turns an
//! arbitrary byte stream into discrete delimiter-terminated frames, one
//! frame per call.  Bytes left over after a frame stay buffered for the
//! next call, so the codec tolerates source reads of any size — one byte
//! at a time, or several frames in one read — without losing partial
//! data.
//!
//! The source is pulled either through the [`ByteSource`] port, from a
//! blocking context, in [`ReadLine::read_line`]; or step by step through
//! [`ReadLine::poll_frame`], [`ReadLine::accept`] and
//! [`ReadLine::drain_rest`], from a driver — for instance a suspending
//! one — that performs the reads itself and hands the bytes in.

use vstd::prelude::*;

use crate::ring_buffer::RingBuffer;

verus! {

/// The frame delimiter: the newline byte.
pub const DELIMITER: u8 = 10;

/// Whether the byte sequence contains the delimiter.
pub open spec fn contains_delim(s: Seq<u8>) -> bool {
    exists|i: int| 0 <= i < s.len() && s[i] == DELIMITER
}

/// The length of the first frame of the byte sequence: everything up to
/// and including the first delimiter, or the whole sequence if it holds
/// no delimiter.
pub open spec fn frame_len(s: Seq<u8>) -> int
    decreases s.len(),
{
    if s.len() == 0 {
        0
    } else if s[0] == DELIMITER {
        1
    } else {
        1 + frame_len(s.skip(1))
    }
}

/// The first frame is never longer than the sequence, and is nonempty
/// whenever the sequence is.
pub proof fn lemma_frame_len_bounds(s: Seq<u8>)
    ensures
        0 <= frame_len(s) <= s.len(),
        s.len() > 0 ==> 1 <= frame_len(s),
    decreases s.len(),
{
    if s.len() > 0 && s[0] != DELIMITER {
        lemma_frame_len_bounds(s.skip(1));
    }
}

/// The first frame ends at the first delimiter — no delimiter lies
/// strictly inside it, its last byte is the delimiter exactly when the
/// sequence holds one, and without a delimiter it is the whole sequence.
pub proof fn lemma_frame_len_shape(s: Seq<u8>)
    ensures
        forall|i: int| 0 <= i < frame_len(s) - 1 ==> s[i] != DELIMITER,
        contains_delim(s) ==> frame_len(s) <= s.len() && s[frame_len(s) - 1] == DELIMITER,
        !contains_delim(s) ==> frame_len(s) == s.len(),
    decreases s.len(),
{
    lemma_frame_len_bounds(s);
    if s.len() > 0 && s[0] != DELIMITER {
        let t = s.skip(1);
        lemma_frame_len_shape(t);
        lemma_frame_len_bounds(t);
        assert(forall|i: int| 0 <= i < t.len() ==> t[i] == s[i + 1]);
        assert forall|i: int| 0 <= i < frame_len(s) - 1 implies s[i] != DELIMITER by {
            if i >= 1 {
                assert(t[i - 1] != DELIMITER);
            }
        }
        if contains_delim(s) {
            let w = choose|w: int| 0 <= w < s.len() && s[w] == DELIMITER;
            assert(t[w - 1] == DELIMITER);
            assert(contains_delim(t));
        }
        if contains_delim(t) {
            let w = choose|w: int| 0 <= w < t.len() && t[w] == DELIMITER;
            assert(s[w + 1] == DELIMITER);
            assert(contains_delim(s));
        }
    }
}

/// A delimiter at position `p`, with none before it, puts the end of the
/// first frame exactly at `p`.
pub proof fn lemma_frame_len_at_first_delim(s: Seq<u8>, p: int)
    requires
        0 <= p < s.len(),
        s[p] == DELIMITER,
        forall|i: int| 0 <= i < p ==> s[i] != DELIMITER,
    ensures
        frame_len(s) == p + 1,
    decreases s.len(),
{
    if p > 0 {
        let t = s.skip(1);
        assert(forall|i: int| 0 <= i < t.len() ==> t[i] == s[i + 1]);
        lemma_frame_len_at_first_delim(t, p - 1);
    }
}

/// The first frame of a sequence is decided by any prefix that already
/// holds a delimiter.
pub proof fn lemma_frame_len_prefix(s: Seq<u8>, m: int)
    requires
        0 <= m <= s.len(),
        contains_delim(s.take(m)),
    ensures
        frame_len(s) == frame_len(s.take(m)),
        frame_len(s) <= m,
    decreases s.len(),
{
    let u = s.take(m);
    lemma_frame_len_shape(u);
    let p = frame_len(u) - 1;
    lemma_frame_len_bounds(u);
    assert(u[p] == DELIMITER);
    assert(forall|i: int| 0 <= i < p ==> u[i] != DELIMITER);
    assert(forall|i: int| 0 <= i < u.len() ==> u[i] == s[i]);
    lemma_frame_len_at_first_delim(s, p);
}

/// A framing call overflows exactly when the first frame is longer
/// than the capacity: more than `cap` bytes are pending and no
/// delimiter falls among the first `cap` of them, if and only if the
/// first frame — its delimiter included, or the whole undelimited
/// sequence — exceeds `cap` bytes.
pub proof fn lemma_overflow_iff_long_first_frame(s: Seq<u8>, cap: int)
    requires
        0 <= cap,
    ensures
        (s.len() > cap && !contains_delim(s.take(cap))) <==> frame_len(s) > cap,
{
    lemma_frame_len_bounds(s);
    lemma_frame_len_shape(s);
    if s.len() > cap && !contains_delim(s.take(cap)) {
        if contains_delim(s) && frame_len(s) <= cap {
            assert(s.take(cap)[frame_len(s) - 1] == DELIMITER);
            assert(contains_delim(s.take(cap)));
        }
    }
    if frame_len(s) > cap {
        if contains_delim(s.take(cap)) {
            lemma_frame_len_prefix(s, cap);
        }
    }
}

/// Failure of a framing call.
#[derive(Debug, Clone, Copy, PartialEq, Eq, Structural)]
pub enum Error {
    /// The ring buffer filled up before a delimiter arrived: the frame
    /// cannot fit in the configured capacity.  The call is not retried
    /// internally; the caller must treat the stream as desynchronized,
    /// or rebuild the codec with a larger capacity.
    Full,
}

/// A capability that yields bytes, such as a serial port: `read` fills
/// the front of `buf` with at most `limit` bytes and reports how many, 0
/// meaning end of stream.  The blocking form returns only once data, or
/// the end of the stream, is available.
///
/// The stream position is described by `remaining`, the bytes the source
/// will still yield, oldest first.
pub trait ByteSource {
    /// The bytes the source will still yield.
    spec fn remaining(&self) -> Seq<u8>;

    /// Reads at most `limit` bytes into the front of `buf`, blocking
    /// until data is available; returns how many bytes arrived.  A
    /// result of 0, for a positive `limit`, means the stream has ended
    /// for good.
    fn read(&mut self, buf: &mut Vec<u8>, limit: usize) -> (n: usize)
        requires
            limit <= old(buf).len(),
        ensures
            n <= limit,
            n <= old(self).remaining().len(),
            final(buf)@.len() == old(buf)@.len(),
            final(buf)@ == old(self).remaining().take(n as int) + old(buf)@.skip(n as int),
            final(self).remaining() == old(self).remaining().skip(n as int),
            n == 0 && limit > 0 ==> old(self).remaining().len() == 0,
    ;
}

/// A bounded-memory line framer over a byte source.
///
/// The framer owns a ring buffer of the capacity given at construction;
/// a frame, including its delimiter, must fit in that capacity.  The
/// buffer is mutated on every call and never reset except by being fully
/// drained.
pub struct ReadLine<S> {
    source: S,
    buffer: RingBuffer,
}

impl<S> ReadLine<S> {
    /// Well-formed: the ring buffer is well-formed and can hold at least
    /// one byte.
    pub closed spec fn wf(&self) -> bool {
        &&& self.buffer.wf()
        &&& self.buffer.spec_capacity() >= 1
    }

    /// The bytes pulled from the source but not yet returned in a frame,
    /// oldest first.
    pub closed spec fn buffered(&self) -> Seq<u8> {
        self.buffer.contents()
    }

    /// The ring buffer capacity fixed at construction.
    pub closed spec fn spec_capacity(&self) -> int {
        self.buffer.spec_capacity()
    }

    /// The source the framer pulls from.
    pub closed spec fn spec_source(&self) -> S {
        self.source
    }

    /// Well-formedness facts a caller may need: the capacity is at
    /// least one byte and at most a machine word, and the buffered
    /// bytes never exceed it.
    pub proof fn lemma_wf_facts(&self)
        requires
            self.wf(),
        ensures
            1 <= self.spec_capacity() <= usize::MAX,
            self.buffered().len() <= self.spec_capacity(),
    {
        self.buffer.lemma_wf_facts();
    }

    /// Creates a framer over `source` with a ring buffer of `capacity`
    /// bytes.
    pub fn new(source: S, capacity: usize) -> (r: Self)
        requires
            capacity >= 1,
        ensures
            r.wf(),
            r.spec_capacity() == capacity,
            r.buffered() == Seq::<u8>::empty(),
            r.spec_source() == source,
    {
        ReadLine { source, buffer: RingBuffer::new(capacity) }
    }

    /// Creates a framer over a source that is driven from a suspending
    /// context, through the step calls.
    pub fn new_async(source: S, capacity: usize) -> (r: Self)
        requires
            capacity >= 1,
        ensures
            r.wf(),
            r.spec_capacity() == capacity,
            r.buffered() == Seq::<u8>::empty(),
            r.spec_source() == source,
    {
        ReadLine { source, buffer: RingBuffer::new(capacity) }
    }

    /// The ring buffer capacity.
    pub fn capacity(&self) -> (r: usize)
        requires
            self.wf(),
        ensures
            r == self.spec_capacity(),
    {
        self.buffer.capacity()
    }

    /// How many bytes are buffered.
    pub fn buffered_len(&self) -> (r: usize)
        requires
            self.wf(),
        ensures
            r == self.buffered().len(),
    {
        self.buffer.len()
    }

    /// The first step of a framing call: if the buffered bytes hold a
    /// delimiter, removes the first frame — everything up to and
    /// including the first delimiter — copies it into the front of
    /// `line`, and returns its length.  Otherwise changes nothing and
    /// returns `None`: more bytes are needed.
    pub fn poll_frame(&mut self, line: &mut Vec<u8>) -> (r: Option<usize>)
        requires
            old(self).wf(),
            old(line).len() >= old(self).spec_capacity(),
        ensures
            final(self).wf(),
            final(self).spec_capacity() == old(self).spec_capacity(),
            final(self).spec_source() == old(self).spec_source(),
            final(line)@.len() == old(line)@.len(),
            match r {
                Some(n) => {
                    &&& contains_delim(old(self).buffered())
                    &&& 1 <= n <= old(self).buffered().len()
                    &&& n == frame_len(old(self).buffered())
                    &&& final(line)@.take(n as int) == old(self).buffered().take(n as int)
                    &&& final(self).buffered() == old(self).buffered().skip(n as int)
                },
                None => {
                    &&& !contains_delim(old(self).buffered())
                    &&& final(self).buffered() == old(self).buffered()
                },
            },
    {
        match self.buffer.find_first(DELIMITER) {
            Some(pos) => {
                proof {
                    self.buffer.lemma_wf_facts();
                    lemma_frame_len_at_first_delim(old(self).buffered(), pos as int);
                }
                let n = pos + 1;
                self.buffer.pop_front_into(line, n);
                proof {
                    assert(line@.take(n as int) =~= old(self).buffered().take(n as int));
                }
                Some(n)
            },
            None => {
                None
            },
        }
    }

    /// A middle step of a framing call: pushes the first `n` bytes of
    /// `data` — a scratch area a driver has filled from the source —
    /// into the ring buffer.  If the buffer cannot hold them all, every
    /// byte that fits is kept, the rest of this read is lost, and the
    /// call fails with [`Error::Full`].
    pub fn accept(&mut self, data: &Vec<u8>, n: usize) -> (r: Result<(), Error>)
        requires
            old(self).wf(),
            n <= data.len(),
        ensures
            final(self).wf(),
            final(self).spec_capacity() == old(self).spec_capacity(),
            final(self).spec_source() == old(self).spec_source(),
            match r {
                Ok(()) => {
                    &&& old(self).buffered().len() + n <= old(self).spec_capacity()
                    &&& final(self).buffered() == old(self).buffered() + data@.take(n as int)
                },
                Err(e) => {
                    &&& e == Error::Full
                    &&& old(self).buffered().len() + n > old(self).spec_capacity()
                    &&& final(self).buffered() == (old(self).buffered() + data@.take(
                        n as int,
                    )).take(old(self).spec_capacity())
                },
            },
    {
        let mut i: usize = 0;
        while i < n
            invariant
                self.wf(),
                self.spec_capacity() == old(self).spec_capacity(),
                self.spec_source() == old(self).spec_source(),
                n <= data.len(),
                i <= n,
                self.buffered().len() == old(self).buffered().len() + i,
                self.buffered() == old(self).buffered() + data@.take(i as int),
            decreases n - i,
        {
            let ok = self.buffer.try_push(data[i]);
            if !ok {
                proof {
                    self.buffer.lemma_wf_facts();
                    assert(self.buffered() =~= (old(self).buffered() + data@.take(
                        n as int,
                    )).take(old(self).spec_capacity()));
                }
                return Err(Error::Full);
            }
            i = i + 1;
            proof {
                assert(self.buffered() =~= old(self).buffered() + data@.take(i as int));
            }
        }
        proof {
            self.buffer.lemma_wf_facts();
        }
        Ok(())
    }

    /// The final step of a framing call, once the source has ended:
    /// drains every buffered byte into the front of `line` as a last,
    /// possibly undelimited, frame and returns its length — 0 when
    /// nothing was buffered, the terminal signal.
    pub fn drain_rest(&mut self, line: &mut Vec<u8>) -> (n: usize)
        requires
            old(self).wf(),
            old(line).len() >= old(self).spec_capacity(),
        ensures
            final(self).wf(),
            final(self).spec_capacity() == old(self).spec_capacity(),
            final(self).spec_source() == old(self).spec_source(),
            final(line)@.len() == old(line)@.len(),
            n == old(self).buffered().len(),
            final(line)@.take(n as int) == old(self).buffered(),
            final(self).buffered() == Seq::<u8>::empty(),
    {
        let n = self.buffer.len();
        proof {
            self.buffer.lemma_wf_facts();
        }
        self.buffer.pop_front_into(line, n);
        proof {
            assert(line@.take(n as int) =~= old(self).buffered());
            assert(self.buffered() =~= Seq::<u8>::empty());
        }
        n
    }
}

impl<S: ByteSource> ReadLine<S> {
    /// The bytes not yet returned in a frame: the buffered bytes
    /// followed by everything the source will still yield.
    pub open spec fn pending(&self) -> Seq<u8> {
        self.buffered() + self.spec_source().remaining()
    }

    /// Reads one frame into the front of `line` and returns its length.
    ///
    /// The frame is everything pending up to and including the first
    /// delimiter; at most one frame is produced per call, even when more
    /// delimiters are already buffered.  Once the source has ended, the
    /// last pending bytes come out as one undelimited frame, and after
    /// that every call returns 0, the terminal signal.  The call fails
    /// with [`Error::Full`] exactly when the first capacity's worth of
    /// pending bytes holds no delimiter and still more bytes are
    /// pending: a frame that cannot fit.  On failure the first capacity
    /// bytes stay buffered and the stream is desynchronized.
    pub fn read_line(&mut self, line: &mut Vec<u8>) -> (r: Result<usize, Error>)
        requires
            old(self).wf(),
            old(line).len() >= old(self).spec_capacity(),
        ensures
            final(self).wf(),
            final(self).spec_capacity() == old(self).spec_capacity(),
            final(line)@.len() == old(line)@.len(),
            match r {
                Ok(n) => {
                    &&& n == frame_len(old(self).pending())
                    &&& n <= old(line).len()
                    &&& final(line)@.take(n as int) == old(self).pending().take(n as int)
                    &&& final(self).pending() == old(self).pending().skip(n as int)
                    &&& (n == 0 <==> old(self).pending().len() == 0)
                },
                Err(e) => {
                    &&& e == Error::Full
                    &&& final(self).buffered() == old(self).pending().take(
                        old(self).spec_capacity(),
                    )
                },
            },
            (r is Err) <==> (!contains_delim(
                old(self).pending().take(old(self).spec_capacity()),
            ) && old(self).pending().len() > old(self).spec_capacity()),
    {
        let ghost p_all = old(self).pending();
        let cap = self.capacity();
        loop
            invariant
                p_all == old(self).pending(),
                self.wf(),
                self.spec_capacity() == old(self).spec_capacity(),
                cap == self.spec_capacity(),
                line@.len() == old(line)@.len(),
                line@.len() >= cap,
                self.pending() == p_all,
            decreases self.source.remaining().len(),
        {
            let ghost prev = *self;
            if let Some(n) = self.poll_frame(line) {
                proof {
                    prev.buffer.lemma_wf_facts();
                    let bl = prev.buffered().len() as int;
                    assert(bl <= cap);
                    assert(bl <= p_all.len());
                    assert(prev.buffered() =~= p_all.take(bl));
                    lemma_frame_len_prefix(p_all, bl);
                    lemma_frame_len_shape(prev.buffered());
                    assert(n == frame_len(p_all));
                    assert(prev.buffered()[n - 1] == DELIMITER);
                    assert(p_all.take(bl)[n - 1] == p_all[n - 1]);
                    assert(line@.take(n as int) =~= p_all.take(n as int));
                    assert(self.pending() =~= p_all.skip(n as int));
                    if p_all.len() > cap {
                        assert(p_all.take(cap as int)[n - 1] == p_all[n - 1]);
                        assert(contains_delim(p_all.take(cap as int)));
                    }
                }
                return Ok(n);
            }
            let bl = self.buffered_len();
            proof {
                self.buffer.lemma_wf_facts();
            }
            let limit = if bl == cap {
                1
            } else {
                cap - bl
            };
            let ghost rem_pre = self.source.remaining();
            let n = self.source.read(line, limit);
            if n == 0 {
                let ghost before = *self;
                proof {
                    before.buffer.lemma_wf_facts();
                    assert(p_all =~= before.buffered());
                    lemma_frame_len_shape(p_all);
                }
                let k = self.drain_rest(line);
                proof {
                    assert(line@.take(k as int) =~= p_all.take(k as int));
                    assert(self.pending() =~= p_all.skip(k as int));
                    assert(p_all.len() <= cap);
                }
                return Ok(k);
            }
            if bl == cap {
                proof {
                    prev.buffer.lemma_wf_facts();
                    assert(self.buffered() == prev.buffered());
                    assert(p_all == prev.buffered() + rem_pre);
                    assert(p_all.len() == cap + rem_pre.len());
                    assert(rem_pre.len() >= n >= 1);
                    assert(prev.buffered() =~= p_all.take(cap as int));
                }
                return Err(Error::Full);
            }
            match self.accept(line, n) {
                Ok(()) => {},
                Err(_) => {
                    // The read was limited to the free space, so the
                    // buffer can always hold it.
                    return vstd::pervasive::unreached();
                },
            }
            proof {
                assert(self.pending() =~= p_all);
            }
        }
    }
}

impl<S: ByteSource> ReadLine<S> {
    /// Reads every frame until the terminal signal and collects them in
    /// order: however the source splits the stream into reads, the
    /// result is exactly the frames of everything that was pending —
    /// the round trip of [`lemma_framing_round_trip`], performed by
    /// successive [`ReadLine::read_line`] calls.
    pub fn read_all_lines(&mut self, line: &mut Vec<u8>) -> (r: Result<Vec<Vec<u8>>, Error>)
        requires
            old(self).wf(),
            old(line).len() >= old(self).spec_capacity(),
        ensures
            final(self).wf(),
            final(self).spec_capacity() == old(self).spec_capacity(),
            match r {
                Ok(fs) => {
                    &&& fs@.map_values(|f: Vec<u8>| f@) == frames(old(self).pending())
                    &&& final(self).pending().len() == 0
                },
                Err(e) => e == Error::Full,
            },
            (r is Err) <==> (exists|k: int|
                0 <= k < frames(old(self).pending()).len() && (#[trigger] frames(
                    old(self).pending(),
                )[k]).len() > old(self).spec_capacity()),
    {
        let ghost p_all = old(self).pending();
        let mut collected: Vec<Vec<u8>> = Vec::new();
        proof {
            assert(frames(p_all).skip(0) =~= frames(p_all));
        }
        loop
            invariant
                p_all == old(self).pending(),
                self.wf(),
                self.spec_capacity() == old(self).spec_capacity(),
                line@.len() == old(line)@.len(),
                line@.len() >= self.spec_capacity(),
                collected@.map_values(|f: Vec<u8>| f@) + frames(self.pending()) == frames(p_all),
                collected@.len() <= frames(p_all).len(),
                frames(self.pending()) == frames(p_all).skip(collected@.len() as int),
                forall|k: int|
                    0 <= k < collected@.len() ==> (#[trigger] frames(p_all)[k]).len()
                        <= self.spec_capacity(),
            decreases self.pending().len(),
        {
            let ghost pending_pre = self.pending();
            match self.read_line(line) {
                Ok(n) => {
                    if n == 0 {
                        proof {
                            assert(collected@.map_values(|f: Vec<u8>| f@) =~= frames(p_all));
                            assert(collected@.len() == frames(p_all).len());
                        }
                        return Ok(collected);
                    }
                    let mut frame: Vec<u8> = Vec::new();
                    let mut i: usize = 0;
                    while i < n
                        invariant
                            i <= n,
                            n <= line@.len(),
                            frame@ == line@.take(i as int),
                        decreases n - i,
                    {
                        let b = line[i];
                        frame.push(b);
                        i = i + 1;
                        proof {
                            assert(frame@ =~= line@.take(i as int));
                        }
                    }
                    proof {
                        let ghost j = collected@.len() as int;
                        lemma_frame_len_bounds(pending_pre);
                        lemma_frames_step(pending_pre);
                        lemma_overflow_iff_long_first_frame(pending_pre, self.spec_capacity());
                        assert(frame@ == pending_pre.take(n as int));
                        assert(collected@.push(frame).map_values(|f: Vec<u8>| f@) =~= collected@.map_values(
                            |f: Vec<u8>| f@,
                        ).push(frame@));
                        assert(collected@.map_values(|f: Vec<u8>| f@).push(frame@) + frames(
                            self.pending(),
                        ) =~= collected@.map_values(|f: Vec<u8>| f@) + (seq![frame@] + frames(
                            self.pending(),
                        )));
                        assert(seq![pending_pre.take(frame_len(pending_pre))] + frames(
                            pending_pre.skip(frame_len(pending_pre)),
                        ) =~= seq![frame@] + frames(self.pending()));
                        assert(frames(self.pending()) =~= frames(pending_pre).skip(1));
                        assert(frames(p_all).skip(j).skip(1) =~= frames(p_all).skip(j + 1));
                        assert(frames(p_all)[j] == frames(p_all).skip(j)[0]);
                        assert((frames(p_all)[j]).len() == n);
                        assert((frames(p_all)[j]).len() <= self.spec_capacity());
                    }
                    collected.push(frame);
                },
                Err(e) => {
                    proof {
                        let ghost j = collected@.len() as int;
                        lemma_frame_len_bounds(pending_pre);
                        lemma_overflow_iff_long_first_frame(pending_pre, self.spec_capacity());
                        lemma_frames_step(pending_pre);
                        assert(frames(p_all)[j] == frames(p_all).skip(j)[0]);
                        assert((frames(p_all)[j]).len() == frame_len(pending_pre));
                        assert(0 <= j < frames(p_all).len());
                        assert((frames(p_all)[j]).len() > old(self).spec_capacity());
                    }
                    return Err(e);
                },
            }
        }
    }
}

/// The byte sequence split into its frames, in order: each frame runs up
/// to and including the next delimiter, and only the last frame of the
/// sequence may lack one.
pub open spec fn frames(s: Seq<u8>) -> Seq<Seq<u8>>
    decreases s.len(),
    via frames_decreases
{
    if s.len() == 0 {
        Seq::empty()
    } else {
        seq![s.take(frame_len(s))] + frames(s.skip(frame_len(s)))
    }
}

#[via_fn]
proof fn frames_decreases(s: Seq<u8>) {
    lemma_frame_len_bounds(s);
}

/// One framing call takes exactly the first frame: for nonempty pending
/// bytes, the frames are the first frame followed by the frames of what
/// the call leaves pending.
pub proof fn lemma_frames_step(s: Seq<u8>)
    requires
        s.len() > 0,
    ensures
        frames(s) == seq![s.take(frame_len(s))] + frames(s.skip(frame_len(s))),
{
}

/// The framing round trip: splitting a byte sequence into frames loses
/// and reorders nothing — the frames concatenate back to exactly the
/// original sequence.  Every frame is nonempty, every frame but possibly
/// the last ends with the delimiter, and no frame holds a delimiter
/// anywhere but at its end.  Together with the contract of
/// [`ReadLine::read_line`] — whose results are a function of the pending
/// bytes alone — this says that successive calls yield exactly the
/// frames of the stream, however the source splits it into reads.
pub proof fn lemma_framing_round_trip(s: Seq<u8>)
    ensures
        frames(s).flatten() == s,
        (s.len() == 0) <==> (frames(s).len() == 0),
        forall|k: int| 0 <= k < frames(s).len() ==> 1 <= (#[trigger] frames(s)[k]).len(),
        forall|k: int|
            0 <= k < frames(s).len() - 1 ==> (#[trigger] frames(s)[k]).last() == DELIMITER,
        forall|k: int, i: int|
            0 <= k < frames(s).len() && 0 <= i < frames(s)[k].len() - 1 ==> #[trigger] frames(
                s,
            )[k][i] != DELIMITER,
    decreases s.len(),
{
    if s.len() == 0 {
        assert(frames(s).flatten() =~= s);
    } else {
        lemma_frame_len_bounds(s);
        lemma_frame_len_shape(s);
        let fl = frame_len(s);
        let head = s.take(fl);
        let tail = s.skip(fl);
        lemma_framing_round_trip(tail);
        assert(frames(s) == seq![head] + frames(tail));
        assert((seq![head] + frames(tail)).drop_first() =~= frames(tail));
        assert(frames(s).flatten() == head + frames(tail).flatten());
        assert(head + tail =~= s);
        assert(forall|k: int|
            1 <= k < frames(s).len() ==> #[trigger] frames(s)[k] == frames(tail)[k - 1]);
        assert(1 <= frames(s)[0].len());
        if contains_delim(s) {
            assert(frames(s)[0].last() == s[fl - 1]);
        } else {
            assert(frames(s).len() == 1);
        }
        assert(forall|i: int| 0 <= i < frames(s)[0].len() - 1 ==> frames(s)[0][i] != DELIMITER);
    }
}

/// An in-memory byte source: yields an owned byte sequence from the
/// front, never crossing one of the given cut positions in a single
/// read.  The cuts only shape how the stream is split into reads — any
/// cut list yields the same bytes in the same order — which makes the
/// source a stand-in for a port that delivers data in arbitrary pieces.
pub struct ChunkedSource {
    data: Vec<u8>,
    cuts: Vec<usize>,
    pos: usize,
}

impl ChunkedSource {
    /// Creates a source that yields `data` from the front, splitting
    /// reads at the positions in `cuts`.
    pub fn new(data: Vec<u8>, cuts: Vec<usize>) -> (r: Self)
        ensures
            r.remaining() == data@,
    {
        let r = ChunkedSource { data, cuts, pos: 0 };
        proof {
            assert(r.remaining() =~= r.data@);
        }
        r
    }
}

impl ByteSource for ChunkedSource {
    /// The bytes from the current position to the end.
    closed spec fn remaining(&self) -> Seq<u8> {
        if self.pos <= self.data@.len() {
            self.data@.skip(self.pos as int)
        } else {
            Seq::empty()
        }
    }

    fn read(&mut self, buf: &mut Vec<u8>, limit: usize) -> (n: usize) {
        if self.pos >= self.data.len() {
            proof {
                assert(final(buf)@ =~= old(self).remaining().take(0) + old(buf)@.skip(0));
            }
            return 0;
        }
        let dlen = self.data.len();
        let mut bound: usize = dlen;
        let mut c: usize = 0;
        while c < self.cuts.len()
            invariant
                dlen == self.data@.len(),
                self.pos < dlen,
                self.pos < bound <= dlen,
            decreases self.cuts.len() - c,
        {
            let cut = self.cuts[c];
            if cut > self.pos && cut < bound {
                bound = cut;
            }
            c = c + 1;
        }
        let n = if limit < bound - self.pos {
            limit
        } else {
            bound - self.pos
        };
        let mut i: usize = 0;
        while i < n
            invariant
                self == old(self),
                dlen == self.data@.len(),
                self.pos < dlen,
                self.pos + n <= dlen,
                n <= limit <= old(buf).len(),
                i <= n,
                buf@.len() == old(buf)@.len(),
                buf@ == self.remaining().take(i as int) + old(buf)@.skip(i as int),
            decreases n - i,
        {
            let b = self.data[self.pos + i];
            buf[i] = b;
            i = i + 1;
            proof {
                assert(buf@ =~= self.remaining().take(i as int) + old(buf)@.skip(i as int));
            }
        }
        self.pos = self.pos + n;
        proof {
            assert(self.remaining() =~= old(self).remaining().skip(n as int));
        }
        n
    }
}

} // verus!
