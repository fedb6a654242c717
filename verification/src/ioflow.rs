//! Bounded I/O primitives: the byte counter behind counting readers and
//! writers, the bounded-range reader used by multipart uploads, and the
//! token bucket behind rate-limited readers and writers.

use vstd::prelude::*;

verus! {

/// The shared progress counter a counting reader or writer increments on
/// each chunk moved.
pub struct ByteCounter {
    pub count: u64,
}

impl ByteCounter {
    pub fn new() -> (r: ByteCounter)
        ensures
            r.count == 0,
    {
        ByteCounter { count: 0 }
    }

    pub fn add(&mut self, n: u64)
        requires
            old(self).count + n <= u64::MAX,
        ensures
            final(self).count == old(self).count + n,
    {
        self.count = self.count + n;
    }
}

/// A counting layer moves a chunk through unchanged and adds its length
/// to the shared counter: what goes downstream is exactly what came in.
pub fn counted_chunk(counter: &mut ByteCounter, chunk: Vec<u8>) -> (r: Vec<u8>)
    requires
        old(counter).count + chunk@.len() <= u64::MAX,
    ensures
        r@ == chunk@,
        final(counter).count == old(counter).count + chunk@.len(),
{
    counter.add(chunk.len() as u64);
    chunk
}

/// Reads at most `size` bytes starting at a fixed offset of a seekable
/// file, and never past that bound, whatever the file's length.
pub struct BoundedReader {
    pub offset: u64,
    pub size: u64,
    pub position: u64,
}

impl BoundedReader {
    pub open spec fn wf(&self) -> bool {
        self.position <= self.size
    }

    /// The reader for one upload part; the caller has already seeked the
    /// file to `offset` and shares a progress counter with the initiator.
    pub fn new_with_bytes_written(offset: u64, size: u64) -> (r: BoundedReader)
        ensures
            r.wf(),
            r.offset == offset,
            r.size == size,
            r.position == 0,
    {
        BoundedReader { offset, size, position: 0 }
    }

    /// How much one read may take: the buffer's space, capped by what is
    /// left of the bounded range; zero at the bound regardless of EOF.
    pub fn grant(&self, buffer_space: usize) -> (r: u64)
        requires
            self.wf(),
        ensures
            r == if buffer_space as u64 <= self.size - self.position {
                buffer_space as u64
            } else {
                (self.size - self.position) as u64
            },
            self.position + r <= self.size,
    {
        let remaining = self.size - self.position;
        if buffer_space as u64 <= remaining {
            buffer_space as u64
        } else {
            remaining
        }
    }

    /// Advances past what the inner read returned (never more than the
    /// grant) and counts the bytes into the shared progress counter.
    pub fn advance(&mut self, bytes_read: u64, counter: &mut ByteCounter)
        requires
            old(self).wf(),
            bytes_read <= old(self).size - old(self).position,
            old(counter).count + bytes_read <= u64::MAX,
        ensures
            final(self).wf(),
            final(self).position == old(self).position + bytes_read,
            final(self).size == old(self).size,
            final(self).offset == old(self).offset,
            final(counter).count == old(counter).count + bytes_read,
    {
        self.position = self.position + bytes_read;
        counter.add(bytes_read);
    }
}

/// A token bucket limiting bytes per second. Tokens are kept in
/// thousandths (byte-milliseconds), refilled continuously from the wall
/// clock — not by a timer task — and capped at one second's worth, the
/// burst. A cap of zero disables limiting.
pub struct RateLimiter {
    pub cap: u64,
    pub micro: u128,
    pub clock_ms: u64,
    pub delivered: u128,
}

impl RateLimiter {
    /// The bucket never holds more than a one-second burst, and what it
    /// has delivered never outruns the clock by more than that burst.
    pub open spec fn wf(&self) -> bool {
        self.cap > 0 ==> (self.micro <= self.cap as int * 1000 && self.delivered * 1000
            + self.micro <= self.cap as int * self.clock_ms as int + self.cap as int * 1000)
    }

    pub fn new(cap: u64) -> (r: RateLimiter)
        ensures
            r.wf(),
            r.cap == cap,
            r.clock_ms == 0,
            r.delivered == 0,
            r.micro == cap as int * 1000,
    {
        RateLimiter { cap, micro: cap as u128 * 1000, clock_ms: 0, delivered: 0 }
    }

    /// Refills from the wall-clock delta since the last call. The bucket
    /// gains at most `cap` per elapsed second, and stays within the burst.
    pub fn refill(&mut self, now_ms: u64)
        requires
            old(self).wf(),
            now_ms >= old(self).clock_ms,
        ensures
            final(self).wf(),
            final(self).cap == old(self).cap,
            final(self).delivered == old(self).delivered,
            final(self).clock_ms == now_ms,
            final(self).micro <= old(self).micro + old(self).cap as int * (now_ms - old(
                self,
            ).clock_ms),
            old(self).cap > 0 ==> final(self).micro <= old(self).cap as int * 1000,
    {
        let burst: u128 = self.cap as u128 * 1000;
        let delta: u64 = now_ms - self.clock_ms;
        proof {
            assert(self.cap as int * delta as int <= 0xFFFF_FFFF_FFFF_FFFFint
                * 0xFFFF_FFFF_FFFF_FFFFint) by (nonlinear_arith)
                requires
                    self.cap <= 0xFFFF_FFFF_FFFF_FFFFu64 && delta <= 0xFFFF_FFFF_FFFF_FFFFu64,
            ;
        }
        let add: u128 = self.cap as u128 * delta as u128;
        if add >= burst {
            self.micro = burst;
        } else if self.micro + add >= burst {
            self.micro = burst;
        } else {
            self.micro = self.micro + add;
        }
        proof {
            let c = old(self).cap as int;
            let t0 = old(self).clock_ms as int;
            let t1 = now_ms as int;
            if old(self).cap > 0 {
                assert(c * t0 + c * (t1 - t0) == c * t1) by (nonlinear_arith);
                assert(c * (t1 - t0) >= 0) by (nonlinear_arith)
                    requires
                        c > 0 && t1 >= t0,
                ;
            }
        }
        self.clock_ms = now_ms;
    }

    /// Takes `n` bytes from the bucket if a full second's tokens allow it;
    /// a zero cap always grants. Granting moves tokens to the delivered
    /// account one for one, so the bucket's books stay balanced.
    pub fn try_take(&mut self, n: u64) -> (granted: bool)
        requires
            old(self).wf(),
            old(self).delivered + n <= u128::MAX,
        ensures
            final(self).wf(),
            final(self).cap == old(self).cap,
            final(self).clock_ms == old(self).clock_ms,
            old(self).cap == 0 ==> granted,
            granted ==> final(self).delivered == old(self).delivered + n,
            !granted ==> *final(self) == *old(self),
            granted && old(self).cap > 0 ==> final(self).delivered * 1000 + final(self).micro
                == old(self).delivered * 1000 + old(self).micro,
    {
        if self.cap == 0 {
            self.delivered = self.delivered + n as u128;
            return true;
        }
        let need: u128 = n as u128 * 1000;
        if self.micro >= need {
            self.micro = self.micro - need;
            self.delivered = self.delivered + n as u128;
            true
        } else {
            false
        }
    }

    /// How long to sleep before `n` bytes fit in the bucket: enough
    /// milliseconds to refill the missing tokens, and never more than the
    /// time `n` bytes take at the cap — a call finishes within
    /// `ceil(bytes / cap)` seconds of wall time.
    pub fn wait_hint_ms(&self, n: u64) -> (r: u64)
        requires
            self.wf(),
            self.cap > 0,
            n as int * 1000 <= u64::MAX,
        ensures
            self.micro + self.cap as int * r >= n as int * 1000,
            r as int <= (n as int * 1000 + self.cap - 1) / (self.cap as int),
    {
        let need: u128 = n as u128 * 1000;
        if self.micro >= need {
            proof {
                assert(self.cap as int * 0 == 0) by (nonlinear_arith);
            }
            return 0;
        }
        let missing: u128 = need - self.micro;
        let cap: u128 = self.cap as u128;
        let r: u128 = (missing + cap - 1) / cap;
        proof {
            let m = missing as int;
            let c = cap as int;
            assert(c * ((m + c - 1) / c) >= m) by (nonlinear_arith)
                requires
                    c > 0 && m >= 0,
            ;
            assert((m + c - 1) / c <= (n as int * 1000 + c - 1) / c) by (nonlinear_arith)
                requires
                    c > 0 && 0 <= m <= n as int * 1000,
            ;
            assert((n as int * 1000 + c - 1) / c <= n as int * 1000) by (nonlinear_arith)
                requires
                    c > 0 && n >= 0,
            ;
            assert(r as int <= n as int * 1000);
        }
        r as u64
    }
}

/// The rate law, from the start of a run: with a positive cap, a bucket's
/// delivered bytes never exceed `cap` bytes per elapsed second plus one
/// burst of `cap`.
pub proof fn lemma_rate_bound(l: RateLimiter)
    requires
        l.wf(),
        l.cap > 0,
    ensures
        l.delivered * 1000 <= l.cap as int * l.clock_ms as int + l.cap as int * 1000,
{
}

/// The rate law over a window: if between two points the bucket's books
/// moved only by refills (at most `cap` per second) and balanced takes —
/// which is what `refill` and `try_take` ensure — then the bytes delivered
/// in the window stay under `cap` per second of window plus one burst.
pub proof fn lemma_rate_window(
    cap: u64,
    d1: int,
    m1: int,
    t1: int,
    d2: int,
    m2: int,
    t2: int,
)
    requires
        cap > 0,
        m1 <= cap as int * 1000,
        m2 >= 0,
        d2 * 1000 + m2 <= d1 * 1000 + m1 + cap as int * (t2 - t1),
    ensures
        (d2 - d1) * 1000 <= cap as int * (t2 - t1) + cap as int * 1000,
{
}

} // verus!
