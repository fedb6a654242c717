//! The object-store multipart upload plan: how a scratch archive of a
//! given size is cut into parts for the signed URLs the panel hands out,
//! and the bounded retry policy for each part.

use vstd::prelude::*;

verus! {

/// The parts drawn from what remains of a file: each part starts where
/// the previous ended and takes at most `part_size` bytes.
pub open spec fn spec_parts(size: u64, remaining: u64, part_size: u64, n: nat) -> Seq<(u64, u64)>
    recommends
        remaining <= size,
    decreases n,
{
    if n == 0 {
        Seq::empty()
    } else {
        let len = if remaining < part_size {
            remaining
        } else {
            part_size
        };
        seq![((size - remaining) as u64, len)] + spec_parts(
            size,
            (remaining - len) as u64,
            part_size,
            (n - 1) as nat,
        )
    }
}

/// Bytes left over after the parts are taken.
pub open spec fn spec_parts_rem(remaining: u64, part_size: u64, n: nat) -> u64
    decreases n,
{
    if n == 0 {
        remaining
    } else {
        let len = if remaining < part_size {
            remaining
        } else {
            part_size
        };
        spec_parts_rem((remaining - len) as u64, part_size, (n - 1) as nat)
    }
}

/// How many parts a file of `size` needs at `part_size` each.
pub open spec fn spec_parts_needed(size: u64, part_size: u64) -> nat
    recommends
        part_size > 0,
    decreases size,
{
    if part_size == 0 {
        0
    } else if size == 0 {
        0
    } else if size <= part_size {
        1
    } else {
        1 + spec_parts_needed((size - part_size) as u64, part_size)
    }
}

/// One `(offset, length)` slice per signed URL, in upload order. A URL
/// past the end of the file gets an empty slice; the second result is
/// what remains uncovered — a successful backup requires it to be zero.
pub fn plan_parts(size: u64, part_size: u64, n_urls: usize) -> (r: (Vec<(u64, u64)>, u64))
    ensures
        r.0@ == spec_parts(size, size, part_size, n_urls as nat),
        r.1 == spec_parts_rem(size, part_size, n_urls as nat),
        r.0@.len() == n_urls,
{
    let mut parts: Vec<(u64, u64)> = Vec::new();
    let mut remaining: u64 = size;
    let mut i: usize = 0;
    while i < n_urls
        invariant
            0 <= i <= n_urls,
            remaining <= size,
            parts@.len() == i,
            spec_parts(size, size, part_size, n_urls as nat) == parts@ + spec_parts(
                size,
                remaining,
                part_size,
                (n_urls - i) as nat,
            ),
            spec_parts_rem(size, part_size, n_urls as nat) == spec_parts_rem(
                remaining,
                part_size,
                (n_urls - i) as nat,
            ),
        decreases n_urls - i,
    {
        let len = if remaining < part_size {
            remaining
        } else {
            part_size
        };
        let offset = size - remaining;
        let ghost before = parts@;
        parts.push((offset, len));
        remaining = remaining - len;
        proof {
            assert(before + spec_parts(size, (remaining + len) as u64, part_size, (n_urls
                - i) as nat) =~= parts@ + spec_parts(size, remaining, part_size, (n_urls - i
                - 1) as nat));
        }
        i += 1;
    }
    proof {
        assert(spec_parts(size, remaining, part_size, 0) =~= Seq::<(u64, u64)>::empty());
        assert(parts@ + spec_parts(size, remaining, part_size, 0) =~= parts@);
    }
    (parts, remaining)
}

pub open spec fn sum_part_lens(s: Seq<(u64, u64)>) -> nat
    decreases s.len(),
{
    if s.len() == 0 {
        0
    } else {
        (sum_part_lens(s.drop_last()) + s.last().1) as nat
    }
}

pub proof fn lemma_sum_parts(size: u64, remaining: u64, part_size: u64, n: nat)
    requires
        remaining <= size,
    ensures
        sum_part_lens(spec_parts(size, remaining, part_size, n)) + spec_parts_rem(
            remaining,
            part_size,
            n,
        ) == remaining,
    decreases n,
{
    if n == 0 {
        assert(spec_parts(size, remaining, part_size, 0).len() == 0);
    } else {
        let len = if remaining < part_size {
            remaining
        } else {
            part_size
        };
        lemma_sum_parts(size, (remaining - len) as u64, part_size, (n - 1) as nat);
        let tail = spec_parts(size, (remaining - len) as u64, part_size, (n - 1) as nat);
        let whole = spec_parts(size, remaining, part_size, n);
        assert(whole =~= seq![((size - remaining) as u64, len)] + tail);
        lemma_sum_cons(((size - remaining) as u64, len), tail);
    }
}

proof fn lemma_sum_cons(h: (u64, u64), t: Seq<(u64, u64)>)
    ensures
        sum_part_lens(seq![h] + t) == h.1 + sum_part_lens(t),
    decreases t.len(),
{
    let s = seq![h] + t;
    if t.len() == 0 {
        assert(s =~= seq![h]);
        assert(s.drop_last().len() == 0);
        assert(s.last() == h);
        assert(sum_part_lens(s) == sum_part_lens(s.drop_last()) + s.last().1);
        assert(sum_part_lens(s.drop_last()) == 0);
        assert(sum_part_lens(t) == 0);
    } else {
        assert(s.drop_last() =~= seq![h] + t.drop_last());
        assert(s.last() == t.last());
        lemma_sum_cons(h, t.drop_last());
        assert(sum_part_lens(s) == sum_part_lens(s.drop_last()) + s.last().1);
        assert(sum_part_lens(t) == sum_part_lens(t.drop_last()) + t.last().1);
    }
}

/// With exactly the needed number of URLs, the parts tile the whole file:
/// their lengths sum to `size`, their count is the rounded-up quotient,
/// and nothing is left over.
pub proof fn lemma_parts_cover(size: u64, part_size: u64)
    requires
        part_size > 0,
    ensures
        sum_part_lens(spec_parts(size, size, part_size, spec_parts_needed(size, part_size)))
            == size,
        spec_parts_rem(size, part_size, spec_parts_needed(size, part_size)) == 0,
        spec_parts(size, size, part_size, spec_parts_needed(size, part_size)).len()
            == spec_parts_needed(size, part_size),
        spec_parts_needed(size, part_size) == ((size + part_size - 1) as int / part_size as int),
{
    lemma_rem_zero(size, part_size, spec_parts_needed(size, part_size));
    lemma_sum_parts(size, size, part_size, spec_parts_needed(size, part_size));
    lemma_parts_len(size, size, part_size, spec_parts_needed(size, part_size));
    lemma_needed_is_ceil(size, part_size);
}

proof fn lemma_rem_zero(remaining: u64, part_size: u64, n: nat)
    requires
        part_size > 0,
        n >= spec_parts_needed(remaining, part_size),
    ensures
        spec_parts_rem(remaining, part_size, n) == 0,
    decreases n,
{
    if n == 0 {
    } else {
        let len = if remaining < part_size {
            remaining
        } else {
            part_size
        };
        if remaining <= part_size {
            lemma_rem_zero(0, part_size, (n - 1) as nat);
            assert(spec_parts_needed(0, part_size) == 0);
        } else {
            lemma_rem_zero((remaining - part_size) as u64, part_size, (n - 1) as nat);
        }
    }
}

proof fn lemma_parts_len(size: u64, remaining: u64, part_size: u64, n: nat)
    ensures
        spec_parts(size, remaining, part_size, n).len() == n,
    decreases n,
{
    if n > 0 {
        let len = if remaining < part_size {
            remaining
        } else {
            part_size
        };
        lemma_parts_len(size, (remaining - len) as u64, part_size, (n - 1) as nat);
    }
}

proof fn lemma_needed_is_ceil(size: u64, part_size: u64)
    requires
        part_size > 0,
    ensures
        spec_parts_needed(size, part_size) == ((size + part_size - 1) as int / part_size as int),
    decreases size,
{
    let ps = part_size as int;
    if size == 0 {
        assert((ps - 1) / ps == 0) by (nonlinear_arith)
            requires
                ps > 0,
        ;
    } else if size <= part_size {
        assert((size + ps - 1) / ps == 1) by (nonlinear_arith)
            requires
                ps > 0 && 0 < size <= ps,
        ;
    } else {
        lemma_needed_is_ceil((size - part_size) as u64, part_size);
        assert((size - ps + ps - 1) / ps + 1 == (size + ps - 1) / ps) by (nonlinear_arith)
            requires
                ps > 0 && size > ps,
        ;
    }
}

/// What to do after one part upload attempt. Attempts count from one; the
/// fiftieth failure gives the part up and fails the whole backup. A 2xx
/// answer records the ETag — never anything else; a connection error backs
/// off for two seconds per attempt already made; any other answer retries
/// at once.
#[derive(Clone, Copy, PartialEq, Eq, Structural, Debug)]
pub enum RetryDecision {
    RecordEtag,
    RetryAfterSecs(u64),
    RetryNow,
    Abort,
}

pub fn upload_attempt_decision(attempts: u64, got_response: bool, status_2xx: bool) -> (r:
    RetryDecision)
    requires
        attempts >= 1,
    ensures
        r == (if attempts > 50 {
            RetryDecision::Abort
        } else if got_response && status_2xx {
            RetryDecision::RecordEtag
        } else if got_response {
            RetryDecision::RetryNow
        } else {
            RetryDecision::RetryAfterSecs((attempts * 2) as u64)
        }),
        r == RetryDecision::RecordEtag ==> status_2xx,
{
    if attempts > 50 {
        RetryDecision::Abort
    } else if got_response && status_2xx {
        RetryDecision::RecordEtag
    } else if got_response {
        RetryDecision::RetryNow
    } else {
        RetryDecision::RetryAfterSecs(attempts * 2)
    }
}

} // verus!
