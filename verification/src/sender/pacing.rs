//! What the rate limit promises.

use crate::sender::queue::ManagerModel;
use vstd::prelude::*;

verus! {

/// A send against the rate limit: how many bytes, and when.
pub struct PacedSend {
    pub bytes: nat,
    pub at_ns: u64,
}

/// After all the sends, one after the other.
pub open spec fn after_sends(m: ManagerModel, sends: Seq<PacedSend>) -> ManagerModel
    decreases sends.len(),
{
    if sends.len() == 0 {
        m
    } else {
        after_sends(m, sends.drop_last()).rate_limited(sends.last().bytes, sends.last().at_ns)
    }
}

/// Whether the send comes once the wait for those before it is over, is small
/// enough for its own wait to be told in nanoseconds, and that wait ends before
/// the clock does.
pub open spec fn is_due(m: ManagerModel, send: PacedSend) -> bool {
    &&& m.last_check <= send.at_ns
    &&& send.bytes * 1_000_000_000 <= u64::MAX
    &&& send.at_ns + m.delay(send.bytes, send.at_ns) <= u64::MAX
}

/// How many bytes the sends have in all.
pub open spec fn bytes_of(sends: Seq<PacedSend>) -> nat
    decreases sends.len(),
{
    if sends.len() == 0 {
        0
    } else {
        bytes_of(sends.drop_last()) + sends.last().bytes
    }
}

/// The bytes that came in since the last look are no more than the rate gives
/// for the time.
proof fn lemma_tokens_follow_the_rate(m: ManagerModel, now: u64)
    requires
        m.max_rate > 0,
        m.last_check <= now,
    ensures
        m.tokens(now) * 1_000_000_000 <= m.bucket * 1_000_000_000 + m.max_rate * (now
            - m.last_check),
{
    let elapsed = now - m.last_check;
    let exact = m.max_rate * elapsed / 1_000_000_000;
    let fresh = exact as u64;
    assert(exact >= 0 && exact * 1_000_000_000 <= m.max_rate * elapsed) by {
        let product = m.max_rate * elapsed;
        assert(product >= 0) by (nonlinear_arith)
            requires
                product == m.max_rate * elapsed,
                elapsed >= 0,
        ;
        assert(product / 1_000_000_000 * 1_000_000_000 <= product);
    }
    assert(exact <= u64::MAX ==> fresh == exact);
    assert(m.tokens(now) <= m.bucket + fresh);
    assert(fresh <= exact) by {
        if exact > u64::MAX {
            assert(fresh <= u64::MAX);
        }
    }
    assert(now.saturating_sub(m.last_check) == elapsed);
}

/// One send keeps to the rate: what it takes, and what is left for the next, is
/// covered by what was left before and the time until the next may come, give or
/// take a nanosecond.
proof fn lemma_send_keeps_to_the_rate(m: ManagerModel, send: PacedSend)
    requires
        m.max_rate > 0,
        is_due(m, send),
    ensures
        ({
            let after = m.rate_limited(send.bytes, send.at_ns);
            &&& after.max_rate == m.max_rate
            &&& m.bucket <= m.max_rate ==> after.bucket <= m.max_rate
            &&& after.last_check >= m.last_check
            &&& (send.bytes + after.bucket) * 1_000_000_000 <= m.bucket * 1_000_000_000
                + m.max_rate * (after.last_check - m.last_check + 1)
        }),
{
    let now = send.at_ns;
    let rate = m.max_rate as int;
    let after = m.rate_limited(send.bytes, now);
    let elapsed = now - m.last_check;
    lemma_tokens_follow_the_rate(m, now);
    if send.bytes == 0 {
        assert(after.last_check - m.last_check + 1 == 1);
        assert(rate * 1 == rate);
    } else if send.bytes > m.tokens(now) {
        let missing = (send.bytes - m.tokens(now)) * 1_000_000_000;
        let delay = m.delay(send.bytes, now) as int;
        assert(0 <= missing <= u64::MAX);
        assert(delay == missing / rate && missing < rate * (delay + 1)) by {
            assert(missing / rate <= missing && missing < rate * (missing / rate + 1) && missing
                / rate >= 0) by (nonlinear_arith)
                requires
                    rate > 0,
                    missing >= 0,
            ;
        }
        assert(after.last_check == now + delay);
        assert(rate * elapsed + rate * (delay + 1) == rate * (elapsed + delay + 1))
            by (nonlinear_arith);
    } else {
        assert(after.last_check == now);
        assert(rate * elapsed <= rate * (elapsed + 1)) by (nonlinear_arith)
            requires
                rate > 0,
        ;
    }
}

/// What is sent keeps to the rate limit. However the sends are cut up, as long as
/// each waits until the wait before it is over, they have together no more bytes
/// than were left at the start and the rate gives for the time they take, give or
/// take a nanosecond for each. No more than one second's worth is saved up.
pub proof fn lemma_rate_is_kept(m: ManagerModel, sends: Seq<PacedSend>)
    requires
        m.max_rate > 0,
        forall|k: int|
            0 <= k < sends.len() ==> is_due(
                after_sends(m, sends.take(k)),
                #[trigger] sends[k],
            ),
    ensures
        ({
            let after = after_sends(m, sends);
            &&& after.max_rate == m.max_rate
            &&& m.bucket <= m.max_rate ==> after.bucket <= m.max_rate
            &&& after.last_check >= m.last_check
            &&& (bytes_of(sends) + after.bucket) * 1_000_000_000 <= m.bucket * 1_000_000_000
                + m.max_rate * (after.last_check - m.last_check + sends.len())
        }),
    decreases sends.len(),
{
    if sends.len() > 0 {
        let rest = sends.drop_last();
        let before = after_sends(m, rest);
        assert forall|k: int| 0 <= k < rest.len() implies is_due(
            after_sends(m, rest.take(k)),
            #[trigger] rest[k],
        ) by {
            assert(rest.take(k) =~= sends.take(k));
            assert(is_due(after_sends(m, sends.take(k)), sends[k]));
        }
        lemma_rate_is_kept(m, rest);
        let last = sends.len() - 1;
        assert(sends.take(last) =~= rest);
        assert(is_due(before, sends[last]));
        lemma_send_keeps_to_the_rate(before, sends[last]);
        let after = after_sends(m, sends);
        let rate = m.max_rate as int;
        let first = before.last_check - m.last_check + rest.len();
        let second = after.last_check - before.last_check + 1;
        assert(rate * first + rate * second == rate * (first + second)) by (nonlinear_arith);
        assert(first + second == after.last_check - m.last_check + sends.len());
    }
}

/// Nothing waits longer than it has to. What was left and what came in since the last
/// look, up to one second's worth, goes at once. Beyond that, the wait is as long as
/// the rate takes to give the bytes that are missing, rounded down to nanoseconds.
/// What is not used is left for the next, and nothing is left after a wait.
pub proof fn lemma_wait_is_no_longer_than_needed(m: ManagerModel, bytes: nat, now: u64)
    requires
        m.max_rate > 0,
        m.last_check <= now,
        m.max_rate * (now - m.last_check) / 1_000_000_000 <= u64::MAX,
        bytes * 1_000_000_000 <= u64::MAX,
        bytes > 0,
    ensures
        ({
            let after = m.rate_limited(bytes, now);
            let saved = m.bucket + m.max_rate * (now - m.last_check) / 1_000_000_000;
            let ready = if saved < m.max_rate {
                saved
            } else {
                m.max_rate as int
            };
            if bytes <= ready {
                &&& m.delay(bytes, now) == 0
                &&& after.sleep_due == m.sleep_due
                &&& after.bucket == ready - bytes
                &&& after.last_check == now
                &&& after.stats == m.stats
            } else {
                let delay = m.delay(bytes, now);
                &&& delay * m.max_rate <= (bytes - ready) * 1_000_000_000 < (delay + 1) * m.max_rate
                &&& after.sleep_due == m.sleep_due.saturating_add(delay)
                &&& after.last_check == now.saturating_add(delay)
                &&& after.bucket == 0
                &&& after.stats.rate_limited_bytes == m.stats.rate_limited_bytes.wrapping_add(
                    bytes as u64,
                )
                &&& after.stats.rate_limit_ns == m.stats.rate_limit_ns.wrapping_add(delay)
            }
        }),
{
    let elapsed = now - m.last_check;
    let exact = m.max_rate * elapsed / 1_000_000_000;
    assert(now.saturating_sub(m.last_check) == elapsed);
    assert(exact >= 0) by {
        assert(m.max_rate * elapsed >= 0) by (nonlinear_arith)
            requires
                elapsed >= 0,
        ;
    }
    if bytes > m.tokens(now) {
        let missing = (bytes - m.tokens(now)) * 1_000_000_000;
        let rate = m.max_rate as int;
        assert(0 <= missing <= u64::MAX);
        let part = missing / rate;
        assert(0 <= part <= missing && part * rate <= missing < (part + 1) * rate)
            by (nonlinear_arith)
            requires
                part == missing / rate,
                rate > 0,
                missing >= 0,
        ;
    }
}

/// Without a rate, or without bytes, nothing waits and nothing changes.
pub proof fn lemma_no_limit_no_wait(m: ManagerModel, bytes: nat, now: u64)
    requires
        m.max_rate == 0 || bytes == 0,
    ensures
        m.rate_limited(bytes, now) == m,
        m.delay(bytes, now) == 0,
{
}

} // verus!
