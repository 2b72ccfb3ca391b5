//! Facts about fills and reads, stated over the sequences that the
//! contracts of `BufReader`'s methods speak of: a fill turns `before` into
//! `before + received.take(fill_count(..))` (`try_fill_buf`) or into
//! `before + spare.take(n)` (`commit_fill`), and a read or consume of `n`
//! bytes hands out `take(n)` and leaves `skip(n)`.

use vstd::prelude::*;
use crate::deque::fill_count;

verus! {

/// A fill whose bytes all fit grows the buffer by exactly their number, and
/// once the bytes that were there before are consumed, what remains is
/// exactly the bytes received, in order.
pub proof fn lemma_fill_keeps_received(before: Seq<u8>, cap: nat, received: Seq<u8>)
    requires
        before.len() + received.len() <= cap,
    ensures
        fill_count(before.len(), cap, received.len()) == received.len(),
        (before + received.take(received.len() as int)).len() == before.len() + received.len(),
        (before + received.take(received.len() as int)).skip(before.len() as int) == received,
{
    assert((before + received.take(received.len() as int)).skip(before.len() as int) =~= received);
}

/// A fill offered more bytes than there is room for takes exactly the room,
/// filling the buffer, and keeps the offered bytes' order.
pub proof fn lemma_fill_saturates(before: Seq<u8>, cap: nat, received: Seq<u8>)
    requires
        before.len() <= cap < before.len() + received.len(),
    ensures
        fill_count(before.len(), cap, received.len()) == cap - before.len(),
        (before + received.take(cap - before.len())).len() == cap,
        (before + received.take(cap - before.len())).skip(before.len() as int)
            == received.take(cap - before.len()),
{
    assert((before + received.take(cap - before.len())).skip(before.len() as int)
        =~= received.take(cap - before.len()));
}

/// On a full buffer a fill takes nothing and leaves the buffered bytes as
/// they are, however often it is repeated.
pub proof fn lemma_fill_when_full(before: Seq<u8>, cap: nat, received: Seq<u8>)
    requires
        before.len() == cap,
    ensures
        fill_count(before.len(), cap, received.len()) == 0,
        before + received.take(0) == before,
{
    assert(before + received.take(0) =~= before);
}

/// Consuming every buffered byte empties the buffer; the empty buffer is
/// full only when its capacity is zero, so any other asks for a fill.
pub proof fn lemma_consume_all(before: Seq<u8>, cap: nat)
    requires
        before.len() <= cap,
    ensures
        before.skip(before.len() as int) == Seq::<u8>::empty(),
        (before.skip(before.len() as int).len() == cap) <==> cap == 0,
        cap > 0 ==> cap - before.skip(before.len() as int).len() > 0,
{
    assert(before.skip(before.len() as int) =~= Seq::<u8>::empty());
}

/// After a read through `BufReader::fill_regions` writes `first` and
/// `second` into the two runs of free room and `BufReader::commit_fill`
/// queues `n` of those bytes, the buffer holds what it held before, then the
/// first run's bytes, then the second run's, in that order, up to `n`: the
/// wrap of the storage does not show in the queued order.
pub proof fn lemma_two_region_fill_order(before: Seq<u8>, first: Seq<u8>, second: Seq<u8>, n: nat)
    requires
        n <= first.len() + second.len(),
    ensures
        n <= first.len() ==> before + (first + second).take(n as int) == before + first.take(
            n as int,
        ),
        n > first.len() ==> before + (first + second).take(n as int) == before + first
            + second.take(n - first.len()),
{
    if n <= first.len() {
        assert((first + second).take(n as int) =~= first.take(n as int));
    } else {
        assert((first + second).take(n as int) =~= first + second.take(n - first.len()));
        assert(before + (first + second.take(n - first.len())) =~= before + first + second.take(
            n - first.len(),
        ));
    }
}

/// The bytes handed out so far, then the bytes buffered, then the bytes the
/// source has yet to give, spell out the source's whole byte sequence.
pub open spec fn stream_intact(
    whole: Seq<u8>,
    delivered: Seq<u8>,
    buffered: Seq<u8>,
    remaining: Seq<u8>,
) -> bool {
    delivered + buffered + remaining == whole
}

/// A fill that receives the next `k` bytes of the source keeps the stream
/// intact: the bytes it takes leave the source's remainder, in order, and
/// those it has no room for stay there.
pub proof fn lemma_fill_keeps_stream(
    whole: Seq<u8>,
    delivered: Seq<u8>,
    buffered: Seq<u8>,
    remaining: Seq<u8>,
    cap: nat,
    k: nat,
)
    requires
        stream_intact(whole, delivered, buffered, remaining),
        k <= remaining.len(),
    ensures
        stream_intact(
            whole,
            delivered,
            buffered + remaining.take(k as int).take(
                fill_count(buffered.len(), cap, k) as int,
            ),
            remaining.skip(fill_count(buffered.len(), cap, k) as int),
        ),
{
    let n = fill_count(buffered.len(), cap, k) as int;
    assert(remaining.take(k as int).take(n) =~= remaining.take(n));
    assert(remaining.take(n) + remaining.skip(n) =~= remaining);
    assert(delivered + (buffered + remaining.take(n)) + remaining.skip(n) =~= delivered + buffered
        + remaining);
}

/// Reading (or consuming) `n` buffered bytes keeps the stream intact: they
/// move from the front of the buffer to the end of what was handed out.
pub proof fn lemma_read_keeps_stream(
    whole: Seq<u8>,
    delivered: Seq<u8>,
    buffered: Seq<u8>,
    remaining: Seq<u8>,
    n: nat,
)
    requires
        stream_intact(whole, delivered, buffered, remaining),
        n <= buffered.len(),
    ensures
        stream_intact(
            whole,
            delivered + buffered.take(n as int),
            buffered.skip(n as int),
            remaining,
        ),
{
    assert(buffered.take(n as int) + buffered.skip(n as int) =~= buffered);
    assert(delivered + buffered.take(n as int) + buffered.skip(n as int) + remaining
        =~= delivered + buffered + remaining);
}

/// Read to exhaustion, with the buffer and the source both empty, a reader
/// has handed out exactly the source's byte sequence, wherever its buffer
/// wrapped on the way.
pub proof fn lemma_exhausted_stream(whole: Seq<u8>, delivered: Seq<u8>, buffered: Seq<u8>, remaining: Seq<u8>)
    requires
        stream_intact(whole, delivered, buffered, remaining),
        buffered.len() == 0,
        remaining.len() == 0,
    ensures
        delivered == whole,
{
    assert(delivered + buffered + remaining =~= delivered);
}

/// Where a run of steps leaves (handed out, buffered, not yet given) when
/// it starts from `state`. A step `(true, k)` fills from the next `k` bytes
/// of the source (fewer if the source has fewer), taking as many as fit; a
/// step `(false, n)` reads or consumes `n` buffered bytes (fewer if fewer are
/// buffered).
pub open spec fn run(
    state: (Seq<u8>, Seq<u8>, Seq<u8>),
    cap: nat,
    steps: Seq<(bool, nat)>,
) -> (Seq<u8>, Seq<u8>, Seq<u8>)
    decreases steps.len(),
{
    if steps.len() == 0 {
        state
    } else {
        let (delivered, buffered, remaining) = state;
        let (is_fill, k) = steps[0];
        if is_fill {
            let offered = if k <= remaining.len() { k } else { remaining.len() };
            let n = fill_count(buffered.len(), cap, offered) as int;
            run((delivered, buffered + remaining.take(n), remaining.skip(n)), cap, steps.skip(1))
        } else {
            let n = if k <= buffered.len() { k as int } else { buffered.len() as int };
            run((delivered + buffered.take(n), buffered.skip(n), remaining), cap, steps.skip(1))
        }
    }
}

/// Whatever fills and reads run, in whatever sizes, on a reader that starts
/// empty over a source holding `source`, the bytes handed out, then those
/// buffered, then those not yet given spell out `source`; so a run that
/// ends with the buffer and the source both empty has handed out exactly
/// `source`.
pub proof fn lemma_round_trip(source: Seq<u8>, cap: nat, steps: Seq<(bool, nat)>)
    ensures
        stream_intact(source, run((seq![], seq![], source), cap, steps).0, run(
            (seq![], seq![], source),
            cap,
            steps,
        ).1, run((seq![], seq![], source), cap, steps).2),
        run((seq![], seq![], source), cap, steps).1.len() == 0 && run(
            (seq![], seq![], source),
            cap,
            steps,
        ).2.len() == 0 ==> run((seq![], seq![], source), cap, steps).0 == source,
{
    assert(Seq::<u8>::empty() + Seq::<u8>::empty() + source =~= source);
    lemma_run_keeps_stream(source, (seq![], seq![], source), cap, steps);
    let end = run((seq![], seq![], source), cap, steps);
    if end.1.len() == 0 && end.2.len() == 0 {
        lemma_exhausted_stream(source, end.0, end.1, end.2);
    }
}

proof fn lemma_run_keeps_stream(
    whole: Seq<u8>,
    state: (Seq<u8>, Seq<u8>, Seq<u8>),
    cap: nat,
    steps: Seq<(bool, nat)>,
)
    requires
        stream_intact(whole, state.0, state.1, state.2),
    ensures
        stream_intact(
            whole,
            run(state, cap, steps).0,
            run(state, cap, steps).1,
            run(state, cap, steps).2,
        ),
    decreases steps.len(),
{
    if steps.len() > 0 {
        let (delivered, buffered, remaining) = state;
        let (is_fill, k) = steps[0];
        if is_fill {
            let offered = if k <= remaining.len() { k } else { remaining.len() };
            let n = fill_count(buffered.len(), cap, offered) as int;
            lemma_fill_keeps_stream(whole, delivered, buffered, remaining, cap, offered);
            assert(remaining.take(offered as int).take(n) =~= remaining.take(n));
            lemma_run_keeps_stream(
                whole,
                (delivered, buffered + remaining.take(n), remaining.skip(n)),
                cap,
                steps.skip(1),
            );
        } else {
            let n = if k <= buffered.len() { k } else { buffered.len() };
            lemma_read_keeps_stream(whole, delivered, buffered, remaining, n);
            lemma_run_keeps_stream(
                whole,
                (delivered + buffered.take(n as int), buffered.skip(n as int), remaining),
                cap,
                steps.skip(1),
            );
        }
    }
}

} // verus!
