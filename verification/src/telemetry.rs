//! Telemetry envelopes: batching metric events and choosing where envelopes go.
use vstd::prelude::*;

verus! {

/// Maximum events per metrics envelope.
pub const MAX_METRICS_PER_ENVELOPE: usize = 1000;

/// A unit of telemetry. Contexts are JSON texts; `E` is the metric event type.
pub enum TelemetryEnvelope<E> {
    Error { timestamp: String, message: String, context: Option<String> },
    Performance {
        timestamp: String,
        operation: String,
        duration_ms: u128,
        context: Option<String>,
        tags: Option<Vec<(String, String)>>,
    },
    Message { timestamp: String, message: String, level: String, context: Option<String> },
    Metrics { events: Vec<E> },
}

/// `s` cut into consecutive pieces of `size` elements, the last one possibly
/// shorter (`slice::chunks`).
pub open spec fn chunks_of<E>(s: Seq<E>, size: nat) -> Seq<Seq<E>>
    decreases s.len(),
{
    if s.len() == 0 || size == 0 {
        Seq::empty()
    } else if s.len() <= size {
        seq![s]
    } else {
        seq![s.take(size as int)] + chunks_of(s.skip(size as int), size)
    }
}

pub open spec fn chunks_view<E>(v: Seq<Vec<E>>) -> Seq<Seq<E>> {
    v.map_values(|c: Vec<E>| c@)
}

/// All pieces, one after another.
pub open spec fn flatten<E>(pieces: Seq<Seq<E>>) -> Seq<E>
    decreases pieces.len(),
{
    if pieces.len() == 0 {
        Seq::empty()
    } else {
        pieces[0] + flatten(pieces.drop_first())
    }
}

/// Splits `events` into the event lists of the metrics envelopes to submit:
/// consecutive batches of at most `MAX_METRICS_PER_ENVELOPE` events, none for
/// no events.
pub fn log_metrics<E>(events: Vec<E>) -> (batches: Vec<Vec<E>>)
    ensures
        chunks_view(batches@) == chunks_of(events@, MAX_METRICS_PER_ENVELOPE as nat),
{
    let ghost all = events@;
    let mut batches: Vec<Vec<E>> = Vec::new();
    let mut rest = events;
    while rest.len() > 0
        invariant
            chunks_view(batches@) + chunks_of(rest@, MAX_METRICS_PER_ENVELOPE as nat) == chunks_of(
                all,
                MAX_METRICS_PER_ENVELOPE as nat,
            ),
        decreases rest.len(),
    {
        let ghost before = chunks_view(batches@);
        if rest.len() <= MAX_METRICS_PER_ENVELOPE {
            let ghost r = rest@;
            let last = rest;
            rest = Vec::new();
            batches.push(last);
            assert(chunks_view(batches@) =~= before + seq![r]);
            assert(chunks_of(rest@, MAX_METRICS_PER_ENVELOPE as nat) =~= Seq::empty());
            assert(chunks_view(batches@) + chunks_of(rest@, MAX_METRICS_PER_ENVELOPE as nat)
                =~= before + chunks_of(r, MAX_METRICS_PER_ENVELOPE as nat));
        } else {
            let ghost r = rest@;
            let tail = rest.split_off(MAX_METRICS_PER_ENVELOPE);
            let head = rest;
            rest = tail;
            batches.push(head);
            assert(r.take(MAX_METRICS_PER_ENVELOPE as int) =~= head@);
            assert(r.skip(MAX_METRICS_PER_ENVELOPE as int) =~= rest@);
            assert(chunks_view(batches@) =~= before + seq![head@]);
            assert(chunks_view(batches@) + chunks_of(rest@, MAX_METRICS_PER_ENVELOPE as nat)
                =~= before + chunks_of(r, MAX_METRICS_PER_ENVELOPE as nat));
        }
    }
    assert(chunks_of(rest@, MAX_METRICS_PER_ENVELOPE as nat) =~= Seq::empty());
    assert(chunks_view(batches@) =~= chunks_view(batches@) + chunks_of(
        rest@,
        MAX_METRICS_PER_ENVELOPE as nat,
    ));
    batches
}

/// The metric events carried by `envs`, in order.
pub open spec fn metric_events<E>(envs: Seq<TelemetryEnvelope<E>>) -> Seq<E>
    decreases envs.len(),
{
    if envs.len() == 0 {
        Seq::empty()
    } else {
        metric_events(envs.drop_last()) + match envs.last() {
            TelemetryEnvelope::Metrics { events } => events@,
            _ => Seq::empty(),
        }
    }
}

/// The batches of metric events to store locally when no daemon took the
/// envelopes: every metric event of `envelopes`, in order, in batches of at
/// most `MAX_METRICS_PER_ENVELOPE`. Other envelopes are not stored.
pub fn store_metrics_envelopes_locally<E>(envelopes: Vec<TelemetryEnvelope<E>>) -> (batches: Vec<
    Vec<E>,
>)
    ensures
        chunks_view(batches@) == chunks_of(
            metric_events(envelopes@),
            MAX_METRICS_PER_ENVELOPE as nat,
        ),
{
    let ghost envs = envelopes@;
    // Reverse, so the envelopes can be taken in order from the back.
    let mut pending = envelopes;
    let mut reversed: Vec<TelemetryEnvelope<E>> = Vec::new();
    while pending.len() > 0
        invariant
            envs == pending@ + reversed@.reverse(),
        decreases pending.len(),
    {
        let ghost p = pending@;
        let ghost r = reversed@;
        let e = pending.pop().unwrap();
        reversed.push(e);
        assert(p =~= pending@.push(e));
        assert(reversed@.reverse() =~= seq![e] + r.reverse());
        assert(envs =~= pending@ + reversed@.reverse());
    }
    assert(pending@ + reversed@.reverse() =~= reversed@.reverse());
    let mut events: Vec<E> = Vec::new();
    let ghost mut done: Seq<TelemetryEnvelope<E>> = Seq::empty();
    while reversed.len() > 0
        invariant
            envs == done + reversed@.reverse(),
            events@ == metric_events(done),
        decreases reversed.len(),
    {
        let ghost r = reversed@;
        let e = reversed.pop().unwrap();
        assert(r.reverse() =~= seq![e] + reversed@.reverse());
        let ghost d = done;
        proof {
            done = done.push(e);
        }
        assert(done.drop_last() =~= d);
        match e {
            TelemetryEnvelope::Metrics { events: mut evs } => {
                events.append(&mut evs);
            },
            _ => {},
        }
        assert(envs =~= done + reversed@.reverse());
    }
    assert(done =~= envs);
    log_metrics(events)
}

/// How storing the batches of `store_metrics_envelopes_locally` goes on once
/// batch `index` of `total` was serialized and stored (`stored_ok`) or failed:
/// with the next batch, or no further. A failure ends the store, the earlier
/// batches staying stored, and its error is the store's error.
pub fn next_batch_to_store(index: usize, total: usize, stored_ok: bool) -> (next: Option<usize>)
    requires
        index < total,
    ensures
        next == (if stored_ok && index + 1 < total {
            Some((index + 1) as usize)
        } else {
            None::<usize>
        }),
{
    if stored_ok && index + 1 < total {
        Some(index + 1)
    } else {
        None
    }
}

/// Where telemetry envelopes are submitted, in order of preference.
#[derive(PartialEq, Eq, Structural, Debug, Clone, Copy)]
pub enum TelemetryRoute {
    /// The control socket of an external daemon.
    DaemonSocket,
    /// The telemetry worker of this process, when it is the daemon.
    DaemonWorker,
    /// Local storage of the metric events.
    LocalStore,
}

/// The route to try after `tried`: none once a route took the envelopes (or
/// after local storage), else the next route in order of preference.
/// Submission starts with `DaemonSocket`.
pub fn submit_telemetry_envelope(tried: TelemetryRoute, accepted: bool) -> (next: Option<
    TelemetryRoute,
>)
    ensures
        accepted ==> next is None,
        !accepted ==> next == match tried {
            TelemetryRoute::DaemonSocket => Some(TelemetryRoute::DaemonWorker),
            TelemetryRoute::DaemonWorker => Some(TelemetryRoute::LocalStore),
            TelemetryRoute::LocalStore => None::<TelemetryRoute>,
        },
{
    if accepted {
        return None;
    }
    match tried {
        TelemetryRoute::DaemonSocket => Some(TelemetryRoute::DaemonWorker),
        TelemetryRoute::DaemonWorker => Some(TelemetryRoute::LocalStore),
        TelemetryRoute::LocalStore => None,
    }
}

// ---------------------------------------------------------------------------
// Laws of batching.
/// Batching loses, repeats and reorders nothing: the batches, one after
/// another, are the events.
pub proof fn law_batches_concatenate_to_events<E>(s: Seq<E>, size: nat)
    requires
        size > 0,
    ensures
        flatten(chunks_of(s, size)) == s,
    decreases s.len(),
{
    if s.len() == 0 {
    } else if s.len() <= size {
        assert(chunks_of(s, size).drop_first() =~= Seq::<Seq<E>>::empty());
        assert(flatten(Seq::<Seq<E>>::empty()) == Seq::<E>::empty());
        assert(flatten(chunks_of(s, size)) == s + flatten(Seq::<Seq<E>>::empty()));
        assert(s + Seq::<E>::empty() =~= s);
    } else {
        law_batches_concatenate_to_events(s.skip(size as int), size);
        let c = chunks_of(s, size);
        assert(c.drop_first() =~= chunks_of(s.skip(size as int), size));
        assert(c[0] == s.take(size as int));
        assert(flatten(c) == c[0] + flatten(c.drop_first()));
        assert(s.take(size as int) + s.skip(size as int) =~= s);
    }
}

/// Every batch holds between one and `size` events, and every batch but the
/// last holds exactly `size`.
pub proof fn law_batch_sizes<E>(s: Seq<E>, size: nat)
    requires
        size > 0,
    ensures
        forall|k: int|
            0 <= k < chunks_of(s, size).len() ==> 0 < #[trigger] chunks_of(s, size)[k].len()
                <= size,
        forall|k: int|
            0 <= k < chunks_of(s, size).len() - 1 ==> #[trigger] chunks_of(s, size)[k].len()
                == size,
    decreases s.len(),
{
    if s.len() > size {
        law_batch_sizes(s.skip(size as int), size);
        let c = chunks_of(s, size);
        let r = chunks_of(s.skip(size as int), size);
        assert forall|k: int| 1 <= k < c.len() implies #[trigger] c[k] == r[k - 1] by {}
    }
}

} // verus!
