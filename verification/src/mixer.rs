//! One clock for application capture and microphone-off recording: both sources are
//! cut into windows of the same span at the same timestamps. Silence fills what a
//! source did not deliver; it takes a time slot and is never appended by a second
//! producer. Samples are carried as the bits of their `f32` values.
use vstd::prelude::*;
use std::collections::VecDeque;
use crate::source::DeviceType;

verus! {

broadcast use vstd::std_specs::vecdeque::group_vec_dequeue_axioms;

/// The bits of a silent (`0.0`) sample.
pub const SILENCE: u32 = 0;

/// At most half a second of samples waits per source.
pub open spec fn latency_bound(sample_rate: u32) -> nat {
    (sample_rate / 2) as nat
}

/// A window is one twentieth of a second: 50 ms.
pub open spec fn window_len(sample_rate: u32) -> nat {
    (sample_rate / 20) as nat
}

/// How many of the oldest samples to discard so that `len` samples fit in `bound`.
pub open spec fn overflow(len: nat, bound: nat) -> nat {
    if len > bound {
        (len - bound) as nat
    } else {
        0
    }
}

/// `queue` after appending `samples` and discarding the oldest samples beyond `bound`.
pub open spec fn bounded_push(queue: Seq<u32>, samples: Seq<u32>, bound: nat) -> Seq<u32> {
    (queue + samples).skip(overflow((queue + samples).len(), bound) as int)
}

/// The first `w` samples of `queue`, with silence where it runs out.
pub open spec fn take_window(queue: Seq<u32>, w: nat) -> Seq<u32> {
    Seq::new(w, |i: int| if i < queue.len() { queue[i] } else { SILENCE })
}

/// `queue` without its first `w` samples.
pub open spec fn after_window(queue: Seq<u32>, w: nat) -> Seq<u32> {
    if queue.len() <= w {
        Seq::empty()
    } else {
        queue.skip(w as int)
    }
}

/// The state of a mixer as mathematical values.
#[verifier::ext_equal]
pub struct MixerView {
    pub mic: Seq<u32>,
    pub system: Seq<u32>,
    pub sample_rate: u32,
    pub emitted: nat,
}

pub open spec fn queue_of(v: MixerView, source: DeviceType) -> Seq<u32> {
    match source {
        DeviceType::Microphone => v.mic,
        DeviceType::System => v.system,
    }
}

/// One call on a mixer, as a mathematical value.
pub enum MixerCall {
    Push { source: DeviceType, samples: Seq<u32> },
    Clear,
    Pop { target: nat },
}

/// The mixer after one call, and the start of the window that call returned, if any.
pub open spec fn mixer_step(v: MixerView, c: MixerCall) -> (MixerView, Option<nat>) {
    match c {
        MixerCall::Push { source, samples } => (
            match source {
                DeviceType::Microphone => MixerView {
                    mic: bounded_push(v.mic, samples, latency_bound(v.sample_rate)),
                    ..v
                },
                DeviceType::System => MixerView {
                    system: bounded_push(v.system, samples, latency_bound(v.sample_rate)),
                    ..v
                },
            },
            None,
        ),
        MixerCall::Clear => (MixerView { mic: seq![], system: seq![], ..v }, None),
        MixerCall::Pop { target } => {
            let w = window_len(v.sample_rate);
            if v.emitted + w > target {
                (v, None)
            } else {
                (
                    MixerView {
                        mic: after_window(v.mic, w),
                        system: after_window(v.system, w),
                        sample_rate: v.sample_rate,
                        emitted: v.emitted + w,
                    },
                    Some(v.emitted),
                )
            }
        },
    }
}

/// The mixer after a sequence of calls, and the starts of the windows returned, in order.
pub open spec fn mixer_run(v: MixerView, calls: Seq<MixerCall>) -> (MixerView, Seq<nat>)
    decreases calls.len(),
{
    if calls.len() == 0 {
        (v, seq![])
    } else {
        let (u, starts) = mixer_run(v, calls.drop_last());
        let (w, start) = mixer_step(u, calls.last());
        (
            w,
            match start {
                Some(t) => starts.push(t),
                None => starts,
            },
        )
    }
}

pub open spec fn opt_start(r: Option<(Vec<u32>, Vec<u32>, usize)>) -> Option<nat> {
    match r {
        Some((_, _, start)) => Some(start as nat),
        None => None,
    }
}

/// Bounded, single-clock windows of microphone and system samples.
pub struct ClockedMixer {
    mic: VecDeque<u32>,
    system: VecDeque<u32>,
    sample_rate: u32,
    emitted: usize,
}

impl View for ClockedMixer {
    type V = MixerView;

    closed spec fn view(&self) -> MixerView {
        MixerView {
            mic: self.mic@,
            system: self.system@,
            sample_rate: self.sample_rate,
            emitted: self.emitted as nat,
        }
    }
}

/// No source holds more than the latency bound.
pub open spec fn mixer_well_formed(v: MixerView) -> bool {
    v.mic.len() <= latency_bound(v.sample_rate) && v.system.len() <= latency_bound(v.sample_rate)
}

fn push_bounded(queue: &mut VecDeque<u32>, samples: Vec<u32>, bound: usize)
    ensures
        final(queue)@ == bounded_push(old(queue)@, samples@, bound as nat),
{
    let ghost all = old(queue)@ + samples@;
    let mut i: usize = 0;
    while i < samples.len()
        invariant
            i <= samples@.len(),
            all == old(queue)@ + samples@,
            queue@ == old(queue)@ + samples@.take(i as int),
        decreases samples.len() - i,
    {
        queue.push_back(samples[i]);
        assert(samples@.take(i + 1) =~= samples@.take(i as int).push(samples@[i as int]));
        i += 1;
    }
    assert(samples@.take(samples.len() as int) =~= samples@);
    assert(queue@ =~= all);
    let over = if queue.len() > bound {
        queue.len() - bound
    } else {
        0
    };
    let mut j: usize = 0;
    assert(all.skip(0) =~= all);
    while j < over
        invariant
            j <= over,
            over <= all.len(),
            over == overflow(all.len(), bound as nat),
            queue@ == all.skip(j as int),
        decreases over - j,
    {
        let _ = queue.pop_front();
        assert(all.skip(j as int).subrange(1, all.skip(j as int).len() as int) =~= all.skip(j + 1));
        j += 1;
    }
}

fn take_front(queue: &mut VecDeque<u32>, w: usize) -> (r: Vec<u32>)
    ensures
        r@ == take_window(old(queue)@, w as nat),
        final(queue)@ == after_window(old(queue)@, w as nat),
{
    let ghost q = old(queue)@;
    let mut out: Vec<u32> = Vec::new();
    let mut k: usize = 0;
    while k < w
        invariant
            k <= w,
            q == old(queue)@,
            out@ == take_window(q, k as nat),
            queue@ == (if q.len() <= k {
                Seq::<u32>::empty()
            } else {
                q.skip(k as int)
            }),
        decreases w - k,
    {
        let ghost before = queue@;
        let sample = match queue.pop_front() {
            Some(s) => s,
            None => SILENCE,
        };
        out.push(sample);
        proof {
            if k < q.len() {
                assert(before[0] == q[k as int]);
                if q.len() > k + 1 {
                    assert(queue@ =~= q.skip(k + 1));
                } else {
                    assert(queue@ =~= Seq::<u32>::empty());
                }
            }
        }
        assert(out@ =~= take_window(q, (k + 1) as nat));
        k += 1;
    }
    out
}

impl ClockedMixer {
    /// No source holds more than the latency bound.
    #[verifier::type_invariant]
    spec fn inv(&self) -> bool {
        mixer_well_formed(self@)
    }

    /// A mixer at time zero with nothing queued.
    pub fn new(sample_rate: u32) -> (r: Self)
        ensures
            mixer_well_formed(r@),
            r@ == (MixerView { mic: seq![], system: seq![], sample_rate, emitted: 0 }),
    {
        ClockedMixer { mic: VecDeque::new(), system: VecDeque::new(), sample_rate, emitted: 0 }
    }

    /// Queues samples of one source. Only the newest half second waits, which bounds
    /// latency and memory after a suspended process or a delayed callback.
    pub fn push(&mut self, source: DeviceType, samples: Vec<u32>)
        ensures
            mixer_well_formed(final(self)@),
            queue_of(final(self)@, source) == bounded_push(
                queue_of(old(self)@, source),
                samples@,
                latency_bound(old(self)@.sample_rate),
            ),
            source == DeviceType::Microphone ==> final(self)@.system == old(self)@.system,
            source == DeviceType::System ==> final(self)@.mic == old(self)@.mic,
            final(self)@.sample_rate == old(self)@.sample_rate,
            final(self)@.emitted == old(self)@.emitted,
            final(self)@ == mixer_step(old(self)@, MixerCall::Push { source, samples: samples@ }).0,
    {
        proof {
            use_type_invariant(&*self);
        }
        let bound = (self.sample_rate / 2) as usize;
        let mut queue: VecDeque<u32> = VecDeque::new();
        match source {
            DeviceType::Microphone => std::mem::swap(&mut queue, &mut self.mic),
            DeviceType::System => std::mem::swap(&mut queue, &mut self.system),
        }
        push_bounded(&mut queue, samples, bound);
        match source {
            DeviceType::Microphone => self.mic = queue,
            DeviceType::System => self.system = queue,
        }
    }

    /// Discards every queued sample without moving the clock.
    pub fn clear_pending(&mut self)
        ensures
            mixer_well_formed(final(self)@),
            final(self)@ == (MixerView { mic: seq![], system: seq![], ..old(self)@ }),
            final(self)@ == mixer_step(old(self)@, MixerCall::Clear).0,
    {
        proof {
            use_type_invariant(&*self);
        }
        self.mic = VecDeque::new();
        self.system = VecDeque::new();
    }

    /// The next window of both sources once the clock has reached `target_samples`
    /// samples: the microphone window, the system window and the sample index at
    /// which they start. None, with nothing changed, while the next window would end
    /// after the target.
    pub fn pop_until(&mut self, target_samples: usize) -> (r: Option<(Vec<u32>, Vec<u32>, usize)>)
        ensures
            mixer_well_formed(final(self)@),
            ({
                let v = old(self)@;
                let w = window_len(v.sample_rate);
                if v.emitted + w > target_samples {
                    r is None && final(self)@ == v
                } else {
                    r matches Some((mic, system, start)) && mic@ == take_window(v.mic, w) && system@
                        == take_window(v.system, w) && start == v.emitted && final(self)@ == (
                    MixerView {
                        mic: after_window(v.mic, w),
                        system: after_window(v.system, w),
                        sample_rate: v.sample_rate,
                        emitted: v.emitted + w,
                    })
                }
            }),
            final(self)@ == mixer_step(old(self)@, MixerCall::Pop { target: target_samples as nat }).0,
            opt_start(r) == mixer_step(old(self)@, MixerCall::Pop { target: target_samples as nat }).1,
    {
        proof {
            use_type_invariant(&*self);
        }
        let window = (self.sample_rate / 20) as usize;
        if target_samples < window || self.emitted > target_samples - window {
            return None;
        }
        let start = self.emitted;
        self.emitted = self.emitted + window;
        let mut mic_queue: VecDeque<u32> = VecDeque::new();
        std::mem::swap(&mut mic_queue, &mut self.mic);
        let mic = take_front(&mut mic_queue, window);
        self.mic = mic_queue;
        let mut system_queue: VecDeque<u32> = VecDeque::new();
        std::mem::swap(&mut system_queue, &mut self.system);
        let system = take_front(&mut system_queue, window);
        self.system = system_queue;
        Some((mic, system, start))
    }
}


/// Queuing keeps the newest samples: the result is the last `min(len, bound)` samples
/// of the queue followed by the new samples.
pub proof fn law_push_keeps_newest(queue: Seq<u32>, samples: Seq<u32>, bound: nat)
    ensures
        bounded_push(queue, samples, bound).len() == if (queue + samples).len() <= bound {
            (queue + samples).len()
        } else {
            bound
        },
        bounded_push(queue, samples, bound) == (queue + samples).subrange(
            (queue + samples).len() - bounded_push(queue, samples, bound).len(),
            (queue + samples).len() as int,
        ),
{
    let all = queue + samples;
    assert(all.skip(overflow(all.len(), bound) as int) =~= all.subrange(
        overflow(all.len(), bound) as int,
        all.len() as int,
    ));
}

/// Nothing is discarded while the queued samples fit in the bound.
pub proof fn law_push_within_bound_keeps_all(queue: Seq<u32>, samples: Seq<u32>, bound: nat)
    requires
        queue.len() + samples.len() <= bound,
    ensures
        bounded_push(queue, samples, bound) == queue + samples,
{
    assert((queue + samples).skip(0) =~= queue + samples);
}

/// A source that delivered nothing contributes a window of silence.
pub proof fn law_gaps_are_silence(w: nat)
    ensures
        take_window(Seq::empty(), w) == Seq::new(w, |i: int| SILENCE),
        after_window(Seq::empty(), w) == Seq::<u32>::empty(),
{
    assert(take_window(Seq::empty(), w) =~= Seq::new(w, |i: int| SILENCE));
}

/// A window and what remains after it are the queue again, in order, when the queue
/// holds at least a window; otherwise the window is the queue followed by silence.
pub proof fn law_window_splits_queue(queue: Seq<u32>, w: nat)
    ensures
        queue.len() >= w ==> take_window(queue, w) + after_window(queue, w) == queue,
        queue.len() < w ==> take_window(queue, w) == queue + Seq::new(
            (w - queue.len()) as nat,
            |i: int| SILENCE,
        ) && after_window(queue, w) == Seq::<u32>::empty(),
{
    if queue.len() >= w {
        if queue.len() == w {
            assert(take_window(queue, w) =~= queue);
            assert(take_window(queue, w) + after_window(queue, w) =~= queue);
        } else {
            assert(take_window(queue, w) + after_window(queue, w) =~= queue);
        }
    } else {
        assert(take_window(queue, w) =~= queue + Seq::new((w - queue.len()) as nat, |i: int| SILENCE));
    }
}


/// Over any sequence of calls, the k-th window returned starts k windows after the
/// clock's start, and the clock has advanced by one window per window returned:
/// queuing and discarding samples never move it.
pub proof fn law_window_starts(v: MixerView, calls: Seq<MixerCall>)
    ensures
        mixer_run(v, calls).0.sample_rate == v.sample_rate,
        mixer_run(v, calls).0.emitted == v.emitted + mixer_run(v, calls).1.len() * window_len(v.sample_rate),
        forall|k: int|
            0 <= k < mixer_run(v, calls).1.len() ==> #[trigger] mixer_run(v, calls).1[k] == v.emitted + k
                * window_len(v.sample_rate),
    decreases calls.len(),
{
    if calls.len() > 0 {
        law_window_starts(v, calls.drop_last());
        let (u, starts) = mixer_run(v, calls.drop_last());
        let w = window_len(v.sample_rate);
        let n = starts.len();
        assert(v.emitted + (n + 1) * w == v.emitted + n * w + w) by (nonlinear_arith);
        let r = mixer_run(v, calls).1;
        assert forall|k: int| 0 <= k < r.len() implies #[trigger] r[k] == v.emitted + k * w by {
            if k < n {
                assert(r[k] == starts[k]);
            }
        }
    }
}

/// With a window of at least one sample, calls whose targets reach at most `target`
/// return at most `target / window` windows in all, so draining to a fixed target ends.
pub proof fn law_windows_bounded(v: MixerView, calls: Seq<MixerCall>, target: nat)
    requires
        window_len(v.sample_rate) > 0,
        forall|i: int| 0 <= i < calls.len() ==> (#[trigger] calls[i] matches MixerCall::Pop { target: t }
            ==> t <= target),
    ensures
        mixer_run(v, calls).1.len() == 0 || v.emitted + mixer_run(v, calls).1.len() * window_len(
            v.sample_rate,
        ) <= target,
        v.emitted == 0 ==> mixer_run(v, calls).1.len() <= target / window_len(v.sample_rate),
    decreases calls.len(),
{
    let w = window_len(v.sample_rate);
    if calls.len() > 0 {
        assert forall|i: int| 0 <= i < calls.drop_last().len() implies (#[trigger] calls.drop_last()[i] matches MixerCall::Pop {
            target: t,
        } ==> t <= target) by {
            assert(calls.drop_last()[i] == calls[i]);
        }
        law_windows_bounded(v, calls.drop_last(), target);
        law_window_starts(v, calls.drop_last());
        assert(calls.last() == calls[calls.len() - 1]);
        let (u, starts) = mixer_run(v, calls.drop_last());
        let n = starts.len();
        assert(v.emitted + (n + 1) * w == v.emitted + n * w + w) by (nonlinear_arith);
    }
    let n = mixer_run(v, calls).1.len();
    if v.emitted == 0 && n > 0 {
        assert(n <= target / w) by (nonlinear_arith)
            requires
                n * w <= target,
                w > 0,
        ;
    }
}


/// A source keeps up to half a second of samples at the mixer's rate: pushing
/// samples that fit, with what waits, in `sample_rate / 2` keeps them all, in order,
/// after what waits; beyond that only the newest `sample_rate / 2` samples stay.
pub proof fn law_half_second_kept(v: MixerView, source: DeviceType, samples: Seq<u32>)
    ensures
        queue_of(v, source).len() + samples.len() <= v.sample_rate / 2 ==> queue_of(
            mixer_step(v, MixerCall::Push { source, samples }).0,
            source,
        ) == queue_of(v, source) + samples,
        queue_of(v, source).len() + samples.len() > v.sample_rate / 2 ==> queue_of(
            mixer_step(v, MixerCall::Push { source, samples }).0,
            source,
        ) == (queue_of(v, source) + samples).subrange(
            queue_of(v, source).len() + samples.len() - v.sample_rate / 2,
            (queue_of(v, source).len() + samples.len()) as int,
        ),
        mixer_step(v, MixerCall::Push { source, samples }).0.emitted == v.emitted,
{
    let all = queue_of(v, source) + samples;
    assert(all.skip(0) =~= all);
    assert(all.skip(overflow(all.len(), latency_bound(v.sample_rate)) as int) =~= all.subrange(
        overflow(all.len(), latency_bound(v.sample_rate)) as int,
        all.len() as int,
    ));
}


/// Windows are 50 ms long: a pop returns a window exactly when the clock plus one
/// twentieth of a second of samples reaches the target, and then advances the clock
/// by exactly that many samples.
pub proof fn law_fifty_ms_windows(v: MixerView, target: nat)
    ensures
        mixer_step(v, MixerCall::Pop { target }).1 is Some <==> v.emitted + v.sample_rate / 20 <= target,
        mixer_step(v, MixerCall::Pop { target }).1 is Some ==> mixer_step(v, MixerCall::Pop { target }).1
            == Some(v.emitted) && mixer_step(v, MixerCall::Pop { target }).0.emitted == v.emitted
            + v.sample_rate / 20,
        mixer_step(v, MixerCall::Pop { target }).1 is None ==> mixer_step(v, MixerCall::Pop { target }).0
            == v,
        take_window(v.mic, (v.sample_rate / 20) as nat).len() == v.sample_rate / 20,
{
}

} // verus!
