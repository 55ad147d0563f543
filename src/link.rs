//! The pulse-timing protocol: what the transmitter puts on the line, and how
//! the receiver turns measured pulse durations back into a message.
//!
//! A message goes out as an initiation pulse, one long pulse per frame bit of
//! value `1` and a short one per other bit, and a termination pulse. The receiver is a state
//! machine fed with the duration of each high pulse it measures; driving and
//! sampling the line is left to whoever runs the machine.
use vstd::prelude::*;
use crate::frame::{Fidelity, Threshold, validate, strip_checksum, validation_of, unframed};
use crate::huffman_code::{HuffTree, dec};

verus! {

/// What a measured pulse stands for.
#[derive(Clone, Copy, Debug, PartialEq, Eq, Structural)]
pub enum PulseClass {
    /// A data bit `0`.
    Short,
    /// A data bit `1`.
    Long,
    /// The start of a message.
    Initiation,
    /// The end of a message.
    Termination,
    /// Nothing: a duration outside every band.
    Noise,
}

/// Duration bands in microseconds, each inclusive. A duration of zero or less
/// is noise; so is one in a gap between two bands.
#[derive(Clone, Copy, Debug, PartialEq, Eq, Structural)]
pub struct Bands {
    pub short_max: i64,
    pub long_min: i64,
    pub long_max: i64,
    pub init_min: i64,
    pub init_max: i64,
    pub term_min: i64,
}

impl Bands {
    /// The bands follow one another without overlap.
    pub open spec fn wf(&self) -> bool {
        0 < self.short_max < self.long_min <= self.long_max < self.init_min <= self.init_max
            < self.term_min
    }

    /// Bands with wide dead zones: short up to 89, long 90 to 199,
    /// initiation 401 to 900, termination from 1001.
    pub fn standard() -> (r: Bands)
        ensures
            r.wf(),
            r == standard_bands(),
    {
        Bands {
            short_max: 89,
            long_min: 90,
            long_max: 199,
            init_min: 401,
            init_max: 900,
            term_min: 1001,
        }
    }
}

pub open spec fn standard_bands() -> Bands {
    Bands { short_max: 89, long_min: 90, long_max: 199, init_min: 401, init_max: 900, term_min: 1001 }
}

pub open spec fn standard_threshold() -> Threshold {
    Threshold { num: 995, den: 1000 }
}

/// The class of a pulse of `d` microseconds.
pub open spec fn class_of(b: Bands, d: i64) -> PulseClass {
    if d <= 0 {
        PulseClass::Noise
    } else if d <= b.short_max {
        PulseClass::Short
    } else if b.long_min <= d <= b.long_max {
        PulseClass::Long
    } else if b.init_min <= d <= b.init_max {
        PulseClass::Initiation
    } else if d >= b.term_min {
        PulseClass::Termination
    } else {
        PulseClass::Noise
    }
}

/// Classifies a pulse of `micros` microseconds.
pub fn classify(bands: &Bands, micros: i64) -> (r: PulseClass)
    ensures
        r == class_of(*bands, micros),
{
    if micros <= 0 {
        PulseClass::Noise
    } else if micros <= bands.short_max {
        PulseClass::Short
    } else if bands.long_min <= micros && micros <= bands.long_max {
        PulseClass::Long
    } else if bands.init_min <= micros && micros <= bands.init_max {
        PulseClass::Initiation
    } else if micros >= bands.term_min {
        PulseClass::Termination
    } else {
        PulseClass::Noise
    }
}

/// Where the receiver stands.
#[derive(Clone, Copy, Debug, PartialEq, Eq, Structural)]
pub enum Phase {
    /// Waiting for an initiation pulse.
    AwaitingInitiation,
    /// Collecting data bits until a termination pulse.
    ReceivingBits,
}

/// What the receiver hands out at the end of a message.
pub enum Reception {
    /// The frame was valid: the decoded message and the frame's fidelity.
    Message { text: String, fidelity: Fidelity },
    /// The frame was invalid and has been discarded.
    Corrupted { fidelity: Fidelity },
}

/// The receiving end of the link, fed with one pulse duration at a time.
pub struct Listener {
    pub huff_tree: HuffTree,
    pub bands: Bands,
    pub threshold: Threshold,
    /// Number of zero bits that pad the payload before the checksum field.
    pub pad: usize,
    pub phase: Phase,
    pub bits: Vec<u32>,
}

/// What a pulse does to the phase and the collected bits.
pub open spec fn next_state(phase: Phase, bits: Seq<u32>, c: PulseClass) -> (Phase, Seq<u32>) {
    match phase {
        Phase::AwaitingInitiation => if c == PulseClass::Initiation {
            (Phase::ReceivingBits, Seq::empty())
        } else {
            (Phase::AwaitingInitiation, bits)
        },
        Phase::ReceivingBits => match c {
            PulseClass::Short => (Phase::ReceivingBits, bits.push(0)),
            PulseClass::Long => (Phase::ReceivingBits, bits.push(1)),
            PulseClass::Termination => (Phase::AwaitingInitiation, Seq::empty()),
            _ => (Phase::ReceivingBits, bits),
        },
    }
}

impl Listener {
    /// A built tree, bands without overlap, a threshold below one, and a pad
    /// shorter than a byte.
    pub open spec fn wf(&self) -> bool {
        &&& self.huff_tree.wf()
        &&& self.huff_tree@ is Some
        &&& self.bands.wf()
        &&& self.threshold.wf()
        &&& self.pad < 8
    }

    /// A listener waiting for its first message, with the standard bands
    /// and acceptance threshold; `pad` is the pad length of the frames it
    /// will receive.
    pub fn new(huff_tree: HuffTree, pad: usize) -> (r: Listener)
        requires
            huff_tree.wf(),
            huff_tree@ is Some,
            pad < 8,
        ensures
            r.wf(),
            r.huff_tree == huff_tree,
            r.bands == standard_bands(),
            r.threshold == standard_threshold(),
            r.pad == pad,
            r.phase == Phase::AwaitingInitiation,
            r.bits@.len() == 0,
    {
        Listener::with_config(huff_tree, Bands::standard(), Threshold::standard(), pad)
    }

    /// A listener waiting for its first message.
    pub fn with_config(huff_tree: HuffTree, bands: Bands, threshold: Threshold, pad: usize) -> (r:
        Listener)
        requires
            huff_tree.wf(),
            huff_tree@ is Some,
            bands.wf(),
            threshold.wf(),
            pad < 8,
        ensures
            r.wf(),
            r.huff_tree == huff_tree,
            r.bands == bands,
            r.threshold == threshold,
            r.pad == pad,
            r.phase == Phase::AwaitingInitiation,
            r.bits@.len() == 0,
    {
        Listener {
            huff_tree,
            bands,
            threshold,
            pad,
            phase: Phase::AwaitingInitiation,
            bits: Vec::new(),
        }
    }

    /// Takes the duration of one measured pulse.
    ///
    /// While waiting, only an initiation pulse matters: it starts a message.
    /// While receiving, a short pulse adds a `0`, a long one a `1`, and a
    /// termination pulse ends the message: the collected bits are validated,
    /// and either decoded, checksum field and pad removed, or reported as
    /// corrupted. Everything else is noise.
    pub fn on_pulse(&mut self, micros: i64) -> (r: Option<Reception>)
        requires
            old(self).wf(),
        ensures
            final(self).wf(),
            final(self).huff_tree == old(self).huff_tree,
            final(self).bands == old(self).bands,
            final(self).threshold == old(self).threshold,
            final(self).pad == old(self).pad,
            (final(self).phase, final(self).bits@) == next_state(
                old(self).phase,
                old(self).bits@,
                class_of(old(self).bands, micros),
            ),
            ({
                let ends = old(self).phase == Phase::ReceivingBits && class_of(
                    old(self).bands,
                    micros,
                ) == PulseClass::Termination;
                let v = validation_of(old(self).bits@, old(self).threshold);
                let root = old(self).huff_tree@->Some_0;
                match r {
                    None => !ends,
                    Some(Reception::Message { text, fidelity }) => ends && v.is_valid && fidelity
                        == v.fidelity && text@ == dec(
                        root,
                        root,
                        unframed(old(self).bits@, old(self).pad as nat),
                    ),
                    Some(Reception::Corrupted { fidelity }) => ends && !v.is_valid && fidelity
                        == v.fidelity,
                }
            }),
    {
        let c = classify(&self.bands, micros);
        match self.phase {
            Phase::AwaitingInitiation => {
                if c == PulseClass::Initiation {
                    self.phase = Phase::ReceivingBits;
                    self.bits = Vec::new();
                }
                None
            },
            Phase::ReceivingBits => {
                match c {
                    PulseClass::Short => {
                        self.bits.push(0);
                        None
                    },
                    PulseClass::Long => {
                        self.bits.push(1);
                        None
                    },
                    PulseClass::Termination => {
                        let v = validate(&self.bits, &self.threshold);
                        let r = if v.is_valid {
                            let payload = strip_checksum(&self.bits, self.pad);
                            let text = self.huff_tree.decode(payload);
                            Reception::Message { text, fidelity: v.fidelity }
                        } else {
                            Reception::Corrupted { fidelity: v.fidelity }
                        };
                        self.phase = Phase::AwaitingInitiation;
                        self.bits = Vec::new();
                        Some(r)
                    },
                    _ => None,
                }
            },
        }
    }
}

/// One step of driving the output line: hold `level` for `micros` microseconds.
#[derive(Clone, Copy, Debug, PartialEq, Eq, Structural)]
pub struct Pulse {
    pub level: bool,
    pub micros: u64,
}

/// Durations in microseconds of what the transmitter puts on the line.
#[derive(Clone, Copy, Debug, PartialEq, Eq, Structural)]
pub struct Timing {
    /// Low time before and after the initiation pulse.
    pub settle: u64,
    /// High time of the initiation pulse.
    pub initiation: u64,
    /// High time of a `0`.
    pub zero: u64,
    /// High time of a `1`.
    pub one: u64,
    /// Low time after each data bit.
    pub gap: u64,
    /// High time of the termination pulse.
    pub termination: u64,
}

impl Timing {
    /// Data pulses are shorter than both markers, and the markers differ.
    pub open spec fn wf(&self) -> bool {
        &&& 0 < self.zero < self.one
        &&& self.one < self.initiation
        &&& self.one < self.termination
        &&& self.initiation != self.termination
    }

    /// Initiation 500, zero 10, one 25, gaps of 50 and termination 1000.
    pub fn standard() -> (r: Timing)
        ensures
            r.wf(),
            r == standard_timing(),
    {
        Timing { settle: 50, initiation: 500, zero: 10, one: 25, gap: 50, termination: 1000 }
    }
}

pub open spec fn standard_timing() -> Timing {
    Timing { settle: 50, initiation: 500, zero: 10, one: 25, gap: 50, termination: 1000 }
}

/// The pulses of one data bit: long for a `1`, short for anything else.
pub open spec fn bit_pulses(t: Timing, b: u32) -> Seq<Pulse> {
    seq![
        Pulse { level: true, micros: if b == 1 { t.one } else { t.zero } },
        Pulse { level: false, micros: t.gap },
    ]
}

/// The pulses of the data bits, in order.
pub open spec fn data_pulses(t: Timing, bits: Seq<u32>) -> Seq<Pulse>
    decreases bits.len(),
{
    if bits.len() == 0 {
        Seq::empty()
    } else {
        data_pulses(t, bits.drop_last()) + bit_pulses(t, bits.last())
    }
}

/// Everything the transmitter puts on the line for one frame: the line
/// brought low, the initiation pulse, the data bits, the termination pulse,
/// and the line left low.
pub open spec fn plan_of(t: Timing, bits: Seq<u32>) -> Seq<Pulse> {
    seq![
        Pulse { level: false, micros: t.settle },
        Pulse { level: true, micros: t.initiation },
        Pulse { level: false, micros: t.settle },
    ] + data_pulses(t, bits) + seq![
        Pulse { level: true, micros: t.termination },
        Pulse { level: false, micros: 0 },
    ]
}

/// The sending end of the link: a framed message and its timing.
pub struct Transmitter {
    pub encoded_message: Vec<u32>,
    pub timing: Timing,
}

impl Transmitter {
    /// A transmitter of `encoded_message` with the standard timing.
    pub fn new(encoded_message: Vec<u32>) -> (r: Transmitter)
        ensures
            r.encoded_message == encoded_message,
            r.timing == standard_timing(),
    {
        Transmitter { encoded_message, timing: Timing::standard() }
    }

    /// The pulses that send the message once.
    pub fn pulses(&self) -> (r: Vec<Pulse>)
        ensures
            r@ == plan_of(self.timing, self.encoded_message@),
    {
        let t = self.timing;
        let bits = &self.encoded_message;
        let mut out: Vec<Pulse> = Vec::new();
        out.push(Pulse { level: false, micros: t.settle });
        out.push(Pulse { level: true, micros: t.initiation });
        out.push(Pulse { level: false, micros: t.settle });
        let ghost head = out@;
        let mut i: usize = 0;
        while i < bits.len()
            invariant
                i <= bits@.len(),
                out@ == head + data_pulses(t, bits@.take(i as int)),
            decreases bits@.len() - i,
        {
            let high = if bits[i] == 1 { t.one } else { t.zero };
            out.push(Pulse { level: true, micros: high });
            out.push(Pulse { level: false, micros: t.gap });
            proof {
                assert(bits@.take(i + 1).drop_last() =~= bits@.take(i as int));
                assert(out@ =~= head + data_pulses(t, bits@.take(i + 1)));
            }
            i = i + 1;
        }
        out.push(Pulse { level: true, micros: t.termination });
        out.push(Pulse { level: false, micros: 0 });
        assert(bits@.take(bits@.len() as int) =~= bits@);
        assert(out@ =~= plan_of(t, bits@));
        out
    }
}

} // verus!
