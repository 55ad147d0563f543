use pi_laser_link::frame::{pad_len, Fidelity};
use pi_laser_link::huffman_code::HuffTree;
use pi_laser_link::link::{
    classify, Bands, Listener, Phase, Pulse, PulseClass, Reception, Transmitter,
};

fn tree_of(message: &str) -> HuffTree {
    let mut tree = HuffTree::new();
    tree.build_tree(&HuffTree::create_frequency_map(&message.to_string()));
    tree
}

fn listener_for(message: &str) -> Listener {
    let tree = tree_of(message);
    let payload = tree.encode_string(&message.to_string()).unwrap();
    Listener::new(tree, pad_len(payload.len()))
}

fn scenario_bands() -> Bands {
    Bands {
        short_max: 95,
        long_min: 96,
        long_max: 200,
        init_min: 401,
        init_max: 900,
        term_min: 1000,
    }
}

#[test]
fn scenario_pulses_classify() {
    let b = scenario_bands();
    assert_eq!(classify(&b, 500), PulseClass::Initiation);
    assert_eq!(classify(&b, 10), PulseClass::Short);
    // With these bands a long pulse must last at least 96 us: 25 us is short.
    assert_eq!(classify(&b, 25), PulseClass::Short);
    assert_eq!(classify(&b, 150), PulseClass::Long);
    assert_eq!(classify(&b, 1000), PulseClass::Termination);
}

#[test]
fn band_edges_classify() {
    let b = scenario_bands();
    assert_eq!(classify(&b, 0), PulseClass::Noise);
    assert_eq!(classify(&b, -5), PulseClass::Noise);
    assert_eq!(classify(&b, 1), PulseClass::Short);
    assert_eq!(classify(&b, 95), PulseClass::Short);
    assert_eq!(classify(&b, 96), PulseClass::Long);
    assert_eq!(classify(&b, 200), PulseClass::Long);
    assert_eq!(classify(&b, 201), PulseClass::Noise);
    assert_eq!(classify(&b, 400), PulseClass::Noise);
    assert_eq!(classify(&b, 401), PulseClass::Initiation);
    assert_eq!(classify(&b, 900), PulseClass::Initiation);
    assert_eq!(classify(&b, 901), PulseClass::Noise);
    assert_eq!(classify(&b, 999), PulseClass::Noise);
    assert_eq!(classify(&b, i64::MAX), PulseClass::Termination);
}

#[test]
fn standard_bands_classify() {
    let b = Bands::standard();
    assert_eq!(classify(&b, 89), PulseClass::Short);
    assert_eq!(classify(&b, 90), PulseClass::Long);
    assert_eq!(classify(&b, 199), PulseClass::Long);
    assert_eq!(classify(&b, 500), PulseClass::Initiation);
    assert_eq!(classify(&b, 1000), PulseClass::Noise);
    assert_eq!(classify(&b, 1001), PulseClass::Termination);
}

fn feed(listener: &mut Listener, durations: &[i64]) -> Vec<Reception> {
    durations.iter().filter_map(|d| listener.on_pulse(*d)).collect()
}

fn durations_of(bits: &[u32]) -> Vec<i64> {
    let mut d = vec![500];
    d.extend(bits.iter().map(|b| if *b == 0 { 40 } else { 150 }));
    d.push(2000);
    d
}

#[test]
fn listener_receives_a_message() {
    let message = "abbccc hello";
    let mut sender = tree_of(message);
    let framed = sender.encode(message.to_string());
    let mut listener = listener_for(message);
    let out = feed(&mut listener, &durations_of(&framed));
    assert_eq!(out.len(), 1);
    match &out[0] {
        Reception::Message { text, fidelity } => {
            assert_eq!(text, message);
            assert_eq!(*fidelity, Fidelity { num: 1, den: 1 });
        }
        Reception::Corrupted { .. } => panic!("frame should be valid"),
    }
    assert_eq!(listener.phase, Phase::AwaitingInitiation);
    assert!(listener.bits.is_empty());
}

#[test]
fn listener_ignores_noise_and_pulses_before_initiation() {
    let message = "abbccc";
    let mut sender = tree_of(message);
    let framed = sender.encode(message.to_string());
    let mut listener = listener_for(message);
    let mut d = vec![40, 150, 2000, 300];
    let mut body = durations_of(&framed);
    body.insert(3, 300);
    body.insert(5, 0);
    d.extend(body);
    let out = feed(&mut listener, &d);
    assert_eq!(out.len(), 1);
    assert!(matches!(&out[0], Reception::Message { text, .. } if text == message));
}

#[test]
fn listener_reports_corrupted_frame() {
    let message = "abbccc";
    let mut sender = tree_of(message);
    let mut framed = sender.encode(message.to_string());
    framed[0] = 1 - framed[0];
    let mut listener = listener_for(message);
    let out = feed(&mut listener, &durations_of(&framed));
    assert_eq!(out.len(), 1);
    match &out[0] {
        Reception::Corrupted { fidelity } => assert!(!fidelity.is_full()),
        Reception::Message { .. } => panic!("frame should be corrupted"),
    }
}

#[test]
fn listener_reports_short_frame_as_corrupted() {
    let mut listener = Listener::new(tree_of("ab"), 0);
    let framed = vec![1; 20];
    let out = feed(&mut listener, &durations_of(&framed));
    assert_eq!(out.len(), 1);
    match &out[0] {
        Reception::Corrupted { fidelity } => assert_eq!(*fidelity, Fidelity { num: 0, den: 1 }),
        Reception::Message { .. } => panic!("short frame must not be decoded"),
    }
}

#[test]
fn listener_restarts_after_each_message() {
    let message = "abc abc";
    let mut sender = tree_of(message);
    let framed = sender.encode(message.to_string());
    let mut listener = listener_for(message);
    let mut d = durations_of(&framed);
    d.extend(durations_of(&framed));
    let out = feed(&mut listener, &d);
    assert_eq!(out.len(), 2);
}

#[test]
fn initiation_starts_collecting() {
    let mut listener = Listener::new(tree_of("ab"), 0);
    assert!(listener.on_pulse(40).is_none());
    assert_eq!(listener.phase, Phase::AwaitingInitiation);
    assert!(listener.bits.is_empty());
    assert!(listener.on_pulse(600).is_none());
    assert_eq!(listener.phase, Phase::ReceivingBits);
    listener.on_pulse(40);
    listener.on_pulse(150);
    listener.on_pulse(250);
    assert_eq!(listener.bits, vec![0, 1]);
}

#[test]
fn transmitter_plans_pulses() {
    let t = Transmitter::new(vec![0, 1]);
    let p = |level: bool, micros: u64| Pulse { level, micros };
    assert_eq!(
        t.pulses(),
        vec![
            p(false, 50),
            p(true, 500),
            p(false, 50),
            p(true, 10),
            p(false, 50),
            p(true, 25),
            p(false, 50),
            p(true, 1000),
            p(false, 0),
        ]
    );
}

#[test]
fn listener_receives_one_symbol_messages() {
    for message in ["a", "ab", "aaaa"] {
        let mut sender = tree_of(message);
        let framed = sender.encode(message.to_string());
        let mut listener = listener_for(message);
        let out = feed(&mut listener, &durations_of(&framed));
        assert_eq!(out.len(), 1);
        match &out[0] {
            Reception::Message { text, fidelity } => {
                assert_eq!(text, message);
                assert!(fidelity.is_full());
            }
            Reception::Corrupted { .. } => panic!("frame of {message:?} should be valid"),
        }
    }
}

#[test]
fn padded_frame_strips_to_payload() {
    let message = "abbccc";
    let mut sender = tree_of(message);
    let framed = sender.encode(message.to_string());
    assert_eq!(framed.len(), 48);
    let mut listener = Listener::new(tree_of(message), 7);
    let out = feed(&mut listener, &durations_of(&framed));
    assert!(matches!(&out[0], Reception::Message { text, .. } if text == message));
}

#[test]
fn only_a_one_is_sent_long() {
    let t = Transmitter::new(vec![2, 1, 0]);
    let highs: Vec<u64> = t.pulses().iter().filter(|p| p.level).map(|p| p.micros).collect();
    assert_eq!(highs, vec![500, 10, 25, 10, 1000]);
}
