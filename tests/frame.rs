use pi_laser_link::frame::{add_checksum, pad_len, strip_checksum, validate, Fidelity, Threshold};

fn bits_of(v: u32) -> Vec<u32> {
    (0..32).map(|k| (v >> k) & 1).collect()
}

#[test]
fn checksum_sums_bytes_least_significant_bit_first() {
    // Groups 1,1,0,0,0,0,0,0 = 3 and 1 (padded with seven zeros) = 1.
    let payload = vec![1, 1, 0, 0, 0, 0, 0, 0, 1];
    let framed = add_checksum(&payload);
    assert_eq!(framed.len(), 16 + 32);
    assert_eq!(&framed[..9], &payload[..]);
    assert_eq!(&framed[9..16], &[0; 7][..]);
    assert_eq!(&framed[16..], &bits_of(4)[..]);
}

#[test]
fn checksum_of_empty_payload_is_zero() {
    assert_eq!(add_checksum(&Vec::new()), vec![0; 32]);
}

#[test]
fn checksum_of_full_bytes() {
    let payload = vec![1; 16];
    let framed = add_checksum(&payload);
    assert_eq!(&framed[16..], &bits_of(510)[..]);
}

#[test]
fn framed_payload_validates_with_full_fidelity() {
    let payload = vec![1, 0, 1, 1, 0, 0, 1, 0, 1, 1];
    let v = validate(&add_checksum(&payload), &Threshold::standard());
    assert!(v.is_valid);
    assert_eq!(v.fidelity, Fidelity { num: 1, den: 1 });
}

#[test]
fn all_zero_payload_validates_with_full_fidelity() {
    let v = validate(&add_checksum(&vec![0; 8]), &Threshold::standard());
    assert!(v.is_valid);
    assert!(v.fidelity.is_full());
}

#[test]
fn flipped_payload_bit_lowers_fidelity() {
    let payload = vec![1, 0, 1, 1, 0, 0, 1, 0, 1, 1];
    let mut framed = add_checksum(&payload);
    // Sum is 77 + 3 = 80; flipping bit 1 adds 2.
    framed[1] = 1;
    let v = validate(&framed, &Threshold::standard());
    assert_eq!(v.fidelity, Fidelity { num: 80, den: 82 });
    assert!(!v.fidelity.is_full());
    assert!(!v.is_valid);
}

#[test]
fn near_miss_within_margin_is_accepted() {
    // Payload byte 200, field claims 201: 200/201 exceeds 0.995.
    let mut framed = vec![0, 0, 0, 1, 0, 0, 1, 1];
    framed.extend(bits_of(201));
    let v = validate(&framed, &Threshold::standard());
    assert_eq!(v.fidelity, Fidelity { num: 200, den: 201 });
    assert!(v.is_valid);
}

#[test]
fn miss_at_margin_is_rejected() {
    // Payload byte 199, field claims 200: 199/200 is exactly 0.995.
    let mut framed = vec![1, 1, 1, 0, 0, 0, 1, 1];
    framed.extend(bits_of(200));
    let v = validate(&framed, &Threshold::standard());
    assert_eq!(v.fidelity, Fidelity { num: 199, den: 200 });
    assert!(!v.is_valid);
}

#[test]
fn short_frame_is_invalid() {
    let v = validate(&vec![0; 39], &Threshold::standard());
    assert!(!v.is_valid);
    assert_eq!(v.fidelity, Fidelity { num: 0, den: 1 });
    let v = validate(&vec![1; 39], &Threshold::standard());
    assert!(!v.is_valid);
    let v = validate(&Vec::new(), &Threshold::standard());
    assert!(!v.is_valid);
}

#[test]
fn empty_payload_frame_is_short() {
    let framed = add_checksum(&Vec::new());
    let v = validate(&framed, &Threshold::standard());
    assert!(!v.is_valid);
}

#[test]
fn one_bit_payload_is_padded_and_validates() {
    let framed = add_checksum(&vec![1]);
    assert_eq!(framed.len(), 40);
    assert_eq!(&framed[..8], &[1, 0, 0, 0, 0, 0, 0, 0][..]);
    assert_eq!(&framed[8..], &bits_of(1)[..]);
    let v = validate(&framed, &Threshold::standard());
    assert!(v.is_valid);
    assert!(v.fidelity.is_full());
}

#[test]
fn pad_lengths() {
    assert_eq!(pad_len(0), 0);
    assert_eq!(pad_len(1), 7);
    assert_eq!(pad_len(7), 1);
    assert_eq!(pad_len(8), 0);
    assert_eq!(pad_len(13), 3);
}

#[test]
fn strip_checksum_keeps_payload() {
    let payload = vec![1, 0, 0, 1, 1];
    let framed = add_checksum(&payload);
    assert_eq!(framed.len(), 40);
    assert_eq!(strip_checksum(&framed, pad_len(payload.len())), payload);
}

#[test]
fn standard_threshold_is_995_per_mille() {
    let t = Threshold::standard();
    assert_eq!((t.num, t.den), (995, 1000));
}

#[test]
fn every_single_payload_flip_lowers_fidelity() {
    let payload = vec![1, 0, 1, 1, 0, 0, 1, 0, 1, 1, 0, 1];
    let framed = add_checksum(&payload);
    for i in 0..payload.len() {
        let mut f = framed.clone();
        f[i] = 1 - f[i];
        let v = validate(&f, &Threshold::standard());
        assert!(v.fidelity.num < v.fidelity.den, "flip at {i}");
    }
}
