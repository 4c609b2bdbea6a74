use vector_store::{quantize, squared_norm, Filter, Node, StoreError, VectorStore, MAX_NORM_SQ};

fn bits(values: &[f32]) -> Vec<u32> {
    values.iter().map(|x| x.to_bits()).collect()
}

#[test]
fn unit_vector_keeps_twenty_one_bits() {
    assert_eq!(quantize(&bits(&[1.0, 0.0])), Ok(vec![1 << 21, 0]));
    assert_eq!(quantize(&bits(&[0.0, -1.0])), Ok(vec![0, -(1 << 21)]));
}

#[test]
fn equal_components_exact_value() {
    // 0.7 is 0xb33333 * 2^-24; three halvings bring the vector within reach.
    assert_eq!(0.7f32.to_bits(), 0x3f33_3333);
    assert_eq!(quantize(&bits(&[0.7, 0.7])), Ok(vec![0xb3_3333 >> 3, 0xb3_3333 >> 3]));
    assert_eq!(quantize(&bits(&[0.7, 0.7])), Ok(vec![1_468_006, 1_468_006]));
}

#[test]
fn components_are_aligned_to_the_largest() {
    assert_eq!(quantize(&bits(&[-1.0, 0.5])), Ok(vec![-(1 << 20), 1 << 19]));
    assert_eq!(quantize(&bits(&[3.0, 4.0])), Ok(vec![3 << 18, 4 << 18]));
    assert_eq!(quantize(&bits(&[0.25, -0.125, 0.0625])), Ok(vec![1 << 20, -(1 << 19), 1 << 18]));
}

#[test]
fn scaling_by_a_power_of_two_does_not_matter() {
    let plain = quantize(&bits(&[3.0, -4.0, 1.0])).unwrap();
    assert_eq!(plain, vec![3 << 18, -(4 << 18), 1 << 18]);
    let down = 2.0f32.powi(-100);
    let up = 2.0f32.powi(100);
    assert_eq!(quantize(&bits(&[3.0 * down, -4.0 * down, 1.0 * down])).unwrap(), plain);
    assert_eq!(quantize(&bits(&[3.0 * up, -4.0 * up, 1.0 * up])).unwrap(), plain);
}

#[test]
fn tiny_components_beside_a_large_one_vanish() {
    assert_eq!(quantize(&bits(&[f32::MAX, 1.0])), Ok(vec![0xff_ffff >> 3, 0]));
    assert_eq!(quantize(&bits(&[1.0, 1.0e-10])), Ok(vec![1 << 21, 0]));
}

#[test]
fn zeros_stay_zeros() {
    assert_eq!(quantize(&bits(&[0.0, -0.0, 0.0])), Ok(vec![0, 0, 0]));
    assert_eq!(quantize(&Vec::new()), Ok(Vec::new()));
}

#[test]
fn subnormal_numbers_are_kept() {
    assert_eq!(quantize(&vec![1]), Ok(vec![1]));
    assert_eq!(quantize(&vec![0x8000_0003, 1]), Ok(vec![-3, 1]));
    let smallest_normal = f32::MIN_POSITIVE.to_bits();
    assert_eq!(quantize(&vec![smallest_normal, 0x0040_0000]), Ok(vec![1 << 20, 1 << 19]));
    assert_eq!(quantize(&vec![smallest_normal, 0]), Ok(vec![1 << 21, 0]));
}

#[test]
fn infinities_and_nans_are_invalid() {
    assert_eq!(quantize(&bits(&[1.0, f32::NAN])), Err(StoreError::InvalidScore));
    assert_eq!(quantize(&bits(&[f32::INFINITY])), Err(StoreError::InvalidScore));
    assert_eq!(quantize(&bits(&[0.0, f32::NEG_INFINITY, 2.0])), Err(StoreError::InvalidScore));
    assert_eq!(quantize(&vec![0x7fc0_0001]), Err(StoreError::InvalidScore));
    assert_eq!(quantize(&vec![0xffff_ffff]), Err(StoreError::InvalidScore));
    assert_eq!(quantize(&bits(&[f32::MAX, f32::MIN])).map(|v| v.len()), Ok(2));
}

#[test]
fn quantized_vectors_can_always_be_scored() {
    let inputs: Vec<Vec<f32>> = vec![
        vec![1.0; 4096],
        vec![f32::MAX; 300],
        vec![-f32::MIN_POSITIVE; 77],
        (0..1000).map(|i| (i as f32) * 0.37 - 150.0).collect(),
        vec![1.0e-40, 2.0e-40, -3.0e-40],
    ];
    for input in &inputs {
        let vector = quantize(&bits(input)).unwrap();
        assert_eq!(vector.len(), input.len());
        let norm = squared_norm(&vector).unwrap();
        assert!(norm <= MAX_NORM_SQ);
        assert!(norm > 0);
        for (q, x) in vector.iter().zip(input.iter()) {
            assert!(*q == 0 || (*q > 0) == (*x > 0.0));
        }
    }
}

#[test]
fn end_to_end_from_provider_numbers() {
    let tag = |v: &str| Filter::new("topic".to_string(), v.to_string());
    let mut store = VectorStore::new("m");
    for (text, label, embedding) in [
        ("east", "a", [1.0f32, 0.0]),
        ("north", "b", [0.0, 1.0]),
        ("north-east", "a", [0.7, 0.7]),
    ] {
        store.add(text.to_string(), tag(label), quantize(&bits(&embedding)).unwrap()).unwrap();
    }
    store.set_top_k(2);
    let probe = Node::new(String::new(), 0, tag(""), quantize(&bits(&[1.0, 0.0])).unwrap());
    let found = store.query(&probe, Vec::new()).unwrap();
    let ids: Vec<usize> = found.iter().map(|n| n.text_id()).collect();
    assert_eq!(ids, vec![1, 3]);
    let filtered = store.query(&probe, vec![tag("a")]).unwrap();
    let ids: Vec<usize> = filtered.iter().map(|n| n.text_id()).collect();
    assert_eq!(ids, vec![1, 3]);
}

#[test]
fn first_vector_of_a_reply_is_the_embedding() {
    let reply = vec![bits(&[1.0, 0.0]), bits(&[0.0, 1.0])];
    assert_eq!(vector_store::first_vector(&reply), Some(Ok(vec![1 << 21, 0])));
    let single = vec![bits(&[-1.0, 0.5])];
    assert_eq!(vector_store::first_vector(&single), Some(Ok(vec![-(1 << 20), 1 << 19])));
    let empty_vector = vec![Vec::new()];
    assert_eq!(vector_store::first_vector(&empty_vector), Some(Ok(Vec::new())));
}

#[test]
fn empty_reply_holds_no_embedding() {
    assert_eq!(vector_store::first_vector(&Vec::new()), None);
}

#[test]
fn first_vector_must_be_finite() {
    let reply = vec![bits(&[1.0, f32::NAN]), bits(&[0.0, 1.0])];
    assert_eq!(vector_store::first_vector(&reply), Some(Err(StoreError::InvalidScore)));
    // Only the first vector is looked at.
    let later = vec![bits(&[0.0, 1.0]), bits(&[f32::INFINITY, 1.0])];
    assert_eq!(vector_store::first_vector(&later), Some(Ok(vec![0, 1 << 21])));
}
