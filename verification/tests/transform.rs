use ferricula::transform::{TransformError, VectorTransform};

#[test]
fn zero_dimension_is_refused() {
    assert_eq!(VectorTransform::from_seed(&[7u8; 32], 0).err(), Some(TransformError::ZeroDimension));
}

#[test]
fn zero_seed_swaps_each_position_with_the_first() {
    let t = VectorTransform::from_seed(&[0u8; 32], 3).unwrap();
    assert_eq!(t.perm, vec![1, 2, 0]);
    assert_eq!(t.negate, vec![false, false, false]);
}

#[test]
fn first_seed_bytes_drive_small_transforms() {
    let mut seed = [0u8; 32];
    seed[0] = 1;
    let one = VectorTransform::from_seed(&seed, 1).unwrap();
    assert_eq!(one.perm, vec![0]);
    assert_eq!(one.negate, vec![true]);
    let two = VectorTransform::from_seed(&seed, 2).unwrap();
    assert_eq!(two.perm, vec![1, 0]);
    assert_eq!(two.negate, vec![false, false]);
}

#[test]
fn dimension_768_is_a_permutation() {
    let mut seed = [0u8; 32];
    for (i, b) in seed.iter_mut().enumerate() {
        *b = (i as u8).wrapping_mul(37).wrapping_add(11);
    }
    let t = VectorTransform::from_seed(&seed, 768).unwrap();
    assert_eq!(t.perm.len(), 768);
    assert_eq!(t.negate.len(), 768);
    let mut sorted = t.perm.clone();
    sorted.sort();
    assert_eq!(sorted, (0..768).collect::<Vec<usize>>());
    let again = VectorTransform::from_seed(&seed, 768).unwrap();
    assert_eq!(again.perm, t.perm);
    assert_eq!(again.negate, t.negate);
    let other = VectorTransform::from_seed(&[3u8; 32], 768).unwrap();
    assert_ne!(other.perm, t.perm);
}

fn encrypt(t: &VectorTransform, v: &[f32]) -> Vec<f32> {
    let bits: Vec<u32> = v.iter().map(|x| x.to_bits()).collect();
    t.encrypt(&bits).into_iter().map(f32::from_bits).collect()
}

fn decrypt(t: &VectorTransform, v: &[f32]) -> Vec<f32> {
    let bits: Vec<u32> = v.iter().map(|x| x.to_bits()).collect();
    t.decrypt(&bits).into_iter().map(f32::from_bits).collect()
}

fn cosine_f32(a: &[f32], b: &[f32]) -> f32 {
    let mut dot = 0.0f32;
    let mut na = 0.0f32;
    let mut nb = 0.0f32;
    for (x, y) in a.iter().zip(b.iter()) {
        dot += x * y;
        na += x * x;
        nb += y * y;
    }
    dot / (na.sqrt() * nb.sqrt())
}

#[test]
fn encrypt_then_decrypt_restores_the_vector() {
    let t = VectorTransform::from_seed(&[9u8; 32], 5).unwrap();
    let v = [1.0f32, -2.0, 3.5, 0.25, 8.0];
    let enc = encrypt(&t, &v);
    for i in 0..5 {
        let expected = if t.negate[i] { -v[i] } else { v[i] };
        assert_eq!(enc[t.perm[i]], expected);
    }
    assert_eq!(decrypt(&t, &enc), v.to_vec());
}

#[test]
fn short_and_long_vectors_are_fitted_to_the_dimension() {
    let t = VectorTransform::from_seed(&[0u8; 32], 3).unwrap();
    // perm = [1, 2, 0], no sign flips
    assert_eq!(t.encrypt(&[10, 20]), vec![0, 10, 20]);
    assert_eq!(t.encrypt(&[10, 20, 30, 40]), vec![30, 10, 20]);
    assert_eq!(t.decrypt(&[30, 10, 20]), vec![10, 20, 30]);
    assert_eq!(t.decrypt(&[5, 6, 7, 8]), vec![6, 7, 5]);
}

#[test]
fn sign_flip_is_the_top_bit() {
    let mut seed = [0u8; 32];
    seed[0] = 1;
    let t = VectorTransform::from_seed(&seed, 1).unwrap();
    assert_eq!(t.negate, vec![true]);
    let one = 1.5f32.to_bits();
    assert_eq!(t.encrypt(&[one]), vec![(-1.5f32).to_bits()]);
    assert_eq!(t.decrypt(&t.encrypt(&[one])), vec![one]);
}

#[test]
fn encrypt_decrypt_roundtrip() {
    let seed = [42u8; 32];
    let t = VectorTransform::from_seed(&seed, 768).unwrap();
    let original: Vec<f32> = (0..768).map(|i| (i as f32) * 0.01).collect();
    let encrypted = encrypt(&t, &original);
    let decrypted = decrypt(&t, &encrypted);
    for i in 0..768 {
        assert!(
            (original[i] - decrypted[i]).abs() < 1e-6,
            "mismatch at {}: {} vs {}",
            i,
            original[i],
            decrypted[i]
        );
    }
}

#[test]
fn same_key_preserves_cosine() {
    let seed = [99u8; 32];
    let t = VectorTransform::from_seed(&seed, 768).unwrap();
    let a: Vec<f32> = (0..768).map(|i| ((i as f32) * 0.1).sin()).collect();
    let b: Vec<f32> = (0..768).map(|i| ((i as f32) * 0.1 + 0.5).sin()).collect();
    let cos_plain = cosine_f32(&a, &b);
    let cos_enc = cosine_f32(&encrypt(&t, &a), &encrypt(&t, &b));
    assert!((cos_plain - cos_enc).abs() < 1e-5, "cosine diverged: {} vs {}", cos_plain, cos_enc);
}

#[test]
fn different_key_destroys_cosine() {
    let t1 = VectorTransform::from_seed(&[1u8; 32], 768).unwrap();
    let t2 = VectorTransform::from_seed(&[2u8; 32], 768).unwrap();
    let a: Vec<f32> = (0..768).map(|i| ((i as f32) * 0.1).sin()).collect();
    let b: Vec<f32> = (0..768).map(|i| ((i as f32) * 0.1 + 0.5).sin()).collect();
    let cos_plain = cosine_f32(&a, &b);
    let cos_cross = cosine_f32(&encrypt(&t1, &a), &encrypt(&t2, &b));
    assert!((cos_plain - cos_cross).abs() > 0.1, "cross-key cosine too similar: {} vs {}", cos_plain, cos_cross);
}

#[test]
fn dimension_768() {
    let seed = [7u8; 32];
    let t = VectorTransform::from_seed(&seed, 768).unwrap();
    assert_eq!(t.perm.len(), 768);
    assert_eq!(t.negate.len(), 768);
    // Permutation is valid: all indices present
    let mut sorted = t.perm.clone();
    sorted.sort();
    assert_eq!(sorted, (0..768).collect::<Vec<_>>());
}
