use amcl_wrapper::field_elem::FieldElement;
use amcl_wrapper::group_elem::GroupElement;
use amcl_wrapper::group_elem_g1::G1;
use amcl_wrapper::group_elem_g2::G2;
use amcl_wrapper::types::{BigNum, GroupG1};
use pixel_sig::errors::PixelError;
use pixel_sig::keys::{setup, GeneratorSet, Keypair, Sigkey};
use pixel_sig::signature::Signature;
use pixel_sig::util::calculate_path_factor_using_t_l;

fn point_outside_the_subgroup() -> G1 {
    let mut x: isize = 1;
    loop {
        let p: G1 = GroupG1::new_big(&BigNum::new_int(x)).into();
        if !p.is_identity() && !p.has_correct_order() {
            return p;
        }
        x += 1;
    }
}

#[test]
fn signature_verifies_at_every_period() {
    let mut rng = rand::thread_rng();
    let (gens, vk, mut set) = setup(7, "every", &mut rng).unwrap();
    let l = set.depth();
    for t in 1..=7u128 {
        if t > 1 {
            set.fast_forward_update(t, &gens, &mut rng).unwrap();
        }
        let key = set.get_key(t).unwrap();
        let sig = Signature::new(b"message", t, l, &gens, key, &mut rng).unwrap();
        assert_eq!(sig.verify(b"message", t, l, &gens, &vk), Ok(true));
        assert_eq!(
            Signature::verify_naked(&sig.sigma_1, &sig.sigma_2, &vk.value, b"message", t, l, &gens),
            Ok(true)
        );
    }
}

#[test]
fn signature_on_the_empty_message_verifies() {
    let mut rng = rand::thread_rng();
    let (gens, vk, set) = setup(3, "empty", &mut rng).unwrap();
    let key = set.get_key(1).unwrap();
    let sig = Signature::new(b"", 1, 2, &gens, key, &mut rng).unwrap();
    assert_eq!(sig.verify(b"", 1, 2, &gens, &vk), Ok(true));
    assert_eq!(sig.verify(b"x", 1, 2, &gens, &vk), Ok(false));
}

#[test]
fn signature_for_another_message_is_false() {
    let mut rng = rand::thread_rng();
    let (gens, vk, set) = setup(7, "message", &mut rng).unwrap();
    let key = set.get_key(1).unwrap();
    let sig = Signature::new(b"Hello", 1, 3, &gens, key, &mut rng).unwrap();
    assert_eq!(sig.verify(b"Hello", 1, 3, &gens, &vk), Ok(true));
    assert_eq!(sig.verify(b"hello", 1, 3, &gens, &vk), Ok(false));
    assert_eq!(sig.verify(b"Hello ", 1, 3, &gens, &vk), Ok(false));
}

#[test]
fn signature_for_another_period_is_false() {
    let mut rng = rand::thread_rng();
    let (gens, vk, mut set) = setup(7, "period", &mut rng).unwrap();
    set.fast_forward_update(3, &gens, &mut rng).unwrap();
    let key = set.get_key(3).unwrap();
    let sig = Signature::new(b"Hello", 3, 3, &gens, key, &mut rng).unwrap();
    assert_eq!(sig.verify(b"Hello", 3, 3, &gens, &vk), Ok(true));
    for t in [1u128, 2, 4, 5, 6, 7] {
        assert_eq!(sig.verify(b"Hello", t, 3, &gens, &vk), Ok(false));
    }
}

#[test]
fn signature_under_another_key_is_false() {
    let mut rng = rand::thread_rng();
    let (gens, vk, set) = setup(7, "signer", &mut rng).unwrap();
    let other = Keypair::new(7, &gens, &mut rng).unwrap();
    let key = set.get_key(1).unwrap();
    let sig = Signature::new(b"Hello", 1, 3, &gens, key, &mut rng).unwrap();
    assert_eq!(sig.verify(b"Hello", 1, 3, &gens, &vk), Ok(true));
    assert_eq!(sig.verify(b"Hello", 1, 3, &gens, &other.ver_key), Ok(false));
}

#[test]
fn signature_under_other_generators_is_false() {
    let mut rng = rand::thread_rng();
    let (gens, vk, set) = setup(7, "here", &mut rng).unwrap();
    let elsewhere = GeneratorSet::new(7, "elsewhere").unwrap();
    let key = set.get_key(1).unwrap();
    let sig = Signature::new(b"Hello", 1, 3, &gens, key, &mut rng).unwrap();
    assert_eq!(sig.verify(b"Hello", 1, 3, &elsewhere, &vk), Ok(false));
}

#[test]
fn a_key_signs_for_its_own_period_only() {
    let mut rng = rand::thread_rng();
    let (gens, vk, mut set) = setup(7, "own", &mut rng).unwrap();
    set.fast_forward_update(4, &gens, &mut rng).unwrap();
    let key = set.get_key(4).unwrap();
    for t in [1u128, 2, 3, 5, 6, 7] {
        let sig = Signature::new(b"Hello", t, 3, &gens, key, &mut rng).unwrap();
        assert_eq!(sig.verify(b"Hello", t, 3, &gens, &vk), Ok(false));
    }
}

#[test]
fn signature_made_before_an_update_stays_valid() {
    let mut rng = rand::thread_rng();
    let (gens, vk, mut set) = setup(7, "before", &mut rng).unwrap();
    set.fast_forward_update(2, &gens, &mut rng).unwrap();
    let early = {
        let key = set.get_key(2).unwrap();
        Signature::new(b"Hello", 2, 3, &gens, key, &mut rng).unwrap()
    };
    set.fast_forward_update(6, &gens, &mut rng).unwrap();
    assert_eq!(early.verify(b"Hello", 2, 3, &gens, &vk), Ok(true));
    assert_eq!(set.get_key(2).err(), Some(PixelError::SigkeyNotFound { t: 2 }));
    let late = set.get_key(6).unwrap();
    let forged = Signature::new(b"Hello", 2, 3, &gens, late, &mut rng).unwrap();
    assert_eq!(forged.verify(b"Hello", 2, 3, &gens, &vk), Ok(false));
}

#[test]
fn two_signatures_of_one_message_differ() {
    let mut rng = rand::thread_rng();
    let (gens, vk, set) = setup(7, "unlinkable", &mut rng).unwrap();
    let key = set.get_key(1).unwrap();
    let a = Signature::new(b"Hello", 1, 3, &gens, key, &mut rng).unwrap();
    let b = Signature::new(b"Hello", 1, 3, &gens, key, &mut rng).unwrap();
    assert!(a.sigma_1 != b.sigma_1);
    assert!(a.sigma_2 != b.sigma_2);
    assert_eq!(a.verify(b"Hello", 1, 3, &gens, &vk), Ok(true));
    assert_eq!(b.verify(b"Hello", 1, 3, &gens, &vk), Ok(true));
}

#[test]
fn signature_follows_its_formula() {
    let gens = GeneratorSet::new(7, "formula").unwrap();
    let x = FieldElement::from(31u64);
    let r = FieldElement::from(12u64);
    let key = Sigkey::initial_secret_key(&gens, 3, &x, &r).unwrap();
    let blind = FieldElement::from(19u64);
    let sig = Signature::new_deterministic(b"Hello", 1, 3, &gens, &key, &blind).unwrap();
    let m = FieldElement::from_msg_hash(b"Hello");
    let f = calculate_path_factor_using_t_l(1, 3, &gens).unwrap();
    let bound = &f + &(&gens.1[4] * &m);
    assert!(sig.sigma_1 == &(key.d() + &(&key.e()[2] * &m)) + &(&bound * &blind));
    assert!(sig.sigma_2 == key.c() + &(&gens.0 * &blind));
    let again = Signature::new_deterministic(b"Hello", 1, 3, &gens, &key, &blind).unwrap();
    assert!(sig.sigma_1 == again.sigma_1);
    assert!(sig.sigma_2 == again.sigma_2);
}

#[test]
fn signing_needs_a_period_of_the_tree_and_its_generators() {
    let mut rng = rand::thread_rng();
    let (gens, _vk, set) = setup(7, "config", &mut rng).unwrap();
    let key = set.get_key(1).unwrap();
    assert_eq!(
        Signature::new(b"Hello", 0, 3, &gens, key, &mut rng).err(),
        Some(PixelError::InvalidNodeNum { t: 0, l: 3 })
    );
    assert_eq!(
        Signature::new(b"Hello", 8, 3, &gens, key, &mut rng).err(),
        Some(PixelError::InvalidNodeNum { t: 8, l: 3 })
    );
    assert_eq!(
        Signature::new(b"Hello", 1, 4, &gens, key, &mut rng).err(),
        Some(PixelError::NotEnoughGenerators { n: 6 })
    );
}

#[test]
fn verification_needs_a_period_of_the_tree_and_its_generators() {
    let mut rng = rand::thread_rng();
    let (gens, vk, set) = setup(7, "config", &mut rng).unwrap();
    let key = set.get_key(1).unwrap();
    let sig = Signature::new(b"Hello", 1, 3, &gens, key, &mut rng).unwrap();
    assert_eq!(
        sig.verify(b"Hello", 0, 3, &gens, &vk),
        Err(PixelError::InvalidNodeNum { t: 0, l: 3 })
    );
    assert_eq!(
        sig.verify(b"Hello", 8, 3, &gens, &vk),
        Err(PixelError::InvalidNodeNum { t: 8, l: 3 })
    );
    assert_eq!(
        sig.verify(b"Hello", 1, 4, &gens, &vk),
        Err(PixelError::NotEnoughGenerators { n: 6 })
    );
    assert_eq!(
        Signature::verify_naked(&sig.sigma_1, &sig.sigma_2, &vk.value, b"Hello", 1, 4, &gens),
        Err(PixelError::NotEnoughGenerators { n: 6 })
    );
}

#[test]
fn identity_in_a_signature_is_false_before_any_error() {
    let mut rng = rand::thread_rng();
    let (gens, vk, set) = setup(7, "identity", &mut rng).unwrap();
    let key = set.get_key(1).unwrap();
    let sig = Signature::new(b"Hello", 1, 3, &gens, key, &mut rng).unwrap();
    assert!(!sig.is_identity());
    assert!(sig.has_correct_order());
    let first = Signature { sigma_1: G1::identity(), sigma_2: sig.sigma_2.clone() };
    let second = Signature { sigma_1: sig.sigma_1.clone(), sigma_2: G2::identity() };
    assert!(first.is_identity());
    assert!(second.is_identity());
    assert_eq!(first.verify(b"Hello", 1, 3, &gens, &vk), Ok(false));
    assert_eq!(second.verify(b"Hello", 1, 3, &gens, &vk), Ok(false));
    assert_eq!(first.verify(b"Hello", 1, 9, &gens, &vk), Ok(false));
    assert_eq!(
        Signature::verify_naked(&first.sigma_1, &first.sigma_2, &vk.value, b"Hello", 1, 9, &gens),
        Ok(false)
    );
    assert_eq!(
        Signature::verify_naked(&second.sigma_1, &second.sigma_2, &vk.value, b"Hello", 1, 3, &gens),
        Ok(false)
    );
}

#[test]
fn identity_as_the_key_is_false() {
    let mut rng = rand::thread_rng();
    let (gens, _vk, set) = setup(7, "nokey", &mut rng).unwrap();
    let key = set.get_key(1).unwrap();
    let sig = Signature::new(b"Hello", 1, 3, &gens, key, &mut rng).unwrap();
    let none = pixel_sig::keys::Verkey { value: G2::identity() };
    assert_eq!(sig.verify(b"Hello", 1, 3, &gens, &none), Ok(false));
    assert_eq!(sig.verify(b"Hello", 1, 9, &gens, &none), Ok(false));
}

#[test]
fn point_outside_the_subgroup_is_false() {
    let mut rng = rand::thread_rng();
    let (gens, vk, set) = setup(7, "order", &mut rng).unwrap();
    let key = set.get_key(1).unwrap();
    let sig = Signature::new(b"Hello", 1, 3, &gens, key, &mut rng).unwrap();
    let bad = Signature { sigma_1: point_outside_the_subgroup(), sigma_2: sig.sigma_2.clone() };
    assert!(!bad.is_identity());
    assert!(!bad.has_correct_order());
    assert_eq!(bad.verify(b"Hello", 1, 3, &gens, &vk), Ok(false));
    assert_eq!(bad.verify(b"Hello", 1, 9, &gens, &vk), Ok(false));
    assert_eq!(
        Signature::verify_naked(&bad.sigma_1, &bad.sigma_2, &vk.value, b"Hello", 1, 3, &gens),
        Ok(false)
    );
}
