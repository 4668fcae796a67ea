use amcl_wrapper::field_elem::FieldElement;
use amcl_wrapper::group_elem::GroupElement;
use amcl_wrapper::group_elem_g1::G1;
use amcl_wrapper::group_elem_g2::G2;
use pixel_sig::errors::PixelError;
use pixel_sig::keys::{setup, GeneratorSet, Keypair, Sigkey, SigkeySet, Verkey};
use pixel_sig::signature::Signature;

fn signs_and_verifies(set: &SigkeySet, t: u128, vk: &Verkey, gens: &GeneratorSet) -> bool {
    let mut rng = rand::thread_rng();
    let l = set.depth();
    let key = set.get_key(t).unwrap();
    let sig = Signature::new(b"period", t, l, gens, key, &mut rng).unwrap();
    sig.verify(b"period", t, l, gens, vk).unwrap()
}

#[test]
fn generators_are_hashed_from_the_label_and_their_index() {
    let gens = GeneratorSet::new(7, "test_pixel").unwrap();
    assert_eq!(gens.1.len(), 5);
    assert!(gens.0 == G2::from_msg_hash(b"test_pixel"));
    for i in 0..5u8 {
        let mut seed = b"test_pixel".to_vec();
        seed.push(i);
        assert!(gens.1[i as usize] == G1::from_msg_hash(&seed));
    }
    assert!(gens.1[0] != gens.1[1]);
}

#[test]
fn generators_of_another_label_differ() {
    let a = GeneratorSet::new(7, "one").unwrap();
    let b = GeneratorSet::new(7, "two").unwrap();
    assert!(a.0 != b.0);
    assert!(a.1[0] != b.1[0]);
}

#[test]
fn generator_set_has_two_more_generators_than_levels() {
    assert_eq!(GeneratorSet::new(1, "n").unwrap().1.len(), 3);
    assert_eq!(GeneratorSet::new(15, "n").unwrap().1.len(), 6);
    assert_eq!(GeneratorSet::new(16, "n").unwrap().1.len(), 7);
}

#[test]
fn generator_set_for_no_period_is_an_error() {
    assert_eq!(
        GeneratorSet::new(0, "n").err(),
        Some(PixelError::InvalidMaxTimePeriod { t_max: 0 })
    );
}

#[test]
fn verkey_is_the_secret_times_the_generator() {
    let x = FieldElement::from(5u64);
    let g = G2::from_msg_hash(b"generator");
    let vk = Verkey::from_master_secret(&x, &g);
    let sum = &(&(&(&g + &g) + &g) + &g) + &g;
    assert!(vk.value == sum);
    assert!(vk.value != g);
    assert!(!vk.is_identity());
}

#[test]
fn verkey_of_the_identity_is_the_identity() {
    let vk = Verkey { value: G2::identity() };
    assert!(vk.is_identity());
}

#[test]
fn initial_key_follows_its_formula() {
    let gens = GeneratorSet::new(7, "initial").unwrap();
    let x = FieldElement::from(11u64);
    let r = FieldElement::from(3u64);
    let key = Sigkey::initial_secret_key(&gens, 3, &x, &r).unwrap();
    assert!(*key.c() == &gens.0 * &r);
    assert!(*key.d() == &(&gens.1[0] * &x) + &(&gens.1[1] * &r));
    assert_eq!(key.e().len(), 3);
    for j in 0..3 {
        assert!(key.e()[j] == &gens.1[j + 2] * &r);
    }
}

#[test]
fn initial_key_needs_a_depth_and_its_generators() {
    let gens = GeneratorSet::new(7, "initial").unwrap();
    let x = FieldElement::from(11u64);
    let r = FieldElement::from(3u64);
    assert_eq!(
        Sigkey::initial_secret_key(&gens, 0, &x, &r).err(),
        Some(PixelError::InvalidNodeNum { t: 1, l: 0 })
    );
    assert_eq!(
        Sigkey::initial_secret_key(&gens, 128, &x, &r).err(),
        Some(PixelError::InvalidNodeNum { t: 1, l: 128 })
    );
    assert_eq!(
        Sigkey::initial_secret_key(&gens, 4, &x, &r).err(),
        Some(PixelError::NotEnoughGenerators { n: 6 })
    );
}

#[test]
fn new_key_set_stands_at_the_first_period() {
    let gens = GeneratorSet::new(7, "fresh").unwrap();
    let x = FieldElement::from(2u64);
    let r = FieldElement::from(9u64);
    let set = SigkeySet::new(7, &gens, &x, &r).unwrap();
    assert_eq!(set.depth(), 3);
    assert_eq!(set.current_period(), 1);
    assert_eq!(set.max_period(), 7);
    assert!(set.get_key(1).is_ok());
    assert_eq!(set.get_key(2).err(), Some(PixelError::SigkeyNotFound { t: 2 }));
    assert_eq!(set.get_key(0).err(), Some(PixelError::SigkeyNotFound { t: 0 }));
}

#[test]
fn keypair_needs_generators_for_its_depth() {
    let gens = GeneratorSet::new(3, "small").unwrap();
    let mut rng = rand::thread_rng();
    assert_eq!(
        Keypair::new(7, &gens, &mut rng).err(),
        Some(PixelError::NotEnoughGenerators { n: 5 })
    );
    assert_eq!(
        Keypair::new(0, &gens, &mut rng).err(),
        Some(PixelError::InvalidMaxTimePeriod { t_max: 0 })
    );
    assert!(Keypair::new(3, &gens, &mut rng).is_ok());
}

#[test]
fn keypair_of_a_secret_has_its_verkey() {
    let gens = GeneratorSet::new(7, "pair").unwrap();
    let x = FieldElement::from(6u64);
    let r = FieldElement::from(4u64);
    let pair = Keypair::new_deterministic(7, &gens, &x, &r).unwrap();
    assert!(pair.ver_key.value == &gens.0 * &x);
    assert!(signs_and_verifies(&pair.sigkey_set, 1, &pair.ver_key, &gens));
}

#[test]
fn two_signers_share_no_key() {
    let mut rng = rand::thread_rng();
    let (gens, vk1, set1) = setup(7, "two", &mut rng).unwrap();
    let pair2 = Keypair::new(7, &gens, &mut rng).unwrap();
    assert!(vk1.value != pair2.ver_key.value);
    assert!(signs_and_verifies(&set1, 1, &vk1, &gens));
    assert!(!signs_and_verifies(&set1, 1, &pair2.ver_key, &gens));
}

#[test]
fn setup_for_no_period_is_an_error() {
    let mut rng = rand::thread_rng();
    assert_eq!(
        setup(0, "none", &mut rng).err(),
        Some(PixelError::InvalidMaxTimePeriod { t_max: 0 })
    );
}

#[test]
fn every_period_is_reached_one_by_one() {
    let mut rng = rand::thread_rng();
    let (gens, vk, mut set) = setup(7, "steps", &mut rng).unwrap();
    assert!(signs_and_verifies(&set, 1, &vk, &gens));
    for t in 2..=7u128 {
        set.fast_forward_update(t, &gens, &mut rng).unwrap();
        assert_eq!(set.current_period(), t);
        assert!(signs_and_verifies(&set, t, &vk, &gens));
    }
}

fn reaches_every_later_period(from: u128, gens: &GeneratorSet) {
    let mut rng = rand::thread_rng();
    for to in (from + 1)..=7u128 {
        let pair = Keypair::new(7, gens, &mut rng).unwrap();
        let mut set = pair.sigkey_set;
        if from > 1 {
            set.fast_forward_update(from, gens, &mut rng).unwrap();
        }
        set.fast_forward_update(to, gens, &mut rng).unwrap();
        assert_eq!(set.current_period(), to);
        assert!(signs_and_verifies(&set, to, &pair.ver_key, gens));
    }
}

#[test]
fn every_period_is_reached_from_the_first() {
    let gens = GeneratorSet::new(7, "jumps").unwrap();
    reaches_every_later_period(1, &gens);
}

#[test]
fn every_period_is_reached_from_the_second() {
    let gens = GeneratorSet::new(7, "jumps").unwrap();
    reaches_every_later_period(2, &gens);
}

#[test]
fn every_period_is_reached_from_the_third_and_fourth() {
    let gens = GeneratorSet::new(7, "jumps").unwrap();
    reaches_every_later_period(3, &gens);
    reaches_every_later_period(4, &gens);
}

#[test]
fn every_period_is_reached_from_the_fifth_and_sixth() {
    let gens = GeneratorSet::new(7, "jumps").unwrap();
    reaches_every_later_period(5, &gens);
    reaches_every_later_period(6, &gens);
}

#[test]
fn periods_need_not_fill_the_tree() {
    let mut rng = rand::thread_rng();
    let (gens, vk, mut set) = setup(5, "partial", &mut rng).unwrap();
    assert_eq!(set.depth(), 3);
    set.fast_forward_update(5, &gens, &mut rng).unwrap();
    assert!(signs_and_verifies(&set, 5, &vk, &gens));
    assert_eq!(
        set.fast_forward_update(6, &gens, &mut rng),
        Err(PixelError::PeriodBeyondMax { t: 6, t_max: 5 })
    );
    assert_eq!(set.current_period(), 5);
}

#[test]
fn update_to_the_current_or_an_earlier_period_fails() {
    let mut rng = rand::thread_rng();
    let (gens, vk, mut set) = setup(7, "back", &mut rng).unwrap();
    assert_eq!(
        set.fast_forward_update(1, &gens, &mut rng),
        Err(PixelError::SigkeyAlreadyUpdated { current: 1, requested: 1 })
    );
    assert_eq!(
        set.fast_forward_update(0, &gens, &mut rng),
        Err(PixelError::SigkeyAlreadyUpdated { current: 1, requested: 0 })
    );
    set.fast_forward_update(5, &gens, &mut rng).unwrap();
    assert_eq!(
        set.fast_forward_update(3, &gens, &mut rng),
        Err(PixelError::SigkeyAlreadyUpdated { current: 5, requested: 3 })
    );
    assert_eq!(
        set.fast_forward_update(5, &gens, &mut rng),
        Err(PixelError::SigkeyAlreadyUpdated { current: 5, requested: 5 })
    );
    assert_eq!(set.current_period(), 5);
    assert!(signs_and_verifies(&set, 5, &vk, &gens));
}

#[test]
fn after_an_update_only_the_new_period_has_a_key() {
    let mut rng = rand::thread_rng();
    let (gens, _vk, mut set) = setup(7, "only", &mut rng).unwrap();
    set.fast_forward_update(4, &gens, &mut rng).unwrap();
    for t in 0..=8u128 {
        if t == 4 {
            assert!(set.get_key(t).is_ok());
        } else {
            assert_eq!(set.get_key(t).err(), Some(PixelError::SigkeyNotFound { t }));
        }
    }
}

#[test]
fn update_needs_generators_for_the_tree() {
    let mut rng = rand::thread_rng();
    let (gens, _vk, mut set) = setup(7, "gens", &mut rng).unwrap();
    let short = GeneratorSet::new(3, "gens").unwrap();
    assert_eq!(
        set.fast_forward_update(2, &short, &mut rng),
        Err(PixelError::NotEnoughGenerators { n: 5 })
    );
    assert_eq!(set.current_period(), 1);
    assert!(set.fast_forward_update(2, &gens, &mut rng).is_ok());
}

#[test]
fn update_counts_its_scalars() {
    let mut rng = rand::thread_rng();
    let (gens, vk, mut set) = setup(7, "count", &mut rng).unwrap();
    assert_eq!(set.scalars_for_update(1), 0);
    assert_eq!(set.scalars_for_update(2), 2);
    assert_eq!(set.scalars_for_update(3), 4);
    assert_eq!(set.scalars_for_update(4), 3);
    assert_eq!(set.scalars_for_update(5), 1);
    assert_eq!(set.scalars_for_update(6), 3);
    assert_eq!(set.scalars_for_update(7), 2);
    let few = vec![FieldElement::from(7u64), FieldElement::from(8u64)];
    assert_eq!(
        set.fast_forward_update_deterministic(4, &gens, &few),
        Err(PixelError::NotEnoughScalars { n: 3 })
    );
    assert_eq!(set.current_period(), 1);
    let enough = vec![FieldElement::from(7u64), FieldElement::from(8u64), FieldElement::from(9u64)];
    assert_eq!(set.fast_forward_update_deterministic(4, &gens, &enough), Ok(()));
    assert_eq!(set.current_period(), 4);
    assert!(signs_and_verifies(&set, 4, &vk, &gens));
    assert_eq!(set.scalars_for_update(5), 0);
    assert_eq!(set.scalars_for_update(6), 2);
    assert_eq!(set.fast_forward_update_deterministic(5, &gens, &vec![]), Ok(()));
    assert!(signs_and_verifies(&set, 5, &vk, &gens));
}

#[test]
fn update_derives_the_keys_by_their_formulas() {
    let gens = GeneratorSet::new(7, "derive").unwrap();
    let x = FieldElement::from(21u64);
    let r = FieldElement::from(5u64);
    let mut set = SigkeySet::new(7, &gens, &x, &r).unwrap();
    let root = Sigkey::initial_secret_key(&gens, 3, &x, &r).unwrap();
    let right = FieldElement::from(13u64);
    let left = FieldElement::from(17u64);
    set.fast_forward_update_deterministic(2, &gens, &vec![right.clone(), left.clone()]).unwrap();
    let h = &gens.1;
    let f_left = &h[1] + &h[2];
    let key = set.get_key(2).unwrap();
    assert!(*key.c() == root.c() + &(&gens.0 * &left));
    assert!(*key.d() == &(root.d() + &root.e()[0]) + &(&f_left * &left));
    assert_eq!(key.e().len(), 2);
    assert!(key.e()[0] == &root.e()[1] + &(&h[3] * &left));
    assert!(key.e()[1] == &root.e()[2] + &(&h[4] * &left));

    set.fast_forward_update_deterministic(5, &gens, &vec![]).unwrap();
    let f_right = &(&h[1] + &h[2]) + &h[2];
    let key = set.get_key(5).unwrap();
    assert!(*key.c() == root.c() + &(&gens.0 * &right));
    assert!(*key.d() == &(&(root.d() + &root.e()[0]) + &root.e()[0]) + &(&f_right * &right));
    assert!(key.e()[0] == &root.e()[1] + &(&h[3] * &right));
    assert!(key.e()[1] == &root.e()[2] + &(&h[4] * &right));
}
