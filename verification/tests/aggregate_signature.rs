use amcl_wrapper::group_elem::GroupElement;
use amcl_wrapper::group_elem_g1::G1;
use amcl_wrapper::group_elem_g2::G2;
use amcl_wrapper::types::{BigNum, GroupG1};
use pixel_sig::aggregate_signature::{AggregatedSignature, AggregatedVerkey};
use pixel_sig::errors::PixelError;
use pixel_sig::keys::{setup, GeneratorSet, Keypair, SigkeySet, Verkey};
use pixel_sig::signature::Signature;
use pixel_sig::util::calculate_l;
use rand::rngs::ThreadRng;

fn signers(n: usize, t_max: u128, label: &str) -> (GeneratorSet, Vec<Verkey>, Vec<SigkeySet>) {
    let mut rng = rand::thread_rng();
    let gens = GeneratorSet::new(t_max, label).unwrap();
    let mut keys = Vec::new();
    let mut sets = Vec::new();
    for _ in 0..n {
        let pair = Keypair::new(t_max, &gens, &mut rng).unwrap();
        keys.push(pair.ver_key);
        sets.push(pair.sigkey_set);
    }
    (gens, keys, sets)
}

fn sign_all(sets: &[SigkeySet], msg: &[u8], t: u128, gens: &GeneratorSet) -> Vec<Signature> {
    let mut rng = rand::thread_rng();
    let mut sigs = Vec::new();
    for set in sets {
        let key = set.get_key(t).unwrap();
        sigs.push(Signature::new(msg, t, set.depth(), gens, key, &mut rng).unwrap());
    }
    sigs
}

fn create_sig_and_verify(
    set: &SigkeySet,
    t: u128,
    vk: &Verkey,
    l: u8,
    gens: &GeneratorSet,
    rng: &mut ThreadRng,
) {
    let sk = set.get_key(t).unwrap();
    let msg = "Hello".as_bytes();
    let sig = Signature::new(msg, t, l, gens, sk, rng).unwrap();
    assert!(sig.verify(msg, t, l, gens, vk).unwrap());
}

#[test]
fn test_aggr_sig_verify() {
    let mut rng = rand::thread_rng();
    let t_max = 7;
    let l = calculate_l(t_max).unwrap();
    let mut t = 1u128;

    let (gens, vk1, mut sigkey_set1) = setup(t_max, "test_pixel", &mut rng).unwrap();

    let keypair2 = Keypair::new(t_max, &gens, &mut rng).unwrap();
    let vk2 = keypair2.ver_key;
    let mut sigkey_set2 = keypair2.sigkey_set;

    create_sig_and_verify(&sigkey_set1, t, &vk1, l, &gens, &mut rng);
    create_sig_and_verify(&sigkey_set2, t, &vk2, l, &gens, &mut rng);

    {
        let msg = "Hello".as_bytes();
        let sk1 = sigkey_set1.get_key(t).unwrap();
        let sig1 = Signature::new(msg, t, l, &gens, sk1, &mut rng).unwrap();
        let sk2 = sigkey_set2.get_key(t).unwrap();
        let sig2 = Signature::new(msg, t, l, &gens, sk2, &mut rng).unwrap();

        let asig = AggregatedSignature::new(vec![&sig1, &sig2]);
        assert!(asig.verify(msg, t, l, vec![&vk1, &vk2], &gens).unwrap());
    }

    {
        t = 3;
        sigkey_set1.fast_forward_update(t, &gens, &mut rng).unwrap();
        sigkey_set2.fast_forward_update(t, &gens, &mut rng).unwrap();

        let msg = "Hello".as_bytes();
        let sk1 = sigkey_set1.get_key(t).unwrap();
        let sig1 = Signature::new(msg, t, l, &gens, sk1, &mut rng).unwrap();
        let sk2 = sigkey_set2.get_key(t).unwrap();
        let sig2 = Signature::new(msg, t, l, &gens, sk2, &mut rng).unwrap();

        let asig = AggregatedSignature::new(vec![&sig1, &sig2]);
        assert!(asig.verify(msg, t, l, vec![&vk1, &vk2], &gens).unwrap());
    }

    {
        t = 5;
        sigkey_set1.fast_forward_update(t, &gens, &mut rng).unwrap();
        sigkey_set2.fast_forward_update(t, &gens, &mut rng).unwrap();

        let msg = "Hello".as_bytes();
        let sk1 = sigkey_set1.get_key(t).unwrap();
        let sig1 = Signature::new(msg, t, l, &gens, sk1, &mut rng).unwrap();
        let sk2 = sigkey_set2.get_key(t).unwrap();
        let sig2 = Signature::new(msg, t, l, &gens, sk2, &mut rng).unwrap();

        let asig = AggregatedSignature::new(vec![&sig1, &sig2]);
        assert!(asig.verify(msg, t, l, vec![&vk1, &vk2], &gens).unwrap());
    }
}

#[test]
fn moving_back_after_the_scenario_fails() {
    let mut rng = rand::thread_rng();
    let (gens, _vk1, mut set1) = setup(7, "test_pixel", &mut rng).unwrap();
    let mut set2 = Keypair::new(7, &gens, &mut rng).unwrap().sigkey_set;
    for t in [3u128, 5] {
        set1.fast_forward_update(t, &gens, &mut rng).unwrap();
        set2.fast_forward_update(t, &gens, &mut rng).unwrap();
    }
    assert_eq!(
        set1.fast_forward_update(3, &gens, &mut rng),
        Err(PixelError::SigkeyAlreadyUpdated { current: 5, requested: 3 })
    );
    assert_eq!(
        set2.fast_forward_update(3, &gens, &mut rng),
        Err(PixelError::SigkeyAlreadyUpdated { current: 5, requested: 3 })
    );
    assert!(set1.get_key(3).is_err());
    assert!(set1.get_key(5).is_ok());
}

#[test]
fn aggregate_of_no_keys_is_identity() {
    let avk = AggregatedVerkey::new(vec![]);
    assert!(avk.is_identity());
    assert!(avk.value == G2::identity());
}

#[test]
fn aggregate_of_no_signatures_is_identity() {
    let asig = AggregatedSignature::new(vec![]);
    assert!(asig.is_identity());
    assert!(asig.sigma_1 == G1::identity());
    assert!(asig.sigma_2 == G2::identity());
}

#[test]
fn aggregates_are_written_as_their_points_are() {
    assert_eq!(AggregatedVerkey::new(vec![]).to_hex(), "infinity");
    let none = AggregatedSignature::new(vec![]).to_hex();
    assert_eq!(none.0, "infinity");
    assert_eq!(none.1, "infinity");
    let (gens, keys, sets) = signers(2, 7, "written");
    let avk = AggregatedVerkey::new(keys.iter().collect());
    assert_eq!(avk.to_hex(), (&keys[0].value + &keys[1].value).to_hex());
    assert!(avk.to_hex().starts_with('('));
    assert!(avk.to_hex() != keys[0].to_hex());
    let sigs = sign_all(&sets, b"Hello", 1, &gens);
    let asig = AggregatedSignature::new(sigs.iter().collect());
    let written = asig.to_hex();
    assert_eq!(written.0, asig.sigma_1.to_hex());
    assert_eq!(written.1, asig.sigma_2.to_hex());
    assert_eq!(sigs[0].to_hex().0, sigs[0].sigma_1.to_hex());
    assert_eq!(sigs[0].to_hex().1, sigs[0].sigma_2.to_hex());
    assert!(written.0 != written.1);
}

#[test]
fn aggregate_of_one_key_is_that_key() {
    let (_gens, keys, _sets) = signers(1, 7, "one");
    let avk = AggregatedVerkey::new(vec![&keys[0]]);
    assert!(avk.value == keys[0].value);
    assert!(!avk.is_identity());
}

#[test]
fn aggregated_verkey_is_the_sum_of_the_keys() {
    let (_gens, keys, _sets) = signers(3, 7, "sum");
    let avk = AggregatedVerkey::new(vec![&keys[0], &keys[1], &keys[2]]);
    assert!(avk.value == &(&keys[0].value + &keys[1].value) + &keys[2].value);
    assert!(avk.value != keys[0].value);
}

#[test]
fn aggregated_signature_is_the_sum_of_the_signatures() {
    let (gens, _keys, sets) = signers(2, 7, "sum");
    let sigs = sign_all(&sets, b"Hello", 1, &gens);
    let asig = AggregatedSignature::new(vec![&sigs[0], &sigs[1]]);
    assert!(asig.sigma_1 == &sigs[0].sigma_1 + &sigs[1].sigma_1);
    assert!(asig.sigma_2 == &sigs[0].sigma_2 + &sigs[1].sigma_2);
    assert!(!asig.is_identity());
    assert!(asig.has_correct_oder());
}

#[test]
fn aggregated_verkey_does_not_depend_on_the_order() {
    let (_gens, keys, _sets) = signers(3, 7, "order");
    let ab = AggregatedVerkey::new(vec![&keys[0], &keys[1]]);
    let ba = AggregatedVerkey::new(vec![&keys[1], &keys[0]]);
    assert!(ab.value == ba.value);
    let abc = AggregatedVerkey::new(vec![&keys[0], &keys[1], &keys[2]]);
    let cab = AggregatedVerkey::new(vec![&keys[2], &keys[0], &keys[1]]);
    let bca = AggregatedVerkey::new(vec![&keys[1], &keys[2], &keys[0]]);
    assert!(abc.value == cab.value);
    assert!(abc.value == bca.value);
    assert!(abc.value != ab.value);
}

#[test]
fn aggregating_an_aggregate_gives_the_aggregate_of_all() {
    let (gens, keys, sets) = signers(3, 7, "nested");
    let ab = AggregatedVerkey::new(vec![&keys[0], &keys[1]]);
    let ab_as_key = Verkey { value: ab.value.clone() };
    let nested = AggregatedVerkey::new(vec![&ab_as_key, &keys[2]]);
    let flat = AggregatedVerkey::new(vec![&keys[0], &keys[1], &keys[2]]);
    assert!(nested.value == flat.value);

    let sigs = sign_all(&sets, b"Hello", 1, &gens);
    let s12 = AggregatedSignature::new(vec![&sigs[0], &sigs[1]]);
    let s12_as_sig = Signature { sigma_1: s12.sigma_1.clone(), sigma_2: s12.sigma_2.clone() };
    let nested = AggregatedSignature::new(vec![&s12_as_sig, &sigs[2]]);
    let flat = AggregatedSignature::new(vec![&sigs[0], &sigs[1], &sigs[2]]);
    assert!(nested.sigma_1 == flat.sigma_1);
    assert!(nested.sigma_2 == flat.sigma_2);
    let other_order = AggregatedSignature::new(vec![&sigs[2], &sigs[0], &sigs[1]]);
    assert!(other_order.sigma_1 == flat.sigma_1);
    assert!(other_order.sigma_2 == flat.sigma_2);
    assert_eq!(
        nested.verify(b"Hello", 1, 3, vec![&keys[2], &keys[0], &keys[1]], &gens),
        Ok(true)
    );
}

#[test]
fn aggregate_of_many_signers_verifies() {
    let (gens, keys, mut sets) = signers(5, 15, "many");
    let mut rng = rand::thread_rng();
    for set in sets.iter_mut() {
        set.fast_forward_update(6, &gens, &mut rng).unwrap();
    }
    let sigs = sign_all(&sets, b"block", 6, &gens);
    let asig = AggregatedSignature::new(sigs.iter().collect());
    assert_eq!(asig.verify(b"block", 6, 4, keys.iter().collect(), &gens), Ok(true));
    let avk = AggregatedVerkey::new(keys.iter().collect());
    assert_eq!(asig.verify_using_aggr_vk(b"block", 6, 4, &avk, &gens), Ok(true));
    assert_eq!(asig.verify_using_aggr_vk(b"other", 6, 4, &avk, &gens), Ok(false));
    assert_eq!(asig.verify_using_aggr_vk(b"block", 7, 4, &avk, &gens), Ok(false));
}

#[test]
fn aggregate_with_one_other_message_is_false() {
    let (gens, keys, sets) = signers(3, 7, "message");
    let mut sigs = sign_all(&sets[..2], b"Hello", 1, &gens);
    sigs.extend(sign_all(&sets[2..], b"Bye", 1, &gens));
    let asig = AggregatedSignature::new(sigs.iter().collect());
    assert_eq!(asig.verify(b"Hello", 1, 3, keys.iter().collect(), &gens), Ok(false));
    assert_eq!(asig.verify(b"Bye", 1, 3, keys.iter().collect(), &gens), Ok(false));
}

#[test]
fn aggregate_with_one_other_period_is_false() {
    let (gens, keys, mut sets) = signers(3, 7, "period");
    let mut rng = rand::thread_rng();
    let mut sigs = sign_all(&sets[..2], b"Hello", 1, &gens);
    sets[2].fast_forward_update(2, &gens, &mut rng).unwrap();
    sigs.extend(sign_all(&sets[2..], b"Hello", 2, &gens));
    let asig = AggregatedSignature::new(sigs.iter().collect());
    assert_eq!(asig.verify(b"Hello", 1, 3, keys.iter().collect(), &gens), Ok(false));
    assert_eq!(asig.verify(b"Hello", 2, 3, keys.iter().collect(), &gens), Ok(false));
}

#[test]
fn aggregate_under_other_keys_is_false() {
    let (gens, keys, sets) = signers(3, 7, "keys");
    let sigs = sign_all(&sets, b"Hello", 1, &gens);
    let asig = AggregatedSignature::new(sigs.iter().collect());
    assert_eq!(asig.verify(b"Hello", 1, 3, vec![&keys[0], &keys[1]], &gens), Ok(false));
    assert_eq!(
        asig.verify(b"Hello", 1, 3, vec![&keys[0], &keys[1], &keys[1]], &gens),
        Ok(false)
    );
    let two = AggregatedSignature::new(vec![&sigs[0], &sigs[1]]);
    assert_eq!(two.verify(b"Hello", 1, 3, keys.iter().collect(), &gens), Ok(false));
    assert_eq!(two.verify(b"Hello", 1, 3, vec![&keys[1], &keys[0]], &gens), Ok(true));
}

#[test]
fn verification_under_the_aggregate_of_no_keys_is_false() {
    let (gens, _keys, sets) = signers(2, 7, "nokeys");
    let sigs = sign_all(&sets, b"Hello", 1, &gens);
    let asig = AggregatedSignature::new(sigs.iter().collect());
    assert_eq!(asig.verify(b"Hello", 1, 3, vec![], &gens), Ok(false));
    let none = AggregatedVerkey::new(vec![]);
    assert_eq!(asig.verify_using_aggr_vk(b"Hello", 1, 3, &none, &gens), Ok(false));
}

#[test]
fn verification_of_the_aggregate_of_no_signatures_is_false() {
    let (gens, keys, _sets) = signers(2, 7, "nosigs");
    let asig = AggregatedSignature::new(vec![]);
    assert_eq!(asig.verify(b"Hello", 1, 3, keys.iter().collect(), &gens), Ok(false));
}

#[test]
fn keys_that_cancel_are_rejected() {
    let (gens, keys, sets) = signers(1, 7, "cancel");
    let opposite = Verkey { value: -&keys[0].value };
    let avk = AggregatedVerkey::new(vec![&keys[0], &opposite]);
    assert!(avk.is_identity());
    let sigs = sign_all(&sets, b"Hello", 1, &gens);
    let asig = AggregatedSignature::new(sigs.iter().collect());
    assert_eq!(asig.verify_using_aggr_vk(b"Hello", 1, 3, &avk, &gens), Ok(false));
}

#[test]
fn too_few_generators_are_a_configuration_error() {
    let (gens, keys, sets) = signers(2, 7, "short");
    let sigs = sign_all(&sets, b"Hello", 1, &gens);
    let asig = AggregatedSignature::new(sigs.iter().collect());
    let short = GeneratorSet(gens.0.clone(), gens.1[..4].to_vec());
    assert_eq!(
        asig.verify(b"Hello", 1, 3, keys.iter().collect(), &short),
        Err(PixelError::NotEnoughGenerators { n: 5 })
    );
    let avk = AggregatedVerkey::new(keys.iter().collect());
    assert_eq!(
        asig.verify_using_aggr_vk(b"Hello", 1, 3, &avk, &short),
        Err(PixelError::NotEnoughGenerators { n: 5 })
    );
    assert_eq!(
        asig.verify_using_aggr_vk(b"Hello", 1, 255, &avk, &gens),
        Err(PixelError::NotEnoughGenerators { n: 257 })
    );
}

#[test]
fn degenerate_aggregates_are_false_even_with_too_few_generators() {
    let (gens, keys, sets) = signers(2, 7, "first");
    let short = GeneratorSet(gens.0.clone(), gens.1[..2].to_vec());
    let empty = AggregatedSignature::new(vec![]);
    assert_eq!(empty.verify(b"Hello", 1, 3, keys.iter().collect(), &short), Ok(false));
    let sigs = sign_all(&sets, b"Hello", 1, &gens);
    let asig = AggregatedSignature::new(sigs.iter().collect());
    assert_eq!(asig.verify(b"Hello", 1, 3, vec![], &short), Ok(false));
}

#[test]
fn period_outside_the_tree_is_a_configuration_error() {
    let (gens, keys, sets) = signers(2, 7, "outside");
    let sigs = sign_all(&sets, b"Hello", 1, &gens);
    let asig = AggregatedSignature::new(sigs.iter().collect());
    assert_eq!(
        asig.verify(b"Hello", 8, 3, keys.iter().collect(), &gens),
        Err(PixelError::InvalidNodeNum { t: 8, l: 3 })
    );
    assert_eq!(
        asig.verify(b"Hello", 0, 3, keys.iter().collect(), &gens),
        Err(PixelError::InvalidNodeNum { t: 0, l: 3 })
    );
}

#[test]
fn aggregate_outside_the_subgroup_is_false() {
    let (gens, keys, sets) = signers(2, 7, "subgroup");
    let sigs = sign_all(&sets, b"Hello", 1, &gens);
    let mut x: isize = 1;
    let stray = loop {
        let p: G1 = GroupG1::new_big(&BigNum::new_int(x)).into();
        if !p.is_identity() && !p.has_correct_order() {
            break p;
        }
        x += 1;
    };
    let bad = Signature { sigma_1: stray, sigma_2: sigs[1].sigma_2.clone() };
    let asig = AggregatedSignature::new(vec![&sigs[0], &bad]);
    assert!(!asig.is_identity());
    assert!(!asig.has_correct_oder());
    assert_eq!(asig.verify(b"Hello", 1, 3, keys.iter().collect(), &gens), Ok(false));
    assert_eq!(asig.verify(b"Hello", 1, 9, keys.iter().collect(), &gens), Ok(false));
}
