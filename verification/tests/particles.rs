use rewo_world::particles::{LegacyRandom, ParticleKind};

const KAT_NEXTFLOAT: &[(i64, [u32; 8])] = &[
    (0, [1060839604, 1062525265, 1047940908, 1058748784, 1059270089, 1050557408, 1057810800, 1039114536]),
    (1, [1060838101, 1036895456, 1053947420, 1053858802, 1045738288, 1024748416, 1051351522, 1059629957]),
    (42, [1060782493, 1029695648, 1060038587, 1027890176, 1050546296, 1064381371, 1049484602, 1060449413]),
    (1660, [1058392841, 1062264382, 1048871732, 1061801874, 1034364968, 1042934108, 1037145976, 1049116706]),
    (-1, [1049211608, 1054936644, 1011419136, 1057770495, 1059683934, 1058655675, 1054160742, 1053585290]),
    (123456789, [1059716710, 1061382325, 1055520148, 1048739396, 1053290614, 1046334332, 1063563777, 1054464466]),
];

#[test]
fn twenty_four_bit_draws_match_the_jvm_floats() {
    for (seed, expect) in KAT_NEXTFLOAT {
        let mut r = LegacyRandom::new(*seed);
        for (i, want) in expect.iter().enumerate() {
            let got = (r.next(24) as f32 * 2.0_f32.powi(-24)).to_bits();
            assert_eq!(got, *want, "seed {} draw {}", seed, i);
        }
    }
}

#[test]
fn the_first_int_and_long_of_seed_zero_match_java() {
    assert_eq!(LegacyRandom::new(0).next(32), -1155484576);
    assert_eq!(LegacyRandom::new(0).next_long(), -4962768465676381896);
    let mut r = LegacyRandom::new(42);
    assert_eq!(r.next(32), -1170105035);
}

#[test]
fn particle_kinds_come_from_their_registry_names() {
    assert_eq!(ParticleKind::from_registry_name("minecraft:smoke"), Some(ParticleKind::Smoke));
    assert_eq!(ParticleKind::from_registry_name("minecraft:block"), Some(ParticleKind::Terrain));
    assert_eq!(ParticleKind::from_registry_name("minecraft:dust"), None);
    assert_eq!(ParticleKind::Poof.sprite_frames(), 8);
    assert_eq!(ParticleKind::Flame.sprite_frames(), 1);
}

const KAT_NEXTINT_BOUNDS: [i32; 10] = [1, 2, 3, 4, 5, 7, 8, 16, 100, 1000];
const KAT_NEXTINT: &[(i64, [i32; 10])] = &[
    (0, [0, 1, 1, 2, 0, 0, 4, 1, 19, 854]),
    (1, [0, 0, 1, 1, 4, 6, 2, 10, 78, 748]),
    (42, [0, 0, 0, 0, 0, 4, 2, 11, 19, 93]),
    (1660, [0, 1, 1, 3, 2, 2, 0, 4, 27, 539]),
    (-1, [0, 0, 0, 2, 4, 4, 3, 6, 65, 731]),
    (123456789, [0, 1, 2, 1, 0, 0, 7, 6, 97, 887]),
];

/// `nextInt(bound)`: rounds until one answers.
fn next_int(r: &mut LegacyRandom, bound: i32) -> i32 {
    loop {
        if let Some(v) = r.next_int_round(bound) {
            return v;
        }
    }
}

#[test]
fn next_int_matches_jvm_bit_for_bit() {
    for (seed, expect) in KAT_NEXTINT {
        let mut r = LegacyRandom::new(*seed);
        for (i, want) in expect.iter().enumerate() {
            let got = next_int(&mut r, KAT_NEXTINT_BOUNDS[i]);
            assert_eq!(got, *want, "seed {seed} bound {}", KAT_NEXTINT_BOUNDS[i]);
        }
    }
}

#[test]
fn power_of_two_next_int_consumes_one_draw() {
    let mut a = LegacyRandom::new(7);
    next_int(&mut a, 8);
    let after_pow2 = (a.next(24) as f32 * 2.0_f32.powi(-24)).to_bits();

    let mut b = LegacyRandom::new(7);
    b.next(31);
    let after_manual = (b.next(24) as f32 * 2.0_f32.powi(-24)).to_bits();

    assert_eq!(after_pow2, after_manual);
}

#[test]
fn a_power_of_two_round_always_answers_and_a_biased_draw_does_not() {
    let mut r = LegacyRandom::new(3);
    for _ in 0..50 {
        let v = r.next_int_round(64);
        assert!(matches!(v, Some(x) if (0..64).contains(&x)));
    }
    // With a bound just over half the range, about half of all draws land
    // in the biased top and answer nothing.
    let mut r = LegacyRandom::new(5);
    let mut none = 0;
    for _ in 0..200 {
        match r.next_int_round(0x4000_0001) {
            Some(x) => assert!((0..0x4000_0001).contains(&x)),
            None => none += 1,
        }
    }
    assert!(none > 0 && none < 200);
}

#[test]
fn smoke_walks_its_eight_frames_over_its_life() {
    use_frames();
}

fn use_frames() {
    use_frame_cases(&[
        (8, 0, 20, Some(0)),
        (8, 10, 20, Some(3)),
        (8, 19, 20, Some(6)),
        (8, 20, 20, Some(7)),
        (8, 40, 20, Some(7)),
        (1, 10, 20, None),
        (8, 10, 0, None),
    ]);
}

fn use_frame_cases(cases: &[(u32, i32, i32, Option<u32>)]) {
    for &(frames, age, lifetime, want) in cases {
        assert_eq!(rewo_world::particles::sprite_frame_for_age(frames, age, lifetime), want, "{frames} {age} {lifetime}");
    }
}
