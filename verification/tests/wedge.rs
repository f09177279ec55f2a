use localization::angled::{
    cost, localize, localize_within, point_cost, project, sound_distances, virtual_sources, Room,
};
use localization::signal::PEAK;
use localization::trig::{bearing, PI, QUARTER};
use localization::units::{METRE, NOWHERE, OUTER};

// A wedge of a quarter of pi, the source 3 m from the corner at 0.2 rad.
// The probe lasts for 2 m of flight, so the grid spacing is 0.2 m and
// distances within 0.707106 m of each other count once.
fn acute(signal: Vec<i64>) -> Room {
    Room {
        sample_len: 200,
        signal_fs: 34_000,
        signal,
        v_sound: 340_000_000,
        room_arg: 785_398,
        room_amp: 10 * METRE,
        source_arg: 200_000,
        source_amp: 3 * METRE,
    }
}

fn obtuse(signal: Vec<i64>) -> Room {
    Room {
        sample_len: 200,
        signal_fs: 34_000,
        signal,
        v_sound: 340_000_000,
        room_arg: 2_000_000,
        room_amp: 4 * METRE,
        source_arg: 500_000,
        source_amp: 2 * METRE,
    }
}

fn index_of(distance: u64) -> usize {
    ((2 * 34_000 * (distance as u128) + 340_000_000) / (2 * 340_000_000)) as usize
}

fn echoes_of(room: &Room, mic: (i64, i64)) -> Vec<i64> {
    let mut signal: Vec<i64> = vec![0; 4_000];
    for d in sound_distances(room, &mic) {
        signal[index_of(d)] = PEAK;
    }
    signal
}

// The indices n with `mic_arg - PI < offset + 2 * room_arg * n < mic_arg + PI`, by trial.
fn window_by_trial(mic_arg: i64, offset: i64, room_arg: i64) -> Vec<i64> {
    let mut found: Vec<i64> = Vec::new();
    let mut n: i64 = -10_000;
    while n <= 10_000 {
        let angle: i64 = offset + 2 * room_arg * n;
        if mic_arg - PI < angle && angle < mic_arg + PI {
            found.push(n);
        }
        n += 1;
    }
    found
}

#[test]
fn the_window_of_a_receiver_on_the_axis() {
    let r: Room = acute(vec![]);
    let amp: i64 = 3 * METRE;
    // 0.2 + n * pi/2 for n = -2 .. 1, then -0.2 + n * pi/2 for n = -1 .. 2
    let expected: Vec<(i64, i64)> = vec![
        (amp, 200_000 - 2 * 1_570_796),
        (amp, 200_000 - 1_570_796),
        (amp, 200_000),
        (amp, 200_000 + 1_570_796),
        (amp, -200_000 - 1_570_796),
        (amp, -200_000),
        (amp, -200_000 + 1_570_796),
        (amp, -200_000 + 2 * 1_570_796),
    ];
    assert_eq!(bearing(METRE, 0), 0);
    assert_eq!(virtual_sources(&r, &(METRE, 0)), expected);
}

#[test]
fn the_window_turns_with_the_receiver() {
    let r: Room = acute(vec![]);
    let amp: i64 = 3 * METRE;
    assert_eq!(bearing(4 * METRE, 2 * METRE), 463_647);
    let expected: Vec<(i64, i64)> = vec![
        (amp, -1_370_796),
        (amp, 200_000),
        (amp, 1_770_796),
        (amp, 3_341_592),
        (amp, -1_770_796),
        (amp, -200_000),
        (amp, 1_370_796),
        (amp, 2_941_592),
    ];
    assert_eq!(virtual_sources(&r, &(4 * METRE, 2 * METRE)), expected);
}

#[test]
fn the_window_holds_the_images_within_half_a_turn() {
    let rooms: Vec<(i64, i64)> = vec![
        (785_398, 200_000),
        (100_000, -50_000),
        (3_000_000, 0),
        (7_000_000, 123),
        (1_047_198, 2_000_000),
        (2_000_000, 500_000),
        (654, 3_141_593),
        (1_570_796, -1_570_796),
    ];
    let mics: Vec<(i64, i64)> =
        vec![(METRE, 0), (-METRE, 0), (0, METRE), (0, -METRE), (3, 4), (-5, 2), (-1, -1), (7, -9), (0, 0)];
    for (room_arg, source_arg) in rooms {
        let mut r: Room = acute(vec![]);
        r.room_arg = room_arg;
        r.source_arg = source_arg;
        for mic in &mics {
            let mic_arg: i64 = bearing(mic.0, mic.1);
            let odd: Vec<i64> = window_by_trial(mic_arg, source_arg, room_arg);
            let even: Vec<i64> = window_by_trial(mic_arg, -source_arg, room_arg);
            let mut expected: Vec<(i64, i64)> = Vec::new();
            for n in &odd {
                expected.push((r.source_amp, source_arg + 2 * room_arg * n));
            }
            for n in &even {
                expected.push((r.source_amp, -source_arg + 2 * room_arg * n));
            }
            let sources: Vec<(i64, i64)> = virtual_sources(&r, mic);
            assert_eq!(sources.len(), odd.len() + even.len());
            assert_eq!(sources, expected);
        }
    }
}

#[test]
fn an_image_at_the_edge_of_the_window_is_left_out() {
    let mut r: Room = acute(vec![]);
    // the receiver on the positive x axis, images at multiples of PI
    r.room_arg = 3_141_593;
    r.source_arg = 3_141_593;
    let amp: i64 = 3 * METRE;
    assert_eq!(virtual_sources(&r, &(METRE, 0)), vec![]);
    r.source_arg = 3_141_592;
    assert_eq!(virtual_sources(&r, &(METRE, 0)), vec![(amp, 3_141_592), (amp, -3_141_592)]);
}

#[test]
fn project_turns_polar_into_cartesian() {
    assert_eq!(project((3 * METRE, 0)), (3 * METRE, 0));
    assert_eq!(project((3 * METRE, QUARTER)), (0, 3 * METRE));
    assert_eq!(project((3 * METRE, PI)), (-3 * METRE, 0));
    assert_eq!(project((3 * METRE, 200_000)), (2_940_199, 596_007));
    assert_eq!(project((3 * METRE, -2_941_592)), (-2_940_200, -596_011));
    assert_eq!(project((-3 * METRE, 200_000)), (-2_940_200, -596_008));
    assert_eq!(project((0, 12_345)), (0, 0));
    assert_eq!(project((1_099_511_627_776, 785_398)), (777_472_254_976, 777_472_001_024));
}

#[test]
fn project_matches_floating_point() {
    let mut angle: i64 = -6_500_000;
    while angle < 6_500_000 {
        let (x, y) = project((5 * METRE, angle));
        let radians: f64 = angle as f64 / 1e6;
        assert!((x as f64 - 5e6 * radians.cos()).abs() < 6.0, "x at {angle}");
        assert!((y as f64 - 5e6 * radians.sin()).abs() < 6.0, "y at {angle}");
        angle += 12_347;
    }
}

#[test]
fn sound_distances_in_the_wedge_are_sorted() {
    let r: Room = acute(vec![]);
    assert_eq!(
        sound_distances(&r, &(METRE, 0)),
        vec![
            2_029_678, 2_029_679, 2_967_824, 2_967_825, 3_345_446, 3_345_447, 3_985_022,
            3_985_022
        ]
    );
    assert_eq!(
        sound_distances(&r, &(4 * METRE, 2 * METRE)),
        vec![
            1_759_083, 2_804_003, 3_531_449, 4_691_189, 5_999_394, 6_747_508, 7_080_788,
            7_409_833
        ]
    );
    let o: Room = obtuse(vec![]);
    assert_eq!(bearing(-METRE, 3 * METRE), 1_892_548);
    assert_eq!(
        sound_distances(&o, &(-METRE, 3 * METRE)),
        vec![3_428_880, 3_803_100, 4_823_219, 4_988_705]
    );
}

#[test]
fn sound_distances_from_the_corner_are_the_radius() {
    let r: Room = acute(vec![]);
    assert_eq!(
        sound_distances(&r, &(0, 0)),
        vec![
            2_999_999, 2_999_999, 2_999_999, 3_000_000, 3_000_000, 3_000_000, 3_000_000,
            3_000_001
        ]
    );
}

#[test]
fn sound_distances_in_the_wedge_ascend_everywhere() {
    let r: Room = acute(vec![]);
    let o: Room = obtuse(vec![]);
    let mut x: i64 = -11 * METRE;
    while x < 11 * METRE {
        let mut y: i64 = -11 * METRE;
        while y < 11 * METRE {
            let distances: Vec<u64> = sound_distances(&r, &(x, y));
            assert!(distances.windows(2).all(|pair| pair[0] <= pair[1]));
            let distances: Vec<u64> = sound_distances(&o, &(x, y));
            assert!(distances.windows(2).all(|pair| pair[0] <= pair[1]));
            y += 1_730_001;
        }
        x += 1_410_003;
    }
}

#[test]
fn point_cost_in_the_wedge_reads_the_curve() {
    let mut signal: Vec<i64> = vec![0; 700];
    signal[600] = PEAK;
    signal[699] = 9;
    let r: Room = acute(signal);
    assert_eq!(point_cost(&r, 6_000_000), PEAK);
    assert_eq!(point_cost(&r, 6_994_999), 9);
    assert_eq!(point_cost(&r, 6_995_000), 0);
    assert_eq!(point_cost(&r, 70 * METRE as u64), 0);
    assert_eq!(point_cost(&r, u64::MAX), 0);
}

#[test]
fn cost_in_the_wedge_merges_near_echoes() {
    let mic: (i64, i64) = (4 * METRE, 2 * METRE);
    let mut r: Room = acute(vec![]);
    r.signal = echoes_of(&r, mic);
    assert_eq!(cost(&r, &mic, 0), 8 * PEAK as i128);
    // the gaps from 6.747 m to 7.081 m and on to 7.410 m are below 0.707 m
    assert_eq!(cost(&r, &mic, 707_106), 6 * PEAK as i128);
    assert_eq!(cost(&r, &mic, 20 * METRE as u64), PEAK as i128);
}

#[test]
fn cost_in_the_wedge_is_not_negative_over_a_nonnegative_curve() {
    let mut r: Room = acute(vec![]);
    r.signal = echoes_of(&r, (4 * METRE, 2 * METRE));
    let mut x: i64 = -9 * METRE;
    while x < 9 * METRE {
        assert!(cost(&r, &(x, x / 3 + METRE), 707_106) >= 0);
        x += 170_000;
    }
}

#[test]
fn the_echoes_of_a_receiver_in_the_wedge_lead_back_to_it() {
    let mic: (i64, i64) = (4 * METRE, 2 * METRE);
    let mut r: Room = acute(vec![]);
    r.signal = echoes_of(&r, mic);
    assert!(r.is_searchable());
    let guess: (i64, i64) = localize(&r);
    assert_eq!(guess, mic);
    assert_eq!(cost(&r, &guess, 707_106), 6 * PEAK as i128);
}

#[test]
fn the_echoes_of_a_receiver_in_an_obtuse_wedge_lead_back_to_it() {
    let mic: (i64, i64) = (-METRE, 3 * METRE);
    let mut r: Room = obtuse(vec![]);
    r.signal = echoes_of(&r, mic);
    let guess: (i64, i64) = localize(&r);
    assert_eq!(guess, mic);
    assert_eq!(cost(&r, &guess, 707_106), 2 * PEAK as i128);
}

#[test]
fn over_a_silent_curve_the_first_candidate_wins() {
    // acute: the first column with a row clear of the upper wall is x = 0.6 m
    assert_eq!(localize(&acute(vec![0; 4_000])), (600_000, 200_000));
    // obtuse: the first column is x = -4 m, where only y = 8.8 m lies
    // inside the wall and, with the row above it, within 10 m of the corner
    assert_eq!(localize(&obtuse(vec![0; 4_000])), (-4 * METRE, 8_800_000));
}

#[test]
fn over_a_flat_curve_the_candidate_with_most_distinct_echoes_wins() {
    let r: Room = acute(vec![PEAK; 4_000]);
    let guess: (i64, i64) = localize(&r);
    assert_eq!(guess, (5_600_000, 2_000_000));
    assert_eq!(cost(&r, &guess, 707_106), 7 * PEAK as i128);
}

#[test]
fn a_wedge_without_candidates_gives_the_fallback() {
    let mut r: Room = acute(vec![PEAK; 4_000]);
    r.room_amp = 0;
    assert_eq!(localize(&r), (NOWHERE, NOWHERE));
    assert_eq!(localize(&r), (-20 * METRE, -20 * METRE));
    r.room_amp = 600_000;
    assert_eq!(localize(&r), (NOWHERE, NOWHERE));
    r.room_amp = 600_001;
    assert_eq!(localize(&r), (600_000, 200_000));
}

#[test]
fn wf_in_the_wedge_wants_a_positive_angle() {
    let mut r: Room = acute(vec![]);
    assert!(r.is_wf());
    assert!(r.is_searchable());
    r.room_arg = 0;
    assert!(!r.is_wf());
    assert!(!r.is_geometry_wf());
    assert!(!r.is_searchable());
    r.room_arg = 1;
    assert!(r.is_wf());
    r.source_amp = -1;
    assert!(!r.is_wf());
    r.source_amp = 0;
    r.room_amp = 1_099_511_627_777;
    assert!(r.is_wf());
    assert!(!r.is_searchable());
    r.room_amp = -1;
    assert!(!r.is_searchable());
    r.room_amp = 0;
    assert!(r.is_searchable());
    r.source_arg = -1_099_511_627_777;
    assert!(!r.is_wf());
    r.source_arg = -1_099_511_627_776;
    assert!(r.is_wf());
    r.v_sound = 0;
    assert!(!r.is_wf());
    assert!(r.is_geometry_wf());
    r.v_sound = 340_000_000;
    r.sample_len = 0;
    assert!(!r.is_searchable());
}

#[test]
fn grid_spacing_and_merge_distance_in_the_wedge() {
    let r: Room = acute(vec![]);
    // the probe of 200 samples is in flight for 2 m; 2 m / (2 * sqrt 2) = 0.7071067 m
    assert_eq!(r.grid_step(), 200_000);
    assert_eq!(r.merge_delta(), 707_106);
    let mut small: Room = acute(vec![]);
    small.sample_len = 1;
    // span 10 000 micrometres
    assert_eq!(small.grid_step(), 1_000);
    assert_eq!(small.merge_delta(), 3_535);
}

#[test]
fn a_bounded_search_in_the_wedge_stays_within_its_radius() {
    let mic: (i64, i64) = (4 * METRE, 2 * METRE);
    let mut r: Room = acute(vec![]);
    r.signal = echoes_of(&r, mic);
    assert_eq!(localize_within(&r, OUTER), localize(&r));
    assert_eq!(localize_within(&r, 5 * METRE), mic);
    // the point one row above the receiver is 4.565 084 9 m from the corner
    assert_eq!(localize_within(&r, 4_565_085), mic);
    assert_eq!(localize_within(&r, 4_565_084), (2_200_000, 1_000_000));
}

#[test]
fn a_search_radius_below_the_first_candidate_leaves_none() {
    let r: Room = acute(vec![0; 4_000]);
    // the point one row above the first candidate is 0.721 110 3 m from the corner
    assert_eq!(localize_within(&r, 721_111), (600_000, 200_000));
    assert_eq!(localize_within(&r, 721_110), (NOWHERE, NOWHERE));
    assert_eq!(localize_within(&r, 0), (NOWHERE, NOWHERE));
}
