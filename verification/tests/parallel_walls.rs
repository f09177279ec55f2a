use localization::parallel::{
    cost, localize, localize_within, point_cost, sound_distances, virtual_sources, Room,
    MAX_ORDER,
};
use localization::signal::PEAK;
use localization::units::{METRE, NOWHERE, OUTER};

// A room 5 m wide with the source 2 m from the first wall. The probe lasts
// for 1 m of flight, so the grid spacing is 0.1 m, and one sample of the
// curve spans 0.01 m.
fn room(signal: Vec<i64>) -> Room {
    Room {
        sample_len: 100,
        signal_fs: 34_000,
        signal,
        v_sound: 340_000_000,
        width: 5 * METRE,
        source_x: 2 * METRE,
    }
}

fn index_of(distance: u64) -> usize {
    ((2 * 34_000 * (distance as u128) + 340_000_000) / (2 * 340_000_000)) as usize
}

fn echoes_of(mic: (i64, i64)) -> Vec<i64> {
    let silent: Room = room(vec![]);
    let mut signal: Vec<i64> = vec![0; 3_000];
    for d in sound_distances(&silent, &mic, MAX_ORDER) {
        signal[index_of(d)] = PEAK;
    }
    signal
}

#[test]
fn images_up_to_the_third_order() {
    let r: Room = room(vec![]);
    let expected: Vec<(i64, i64)> = vec![
        (-12 * METRE, 0),
        (-2 * METRE, 0),
        (8 * METRE, 0),
        (18 * METRE, 0),
        (-8 * METRE, 0),
        (2 * METRE, 0),
        (12 * METRE, 0),
    ];
    assert_eq!(virtual_sources(&r, &(METRE, METRE), 3), expected);
    assert_eq!(virtual_sources(&r, &(4 * METRE, 9 * METRE), 3), expected);
}

#[test]
fn images_of_low_orders() {
    let r: Room = room(vec![]);
    let nearest: Vec<(i64, i64)> = vec![(-2 * METRE, 0), (8 * METRE, 0), (2 * METRE, 0)];
    assert_eq!(virtual_sources(&r, &(0, 0), 0), nearest);
    assert_eq!(virtual_sources(&r, &(0, 0), 1), nearest);
    assert_eq!(virtual_sources(&r, &(0, 0), 2).len(), 7);
    assert_eq!(virtual_sources(&r, &(0, 0), 4).len(), 11);
    assert_eq!(virtual_sources(&r, &(0, 0), 5).len(), 11);
}

#[test]
fn images_of_the_highest_order_stay_in_reach() {
    let r: Room = Room {
        sample_len: 1,
        signal_fs: 1,
        signal: vec![],
        v_sound: 1,
        width: 1_099_511_627_776,
        source_x: 1_099_511_627_775,
    };
    let sources: Vec<(i64, i64)> = virtual_sources(&r, &(0, 0), 1_000_000);
    assert_eq!(sources.len(), 2_000_003);
    assert_eq!(sources[0].0, -1_099_511_627_775 - 2 * 1_099_511_627_776 * 500_000);
    assert_eq!(sources[1_000_001].0, -1_099_511_627_775 + 2 * 1_099_511_627_776 * 500_001);
}

#[test]
fn sound_distances_are_sorted() {
    let r: Room = room(vec![]);
    assert_eq!(
        sound_distances(&r, &(3 * METRE, 4 * METRE), 3),
        vec![4_123_105, 6_403_124, 6_403_124, 9_848_857, 11_704_699, 15_524_174, 15_524_174]
    );
    assert_eq!(
        sound_distances(&r, &(METRE, 0), 3),
        vec![1_000_000, 3_000_000, 7_000_000, 9_000_000, 11_000_000, 13_000_000, 17_000_000]
    );
}

#[test]
fn sound_distances_ascend_everywhere() {
    let r: Room = room(vec![]);
    let mut x: i64 = -3 * METRE;
    while x < 8 * METRE {
        let mut y: i64 = -2 * METRE;
        while y < 11 * METRE {
            let distances: Vec<u64> = sound_distances(&r, &(x, y), 3);
            assert_eq!(distances.len(), 7);
            assert!(distances.windows(2).all(|pair| pair[0] <= pair[1]));
            y += 730_001;
        }
        x += 410_003;
    }
}

#[test]
fn point_cost_reads_the_curve() {
    let mut signal: Vec<i64> = vec![0; 700];
    signal[600] = PEAK;
    signal[699] = 9;
    let r: Room = room(signal);
    assert_eq!(point_cost(&r, 6_000_000), PEAK);
    assert_eq!(point_cost(&r, 5_995_000), PEAK);
    assert_eq!(point_cost(&r, 5_994_999), 0);
    assert_eq!(point_cost(&r, 6_994_999), 9);
}

#[test]
fn point_cost_beyond_the_curve_is_zero() {
    let mut signal: Vec<i64> = vec![0; 700];
    signal[699] = 9;
    let r: Room = room(signal);
    assert_eq!(point_cost(&r, 6_995_000), 0);
    assert_eq!(point_cost(&r, 7_000_000), 0);
    assert_eq!(point_cost(&r, u64::MAX), 0);
}

#[test]
fn cost_counts_coincident_echoes_once() {
    let mic: (i64, i64) = (3 * METRE, 4 * METRE);
    let r: Room = room(echoes_of(mic));
    // seven images, two pairs of which are equally far away
    assert_eq!(cost(&r, &mic, 3, 500_000), 5 * PEAK as i128);
    assert_eq!(cost(&r, &mic, 3, 0), 5 * PEAK as i128);
}

#[test]
fn cost_is_not_negative_over_a_nonnegative_curve() {
    let r: Room = room(echoes_of((3 * METRE, 4 * METRE)));
    let mut x: i64 = 100_000;
    while x < 5 * METRE {
        assert!(cost(&r, &(x, 2 * x), 3, 500_000) >= 0);
        x += 100_000;
    }
}

#[test]
fn a_single_spike_is_found_on_the_first_row() {
    // The curve is zero but for one unit spike at the sample of 6 m.
    let mut signal: Vec<i64> = vec![0; 3_000];
    signal[600] = PEAK;
    let r: Room = room(signal);
    let guess: (i64, i64) = localize(&r);
    // (2 m, 0) is the first candidate with a path of 6 m: to the image at 8 m.
    assert_eq!(guess, (2 * METRE, 0));
    let best: i128 = cost(&r, &guess, 3, 500_000);
    assert_eq!(best, PEAK as i128);
    let step: i64 = 100_000;
    let mut y: i64 = 0;
    while y < 10 * METRE {
        let mut x: i64 = step;
        while x < 5 * METRE {
            let c: i128 = cost(&r, &(x, y), 3, 500_000);
            assert!(c <= best);
            if (y, x) < (guess.1, guess.0) {
                assert!(c < best);
            }
            x += step;
        }
        y += step;
    }
}

#[test]
fn the_echoes_of_a_receiver_lead_back_to_it() {
    let mic: (i64, i64) = (3 * METRE, 4 * METRE);
    let r: Room = room(echoes_of(mic));
    let guess: (i64, i64) = localize(&r);
    let step: i64 = 100_000;
    assert!((guess.0 - mic.0).abs() <= step);
    assert!((guess.1 - mic.1).abs() <= step);
    assert_eq!(guess, mic);
    let best: i128 = cost(&r, &guess, 3, 500_000);
    assert_eq!(best, 5 * PEAK as i128);
    let mut y: i64 = 0;
    while y < 10 * METRE {
        let mut x: i64 = step;
        while x < 5 * METRE {
            if (x - mic.0).abs() > 2 * step || (y - mic.1).abs() > 2 * step {
                assert!(cost(&r, &(x, y), 3, 500_000) < best);
            }
            x += step;
        }
        y += step;
    }
}

#[test]
fn a_room_narrower_than_the_grid_has_no_candidate() {
    let mut r: Room = room(vec![PEAK; 3_000]);
    r.width = 99_999;
    r.source_x = 50_000;
    assert_eq!(localize(&r), (NOWHERE, NOWHERE));
    assert_eq!(localize(&r), (-20 * METRE, -20 * METRE));
    r.width = 100_000;
    assert_eq!(localize(&r), (NOWHERE, NOWHERE));
    r.width = 100_001;
    assert_eq!(localize(&r), (100_000, 0));
}

#[test]
fn of_equal_candidates_the_first_wins() {
    let flat: Room = Room {
        sample_len: 300,
        signal_fs: 34_000,
        signal: vec![PEAK; 5_000],
        v_sound: 340_000_000,
        width: METRE,
        source_x: METRE / 2,
    };
    assert_eq!(localize(&flat), (300_000, 0));
    let silent: Room = room(vec![0; 3_000]);
    assert_eq!(localize(&silent), (100_000, 0));
}

#[test]
fn wf_wants_the_source_between_the_walls() {
    let mut r: Room = room(vec![]);
    assert!(r.is_wf());
    assert!(r.is_geometry_wf());
    r.source_x = 0;
    assert!(!r.is_wf());
    assert!(!r.is_geometry_wf());
    r.source_x = 5 * METRE;
    assert!(!r.is_wf());
    r.source_x = 2 * METRE;
    r.width = 1_099_511_627_777;
    assert!(!r.is_wf());
    r.width = 5 * METRE;
    r.signal_fs = 0;
    assert!(!r.is_wf());
    assert!(r.is_geometry_wf());
    r.signal_fs = 1;
    r.v_sound = 0;
    assert!(!r.is_wf());
}

#[test]
fn searchable_wants_a_grid_spacing() {
    let mut r: Room = room(vec![]);
    assert!(r.is_searchable());
    r.sample_len = 0;
    assert!(!r.is_searchable());
    r.sample_len = 1;
    r.signal_fs = 34_000_001;
    assert!(!r.is_searchable());
    r.signal_fs = 34_000_000;
    assert!(r.is_searchable());
    r.sample_len = usize::MAX;
    assert!(!r.is_searchable());
    r.sample_len = 100;
    r.source_x = 0;
    assert!(!r.is_searchable());
}

#[test]
fn grid_spacing_and_merge_distance() {
    let r: Room = room(vec![]);
    // the probe of 100 samples is in flight for 340 m/s * 100 / 34000 Hz = 1 m
    assert_eq!(r.grid_step(), 100_000);
    assert_eq!(r.merge_delta(), 500_000);
    let mut odd: Room = room(vec![]);
    odd.v_sound = 343_000_000;
    odd.signal_fs = 48_000;
    odd.sample_len = 4_799;
    // span 34 292 854 micrometres
    assert_eq!(odd.grid_step(), 3_429_285);
    assert_eq!(odd.merge_delta(), 17_146_427);
}

#[test]
fn a_bounded_search_stops_below_its_bound() {
    let mic: (i64, i64) = (3 * METRE, 4 * METRE);
    let r: Room = room(echoes_of(mic));
    assert_eq!(localize_within(&r, 3, OUTER), localize(&r));
    assert_eq!(localize_within(&r, 3, 5 * METRE), mic);
    assert_eq!(localize_within(&r, 3, 4 * METRE + 1), mic);
    // without the row at 4 m the best candidate has two of the five echoes
    assert_eq!(localize_within(&r, 3, 4 * METRE), (1_800_000, 1_600_000));
    assert_eq!(cost(&r, &(1_800_000, 1_600_000), 3, 500_000), 2 * PEAK as i128);
    assert_eq!(localize_within(&r, 3, 1), (300_000, 0));
}

#[test]
fn a_search_without_rows_has_no_candidate() {
    let r: Room = room(vec![PEAK; 3_000]);
    assert_eq!(localize_within(&r, 3, 0), (NOWHERE, NOWHERE));
    assert_eq!(localize_within(&r, 3, -5), (NOWHERE, NOWHERE));
    assert_ne!(localize_within(&r, 3, 1), (NOWHERE, NOWHERE));
}

#[test]
fn a_search_with_fewer_images_sees_fewer_echoes() {
    let mic: (i64, i64) = (3 * METRE, 4 * METRE);
    let r: Room = room(echoes_of(mic));
    assert_eq!(cost(&r, &mic, 0, 500_000), 2 * PEAK as i128);
    assert_eq!(localize_within(&r, 0, OUTER), (1_800_000, 1_600_000));
    assert_eq!(localize_within(&r, 1, OUTER), (1_800_000, 1_600_000));
    assert_eq!(localize_within(&r, 2, OUTER), mic);
    assert_eq!(localize_within(&r, 5, OUTER), mic);
}
