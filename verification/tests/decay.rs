//! Decay: the integer computation, the chip and the three ways to handle it in a transfer.
use gradido_blockchain_zk::circuit::decay_bench::{
    configure_impl, effective_value, mode_name, range_check, rows_per_input, value_chunks, DecayBenchCircuit,
    MODE_ANCHORED, MODE_EPOCH, MODE_EXACT, POW_TABLE_MAX, W2_SHIFT_LIMIT,
};
use gradido_blockchain_zk::circuit::decay_chip::{load, DecayConfig, SHIFT_TAG};
use gradido_blockchain_zk::circuit::range::{check_bits, words};
use gradido_blockchain_zk::decay::{
    decay, decay_trace, decay_windowed, shift_trace, window_table, windowed_trace, DECAY_POWERS, REM_BITS,
    SECONDS_PER_YEAR, WINDOWS, WINDOW_SIZE,
};
use gradido_blockchain_zk::pallas::Base;

/// (value, duration, bit chain, windowed), computed apart from the library with exact integers.
const FIXED: [(u64, u64, u64, u64); 54] = [
    (9999, 31556952, 4999, 4999),
    (9999, 315581865, 9, 9),
    (9999, 1956531024, 0, 0),
    (9999, 2208998985, 0, 0),
    (9999, 1988087975, 0, 0),
    (9999, 94670856, 1249, 1249),
    (10000, 6311390400, 0, 0),
    (10000, 0, 10000, 10000),
    (10000, 1988087975, 0, 0),
    (10000, 31556951, 5000, 5000),
    (10000, 1956531024, 0, 0),
    (10000, 3600, 9999, 9999),
    (123456, 1, 123456, 123456),
    (123456, 2592000, 116624, 116624),
    (123456, 6311390400, 0, 0),
    (123456, 2208998985, 0, 0),
    (123456, 31556951, 61728, 61728),
    (123456, 3600, 123446, 123446),
    (10000000, 1956531024, 0, 0),
    (10000000, 3600, 9999209, 9999209),
    (10000000, 31556953, 5000000, 5000000),
    (10000000, 2208998985, 0, 0),
    (10000000, 0, 10000000, 10000000),
    (10000000, 315581865, 9762, 9762),
    (1000000000000, 34560000, 468083299269, 468083299269),
    (1000000000000, 1988087975, 0, 0),
    (1000000000000, 86400, 998104027109, 998104027109),
    (1000000000000, 59, 999998704068, 999998704068),
    (1000000000000, 1956531024, 0, 0),
    (1000000000000, 6311390400, 0, 0),
    (4611686018427387904, 2592000, 4356462370713031216, 4356462370713031216),
    (4611686018427387904, 59, 4611680041996891314, 4611680041996891314),
    (4611686018427387904, 2208998985, 0, 0),
    (4611686018427387904, 31556953, 2305842958565945618, 2305842958565945618),
    (4611686018427387904, 1988087975, 1, 1),
    (4611686018427387904, 31556951, 2305843059856228432, 2305843059856228432),
    (9223372036854775807, 86400, 9205884773510467924, 9205884773510467924),
    (9223372036854775807, 6311390400, 0, 0),
    (9223372036854775807, 0, 9223372036854775807, 9223372036854775807),
    (9223372036854775807, 1988087975, 1, 1),
    (9223372036854775807, 1988087976, 0, 0),
    (9223372036854775807, 3600, 9222642738105359877, 9222642738105359877),
    (1987462979578903723, 44521749, 747471214038496549, 747471214038496549),
    (1535548282054778240, 77659765, 278898849841451312, 278898849841451312),
    (8868069223667823802, 53388946, 2744972475206090158, 2744972475206090158),
    (8080770855644859542, 54970082, 2415899380933192230, 2415899380933192230),
    (8678971717252666989, 52849315, 2718472057839497130, 2718472057839497130),
    (8901443055097266726, 102870773, 929285763683406295, 929285763683406295),
    (198950093389131248, 96956184, 23651234849016052, 23651234849016052),
    (1530674394151998353, 39111558, 648317081823349962, 648317081823349962),
    (600807789166145020, 89081510, 84910968935400616, 84910968935400616),
    (7539187139433848499, 157341096, 237906754205737206, 237906754205737206),
    (5496935587679942477, 90703499, 749680672011237234, 749680672011237234),
    (2858857307698551014, 95388902, 351765193131192611, 351765193131192611),
];

fn power(i: usize) -> u128 {
    DECAY_POWERS[i] as u128
}

/// The bit chain as the unit type of the blockchain computes it: shift by whole years, multiply
/// the Q64.64 factors of the bits of the rest, round half up.
fn reference_bits(value: u64, duration: u64) -> u64 {
    let (years, rest) = (duration / SECONDS_PER_YEAR, duration % SECONDS_PER_YEAR);
    let value = if years >= 63 { 0 } else { value >> years };
    let mut factor = 1u128 << 64;
    for i in 0..REM_BITS {
        if (rest >> i) & 1 == 1 {
            factor = (factor * power(i)) >> 64;
        }
    }
    (((value as u128) * factor + (1u128 << 63)) >> 64) as u64
}

/// A product of two Q64.64 numbers up to one, rounded down.
fn q64(a: u128, b: u128) -> u128 {
    if a == 1u128 << 64 {
        b
    } else if b == 1u128 << 64 {
        a
    } else {
        (a * b) >> 64
    }
}

/// The same with the factors of five bits at a time.
fn reference_windows(value: u64, duration: u64) -> u64 {
    let (years, rest) = (duration / SECONDS_PER_YEAR, duration % SECONDS_PER_YEAR);
    let value = if years >= 63 { 0 } else { value >> years };
    let mut factor = 1u128 << 64;
    for j in 0..5 {
        let mut window = 1u128 << 64;
        for b in 0..5 {
            if (rest >> (5 * j + b)) & 1 == 1 {
                window = q64(window, power(5 * j + b));
            }
        }
        factor = q64(factor, window);
    }
    (((value as u128) * factor + (1u128 << 63)) >> 64) as u64
}

/// (value, duration, bit chain, windowed): the fixed vectors, and a grid of small and large values
/// with durations up to 200 years.
fn all_vectors() -> Vec<(u64, u64, u64, u64)> {
    let mut out = FIXED.to_vec();
    let mut state = 0x9e37_79b9_7f4a_7c15u64;
    let mut next = || {
        state ^= state << 13;
        state ^= state >> 7;
        state ^= state << 17;
        state
    };
    let durations = [
        0,
        1,
        59,
        3_600,
        86_400,
        400 * 86_400,
        SECONDS_PER_YEAR - 1,
        SECONDS_PER_YEAR,
        SECONDS_PER_YEAR + 1,
        62 * SECONDS_PER_YEAR,
        63 * SECONDS_PER_YEAR,
        200 * SECONDS_PER_YEAR,
    ];
    for shift in 0..63 {
        for duration in durations {
            for value in [1u64 << shift, (1u64 << shift) - 1, next() >> (64 - shift.max(1))] {
                out.push((value, duration, reference_bits(value, duration), reference_windows(value, duration)));
            }
        }
    }
    for _ in 0..2_000 {
        let value = next() >> 1;
        let duration = next() % (10 * SECONDS_PER_YEAR);
        out.push((value, duration, reference_bits(value, duration), reference_windows(value, duration)));
    }
    out
}

/// (value, duration, result of the bit chain)
fn vectors() -> Vec<(u64, u64, u64)> {
    all_vectors().into_iter().map(|(v, d, bits, _)| (v, d, bits)).collect()
}

// far enough in the future for durations of 200 years
const NOW: u64 = 10_000_000_000;
const SIGHASH: u64 = 0xdead_beef;

fn satisfied<const MODE: usize, const NI: usize, const NO: usize>(
    inputs: [Base; NI],
    tags: [u64; NI],
    outputs: [Base; NO],
    now: u64,
) -> bool {
    let circuit = DecayBenchCircuit::<MODE, NI, NO>::new(inputs, tags, outputs, now);
    let instance = DecayBenchCircuit::<MODE, NI, NO>::instance(Base::from(SIGHASH), now);
    circuit.accepts(&instance)
}

// ------------------------------------------------------------------------------- integers

#[test]
fn native_decay_matches_unit_c() {
    let vs = vectors();
    assert!(vs.len() > 4000);
    for (value, duration, expected) in vs {
        assert_eq!(decay(value, duration), expected, "value {value}, duration {duration}");
    }
}

/// The window chain must agree with the windowed decay of the unit type, exactly.
#[test]
fn windowed_decay_matches_unit_c_windowed() {
    for (value, duration, _, expected) in all_vectors() {
        assert_eq!(decay_windowed(value, duration), expected, "value {value}, duration {duration}");
    }
}

#[test]
fn windowed_decay_stays_within_two_units_of_the_bit_chain() {
    let mut differing = 0usize;
    let mut max_diff = 0i128;
    let vs = vectors();
    for &(value, duration, expected) in vs.iter() {
        let got = decay_windowed(value, duration) as i128;
        let diff = got - expected as i128;
        if diff != 0 {
            differing += 1;
        }
        max_diff = max_diff.max(diff.abs());
    }
    println!("{differing} of {} vectors differ, largest difference {max_diff}", vs.len());
    assert!(max_diff <= 2, "windowed decay drifts by more than two units: {max_diff}");
}

#[test]
fn whole_years_halve_exactly() {
    for years in 0..63u64 {
        assert_eq!(decay(1 << 62, years * SECONDS_PER_YEAR), (1u64 << 62) >> years);
        assert_eq!(decay_windowed(1 << 62, years * SECONDS_PER_YEAR), (1u64 << 62) >> years);
    }
    assert_eq!(decay(i64::MAX as u64, 63 * SECONDS_PER_YEAR), 0);
    assert_eq!(decay_windowed(i64::MAX as u64, 64 * SECONDS_PER_YEAR + 5), 0);
    // without time nothing happens, and nothing gains value
    assert_eq!(decay(123_456, 0), 123_456);
    assert_eq!(decay_windowed(i64::MAX as u64, 0), i64::MAX as u64);
    assert!(decay(1_000_0000, 400 * 86_400) < 1_000_0000);
    // more stays more
    assert!(decay(1_000_0000, 77_777) <= decay(1_000_0001, 77_777));
}

#[test]
fn a_trace_holds_every_step() {
    let t = decay_trace(1_000_0000, 3 * SECONDS_PER_YEAR + 6);
    assert_eq!((t.times, t.rem), (3, 6));
    assert_eq!((t.shift.q, t.shift.r, t.shift.shifted), (1_250_000, 0, 1_250_000));
    assert!(!t.bits[0] && t.bits[1] && t.bits[2] && !t.bits[3]);
    assert_eq!(t.f[0], 1u128 << 64);
    assert_eq!(t.f[2], DECAY_POWERS[1] as u128);
    assert_eq!(t.f_next[1], DECAY_POWERS[1]);
    assert_eq!(t.result, decay(1_000_0000, 3 * SECONDS_PER_YEAR + 6));

    let w = windowed_trace(1_000_0000, 33);
    assert_eq!(w.digits, [1, 1, 0, 0, 0]);
    assert_eq!(w.factors[0], DECAY_POWERS[0] as u128);
    assert_eq!(w.factors[1], DECAY_POWERS[5] as u128);
    assert_eq!(w.factors[2], 1u128 << 64);

    let s = shift_trace(0b1011, 2, 63);
    assert_eq!((s.big, s.shift, s.pow, s.q, s.r, s.shifted), (false, 2, 4, 2, 3, 2));
    let s = shift_trace(0b1011, 63, 63);
    assert_eq!((s.big, s.shift, s.pow, s.q, s.r, s.shifted), (true, 0, 1, 0b1011, 0, 0));
}

#[test]
fn the_window_table_holds_products_of_powers() {
    let table = window_table();
    assert_eq!((WINDOWS, WINDOW_SIZE), (5, 32));
    for j in 0..WINDOWS {
        assert_eq!(table[j][0], 1u128 << 64);
        for b in 0..5 {
            assert_eq!(table[j][1 << b], DECAY_POWERS[5 * j + b] as u128);
        }
        assert_eq!(table[j][3], q64(power(5 * j), power(5 * j + 1)));
        for c in 1..WINDOW_SIZE {
            assert!(0 < table[j][c] && table[j][c] < table[j][c - 1]);
            let seconds = (c as u64) << (5 * j);
            if seconds < SECONDS_PER_YEAR {
                assert_eq!(table[j][c], decay_trace(0, seconds).f[25]);
            }
        }
    }
}

// ------------------------------------------------------------------------------- chip

fn check<const WINDOWED: bool>(config: &DecayConfig<WINDOWED>, value: u64, duration: u64, expected: u64) -> bool {
    let (now, t_note) = (NOW, NOW - duration);
    let cells = DecayConfig::<WINDOWED>::decay(now, value, t_note);
    // the precondition, which the note chip provides in the action circuit
    assert!(check_bits(&Base::from(value), 63));
    config.check(&cells, &Base::from(now), &Base::from(value), &Base::from(t_note))
        && cells.round[0][2] == Base::from(expected)
}

#[test]
fn bit_chain_chip_matches_unit_c() {
    let config = DecayConfig::<false>::configure();
    for (value, duration, expected, _) in all_vectors().into_iter().step_by(30) {
        assert!(check(&config, value, duration, expected), "value {value}, duration {duration}");
        if expected > 0 {
            assert!(!check(&config, value, duration, expected - 1));
        }
    }
}

#[test]
fn window_chip_matches_unit_c_windowed() {
    let config = DecayConfig::<true>::configure();
    for (value, duration, _, expected) in all_vectors().into_iter().step_by(30) {
        assert!(check(&config, value, duration, expected), "value {value}, duration {duration}");
        if expected > 0 {
            assert!(!check(&config, value, duration, expected - 1));
        }
    }
}

/// Whatever else a prover writes into the result cell, some constraint fails.
#[test]
fn another_result_does_not_satisfy_the_chip() {
    let config = DecayConfig::<true>::configure();
    let (value, t_note) = (Base::from(1_000_0000u64), Base::from(NOW - 77_777));
    let honest = DecayConfig::<true>::decay(NOW, 1_000_0000, NOW - 77_777);
    assert!(config.check(&honest, &Base::from(NOW), &value, &t_note));
    let mut forged = honest.clone();
    forged.round[0][2] = forged.round[0][2].plus(&Base::one());
    assert!(!config.check(&forged, &Base::from(NOW), &value, &t_note));
    // nor with a remainder that makes the equation hold again
    forged.round[0][3] = forged.round[0][3].minus(&Base::from_u128(1u128 << 64));
    assert!(!config.check(&forged, &Base::from(NOW), &value, &t_note));
    // the cells belong to this value and these times
    assert!(!config.check(&honest, &Base::from(NOW + 1), &value, &t_note));
    assert!(!config.check(&honest, &Base::from(NOW), &Base::from(1_000_0001u64), &t_note));
    // a note from the future has no cells
    let future = DecayConfig::<true>::decay(NOW, 1_000_0000, NOW + 1);
    assert!(!config.check(&future, &Base::from(NOW), &value, &Base::from(NOW + 1)));
}

#[test]
fn the_table_of_the_chip() {
    assert_eq!(load(false).len(), 129);
    assert_eq!(load(true).len(), 129 + 160);
    assert_eq!(load(true)[0], (0, 0, 1u128 << 64));
    assert_eq!(load(true)[1 + 40], (SHIFT_TAG, 40, 1u128 << 40));
    assert_eq!(load(true)[129 + 32 * 2 + 1], (2, 1, DECAY_POWERS[10] as u128));
}

#[test]
fn range_checks_are_exact() {
    assert_eq!(words(63), (6, 3));
    assert_eq!(words(70), (7, 0));
    assert!(check_bits(&Base::from((1u64 << 63) - 1), 63));
    assert!(!check_bits(&Base::from(1u64 << 63), 63));
    assert!(!check_bits(&Base::one().negate(), 70));
    assert!(check_bits(&Base::zero(), 1));
}

// ------------------------------------------------------------------------------- three modes

#[test]
fn exact_circuit_matches_unit_c() {
    // every 60th vector: one input, output = result of the unit type
    for (value, duration, expected) in vectors().into_iter().step_by(60) {
        let ok = satisfied::<MODE_EXACT, 1, 1>([Base::from(value)], [NOW - duration], [Base::from(expected)], NOW);
        assert!(ok, "value {value}, duration {duration}");
    }
}

#[test]
fn exact_circuit_rejects_off_by_one() {
    for (value, duration, expected) in vectors().into_iter().step_by(400) {
        if expected == 0 {
            continue;
        }
        let bad = Base::from(expected - 1);
        assert!(!satisfied::<MODE_EXACT, 1, 1>([Base::from(value)], [NOW - duration], [bad], NOW));
        let bad = Base::from(expected + 1);
        assert!(!satisfied::<MODE_EXACT, 1, 1>([Base::from(value)], [NOW - duration], [bad], NOW));
    }
}

#[test]
fn exact_transfer_two_in_two_out() {
    let values = [Base::from(1_000_0000u64), Base::from(250_1234u64)];
    let tags = [NOW - 400 * 86_400, NOW - 3 * SECONDS_PER_YEAR - 17];
    let total = effective_value(MODE_EXACT, values[0], tags[0], NOW)
        .plus(&effective_value(MODE_EXACT, values[1], tags[1], NOW));
    let pay = Base::from(300_0000u64);
    let rest = total.minus(&pay);
    assert!(satisfied::<MODE_EXACT, 2, 2>(values, tags, [pay, rest], NOW));
    // one unit too much for the change
    assert!(!satisfied::<MODE_EXACT, 2, 2>(values, tags, [pay, rest.plus(&Base::one())], NOW));
}

#[test]
fn exact_rejects_note_from_the_future() {
    // a note dated after `now` would need a negative duration; the prover cannot build one,
    // so claim the undecayed value with a duration of 0 but a later t_note via a lying now
    let circuit =
        DecayBenchCircuit::<MODE_EXACT, 1, 1>::new([Base::from(5000u64)], [NOW], [Base::from(5000u64)], NOW);
    let instance = DecayBenchCircuit::<MODE_EXACT, 1, 1>::instance(Base::from(SIGHASH), NOW - 10);
    assert!(!circuit.accepts(&instance));
}

#[test]
fn epoch_transfer() {
    let values = [Base::from_u128(1u128 << 90), Base::from(123_456_789u64)];
    let tags = [5, 9];
    let now = 12;
    let total = effective_value(MODE_EPOCH, values[0], tags[0], now)
        .plus(&effective_value(MODE_EPOCH, values[1], tags[1], now));
    assert_eq!(total, Base::from_u128((1u128 << 83) + (123_456_789u128 >> 3)));
    assert!(satisfied::<MODE_EPOCH, 2, 2>(values, tags, [total, Base::zero()], now));
    assert!(!satisfied::<MODE_EPOCH, 2, 2>(values, tags, [total.plus(&Base::one()), Base::zero()], now));
    // after 96 years everything is gone
    assert!(satisfied::<MODE_EPOCH, 1, 1>([values[0]], [0], [Base::zero()], 100));
}

#[test]
fn anchored_transfer() {
    let values = [Base::from_u128(1u128 << 100), Base::from(7u64)];
    let outputs = [Base::from_u128((1u128 << 100) + 3), Base::from(4u64)];
    assert!(satisfied::<MODE_ANCHORED, 2, 2>(values, [0, 0], outputs, NOW));
    assert!(!satisfied::<MODE_ANCHORED, 2, 2>(values, [0, 0], [outputs[0], Base::from(5u64)], NOW));
}

/// Values that balance in the field but do not fit are caught by the range checks.
#[test]
fn every_mode_bounds_its_values() {
    let minus_one = Base::one().negate();
    assert!(!satisfied::<MODE_ANCHORED, 1, 2>([Base::zero()], [0], [minus_one, Base::one()], NOW));
    assert!(!satisfied::<MODE_EPOCH, 1, 2>([Base::zero()], [NOW], [minus_one, Base::one()], NOW));
    assert!(!satisfied::<MODE_EXACT, 1, 2>([Base::zero()], [NOW], [minus_one, Base::one()], NOW));
    for (chunks, bits) in [(1usize, 64u32), (2, 128), (3, 192)] {
        let config = configure_impl(MODE_ANCHORED, 1, 1);
        let mut limit = Base::one();
        for _ in 0..bits {
            limit = limit.double();
        }
        assert!(!range_check(&config, &limit, chunks));
        assert!(range_check(&config, &limit.minus(&Base::one()), chunks));
        assert!(range_check(&config, &Base::zero(), chunks));
    }
}

#[test]
fn modes_have_names_and_sizes() {
    assert_eq!((mode_name(MODE_ANCHORED), mode_name(MODE_EPOCH), mode_name(MODE_EXACT)), ("E2 anchored", "way 2 epoch", "way 1 exact"));
    assert_eq!((value_chunks(MODE_ANCHORED), value_chunks(MODE_EPOCH), value_chunks(MODE_EXACT)), (3, 2, 1));
    assert_eq!(rows_per_input(MODE_ANCHORED), (1, 3));
    assert_eq!(rows_per_input(MODE_EPOCH), (3, 10));
    assert_eq!(rows_per_input(MODE_EXACT), (30, 59));
    assert_eq!((W2_SHIFT_LIMIT, POW_TABLE_MAX), (96, 127));
    let config = configure_impl(MODE_EXACT, 2, 2);
    assert!(config.shift.is_some() && config.step.is_some() && config.epoch.is_none());
    assert_eq!(config.powers[100], 1u128 << 100);
    assert!(configure_impl(MODE_ANCHORED, 2, 2).shift.is_none());
}

/// Below 2^59 units the two chains differ by at most one unit, in either direction.
#[test]
fn the_chains_stay_within_one_unit() {
    assert_eq!(decay(18_262_215_987_175, 2_978_997), 17_105_510_722_327);
    assert_eq!(decay_windowed(18_262_215_987_175, 2_978_997), 17_105_510_722_326);
    assert_eq!(decay(89_515_748_485_759, 19_595_011), 58_207_309_671_998);
    assert_eq!(decay_windowed(89_515_748_485_759, 19_595_011), 58_207_309_671_999);
}

/// Waiting longer never increases the value, also across the end of a year.
#[test]
fn waiting_longer_is_never_worth_more() {
    let year = 31_556_952u64;
    for value in [1u64, 2, 3, 1000, 12_345_678_901, (1 << 63) - 1] {
        let mut before = decay(value, 0);
        assert_eq!(before, value);
        for duration in [1, 2, 31, 32, 33, 1023, 1024, year - 2, year - 1, year, year + 1, 2 * year - 1, 2 * year, 62 * year, 63 * year] {
            let now = decay(value, duration);
            assert!(now <= before, "{value} after {duration}");
            before = now;
        }
        assert_eq!(before, 0);
    }
}

/// Both variants agree where the seconds touch one window only.
#[test]
fn the_chains_agree_in_one_window() {
    let year = 31_556_952u64;
    for j in 0..5 {
        for c in 0..32u64 {
            let seconds = c << (5 * j);
            if seconds < year {
                for value in [(1u64 << 63) - 1, 18_262_215_987_175] {
                    assert_eq!(decay_windowed(value, 3 * year + seconds), decay(value, 3 * year + seconds));
                }
            }
        }
    }
}

/// A loss of at most half a unit is not charged.
#[test]
fn half_a_unit_is_kept() {
    assert_eq!((decay(10_000, 2276), decay(10_000, 2277)), (10_000, 9_999));
    assert_eq!((decay(1_000_000, 22), decay(1_000_000, 23)), (1_000_000, 999_999));
}
