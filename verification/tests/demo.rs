use outcrop::demo::{
    bulk_values, check_range, db_count, BulkAction, BulkEvent, BulkSeed, db_paths, demo_values, garbage_bytes, key_for, may_resume, must_pause,
    parse_byte_range, parse_size, scatter, shape_for, tranche_cap, ByteRange, Lcg, TrafficArgs,
    BULK_SST_BYTES, BULK_TRANCHE_BYTES, DEMO_SST_BYTES,
};

#[test]
fn parse_size_accepts_binary_units_any_case() {
    assert_eq!(parse_size("1024"), Ok(1024));
    assert_eq!(parse_size("7B"), Ok(7));
    assert_eq!(parse_size("128KiB"), Ok(128 * 1024));
    assert_eq!(parse_size("128kb"), Ok(128 * 1024));
    assert_eq!(parse_size("4m"), Ok(4 << 20));
    assert_eq!(parse_size("50GiB"), Ok(50 << 30));
    assert_eq!(parse_size("1TiB"), Ok(1 << 40));
    assert!(parse_size("").is_err());
    assert!(parse_size("GiB").is_err());
    assert!(parse_size("12XB").is_err());
    assert!(parse_size("99999999999TiB").is_err()); // overflow
}

#[test]
fn parse_byte_range_forms() {
    assert_eq!(parse_byte_range("512"), Ok(ByteRange { min: 512, max: 512 }));
    assert_eq!(
        parse_byte_range("4KiB..64KiB"),
        Ok(ByteRange { min: 4 << 10, max: 64 << 10 })
    );
    assert!(parse_byte_range("8..4").is_err());
    assert!(parse_byte_range("0").is_err());
}

fn args_with(target_size: Option<u64>) -> TrafficArgs {
    TrafficArgs {
        dir: "./demo-data".to_string(),
        path: "demo-db".to_string(),
        dbs: None,
        waves: 12,
        keys_per_wave: 3000,
        compact_secs: 10,
        rate: 150,
        checkpoint_secs: 120,
        clean: false,
        segments: Some(0),
        target_size,
        value_bytes: None,
        sst_bytes: None,
        seed_only: false,
        no_wal: false,
        max_garbage: 32 << 30,
    }
}

#[test]
fn demo_shape_matches_historical_format() {
    let shape = shape_for(&args_with(None), "demo-db");
    assert_eq!(shape.key_space, 36_000);
    assert_eq!(shape.key_width, 8);
    assert_eq!(shape.scatter_mask, (1 << 26) - 1);
    assert_eq!(shape.values, demo_values());
    assert_eq!(shape.sst_bytes, DEMO_SST_BYTES);
    assert_eq!(key_for(0, shape.key_width, 42), "user:00000042");
    assert_eq!(key_for(4, shape.key_width, 42), "t02/user:00000042");
}

#[test]
fn bulk_shape_scales_key_space_and_width() {
    // 100GiB of ~34KiB values needs ~3.2M keys: x2 headroom, width 8.
    let shape = shape_for(&args_with(Some(100 << 30)), "demo-db");
    let avg = (bulk_values().min + bulk_values().max) / 2;
    assert_eq!(shape.key_space, (100u64 << 30) / avg * 2);
    assert_eq!(shape.key_width, 8);
    assert!(shape.scatter_mask + 1 >= shape.key_space * 2);
    assert_eq!(shape.sst_bytes, BULK_SST_BYTES);

    // Small values push past 10^8 keys and the key format widens.
    let mut args = args_with(Some(100 << 30));
    args.value_bytes = Some(ByteRange { min: 512, max: 512 });
    let shape = shape_for(&args, "demo-db");
    assert_eq!(shape.key_space, (100u64 << 30) / 512 * 2);
    assert_eq!(shape.key_width, 9);
    assert_eq!(key_for(0, shape.key_width, 42), "user:000000042");
}

#[test]
fn scatter_is_a_bijection_on_the_mask_domain() {
    let mask = (1u64 << 16) - 1;
    let mut seen = std::collections::HashSet::new();
    for i in 0..=mask {
        assert!(seen.insert(scatter(i, mask)));
    }
}

#[test]
fn byte_range_sampling_stays_inclusive() {
    let mut rng = Lcg(7);
    let r = ByteRange { min: 64, max: 575 };
    for _ in 0..10_000 {
        let len = r.sample(&mut rng);
        assert!((64..=575).contains(&len));
    }
}

#[test]
fn parse_size_rejects_each_malformed_form() {
    assert!(parse_size("  ").is_err());
    assert!(parse_size("-5").is_err());
    assert_eq!(parse_size(" 2KiB "), Ok(2048));
    assert_eq!(parse_size("3g"), Ok(3 << 30));
}

#[test]
fn lcg_steps_are_reproducible() {
    let mut a = Lcg(1);
    let mut b = Lcg(1);
    let xs: Vec<u64> = (0..5).map(|_| a.next()).collect();
    let ys: Vec<u64> = (0..5).map(|_| b.next()).collect();
    assert_eq!(xs, ys);
    let mut c = Lcg(0);
    // state' = 0 * mul + inc; output = state' >> 16
    assert_eq!(c.next(), 1442695040888963407u64 >> 16);
}

#[test]
fn scatter_law_on_small_domain() {
    // Distinct inputs inside the mask domain never collide.
    let mask = 255u64;
    for i in 0..=mask {
        for j in (i + 1)..=mask {
            assert_ne!(scatter(i, mask), scatter(j, mask));
        }
    }
}

#[test]
fn db_count_defaults_to_three_or_one_under_a_target() {
    assert_eq!(db_count(None, None), Ok(3));
    assert_eq!(db_count(None, Some(1 << 30)), Ok(1));
    assert_eq!(db_count(Some(5), Some(1 << 30)), Ok(5));
    assert_eq!(db_count(Some(0), None), Err("--dbs must be at least 1".to_string()));
}

#[test]
fn db_paths_number_from_one_unless_single() {
    assert_eq!(db_paths("demo-db", 1), vec!["demo-db".to_string()]);
    assert_eq!(
        db_paths("demo-db", 3),
        vec!["demo-db-1".to_string(), "demo-db-2".to_string(), "demo-db-3".to_string()]
    );
    assert!(db_paths("x", 0).is_empty());
    assert_eq!(db_paths("x", 12)[11], "x-12");
}

#[test]
fn bulk_tranches_and_garbage_pacing() {
    assert_eq!(tranche_cap(0, 1 << 40), BULK_TRANCHE_BYTES);
    assert_eq!(tranche_cap(100, 1100), 1000);
    assert_eq!(garbage_bytes(500, 200), 300);
    assert_eq!(garbage_bytes(200, 500), 0);
    assert!(must_pause(11, 10));
    assert!(!must_pause(10, 10));
    assert!(may_resume(5, 10));
    assert!(!may_resume(6, 10));
}

#[test]
fn value_ranges_are_checked_as_writes_require() {
    assert!(check_range(&ByteRange { min: 64, max: 575 }));
    assert!(check_range(&ByteRange { min: 7, max: 7 }));
    assert!(!check_range(&ByteRange { min: 9, max: 8 }));
    assert!(!check_range(&ByteRange { min: 0, max: u64::MAX }));
}

#[test]
fn bulk_seed_steps_through_tranches_pauses_and_finishes() {
    let mut s = BulkSeed::new(1000, 100);
    assert_eq!(s.step(BulkEvent::Started { live: 0 }), BulkAction::WriteBatch);
    assert_eq!(s.cap, 1000);
    assert_eq!(s.step(BulkEvent::Wrote { bytes: 600 }), BulkAction::WriteBatch);
    assert_eq!(s.step(BulkEvent::Wrote { bytes: 500 }), BulkAction::FlushAndMeasure);
    assert_eq!(s.written, 1100);
    // 200 bytes of garbage is over the budget: pause.
    assert_eq!(s.step(BulkEvent::Measured { live: 900, stored: 1100 }), BulkAction::Drain { wait: false });
    assert!(s.draining);
    // 100 is not yet down to half the budget.
    assert_eq!(s.step(BulkEvent::Drained { live: 900, stored: 1000 }), BulkAction::Drain { wait: true });
    assert_eq!(s.step(BulkEvent::Drained { live: 900, stored: 940 }), BulkAction::WriteBatch);
    assert_eq!((s.cap, s.tranche, s.draining), (100, 0, false));
    assert_eq!(s.step(BulkEvent::Wrote { bytes: 100 }), BulkAction::FlushAndMeasure);
    assert_eq!(
        s.step(BulkEvent::Measured { live: 1000, stored: 1000 }),
        BulkAction::Finish { interrupted: false, checkpoint: true }
    );
    assert_eq!(s.written, 1200);
}

#[test]
fn bulk_seed_met_target_cancel_and_overflow_check() {
    let mut s = BulkSeed::new(1000, 100);
    assert_eq!(s.step(BulkEvent::Started { live: 1000 }), BulkAction::AlreadyMet);
    let mut s = BulkSeed::new(1u64 << 40, 100);
    assert_eq!(s.step(BulkEvent::Started { live: 0 }), BulkAction::WriteBatch);
    assert_eq!(s.cap, BULK_TRANCHE_BYTES);
    assert_eq!(s.step(BulkEvent::Cancelled), BulkAction::Finish { interrupted: true, checkpoint: false });
    assert!(s.fits(&BulkEvent::Wrote { bytes: u64::MAX }));
    assert_eq!(s.step(BulkEvent::Wrote { bytes: 10 }), BulkAction::WriteBatch);
    assert!(s.fits(&BulkEvent::Wrote { bytes: 10 }));
    assert!(!s.fits(&BulkEvent::Wrote { bytes: u64::MAX }));
}
