use picoforge::hal::firmware::otp_state::read_state;
use picoforge::hal::firmware::Review;
use picoforge::hal::firmware::provision::{
    check_lock_proof, check_prepare, check_security_stage, check_storage_empty, check_unchanged,
    check_written, confirm_stage, confirm_stage_given, StageAction, StageEvent, StageRun,
    credential_partition, needs_storage_check, prove_boot, storage_window, write_allowed,
};
use picoforge::hal::firmware::security::{
    factory_serial, format_factory_serial, format_upper_hex4, lock_vote, parse_row, plan,
    secure_boot_enabled, trusted_boot_key, vote, StageReview, State, Write,
};

fn blank() -> State {
    State {
        critical: vec![0; 8],
        flags: vec![0; 3],
        locks: vec![0; 2],
        key_locks: vec![0; 2],
        fps: vec![Some("00".repeat(32)); 4],
    }
}

#[test]
fn key_words_before_valid_flags() {
    let p = plan(&blank(), "load-key", &"11".repeat(32), 1, |_, _| Ok(0)).unwrap();
    assert_eq!(p.len(), 19);
    assert!(p[..16].iter().all(|w| w.ecc));
    assert_eq!(p[16].row, 0x4b);
    assert_eq!(p[16].value, 2);
}

#[test]
fn refuse_revoked_torn_locked_slots() {
    let fp = "11".repeat(32);
    let mut s = blank();
    s.flags[1] = 0x100;
    assert!(plan(&s, "load-key", &fp, 0, |_, _| Ok(0)).is_err());
    assert!(plan(&blank(), "load-key", &fp, 0, |_, _| Ok(1)).is_err());
    s = blank();
    s.locks[1] = 0x303030;
    assert!(plan(&s, "load-key", &fp, 0, |_, _| Ok(0)).is_err());
}

#[test]
fn enforce_hardening_and_single_trusted_key() {
    let fp = "11".repeat(32);
    let mut s = blank();
    s.flags = vec![1; 3];
    s.fps[0] = Some(fp.clone());
    assert!(plan(&s, "enable", &fp, 0, |_, _| Ok(0)).is_err());
    s.critical = vec![0x74; 8];
    assert_eq!(plan(&s, "enable", &fp, 0, |_, _| Ok(0)).unwrap().len(), 8);
    s.critical = vec![0x75; 8];
    assert_eq!(plan(&s, "lock", &fp, 0, |_, _| Ok(0)).unwrap().len(), 5);
    s.flags = vec![3; 3];
    assert!(plan(&s, "lock", &fp, 0, |_, _| Ok(0)).is_err());
}

#[test]
fn otp_output_matches_row_and_width() {
    assert_eq!(
        parse_row("ROW 0x40:\nVALUE 0x75", 0x40, false).unwrap(),
        0x75
    );
    assert!(parse_row("ROW 0x41:\nVALUE 0x75", 0x40, false).is_err());
    assert!(parse_row("ROW 0x40:\nVALUE 0x10000", 0x40, true).is_err());
}

#[test]
fn parse_row_errors() {
    assert_eq!(
        parse_row("ROW 0x40:\nVALUE 0xzz", 0x40, false).unwrap_err(),
        "Invalid OTP output"
    );
    assert_eq!(
        parse_row("ROW 0x40:\nVALUE 1\nVALUE 2", 0x40, false).unwrap_err(),
        "Unexpected OTP row output."
    );
    assert_eq!(
        parse_row("ROW 0x40:\nVALUE 0x1000000", 0x40, false).unwrap_err(),
        "Unexpected OTP value."
    );
    assert_eq!(parse_row("ROW 0x40:\nVALUE 0xffff", 0x40, true).unwrap(), 0xffff);
}

#[test]
fn vote_sets_bits_reaching_the_threshold() {
    assert_eq!(vote(&[1, 1, 0], 2), 1);
    assert_eq!(vote(&[1, 0, 0], 2), 0);
    assert_eq!(vote(&[0x101, 0x101, 1], 2), 0x101);
    assert_eq!(vote(&[0x1000000, 0x1000000, 0x1000000], 1), 0);
    assert_eq!(vote(&[0xffffff; 8], 3), 0xffffff);
    assert_eq!(lock_vote(0x151515), 0x15);
    assert_eq!(lock_vote(0x001515), 0x15);
    assert_eq!(lock_vote(0x000015), 0);
}

#[test]
fn secure_boot_follows_three_of_eight_critical_rows() {
    let rows = |on: u16| move |row: u16, _ecc: bool| Ok(if row < 0x40 + on { 1 } else { 0 });
    assert!(!secure_boot_enabled(rows(2)).unwrap());
    assert!(secure_boot_enabled(rows(3)).unwrap());
    assert!(secure_boot_enabled(|_, _| Err("OTP read failed".into())).is_err());
}

#[test]
fn factory_serial_is_four_words_high_first() {
    assert_eq!(format_upper_hex4(0xab), "00AB");
    assert_eq!(format_factory_serial(&vec![0x4444, 0x3333, 0x2222, 0x1111]), "1111222233334444");
    let words = [0xC729u32, 0x75CC, 0x9219, 0x432D];
    assert_eq!(
        factory_serial(|row, ecc| {
            assert!(ecc);
            Ok(words[row as usize])
        })
        .unwrap(),
        "432D921975CCC729"
    );
    assert!(factory_serial(|_, _| Err("OTP read failed".into())).is_err());
}

#[test]
fn trusted_key_needs_an_active_slot_holding_it() {
    let fp = "0100".repeat(16);
    let reader = |flags: u32| {
        move |row: u16, ecc: bool| {
            if !ecc {
                Ok(flags)
            } else if (0x80..0x90).contains(&row) {
                Ok(1)
            } else {
                Ok(0)
            }
        }
    };
    assert_eq!(
        trusted_boot_key(Some(&fp), reader(1)).unwrap(),
        Some(fp.clone())
    );
    assert_eq!(trusted_boot_key(Some(&fp), reader(0x101)).unwrap(), None);
    assert_eq!(trusted_boot_key(Some(&fp), reader(2)).unwrap(), None);
    assert_eq!(trusted_boot_key(None, reader(1)).unwrap(), None);
    assert_eq!(
        trusted_boot_key(Some(&fp), |row, ecc| if ecc && row == 0x85 {
            Err("gone".into())
        } else if ecc {
            Ok(0)
        } else {
            Ok(1)
        })
        .unwrap_err(),
        "Cannot verify OTP signing key 0: gone"
    );
}

#[test]
fn state_reads_every_row_and_each_slot() {
    let s = read_state(|row, ecc| {
        if ecc {
            if row < 0x90 {
                Ok(0x0201)
            } else if row < 0xa0 {
                Err("unreadable".into())
            } else {
                Ok(0)
            }
        } else {
            Ok(row as u32)
        }
    })
    .unwrap();
    assert_eq!(s.critical, (0x40..0x48).collect::<Vec<u32>>());
    assert_eq!(s.flags, vec![0x4b, 0x4c, 0x4d]);
    assert_eq!(s.locks, vec![0xf83, 0xf85]);
    assert_eq!(s.key_locks, vec![0xf82, 0xf84]);
    assert_eq!(s.fps[0], Some("0102".repeat(16)));
    assert_eq!(s.fps[1], None);
    assert_eq!(s.fps[2], Some("0000".repeat(16)));
    assert_eq!(s.fps.len(), 4);
    assert_eq!(
        read_state(|row, _| if row == 0x4c { Err("busy".into()) } else { Ok(0) }).unwrap_err(),
        "busy"
    );
}

#[test]
fn prepare_needs_policy_off_and_the_erase_phrase() {
    let off = [1u8, 0, 0, 0, 0, 0, 0x74];
    assert!(check_prepare(&off, "ERASE 432D921975CCC729", "432D921975CCC729").is_ok());
    assert_eq!(
        check_prepare(&off, "ERASE", "432D921975CCC729").unwrap_err(),
        "Confirm erasing application storage first."
    );
    assert_eq!(
        check_prepare(&[1, 0, 0, 0, 0, 0, 0x75], "ERASE 432D921975CCC729", "432D921975CCC729")
            .unwrap_err(),
        "Preparation requires Secure Boot and OTP root to be off."
    );
    assert!(check_prepare(&[1, 1, 0, 0, 0, 0, 0], "ERASE 1", "1").is_err());
}

#[test]
fn protected_boot_proof_records_status() {
    let status = [1u8, 1, 57, 0x12, 0x34, 0x56, 0x75];
    let p = prove_boot(true, &status, "S".into(), "H".into()).unwrap();
    assert_eq!(p.critical, 0x12345675);
    assert_eq!(p.root_page, 57);
    assert_eq!(p.serial, "S");
    assert_eq!(p.sha256, "H");
    assert_eq!(
        prove_boot(false, &status, "S".into(), "H".into()).err().unwrap(),
        "Select verified signed firmware."
    );
    assert_eq!(
        prove_boot(true, &[1, 1, 59, 0, 0, 0, 0x75], "S".into(), "H".into()).err().unwrap(),
        "Protected boot and OTP root are not active."
    );
}

#[test]
fn security_stages_and_storage_check() {
    for stage in ["status", "load-key", "harden", "enable", "lock"] {
        assert!(check_security_stage(stage).is_ok());
    }
    assert_eq!(check_security_stage("erase").unwrap_err(), "Unknown firmware operation.");
    assert!(needs_storage_check("enable", &[0; 8]));
    assert!(!needs_storage_check("enable", &[1; 8]));
    assert!(!needs_storage_check("harden", &[0; 8]));
}

#[test]
fn lock_needs_proof_for_this_board_and_image() {
    let board = "Device Information\n secure boot: 1\n";
    assert!(check_lock_proof(Some("S"), Some("H"), "S", "H", board).is_ok());
    assert!(check_lock_proof(Some("T"), Some("H"), "S", "H", board).is_err());
    assert!(check_lock_proof(Some("S"), None, "S", "H", board).is_err());
    assert_eq!(
        check_lock_proof(Some("S"), Some("H"), "S", "H", " secure boot: 0\n").unwrap_err(),
        "Power-cycle and verify protected boot for this image and board."
    );
}

#[test]
fn credential_partition_layout() {
    let info = "Partition Table\n partition 0 (A): 00002000->00100000 S(rw) NSBOOT(rw)\n partition 1 (B): 00102000->00400000 S(rw)\n";
    assert_eq!(credential_partition(info).unwrap(), (0x102000, 0x400000));
    assert_eq!(storage_window(0x102000, 0x400000), (0x10102000, 0x103fe000));
    assert_eq!(
        credential_partition("partition 0: 1->2\n").unwrap_err(),
        "Cannot identify credential partition"
    );
    assert_eq!(
        credential_partition(" partition 1 (B) 00102000->00400000\n").unwrap_err(),
        "Invalid partition"
    );
    assert_eq!(
        credential_partition(" partition 1 (B):   \n").unwrap_err(),
        "Missing partition extent"
    );
    assert_eq!(
        credential_partition(" partition 1 (B): 00102000-00400000\n").unwrap_err(),
        "Invalid partition extent"
    );
    assert_eq!(
        credential_partition(" partition 1 (B): x->00400000\n").unwrap_err(),
        "Invalid partition start"
    );
    assert_eq!(
        credential_partition(" partition 1 (B): 00102000->y\n").unwrap_err(),
        "Invalid partition end"
    );
    assert_eq!(
        credential_partition(" partition 1 (B): 00102800->00400000\n").unwrap_err(),
        "Unsupported credential storage layout."
    );
    let mut dirty = vec![0xffu8; 0x2000];
    assert!(check_storage_empty(&dirty, 0x3fc000, 0x400000).is_ok());
    dirty[5] = 0;
    assert_eq!(
        check_storage_empty(&dirty, 0x3fc000, 0x400000).unwrap_err(),
        "Credential storage is not empty. Prepare storage before enabling Secure Boot."
    );
    assert!(check_storage_empty(&dirty[1..], 0x3fc000, 0x400000).is_err());
}

fn review(action: &str) -> StageReview {
    StageReview {
        action: action.into(),
        serial: "432D921975CCC729".into(),
        state: blank(),
        image_hash: "H".into(),
        writes: vec![Write { row: 0x40, value: 0x74, ecc: false }],
        slot: 0,
    }
}

#[test]
fn stage_confirmation_needs_the_exact_review_and_phrase() {
    let current = review("harden");
    assert_eq!(confirm_stage(&None, &current, "", false).unwrap(), false);
    let same = Some(Review::Stage(review("harden")));
    assert_eq!(
        confirm_stage(&same, &current, "HARDEN 432D921975CCC729", true).unwrap(),
        true
    );
    assert_eq!(
        confirm_stage(&same, &current, "HARDEN 432D921975CCC729", false).unwrap_err(),
        "Power-cycle and test the previous stage first."
    );
    assert_eq!(
        confirm_stage(&same, &current, "harden 432D921975CCC729", true).unwrap_err(),
        "Review changed; confirm this exact stage again."
    );
    let mut other = review("harden");
    other.writes[0].value = 0x75;
    let other = Some(Review::Stage(other));
    assert!(confirm_stage(&other, &current, "HARDEN 432D921975CCC729", true).is_err());
    let flash = picoforge::hal::firmware::assess(
        picoforge::hal::firmware::ImageInfo {
            signed: false,
            nuke: false,
            fingerprint: None,
            hash: "H".into(),
        },
        "432D921975CCC729".into(),
        false,
        None,
    );
    assert!(confirm_stage(&Some(Review::Flash(flash)), &current, "HARDEN 432D921975CCC729", true).is_err());
    let lock = review("lock");
    let confirmed = Some(Review::Stage(review("lock")));
    assert!(confirm_stage(&confirmed, &lock, "LOCK 432D921975CCC729", false).unwrap());
}

#[test]
fn only_known_rows_may_be_written() {
    assert!(write_allowed(&Write { row: 0x80, value: 1, ecc: true }));
    assert!(!write_allowed(&Write { row: 0x80, value: 1, ecc: false }));
    assert!(write_allowed(&Write { row: 0x47, value: 1, ecc: false }));
    assert!(!write_allowed(&Write { row: 0x48, value: 1, ecc: false }));
    assert!(write_allowed(&Write { row: 0xf85, value: 1, ecc: false }));
    assert!(!write_allowed(&Write { row: 0xf84, value: 1, ecc: false }));
    assert!(!write_allowed(&Write { row: 0xc0, value: 1, ecc: true }));
}

#[test]
fn stage_confirmation_with_a_given_upper_case_name() {
    let current = review("enable");
    let same = Some(Review::Stage(review("enable")));
    assert!(confirm_stage_given(&same, &current, "ENABLE 432D921975CCC729", true, "ENABLE").unwrap());
    assert!(confirm_stage_given(&same, &current, "enable 432D921975CCC729", true, "ENABLE").is_err());
    assert_eq!(
        confirm_stage_given(&same, &current, "X 432D921975CCC729", false, "X").unwrap_err(),
        "Power-cycle and test the previous stage first."
    );
}

#[test]
fn nothing_changes_between_review_and_write() {
    let s = blank();
    assert!(check_unchanged(&s, &blank(), "H", "H").is_ok());
    assert!(check_unchanged(&s, &blank(), "H", "I").is_err());
    let mut moved = blank();
    moved.fps[2] = None;
    assert_eq!(
        check_unchanged(&s, &moved, "H", "H").unwrap_err(),
        "Device or image changed during review."
    );
    let w = Write { row: 0x40, value: 0x74, ecc: false };
    assert!(check_written(&w, 0x74).is_ok());
    assert_eq!(
        check_written(&w, 0x70).unwrap_err(),
        "OTP verification failed. Stop and inspect the device."
    );
}

#[test]
fn plan_refuses_bad_keys_slots_and_stages() {
    let fp = "11".repeat(32);
    let mut s = blank();
    s.flags = vec![1; 3];
    s.fps[0] = Some(fp.clone());
    s.critical = vec![0x75; 8];
    assert!(plan(&s, "load-key", &fp, 4, |_, _| Ok(0)).is_err());
    assert_eq!(
        plan(&s, "load-key", "abc", 0, |_, _| Ok(0)).unwrap_err(),
        "Invalid signing key"
    );
    assert_eq!(
        plan(&s, "load-key", &"11".repeat(31), 0, |_, _| Ok(0)).unwrap_err(),
        "Invalid boot key or slot."
    );
    assert!(plan(&s, "load-key", &"00".repeat(32), 0, |_, _| Ok(0)).is_err());
    let mut locked = s.clone();
    locked.key_locks[1] = 1;
    assert_eq!(
        plan(&locked, "harden", &fp, 0, |_, _| Ok(0)).unwrap_err(),
        "Boot pages have a hardware access-key policy."
    );
    assert!(plan(&s, "erase", &fp, 0, |_, _| Ok(0)).is_err());
    assert_eq!(
        plan(&s, "harden", &"22".repeat(32), 0, |_, _| Ok(0)).unwrap_err(),
        "Image must match exactly one trusted OTP signing key."
    );
    let mut two = s.clone();
    two.flags = vec![3; 3];
    assert_eq!(
        plan(&two, "lock", &fp, 0, |_, _| Ok(0)).unwrap_err(),
        "Lock requires hardened Secure Boot and one trusted key."
    );
}

#[test]
fn planned_writes_add_bits_within_their_width() {
    let p = plan(&blank(), "load-key", &"1122".repeat(16), 2, |_, _| Ok(0)).unwrap();
    for w in &p {
        if w.ecc {
            assert!((0xa0..0xb0).contains(&w.row));
            assert!(w.value > 0 && w.value <= 0xffff);
            assert_eq!(w.value, 0x2211);
        } else {
            assert_eq!(w.value, 4);
        }
    }
    let mut s = blank();
    s.critical = vec![0x70; 8];
    s.flags = vec![1; 3];
    s.fps[0] = Some("11".repeat(32));
    let p = plan(&s, "harden", &"11".repeat(32), 0, |_, _| Ok(0)).unwrap();
    assert!(p.iter().all(|w| !w.ecc && w.value == 0x74));
}

#[test]
fn secure_boot_reports_the_first_failed_row() {
    assert_eq!(
        secure_boot_enabled(|row, _| if row >= 0x42 {
            Err(format!("row {row:x}"))
        } else {
            Ok(1)
        })
        .unwrap_err(),
        "row 42"
    );
}

fn stage_of(writes: Vec<Write>) -> StageReview {
    StageReview {
        action: "enable".into(),
        serial: "432D921975CCC729".into(),
        state: blank(),
        image_hash: "H".into(),
        writes,
        slot: 0,
    }
}

#[test]
fn stage_run_writes_only_after_every_check() {
    let w0 = Write { row: 0x40, value: 0x75, ecc: false };
    let current = stage_of(vec![w0]);
    let confirmed = Some(Review::Stage(stage_of(vec![w0])));
    let phrase = "ENABLE 432D921975CCC729";
    assert!(StageRun::begin(&None, &current, phrase, true, || panic!("not reviewed yet"))
        .unwrap()
        .is_none());
    assert!(StageRun::begin(&confirmed, &current, "ENABLE", true, || panic!()).is_err());
    assert_eq!(
        StageRun::begin(&confirmed, &current, phrase, true, || Ok((blank(), "G".into())))
            .err()
            .unwrap(),
        "Device or image changed during review."
    );
    let (mut run, first) = StageRun::begin(&confirmed, &current, phrase, true, || {
        Ok((blank(), "H".into()))
    })
    .unwrap()
    .unwrap();
    assert!(matches!(first, StageAction::VerifyImage));
    let event = StageEvent::Verified(Ok(()));
    assert!(run.expects(&event));
    assert!(!run.expects(&StageEvent::ReadBack(Ok(0))));
    assert!(matches!(run.step(event), StageAction::Program(w) if w == w0));
    assert!(matches!(run.step(StageEvent::Programmed(Ok(()))), StageAction::ReadBack(w) if w == w0));
    assert!(matches!(run.step(StageEvent::ReadBack(Ok(0x75))), StageAction::Finish(Ok(()))));

    let (mut run, _) = StageRun::begin(&confirmed, &current, phrase, true, || {
        Ok((blank(), "H".into()))
    })
    .unwrap()
    .unwrap();
    match run.step(StageEvent::Verified(Err("verify failed".into()))) {
        StageAction::Finish(Err(e)) => assert_eq!(e, "verify failed"),
        _ => panic!("nothing is written after a failed verification"),
    }
    let (mut run, _) = StageRun::begin(&confirmed, &current, phrase, true, || {
        Ok((blank(), "H".into()))
    })
    .unwrap()
    .unwrap();
    run.step(StageEvent::Verified(Ok(())));
    run.step(StageEvent::Programmed(Ok(())));
    match run.step(StageEvent::ReadBack(Ok(0x74))) {
        StageAction::Finish(Err(e)) => {
            assert_eq!(e, "OTP verification failed. Stop and inspect the device.")
        }
        _ => panic!("a wrong read-back stops the run"),
    }
    let bad = stage_of(vec![Write { row: 0x50, value: 1, ecc: false }]);
    let bad_review = Some(Review::Stage(stage_of(vec![Write { row: 0x50, value: 1, ecc: false }])));
    let (mut run, _) = StageRun::begin(&bad_review, &bad, phrase, true, || Ok((blank(), "H".into())))
        .unwrap()
        .unwrap();
    match run.step(StageEvent::Verified(Ok(()))) {
        StageAction::Finish(Err(e)) => assert_eq!(e, "Unsupported OTP write."),
        _ => panic!("a write outside the stage rows is never programmed"),
    }
}
