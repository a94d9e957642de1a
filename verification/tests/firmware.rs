use picoforge::hal::firmware::{
    approve_flash, assessment_note, check_image_unchanged,
    assess, assess_device, hash, installed_image, parse_image, property, serial_valid,
    update_command, validate_flash, Assessment, ImageInfo, PicotoolError, Request, Review,
};

fn metadata(signature: &str) -> String {
    format!("Metadata Block 0\n image type: ARM Secure\n target chip: RP2350\n{signature}")
}

fn signed_image() -> ImageInfo {
    parse_image(
        &metadata(&format!(
            " signature: verified\n public key: {}\n",
            "ab".repeat(64)
        )),
        "digest".into(),
    )
    .unwrap()
}

fn empty_board(secure: bool) -> String {
    format!(
        "Metadata Blocks\n none\nDevice Information\n type: RP2350\n secure boot: {}\n",
        u8::from(secure)
    )
}

fn decode_hex(text: &str) -> Vec<u8> {
    (0..text.len() / 2)
        .map(|i| u8::from_str_radix(&text[2 * i..2 * i + 2], 16).unwrap())
        .collect()
}

fn otp(
    fingerprint: String,
    flags: [u32; 3],
    critical: u32,
) -> impl Fn(u16, bool) -> Result<u32, String> {
    let bytes = decode_hex(&fingerprint);
    move |row, ecc| match row {
        0x40..=0x47 => {
            assert!(!ecc);
            Ok(critical)
        }
        0x4b..=0x4d => {
            assert!(!ecc);
            Ok(flags[(row - 0x4b) as usize])
        }
        0x80..=0xbf => {
            assert!(ecc);
            let i = ((row - 0x80) % 16) as usize * 2;
            Ok(u16::from_le_bytes([bytes[i], bytes[i + 1]]) as u32)
        }
        _ => panic!("unexpected OTP read: {row:x}"),
    }
}

#[test]
fn signature_policy() {
    let unsigned = parse_image(&metadata(""), "a".into()).unwrap();
    assert!(!unsigned.signed);
    assert!(!assess(unsigned.clone(), "s".into(), true, Some("key".into())).allowed);
    assert!(assess(unsigned, "s".into(), false, Some("key".into())).mismatch);
    let signed = parse_image(
        &metadata(&format!(
            " signature: verified\n public key: {}\n",
            "ab".repeat(64)
        )),
        "a".into(),
    )
    .unwrap();
    assert!(assess(signed.clone(), "s".into(), true, signed.fingerprint.clone()).allowed);
    assert!(!assess(signed, "s".into(), true, Some("different".into())).allowed);
}

#[test]
fn empty_secure_board_recovers_only_with_active_otp_key() {
    let image = signed_image();
    let fp = image.fingerprint.clone().unwrap();
    for (flags, expected) in [
        ([1, 1, 1], true),
        ([8, 8, 0], true),
        ([1, 0, 0], false),
        ([0, 0, 0], false),
        ([0x101, 0x101, 1], false),
    ] {
        let result = assess_device(
            image.clone(),
            "serial".into(),
            &empty_board(true),
            otp(fp.clone(), flags, 1),
        )
        .unwrap();
        assert_eq!(result.allowed, expected, "flags {flags:?}");
    }
    let wrong = assess_device(
        image.clone(),
        "serial".into(),
        &empty_board(true),
        otp("11".repeat(32), [1; 3], 1),
    )
    .unwrap();
    assert!(!wrong.allowed);
    let unreadable = assess_device(image, "serial".into(), &empty_board(true), |_, _| {
        Err("OTP read failed".into())
    });
    assert!(unreadable.is_err());
}

#[test]
fn installed_metadata_cannot_substitute_for_otp_trust() {
    let image = signed_image();
    let installed = format!(
        "{}Device Information\n secure boot: 1\n",
        metadata(&format!(
            " signature: verified\n public key: {}\n",
            "ab".repeat(64)
        ))
    );
    let result = assess_device(
        image,
        "serial".into(),
        &installed,
        otp("11".repeat(32), [1; 3], 1),
    )
    .unwrap();
    assert!(!result.allowed);
}

#[test]
fn empty_unlocked_board_and_otp_secure_boot_fallback() {
    let image = signed_image();
    let fp = image.fingerprint.clone().unwrap();
    let unlocked = assess_device(
        image.clone(),
        "serial".into(),
        &empty_board(false),
        otp(fp.clone(), [0; 3], 0),
    )
    .unwrap();
    assert!(unlocked.allowed && unlocked.mismatch);
    assert_eq!(unlocked.board_key, None);
    let locked = assess_device(
        image,
        "serial".into(),
        &empty_board(false),
        otp(fp, [0; 3], 1),
    )
    .unwrap();
    assert!(locked.secure_boot);
    assert!(!locked.allowed);
    let unsigned = parse_image(&metadata(""), String::new()).unwrap();
    let locked = assess_device(unsigned, "serial".into(), &empty_board(true), |_, _| {
        panic!("unsigned image needs no key lookup")
    })
    .unwrap();
    assert!(!locked.allowed);
}

#[test]
fn missing_installed_image_is_not_an_invalid_input_image() {
    assert!(installed_image(&empty_board(false)).unwrap().is_none());
    assert!(parse_image(&empty_board(false), String::new()).is_err());
    assert!(installed_image("Device Information\n secure boot: 0\n").is_err());
    assert!(installed_image(&metadata(" signature: invalid\n")).is_err());
    let image = signed_image();
    assert!(
        assess_device(
            image,
            "serial".into(),
            "Metadata Blocks\n none\n",
            |_, _| Ok(0)
        )
        .is_err()
    );
}

#[test]
fn reject_invalid_and_multiple_images() {
    assert!(parse_image(&metadata(" signature: invalid\n"), "".into()).is_err());
    assert!(parse_image(&(metadata("") + &metadata("")), "".into()).is_err());
    assert!(
        parse_image(
            &metadata(" signature: verified\n public key: aa"),
            "".into()
        )
        .is_err()
    );
}

#[test]
fn nuke_prompt_uses_program_metadata_not_filename() {
    let blocks = metadata("");
    let nuke = parse_image(
        &format!("Program Information\n name: flash_nuke\n binary start: 0x20000000\n{blocks}"),
        "".into(),
    )
    .unwrap();
    assert!(nuke.nuke);
    let ordinary = parse_image(
        &format!("File flash_nuke.uf2\n name: pico_all\n binary start: 0x10000000\n{blocks}"),
        "".into(),
    )
    .unwrap();
    assert!(!ordinary.nuke);
    assert_eq!(update_command(nuke.nuke), [0x80, 0x1f, 2, 0, 0]);
    assert_eq!(update_command(ordinary.nuke), [0x80, 0x1f, 1, 0, 0]);
    let signed = metadata(&format!(
        " signature: verified\n public key: {}\n",
        "ab".repeat(64)
    ));
    assert!(
        parse_image(
            &format!("Program Information\n image type: ARM Secure\n signature: verified\n{signed}"),
            "".into(),
        )
        .unwrap()
        .signed
    );
}

#[test]
fn exact_serial() {
    assert!(serial_valid("432D921975CCC729"));
    assert!(!serial_valid("--all"));
    assert!(!serial_valid(""));
}

#[test]
fn mismatch_needs_both_confirmations_and_exact_snapshot() {
    let image = ImageInfo {
        signed: true,
        nuke: false,
        fingerprint: Some("new".into()),
        hash: "digest".into(),
    };
    let current = assess(image, "432D921975CCC729".into(), false, Some("old".into()));
    let mut r = Request {
        phrase: "FLASH 432D921975CCC729".into(),
        review: Some(Review::Flash(current.clone())),
        ..Default::default()
    };
    assert!(validate_flash(&r, &current).is_err());
    r.mismatch_accepted = true;
    assert!(validate_flash(&r, &current).is_ok());
    r.phrase = "FLASH DIFFERENT".into();
    assert!(validate_flash(&r, &current).is_err());
    r.phrase = "FLASH 432D921975CCC729".into();
    let mut changed = current.clone();
    changed.image.hash = "changed".into();
    assert!(validate_flash(&r, &changed).is_err());
    let locked = assess(current.image, current.serial, true, current.board_key);
    assert!(validate_flash(&r, &locked).is_err());
}

#[test]
fn flash_errors_name_what_is_missing() {
    let image = ImageInfo {
        signed: true,
        nuke: false,
        fingerprint: Some("new".into()),
        hash: "digest".into(),
    };
    let refused: Assessment = assess(image.clone(), "432D921975CCC729".into(), true, None);
    let r = Request {
        phrase: "FLASH 432D921975CCC729".into(),
        review: Some(Review::Flash(refused.clone())),
        ..Default::default()
    };
    assert_eq!(
        validate_flash(&r, &refused).unwrap_err(),
        "FLASH disabled: signing key is not trusted by this board."
    );
    let current = assess(image, "432D921975CCC729".into(), false, Some("new".into()));
    let mut r = Request {
        phrase: "FLASH 432D921975CCC72".into(),
        review: Some(Review::Flash(current.clone())),
        ..Default::default()
    };
    assert_eq!(
        validate_flash(&r, &current).unwrap_err(),
        "Confirm the target before flashing."
    );
    r.phrase = "FLASH 432D921975CCC729".into();
    assert!(validate_flash(&r, &current).is_ok());
    r.review = None;
    assert_eq!(
        validate_flash(&r, &current).unwrap_err(),
        "Device or firmware changed. Inspect compatibility again."
    );
}

#[test]
fn hash_is_lower_case_sha256() {
    assert_eq!(
        hash(b"abc"),
        "ba7816bf8f01cfea414140de5dae2223b00361a396177a9cb410ff61f20015ad"
    );
    assert_eq!(
        hash(b""),
        "e3b0c44298fc1c149afbf4c8996fb92427ae41e4649b934ca495991b7852b855"
    );
}

#[test]
fn image_fingerprint_is_sha256_of_public_key() {
    let image = signed_image();
    assert!(image.signed);
    assert_eq!(image.hash, "digest");
    let key = decode_hex(&"ab".repeat(64));
    assert_eq!(image.fingerprint.unwrap(), hash(&key));
}

#[test]
fn property_trims_and_ignores_label_case() {
    assert_eq!(property("  Secure Boot :  1 \n", "secure boot"), Some("1"));
    assert_eq!(property("a: 1\nb: 2\nb: 3\n", "b"), Some("2"));
    assert_eq!(property("no colon here\n", "no colon here"), None);
}

#[test]
fn picotool_messages_keep_the_cause() {
    assert_eq!(
        PicotoolError::Execution("picotool not found".into()).message(),
        "picotool not found"
    );
    assert_eq!(
        PicotoolError::Exit {
            code: 1,
            output: "ERROR: Signature verification failed\n".into()
        }
        .message(),
        "Signature verification failed"
    );
    assert_eq!(
        PicotoolError::Exit {
            code: -4,
            output: "NO ACCESSIBLE device\n".into()
        }
        .message(),
        "Cannot access the device in update mode. Check the USB connection and driver."
    );
    assert_eq!(
        PicotoolError::Exit {
            code: -12,
            output: "ERROR: USB connection lost".into()
        }
        .message(),
        "picotool failed (exit code -12)"
    );
}

#[test]
fn installed_image_requires_the_none_listing() {
    assert!(installed_image("Metadata Blocks\n\n   none\n").unwrap().is_none());
    assert!(installed_image("Metadata Blocks\n something\n").is_err());
}

#[test]
fn assessment_notes_follow_the_policy() {
    let image = ImageInfo {
        signed: true,
        nuke: false,
        fingerprint: Some("new".into()),
        hash: "digest".into(),
    };
    let (warn, note) = assessment_note(&assess(image.clone(), "S".into(), true, None));
    assert!(warn);
    assert_eq!(note, "FLASH disabled: the firmware must match an active OTP signing key.");
    let (warn, note) = assessment_note(&assess(image.clone(), "S".into(), true, Some("new".into())));
    assert!(!warn);
    assert_eq!(note, "Firmware signing key matches an active OTP signing key.");
    let (_, note) = assessment_note(&assess(image.clone(), "S".into(), false, Some("old".into())));
    assert!(note.starts_with("Signing key differs"));
    let (_, note) = assessment_note(&assess(image, "S".into(), false, Some("new".into())));
    assert_eq!(note, "Firmware is compatible with the board's current signing policy.");
}

#[test]
fn flash_needs_the_assessed_file() {
    assert!(check_image_unchanged("abc", "abc").is_ok());
    assert_eq!(
        check_image_unchanged("abc", "abd").unwrap_err(),
        "Firmware changed during verification."
    );
}

#[test]
fn loading_needs_the_checks_then_the_same_file() {
    let image = ImageInfo {
        signed: true,
        nuke: false,
        fingerprint: Some("k".into()),
        hash: "digest".into(),
    };
    let current = assess(image, "432D921975CCC729".into(), true, Some("k".into()));
    let mut r = Request {
        phrase: "FLASH 432D921975CCC729".into(),
        review: Some(Review::Flash(current.clone())),
        ..Default::default()
    };
    assert!(approve_flash(&r, &current, || Ok("digest".into())).is_ok());
    assert_eq!(
        approve_flash(&r, &current, || Ok("other".into())).unwrap_err(),
        "Firmware changed during verification."
    );
    assert_eq!(approve_flash(&r, &current, || Err("gone".into())).unwrap_err(), "gone");
    r.phrase = "FLASH".into();
    assert_eq!(
        approve_flash(&r, &current, || panic!("no file read before the checks pass")).unwrap_err(),
        "Confirm the target before flashing."
    );
}
