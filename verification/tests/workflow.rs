use picoforge::hal::firmware::{Assessment, ImageInfo, Request, Review};
use picoforge::ui::screens::home::{flash_size, SizeUnit};
use picoforge::ui::screens::offboard::workflow::{
    accept_confirmation, confirmation_phrase, confirmed_flash, needs_mismatch_prompt,
    FirmwareSelection,
};

fn image(signed: bool, nuke: bool) -> ImageInfo {
    ImageInfo {
        signed,
        nuke,
        fingerprint: if signed { Some("test-key".into()) } else { None },
        hash: "digest".into(),
    }
}

#[test]
fn signing_result_survives_the_input_change_event() {
    for nuke in [false, true] {
        let mut selection = FirmwareSelection::default();
        selection.inspected("unsigned.uf2".into(), image(false, nuke), None);
        selection.inspected("signed.uf2".into(), image(true, nuke), None);
        selection.file_changed("signed.uf2");
        assert!(selection.image.as_ref().unwrap().signed);
        selection.device_changed("432D921975CCC729");
        assert!(selection.image.is_some());
        selection.file_changed("different.uf2");
        assert!(selection.image.is_none());
        assert!(selection.assessment.is_none());
    }
}

#[test]
fn only_explicit_flash_confirmation_can_continue_after_compatibility_check() {
    for nuke in [false, true] {
        let mut assessment = Assessment {
            image: image(true, nuke),
            serial: "432D921975CCC729".into(),
            secure_boot: true,
            board_key: Some("test-key".into()),
            allowed: true,
            mismatch: false,
        };
        let mut request = Request {
            serial: assessment.serial.clone(),
            ..Default::default()
        };
        for action in ["image", "inspect", "sign", "check"] {
            request.action = action.into();
            assert!(confirmed_flash(&request, &assessment).is_none());
        }
        request.phrase = format!("FLASH {}", request.serial);
        let write = confirmed_flash(&request, &assessment).unwrap();
        assert_eq!(write.action, "flash");
        assert!(write.review.is_some());
        request.action = "inspect".into();
        assert!(confirmed_flash(&request, &assessment).is_none());
        request.action = "check".into();
        assessment.allowed = false;
        assert!(confirmed_flash(&request, &assessment).is_none());
        assessment.allowed = true;
        assessment.serial = "E830F26C33DD8993".into();
        assert!(confirmed_flash(&request, &assessment).is_none());
    }
}

#[test]
fn confirmed_flash_passes_the_flash_checks() {
    let assessment = Assessment {
        image: image(true, false),
        serial: "432D921975CCC729".into(),
        secure_boot: false,
        board_key: Some("old-key".into()),
        allowed: true,
        mismatch: true,
    };
    let request = Request {
        action: "check".into(),
        serial: assessment.serial.clone(),
        phrase: "FLASH 432D921975CCC729".into(),
        mismatch_accepted: true,
        ..Default::default()
    };
    let write = confirmed_flash(&request, &assessment).unwrap();
    assert!(matches!(&write.review, Some(Review::Flash(a)) if a.serial == assessment.serial));
    assert!(picoforge::hal::firmware::validate_flash(&write, &assessment).is_ok());
    let unaccepted = Request { mismatch_accepted: false, ..request };
    let write = confirmed_flash(&unaccepted, &assessment).unwrap();
    assert_eq!(
        picoforge::hal::firmware::validate_flash(&write, &assessment).unwrap_err(),
        "Confirm the different signing key before flashing."
    );
}

#[test]
fn another_board_forgets_only_its_assessment() {
    let mut selection = FirmwareSelection::default();
    let assessment = Assessment {
        image: image(true, false),
        serial: "432D921975CCC729".into(),
        secure_boot: true,
        board_key: Some("test-key".into()),
        allowed: true,
        mismatch: false,
    };
    selection.inspected("signed.uf2".into(), image(true, false), Some(assessment));
    selection.device_changed("432D921975CCC729");
    assert!(selection.assessment.is_some());
    selection.device_changed("E830F26C33DD8993");
    assert!(selection.assessment.is_none());
    assert_eq!(selection.path, "signed.uf2");
    assert!(selection.image.is_some());
}

#[test]
fn typed_confirmation_must_match_exactly() {
    assert_eq!(confirmation_phrase("prepare", "432D921975CCC729"), "ERASE 432D921975CCC729");
    assert_eq!(confirmation_phrase("lock", "432D921975CCC729"), "LOCK 432D921975CCC729");
    let request = Request {
        action: "flash".into(),
        serial: "432D921975CCC729".into(),
        ..Default::default()
    };
    assert_eq!(
        accept_confirmation(request, "FLASH 432D921975CCC72".into()).unwrap_err(),
        "Enter the exact confirmation phrase"
    );
    let request = Request {
        action: "flash".into(),
        serial: "432D921975CCC729".into(),
        ..Default::default()
    };
    let check = accept_confirmation(request, "FLASH 432D921975CCC729".into()).unwrap();
    assert_eq!(check.action, "check");
    assert_eq!(check.phrase, "FLASH 432D921975CCC729");
    let mut selection = FirmwareSelection::default();
    assert!(!needs_mismatch_prompt(&selection, &check));
    let assessment = Assessment {
        image: image(true, false),
        serial: "432D921975CCC729".into(),
        secure_boot: false,
        board_key: None,
        allowed: true,
        mismatch: true,
    };
    selection.inspected("a.uf2".into(), image(true, false), Some(assessment));
    assert!(needs_mismatch_prompt(&selection, &check));
    let accepted = Request { mismatch_accepted: true, ..check };
    assert!(!needs_mismatch_prompt(&selection, &accepted));
}

#[test]
fn flash_sizes_use_whole_units() {
    assert_eq!(flash_size(4 * 1024 * 1024), (4, SizeUnit::MB));
    assert_eq!(flash_size(1536 * 1024), (1536, SizeUnit::KB));
    assert_eq!(flash_size(1000), (1000, SizeUnit::B));
    assert_eq!(flash_size(0), (0, SizeUnit::B));
}
