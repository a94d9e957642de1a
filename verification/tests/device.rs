use picoforge::hal::firmware::device::{
    card_serial, check_target, choose_picotool, completed_message, is_transition, management_reply,
    merge_boards, operation_name, selected_card, sign_error, string_less, unanswered,
    update_request_error,
};

#[test]
fn card_answer_gives_the_serial() {
    let mut data = vec![0u8, 0, 8, 0, 0x43, 0x2d, 0x92, 0x19, 0x75, 0xcc, 0xc7, 0x29, 0x90, 0];
    assert_eq!(card_serial(&data).unwrap(), "432D921975CCC729");
    data[2] = 7;
    assert!(card_serial(&data).is_none());
    data[2] = 8;
    data[1] = 1;
    assert!(card_serial(&data).is_none());
    data[1] = 0;
    data[13] = 1;
    assert!(card_serial(&data).is_none());
    assert!(card_serial(&data[..13]).is_none());
}

#[test]
fn management_replies() {
    assert_eq!(management_reply(&[1, 2, 0x90, 0]).unwrap(), vec![1, 2]);
    assert_eq!(management_reply(&[0x90, 0]).unwrap(), Vec::<u8>::new());
    assert_eq!(
        management_reply(&[0x69, 0x85]).unwrap_err(),
        "Device declined the operation (6985)"
    );
    assert_eq!(
        management_reply(&[]).unwrap_err(),
        "Device declined the operation ()"
    );
    assert!(is_transition(&[0x80, 0x1f, 1, 0, 0]));
    assert!(!is_transition(&[0x80, 0x1e, 6, 0, 0]));
    assert!(unanswered(&[0x80, 0x1f, 0, 0, 0], "lost".into()).unwrap().is_empty());
    assert_eq!(unanswered(&[0x80, 0x1d], "lost".into()).unwrap_err(), "lost");
}

#[test]
fn exactly_one_connected_board_must_match() {
    let cards = vec!["A".to_owned(), "B".to_owned(), "A".to_owned()];
    assert_eq!(selected_card(&cards, "B").unwrap(), 1);
    assert_eq!(
        selected_card(&cards, "A").unwrap_err(),
        "Connect exactly the selected board in normal mode."
    );
    assert!(selected_card(&cards, "C").is_err());
}

#[test]
fn nuke_refusals_explain_themselves() {
    assert_eq!(
        update_request_error(true, "Device declined the operation (6D00)".into()),
        "The installed firmware does not support Nuke confirmation lights. Update Pico All first."
    );
    assert_eq!(
        update_request_error(true, "Device declined the operation (6985)".into()),
        "Nuke was not confirmed. Press and release the button during the red breathing prompt, then retry."
    );
    assert_eq!(
        update_request_error(false, "Device declined the operation (6985)".into()),
        "Device declined the operation (6985)"
    );
}

#[test]
fn bundled_picotool_is_selected_unless_overridden() {
    assert_eq!(choose_picotool(" custom ", Some("configured"), Some("bundled")), " custom ");
    assert_eq!(choose_picotool("  ", Some("configured"), Some("bundled")), "configured");
    assert_eq!(choose_picotool("", Some(" "), Some("bundled")), "bundled");
    assert_eq!(choose_picotool("", None, None), "picotool");
}

#[test]
fn operations_and_their_log_lines() {
    assert!(check_target("scan", "").is_ok());
    assert!(check_target("flash", "432D921975CCC729").is_ok());
    assert_eq!(
        check_target("flash", "--all").unwrap_err(),
        "Choose a board or enter its 16-digit serial."
    );
    assert_eq!(operation_name("check"), "firmware inspection");
    assert_eq!(operation_name("bootsel"), "update mode");
    assert_eq!(operation_name("lock"), "lock");
    assert_eq!(completed_message("firmware update"), "Firmware update completed");
    assert_eq!(completed_message("état"), "état completed");
    assert_eq!(completed_message(""), " completed");
    assert_eq!(
        sign_error("ERROR: Signature verification failed".into()),
        "ERROR: Signature verification failed. RP2350 firmware signing requires a secp256k1 private key; a PIV P-256 key cannot be used."
    );
    assert_eq!(sign_error("other".into()), "other");
}

#[test]
fn scan_lists_each_board_once_in_order() {
    let normal = vec!["E830F26C33DD8993".to_owned(), "432D921975CCC729".to_owned()];
    let update = vec!["432D921975CCC729".to_owned(), "0000000000000001".to_owned()];
    assert_eq!(
        merge_boards(normal, update),
        ["0000000000000001", "432D921975CCC729", "E830F26C33DD8993"]
    );
    assert!(merge_boards(vec![], vec![]).is_empty());
    assert!(string_less("AB", "ABC"));
    assert!(!string_less("ABC", "AB"));
    assert!(string_less("A", "a"));
    assert!(!string_less("x", "x"));
}
