use picoforge::hal::firmware::device::{update_step, UpdateStep};
use picoforge::hal::firmware::{parse_bootsel, PicotoolError};
use std::cell::Cell;
use std::collections::VecDeque;

const SERIAL: &str = "432D921975CCC729";

fn absent(serial: &str) -> Result<String, PicotoolError> {
    let suffix = if serial.is_empty() {
        String::new()
    } else {
        format!(" with serial number {serial}")
    };
    Err(PicotoolError::Exit {
        code: -4,
        output: format!("No accessible RP-series devices in BOOTSEL mode were found{suffix}.\r\n"),
    })
}

fn ready(serial: &str) -> Result<String, PicotoolError> {
    Ok(format!(
        "Device Information\n    type: RP2350\n    chipid: 0x{serial}\n"
    ))
}

fn probe(output: Result<String, PicotoolError>) -> Result<Vec<String>, String> {
    parse_bootsel(output, SERIAL, || panic!("unexpected OTP read"))
}

/// Runs the update-mode steps as the application does: one probe, at most one
/// restart request, then probes until the step says to stop. `expired` tells
/// whether the allowed time has run out after the given number of probes since the
/// request.
fn enter_update_mode(
    serial: &str,
    mut probe: impl FnMut() -> Result<Vec<String>, String>,
    request_update: impl FnOnce() -> Result<(), String>,
    expired: impl Fn(usize) -> bool,
) -> Result<(), String> {
    let mut request_update = Some(request_update);
    let mut requested = false;
    let mut polls = 0;
    loop {
        let found = probe();
        let step = update_step(serial, found, requested, requested && expired(polls));
        match step {
            UpdateStep::Finish(result) => return result,
            UpdateStep::RequestUpdate => {
                (request_update.take().expect("asked twice"))()?;
                requested = true;
            }
            UpdateStep::Wait => polls += 1,
        }
    }
}

#[test]
fn absence_is_a_device_state_before_user_error_formatting() {
    assert!(probe(absent(SERIAL)).unwrap().is_empty());
    assert!(
        parse_bootsel(absent(""), "", || panic!())
            .unwrap()
            .is_empty()
    );
    assert!(probe(absent("E830F26C33DD8993")).is_err());
    assert_eq!(probe(ready(SERIAL)).unwrap(), [SERIAL]);
}

#[test]
fn update_request_runs_once_and_waits_through_usb_reenumeration() {
    let replies = std::cell::RefCell::new(VecDeque::from([
        absent(SERIAL),
        absent(SERIAL),
        absent(SERIAL),
        ready(SERIAL),
    ]));
    let requests = Cell::new(0);
    enter_update_mode(
        SERIAL,
        || probe(replies.borrow_mut().pop_front().expect("unexpected probe")),
        || {
            requests.set(requests.get() + 1);
            Ok(())
        },
        |_| false,
    )
    .unwrap();
    assert_eq!(requests.get(), 1);
    assert!(replies.borrow().is_empty());

    enter_update_mode(
        SERIAL,
        || probe(ready(SERIAL)),
        || panic!("already in update mode"),
        |_| true,
    )
    .unwrap();
}

#[test]
fn access_failures_and_unknown_process_errors_do_not_request_a_reboot() {
    for error in [
        PicotoolError::Exit {
            code: -4,
            output: format!(
                "No accessible RP-series devices in BOOTSEL mode were found with serial number {SERIAL}.\nThe device could not be opened: LIBUSB_ERROR_ACCESS\n"
            ),
        },
        PicotoolError::Exit {
            code: 1,
            output: "ERROR: USB connection lost".into(),
        },
        PicotoolError::Execution("picotool not found".into()),
    ] {
        let mut output = Some(Err(error));
        assert!(
            enter_update_mode(
                SERIAL,
                || probe(output.take().unwrap()),
                || panic!("must not reboot on a tool or driver error"),
                |_| true,
            )
            .is_err()
        );
    }
}

#[test]
fn rejected_confirmation_and_transition_timeout_are_reported() {
    let mut replies = VecDeque::from([absent(SERIAL)]);
    let error = enter_update_mode(
        SERIAL,
        || probe(replies.pop_front().unwrap()),
        || Err("Device declined the operation (6985)".into()),
        |_| true,
    )
    .unwrap_err();
    assert!(error.contains("6985"));
    let error = enter_update_mode(SERIAL, || probe(absent(SERIAL)), || Ok(()), |_| true)
        .unwrap_err();
    assert_eq!(error, "The selected board did not enter update mode.");
}

#[test]
fn recovery_metadata_uses_otp_identity_and_rejects_another_board() {
    let invalid_metadata = || {
        Err(PicotoolError::Exit {
            code: 1,
            output: "ERROR: Block loop is not valid\n".into(),
        })
    };
    assert_eq!(
        parse_bootsel(invalid_metadata(), SERIAL, || Ok(SERIAL.into())).unwrap(),
        [SERIAL]
    );
    assert!(parse_bootsel(invalid_metadata(), SERIAL, || Ok("E830F26C33DD8993".into())).is_err());
    assert!(parse_bootsel(invalid_metadata(), SERIAL, || Err("OTP read failed".into())).is_err());
}

#[test]
fn probe_rejects_wrong_chips_missing_metadata_and_other_serials() {
    assert!(probe(ready("E830F26C33DD8993")).is_err());
    assert!(probe(Ok(format!("chipid: {SERIAL}\n"))).is_err());
    assert!(probe(Ok(format!("type: RP2040\nchipid: {SERIAL}\n"))).is_err());
    assert!(probe(Ok("type: RP2350\nchipid: not-a-serial\n".into())).is_err());
}

#[test]
fn probe_upper_cases_chip_ids_and_lists_every_board_when_none_is_selected() {
    let text = "type: RP2350\nchipid: 0x432d921975ccc729\ntype: RP2350\nchipid: 0xE830F26C33DD8993\n";
    assert_eq!(
        parse_bootsel(Ok(text.into()), "", || panic!()).unwrap(),
        ["432D921975CCC729", "E830F26C33DD8993"]
    );
    assert_eq!(
        parse_bootsel(Ok(text.into()), SERIAL, || panic!()).unwrap_err(),
        "Could not identify the selected RP2350."
    );
}

#[test]
fn recovery_error_messages() {
    let broken = Err(PicotoolError::Exit {
        code: 1,
        output: "ERROR: Block loop is not valid\n".into(),
    });
    assert_eq!(
        parse_bootsel(broken, SERIAL, || Ok("E830F26C33DD8993".into())).unwrap_err(),
        "Recovery device serial does not match the selected board."
    );
    let broken = Err(PicotoolError::Exit {
        code: 1,
        output: "ERROR: Block loop is not valid\n".into(),
    });
    assert_eq!(
        parse_bootsel(broken, SERIAL, || Err("OTP read failed".into())).unwrap_err(),
        "OTP read failed"
    );
}

#[test]
fn update_steps_follow_the_probe() {
    let found = || Ok(vec![SERIAL.to_owned()]);
    assert!(matches!(update_step(SERIAL, found(), false, false), UpdateStep::Finish(Ok(()))));
    assert!(matches!(
        update_step(SERIAL, Ok(vec![]), false, true),
        UpdateStep::RequestUpdate
    ));
    assert!(matches!(update_step(SERIAL, Ok(vec![]), true, false), UpdateStep::Wait));
    assert!(matches!(
        update_step(SERIAL, Ok(vec![SERIAL.to_owned(), SERIAL.to_owned()]), true, false),
        UpdateStep::Wait
    ));
    match update_step(SERIAL, Err("gone".into()), true, false) {
        UpdateStep::Finish(Err(e)) => assert_eq!(e, "gone"),
        _ => panic!("a failed probe ends the attempt"),
    }
}
