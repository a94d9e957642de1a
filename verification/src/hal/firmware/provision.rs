//! The checks around a provisioning stage: the board's own boot status, the record
//! of a verified protected boot, the credential storage that Secure Boot must find
//! empty, and the confirmation of a reviewed plan before OTP is written.
use vstd::prelude::*;
use vstd::string::StrSliceExecFns;
use crate::hal::firmware::security::{
    OtpReader, StageReview, StageReviewView, State, Write, crit_row_numbers, flag_row_numbers,
    key_row, key_word, load_key_rows, lock_page_writes, matching_slots, lock_row_numbers, raw_write, raw_writes, spec_plan,
    spec_vote, stage_review_eq, staged_writes, trusted_mask, vote, write_locked, zip_len,
};
use crate::codec::hex_decoded;
use crate::hal::firmware::{opt_review_view, property, spec_property, Review, ReviewView};
use crate::text::{
    chars_of, find_char, find_char_in, find_str, find_str_from, first_line_starting,
    first_line_starting_in, from_str_radix16, from_str_radix16_range, lines, split_once, str_eq,
    sub_chars, to_uppercase, uppercase, word_bounds, words,
};

verus! {

/// Whether the status reply `d` (of command `80 1E 06`) reports Secure Boot and the
/// OTP root both off.
pub open spec fn boot_policy_off(d: Seq<u8>) -> bool {
    d.len() == 7 && d[0] == 1 && d[1] == 0 && d[6] & 1 == 0
}

/// The check before erasing application storage: the board must run without
/// Secure Boot and OTP root, and the user must have typed `ERASE` and its serial.
pub open spec fn spec_check_prepare(status: Seq<u8>, phrase: Seq<char>, serial: Seq<char>) -> Result<
    (),
    Seq<char>,
> {
    if !boot_policy_off(status) {
        Err("Preparation requires Secure Boot and OTP root to be off."@)
    } else if phrase != "ERASE "@ + serial {
        Err("Confirm erasing application storage first."@)
    } else {
        Ok(())
    }
}

/// Checks a request to erase application storage (see [`spec_check_prepare`]).
pub fn check_prepare(status: &[u8], phrase: &str, serial: &str) -> (r: Result<(), String>)
    ensures
        match r {
            Ok(()) => spec_check_prepare(status@, phrase@, serial@) is Ok,
            Err(m) => spec_check_prepare(status@, phrase@, serial@) == Err::<(), Seq<char>>(m@),
        },
{
    if !(status.len() == 7 && status[0] == 1 && status[1] == 0 && status[6] & 1 == 0) {
        return Err("Preparation requires Secure Boot and OTP root to be off.".to_owned());
    }
    let mut expected = "ERASE ".to_owned();
    expected.append(serial);
    if !str_eq(phrase, expected.as_str()) {
        return Err("Confirm erasing application storage first.".to_owned());
    }
    Ok(())
}

/// The record that protected boot was verified on a board for an image.
pub struct BootProof {
    /// The board.
    pub serial: String,
    /// The SHA-256 of the image, in hexadecimal.
    pub sha256: String,
    /// The critical flags the board reported.
    pub critical: u32,
    /// The OTP page of the boot root.
    pub root_page: u8,
}

/// Whether the status reply `d` reports protected boot: Secure Boot on, the root in
/// pages 56 to 58, and the hardening flags (`0x75`) set.
pub open spec fn protected_boot_active(d: Seq<u8>) -> bool {
    d.len() == 7 && d[0] == 1 && d[1] == 1 && 56 <= d[2] < 59 && d[6] & 0x75 == 0x75
}

/// Four bytes as a big-endian number.
pub open spec fn be_u32(a: u8, b: u8, c: u8, d: u8) -> int {
    a * 0x100_0000 + b * 0x1_0000 + c * 0x100 + d
}

/// Records a verified protected boot of the image with digest `hash` on the board
/// `serial`, from the board's status reply `status`: only for a signed image, and
/// only when the status shows protected boot.
pub fn prove_boot(signed: bool, status: &[u8], serial: String, hash: String) -> (r: Result<
    BootProof,
    String,
>)
    ensures
        !signed ==> (r matches Err(m) && m@ == "Select verified signed firmware."@),
        signed && !protected_boot_active(status@) ==> (r matches Err(m) && m@
            == "Protected boot and OTP root are not active."@),
        signed && protected_boot_active(status@) ==> (r matches Ok(p) && p.serial == serial
            && p.sha256 == hash && p.critical == be_u32(status@[3], status@[4], status@[5], status@[6])
            && p.root_page == status@[2]),
{
    if !signed {
        return Err("Select verified signed firmware.".to_owned());
    }
    if !(status.len() == 7 && status[0] == 1 && status[1] == 1 && 56 <= status[2] && status[2] < 59
        && status[6] & 0x75 == 0x75) {
        return Err("Protected boot and OTP root are not active.".to_owned());
    }
    let critical: u32 = (status[3] as u32) * 0x100_0000 + (status[4] as u32) * 0x1_0000 + (
    status[5] as u32) * 0x100 + (status[6] as u32);
    Ok(BootProof { serial, sha256: hash, critical, root_page: status[2] })
}

/// The stages that read the OTP state and plan writes.
pub open spec fn is_security_stage(action: Seq<char>) -> bool {
    action == "status"@ || action == "load-key"@ || action == "harden"@ || action == "enable"@
        || action == "lock"@
}

/// Refuses an operation that is neither a provisioning stage nor known otherwise.
pub fn check_security_stage(action: &str) -> (r: Result<(), String>)
    ensures
        r is Ok <==> is_security_stage(action@),
        r matches Err(m) ==> m@ == "Unknown firmware operation."@,
{
    if str_eq(action, "status") || str_eq(action, "load-key") || str_eq(action, "harden") || str_eq(
        action,
        "enable",
    ) || str_eq(action, "lock") {
        Ok(())
    } else {
        Err("Unknown firmware operation.".to_owned())
    }
}

/// Whether enabling Secure Boot must first find the credential storage empty: for
/// the `enable` stage while the critical rows do not yet enable it.
pub fn needs_storage_check(action: &str, critical: &[u32]) -> (r: bool)
    ensures
        r == (action@ == "enable"@ && spec_vote(critical@, 3) & 1 == 0),
{
    str_eq(action, "enable") && vote(critical, 3) & 1 == 0
}

/// Before locking: the stored proof must name this board (`proof_serial`) and this
/// image (`proof_hash`), and the board (its `info -d` output `board`) must report
/// Secure Boot as `1`.
pub open spec fn spec_check_lock_proof(
    proof_serial: Option<Seq<char>>,
    proof_hash: Option<Seq<char>>,
    serial: Seq<char>,
    hash: Seq<char>,
    board: Seq<char>,
) -> Result<(), Seq<char>> {
    if proof_serial != Some(serial) || proof_hash != Some(hash) || spec_property(
        board,
        "secure boot"@,
    ) != Some("1"@) {
        Err("Power-cycle and verify protected boot for this image and board."@)
    } else {
        Ok(())
    }
}

/// Checks the stored proof of protected boot before locking (see
/// [`spec_check_lock_proof`]); a field missing from the proof is `None`.
pub fn check_lock_proof(
    proof_serial: Option<&str>,
    proof_hash: Option<&str>,
    serial: &str,
    hash: &str,
    board: &str,
) -> (r: Result<(), String>)
    ensures
        match r {
            Ok(()) => spec_check_lock_proof(
                crate::hal::firmware::security::opt_str_view(proof_serial),
                crate::hal::firmware::security::opt_str_view(proof_hash),
                serial@,
                hash@,
                board@,
            ) is Ok,
            Err(m) => spec_check_lock_proof(
                crate::hal::firmware::security::opt_str_view(proof_serial),
                crate::hal::firmware::security::opt_str_view(proof_hash),
                serial@,
                hash@,
                board@,
            ) == Err::<(), Seq<char>>(m@),
        },
{
    let serial_ok = match proof_serial {
        Some(s) => str_eq(s, serial),
        None => false,
    };
    let hash_ok = match proof_hash {
        Some(h) => str_eq(h, hash),
        None => false,
    };
    let secure = match property(board, "secure boot") {
        Some(v) => str_eq(v, "1"),
        None => false,
    };
    if !serial_ok || !hash_ok || !secure {
        return Err("Power-cycle and verify protected boot for this image and board.".to_owned());
    }
    Ok(())
}

/// Whether the credential partition `start..end` has the layout that the storage
/// check knows: it starts on a 4 KiB boundary at or after `0x102000`, ends at
/// `0x400000`, and holds more than the last 8 KiB.
pub open spec fn storage_layout_ok(start: u32, end: u32) -> bool {
    start >= 0x102000 && end == 0x400000 && start < end - 0x2000 && start % 4096 == 0
}

/// The credential partition that `picotool info -m` output `text` describes: the
/// first line that (trimmed) starts with `partition 1 (`, then after its first colon
/// the first word, `start->end` in hexadecimal, with a layout the check knows.
pub open spec fn spec_credential_partition(text: Seq<char>) -> Result<(u32, u32), Seq<char>> {
    match first_line_starting(lines(text), "partition 1 ("@) {
        None => Err("Cannot identify credential partition"@),
        Some(line) => match split_once(line, ':') {
            None => Err("Invalid partition"@),
            Some((_, rest)) => if words(rest).len() == 0 {
                Err("Missing partition extent"@)
            } else {
                let span = words(rest)[0];
                let j = find_str(span, "->"@, 0);
                if j >= span.len() {
                    Err("Invalid partition extent"@)
                } else {
                    match from_str_radix16(span.take(j)) {
                        None => Err("Invalid partition start"@),
                        Some(start) => match from_str_radix16(span.skip(j + 2)) {
                            None => Err("Invalid partition end"@),
                            Some(end) => if storage_layout_ok(start, end) {
                                Ok((start, end))
                            } else {
                                Err("Unsupported credential storage layout."@)
                            },
                        },
                    }
                }
            },
        },
    }
}

/// Finds the credential partition in `picotool info -m` output (see
/// [`spec_credential_partition`]).
pub fn credential_partition(text: &str) -> (r: Result<(u32, u32), String>)
    ensures
        match r {
            Ok(p) => spec_credential_partition(text@) == Ok::<(u32, u32), Seq<char>>(p),
            Err(m) => spec_credential_partition(text@) == Err::<(u32, u32), Seq<char>>(m@),
        },
{
    proof {
        reveal_strlit("partition 1 (");
        reveal_strlit("->");
    }
    let cs = chars_of(text);
    let (la, lb) = match first_line_starting_in(&cs, &chars_of("partition 1 (")) {
        Some(ab) => ab,
        None => return Err("Cannot identify credential partition".to_owned()),
    };
    let ghost line = cs@.subrange(la as int, lb as int);
    let c = find_char_in(&cs, ':', la, lb);
    if c == lb {
        return Err("Invalid partition".to_owned());
    }
    assert(line.skip(c - la + 1) =~= cs@.subrange(c + 1, lb as int));
    let rest = sub_chars(&cs, c + 1, lb);
    let bounds = word_bounds(&rest);
    if bounds.len() == 0 {
        return Err("Missing partition extent".to_owned());
    }
    let (x, y) = bounds[0];
    let span = sub_chars(&rest, x, y);
    let arrow = chars_of("->");
    let j = find_str_from(&span, &arrow, 0);
    if j >= span.len() {
        return Err("Invalid partition extent".to_owned());
    }
    proof {
        crate::text::lemma_find_str_bounds(span@, arrow@, 0);
    }
    assert(span@.subrange(0, j as int) =~= span@.take(j as int));
    assert(span@.subrange(j + 2, span@.len() as int) =~= span@.skip(j + 2));
    let start = match from_str_radix16_range(&span, 0, j) {
        Some(v) => v,
        None => return Err("Invalid partition start".to_owned()),
    };
    let end = match from_str_radix16_range(&span, j + 2, span.len()) {
        Some(v) => v,
        None => return Err("Invalid partition end".to_owned()),
    };
    if start < 0x102000 || end != 0x400000 || start >= end - 0x2000 || start % 4096 != 0 {
        return Err("Unsupported credential storage layout.".to_owned());
    }
    Ok((start, end))
}

/// A credential partition that the check finds always has the layout the storage
/// check knows, so its flash window can be read: it ends at 4 MiB, starts on a 4 KiB
/// boundary at or after `0x102000`, and is longer than its last 8 KiB.
pub proof fn law_found_partition_has_known_layout(text: Seq<char>)
    ensures
        spec_credential_partition(text) matches Ok(p) ==> storage_layout_ok(p.0, p.1),
        spec_credential_partition(text) matches Ok(p) ==> p.1 == 0x400000 && p.0 >= 0x102000
            && p.0 % 4096 == 0 && p.0 < 0x3fe000,
{
}

/// The flash addresses to read for the storage check: the partition without its
/// last 8 KiB, in the XIP window at `0x10000000`.
pub fn storage_window(start: u32, end: u32) -> (w: (u32, u32))
    requires
        storage_layout_ok(start, end),
    ensures
        w.0 == start + 0x1000_0000,
        w.1 == end + 0x1000_0000 - 0x2000,
{
    (start + 0x1000_0000, end + 0x1000_0000 - 0x2000)
}

/// The storage check on the bytes `data` read from the window of the partition
/// `start..end`: all of it read, and every byte erased (`0xFF`).
pub open spec fn spec_storage_empty(data: Seq<u8>, start: u32, end: u32) -> bool {
    data.len() == end - start - 0x2000 && forall|i: int| 0 <= i < data.len() ==> data[i] == 0xff
}

/// Checks that the credential storage read back as `data` is empty (see
/// [`spec_storage_empty`]).
pub fn check_storage_empty(data: &[u8], start: u32, end: u32) -> (r: Result<(), String>)
    requires
        storage_layout_ok(start, end),
    ensures
        r is Ok <==> spec_storage_empty(data@, start, end),
        r matches Err(m) ==> m@
            == "Credential storage is not empty. Prepare storage before enabling Secure Boot."@,
{
    let mut ok = data.len() as u64 == (end - start - 0x2000) as u64;
    let mut i: usize = 0;
    while i < data.len()
        invariant
            i <= data@.len(),
            ok == (data@.len() == end - start - 0x2000 && forall|k: int|
                0 <= k < i ==> data@[k] == 0xff),
        decreases data@.len() - i,
    {
        if data[i] != 0xff {
            ok = false;
        }
        i = i + 1;
    }
    if ok {
        Ok(())
    } else {
        Err("Credential storage is not empty. Prepare storage before enabling Secure Boot.".to_owned())
    }
}

/// The phrase that confirms a stage on the board `serial`, where `upper_action` is
/// the stage's name in upper case.
pub open spec fn stage_phrase(upper_action: Seq<char>, serial: Seq<char>) -> Seq<char> {
    upper_action + " "@ + serial
}

/// What happens with a stage once its plan `current` is known and not empty, where
/// `upper_action` is the stage's name in upper case: without a confirmed review the
/// plan is shown for review (`Ok(false)`); a review goes on (`Ok(true)`) only when it
/// is exactly `current` and the typed phrase names the stage and board; hardening
/// and enabling also need the previous stage to have been tested after a power
/// cycle.
pub open spec fn spec_confirm_stage(
    review: Option<ReviewView>,
    current: StageReviewView,
    phrase: Seq<char>,
    boot_tested: bool,
    upper_action: Seq<char>,
) -> Result<bool, Seq<char>> {
    match review {
        None => Ok(false),
        Some(r) => if r != ReviewView::Stage(current) || phrase != stage_phrase(
            upper_action,
            current.serial,
        ) {
            Err("Review changed; confirm this exact stage again."@)
        } else if (current.action == "harden"@ || current.action == "enable"@) && !boot_tested {
            Err("Power-cycle and test the previous stage first."@)
        } else {
            Ok(true)
        },
    }
}

/// A stage decision agrees with its description.
pub open spec fn stage_decision_matches(r: Result<bool, String>, s: Result<bool, Seq<char>>) -> bool {
    match r {
        Ok(b) => s == Ok::<bool, Seq<char>>(b),
        Err(m) => s == Err::<bool, Seq<char>>(m@),
    }
}

/// Decides whether a stage with the plan `current` may write now, given the review
/// the request carries and the stage's name in upper case (see
/// [`spec_confirm_stage`]).
pub fn confirm_stage_given(
    review: &Option<Review>,
    current: &StageReview,
    phrase: &str,
    boot_tested: bool,
    upper_action: &str,
) -> (r: Result<bool, String>)
    ensures
        stage_decision_matches(
            r,
            spec_confirm_stage(opt_review_view(*review), current@, phrase@, boot_tested, upper_action@),
        ),
{
    let same = match review {
        None => return Ok(false),
        Some(Review::Stage(r)) => stage_review_eq(r, current),
        Some(Review::Flash(_)) => false,
    };
    let mut expected = upper_action.to_owned();
    expected.append(" ");
    expected.append(current.serial.as_str());
    proof {
        reveal_strlit(" ");
    }
    if !same || !str_eq(phrase, expected.as_str()) {
        return Err("Review changed; confirm this exact stage again.".to_owned());
    }
    if (str_eq(current.action.as_str(), "harden") || str_eq(current.action.as_str(), "enable"))
        && !boot_tested {
        return Err("Power-cycle and test the previous stage first.".to_owned());
    }
    Ok(true)
}

/// Decides whether a stage with the plan `current` may write now, given the review
/// the request carries (see [`spec_confirm_stage`]; the stage's name is upper-cased
/// as `str::to_uppercase` does).
pub fn confirm_stage(
    review: &Option<Review>,
    current: &StageReview,
    phrase: &str,
    boot_tested: bool,
) -> (r: Result<bool, String>)
    ensures
        stage_decision_matches(
            r,
            spec_confirm_stage(
                opt_review_view(*review),
                current@,
                phrase@,
                boot_tested,
                uppercase(current.action@),
            ),
        ),
{
    let upper = to_uppercase(current.action.as_str());
    confirm_stage_given(review, current, phrase, boot_tested, upper.as_str())
}

/// Before writing, the board's OTP state read again (`now`) and the image digest
/// (`file_hash`) must be what the user reviewed (`reviewed`, `reviewed_hash`).
pub fn check_unchanged(reviewed: &State, now: &State, reviewed_hash: &str, file_hash: &str) -> (r:
    Result<(), String>)
    ensures
        r is Ok <==> (now@ == reviewed@ && file_hash@ == reviewed_hash@),
        r matches Err(m) ==> m@ == "Device or image changed during review."@,
{
    if !crate::hal::firmware::security::state_eq(now, reviewed) || !str_eq(file_hash, reviewed_hash) {
        return Err("Device or image changed during review.".to_owned());
    }
    Ok(())
}

/// After writing `w`, the row must read back as the value written.
pub fn check_written(w: &Write, read_back: u32) -> (r: Result<(), String>)
    ensures
        r is Ok <==> read_back == w.value,
        r matches Err(m) ==> m@ == "OTP verification failed. Stop and inspect the device."@,
{
    if read_back != w.value {
        return Err("OTP verification failed. Stop and inspect the device.".to_owned());
    }
    Ok(())
}

/// What to do next while writing a confirmed stage.
pub enum StageAction {
    /// Verify the image on the board (picotool `verify`).
    VerifyImage,
    /// Program this OTP write.
    Program(Write),
    /// Read back the row of this write.
    ReadBack(Write),
    /// Stop with this outcome.
    Finish(Result<(), String>),
}

/// A [`StageAction`] as plain values.
pub enum StageActionView {
    VerifyImage,
    Program(Write),
    ReadBack(Write),
    Finish(Result<(), Seq<char>>),
}

impl View for StageAction {
    type V = StageActionView;

    open spec fn view(&self) -> StageActionView {
        match self {
            StageAction::VerifyImage => StageActionView::VerifyImage,
            StageAction::Program(w) => StageActionView::Program(*w),
            StageAction::ReadBack(w) => StageActionView::ReadBack(*w),
            StageAction::Finish(Ok(())) => StageActionView::Finish(Ok(())),
            StageAction::Finish(Err(m)) => StageActionView::Finish(Err(m@)),
        }
    }
}

/// What the last action of a stage run gave.
pub enum StageEvent {
    /// The image verification ran (or failed).
    Verified(Result<(), String>),
    /// The write was programmed (or failed).
    Programmed(Result<(), String>),
    /// The row read back as this value (or could not be read).
    ReadBack(Result<u32, String>),
}

/// A [`StageEvent`] as plain values.
pub enum StageEventView {
    Verified(Result<(), Seq<char>>),
    Programmed(Result<(), Seq<char>>),
    ReadBack(Result<u32, Seq<char>>),
}

impl View for StageEvent {
    type V = StageEventView;

    open spec fn view(&self) -> StageEventView {
        match self {
            StageEvent::Verified(Ok(())) => StageEventView::Verified(Ok(())),
            StageEvent::Verified(Err(m)) => StageEventView::Verified(Err(m@)),
            StageEvent::Programmed(Ok(())) => StageEventView::Programmed(Ok(())),
            StageEvent::Programmed(Err(m)) => StageEventView::Programmed(Err(m@)),
            StageEvent::ReadBack(Ok(v)) => StageEventView::ReadBack(Ok(*v)),
            StageEvent::ReadBack(Err(m)) => StageEventView::ReadBack(Err(m@)),
        }
    }
}

/// Where a stage run stands: waiting for the image verification, for write `i` to
/// be programmed or read back, or done.
#[derive(Clone, Copy, Debug, PartialEq, Eq, Structural)]
pub enum StagePhase {
    Verifying,
    Programming(usize),
    Checking(usize),
    Done,
}

/// Whether `event` answers the action that `phase` waits for.
pub open spec fn expects(phase: StagePhase, event: StageEventView) -> bool {
    match (phase, event) {
        (StagePhase::Verifying, StageEventView::Verified(_)) => true,
        (StagePhase::Programming(_), StageEventView::Programmed(_)) => true,
        (StagePhase::Checking(_), StageEventView::ReadBack(_)) => true,
        _ => false,
    }
}

/// Moving on to write `i` of `writes`: done when none is left, refused when the write
/// is not one a stage may make, else programming it.
pub open spec fn program_from(writes: Seq<Write>, i: int) -> (StagePhase, StageActionView) {
    if i >= writes.len() {
        (StagePhase::Done, StageActionView::Finish(Ok(())))
    } else if !spec_write_allowed(writes[i]) {
        (StagePhase::Done, StageActionView::Finish(Err("Unsupported OTP write."@)))
    } else {
        (StagePhase::Programming(i as usize), StageActionView::Program(writes[i]))
    }
}

/// The next phase and action of a stage run writing `writes`: after the image
/// verified, each allowed write is programmed and read back in order, and the run
/// stops at the first failure or a value that did not read back as written.
pub open spec fn spec_stage_next(writes: Seq<Write>, phase: StagePhase, event: StageEventView) -> (
    StagePhase,
    StageActionView,
) {
    match (phase, event) {
        (StagePhase::Verifying, StageEventView::Verified(Err(e))) => (
            StagePhase::Done,
            StageActionView::Finish(Err(e)),
        ),
        (StagePhase::Verifying, StageEventView::Verified(Ok(()))) => program_from(writes, 0),
        (StagePhase::Programming(i), StageEventView::Programmed(Err(e))) => (
            StagePhase::Done,
            StageActionView::Finish(Err(e)),
        ),
        (StagePhase::Programming(i), StageEventView::Programmed(Ok(()))) => (
            StagePhase::Checking(i),
            StageActionView::ReadBack(writes[i as int]),
        ),
        (StagePhase::Checking(i), StageEventView::ReadBack(Err(e))) => (
            StagePhase::Done,
            StageActionView::Finish(Err(e)),
        ),
        (StagePhase::Checking(i), StageEventView::ReadBack(Ok(v))) => if v != writes[i as int].value {
            (
                StagePhase::Done,
                StageActionView::Finish(
                    Err("OTP verification failed. Stop and inspect the device."@),
                ),
            )
        } else {
            program_from(writes, i + 1)
        },
        _ => (phase, StageActionView::Finish(Ok(()))),
    }
}

/// A stage run: the confirmed writes and where writing them stands.
pub struct StageRun {
    writes: Vec<Write>,
    phase: StagePhase,
}

/// A [`StageRun`] as plain values.
pub struct StageRunView {
    pub writes: Seq<Write>,
    pub phase: StagePhase,
}

impl View for StageRun {
    type V = StageRunView;

    closed spec fn view(&self) -> StageRunView {
        StageRunView { writes: self.writes@, phase: self.phase }
    }
}

impl StageRun {
    /// The phases a run can be in.
    pub closed spec fn wf(&self) -> bool {
        match self.phase {
            StagePhase::Programming(i) => i < self.writes@.len(),
            StagePhase::Checking(i) => i < self.writes@.len(),
            _ => true,
        }
    }

    /// Starts writing the stage `current` once it is confirmed (see
    /// [`spec_confirm_stage`]): without a review it is shown for review (`None`);
    /// after confirmation `reread` reads the board's OTP state and the image digest
    /// again, and the run starts only when both are what was reviewed. The run's
    /// first action is to verify the image.
    pub fn begin(
        review: &Option<Review>,
        current: &StageReview,
        phrase: &str,
        boot_tested: bool,
        reread: impl FnOnce() -> Result<(State, String), String>,
    ) -> (r: Result<Option<(StageRun, StageAction)>, String>)
        requires
            call_requires(reread, ()),
        ensures
            ({
                let c = spec_confirm_stage(
                    opt_review_view(*review),
                    current@,
                    phrase@,
                    boot_tested,
                    uppercase(current.action@),
                );
                &&& c is Err ==> (r matches Err(e) && e@ == c->Err_0)
                &&& c == Ok::<bool, Seq<char>>(false) ==> (r matches Ok(None))
                &&& c == Ok::<bool, Seq<char>>(true) ==> exists|got: Result<(State, String), String>|
                    #[trigger] call_ensures(reread, (), got) && match got {
                        Err(e) => r == Err::<Option<(StageRun, StageAction)>, String>(e),
                        Ok((now, h)) => if now@ != current.state@ || h@ != current.image_hash@ {
                            (r matches Err(e) && e@ == "Device or image changed during review."@)
                        } else {
                            (r matches Ok(Some((run, a))) && run.wf() && run@ == (StageRunView {
                                writes: current.writes@,
                                phase: StagePhase::Verifying,
                            }) && a@ == StageActionView::VerifyImage)
                        },
                    }
            }),
    {
        if !confirm_stage(review, current, phrase, boot_tested)? {
            return Ok(None);
        }
        let got = reread();
        let ghost seen = got;
        match got {
            Err(e) => {
                assert(call_ensures(reread, (), seen));
                Err(e)
            },
            Ok((now, h)) => {
                assert(call_ensures(reread, (), seen));
                check_unchanged(&current.state, &now, current.image_hash.as_str(), h.as_str())?;
                let writes = clone_writes(&current.writes);
                Ok(Some((StageRun { writes, phase: StagePhase::Verifying }, StageAction::VerifyImage)))
            },
        }
    }

    /// Whether `event` answers the action this run waits for.
    pub fn expects(&self, event: &StageEvent) -> (r: bool)
        ensures
            r == expects(self@.phase, event@),
    {
        match (self.phase, event) {
            (StagePhase::Verifying, StageEvent::Verified(_)) => true,
            (StagePhase::Programming(_), StageEvent::Programmed(_)) => true,
            (StagePhase::Checking(_), StageEvent::ReadBack(_)) => true,
            _ => false,
        }
    }

    /// Takes what the last action gave and says what to do next (see
    /// [`spec_stage_next`]).
    pub fn step(&mut self, event: StageEvent) -> (a: StageAction)
        requires
            old(self).wf(),
            expects(old(self)@.phase, event@),
        ensures
            final(self).wf(),
            final(self)@.writes == old(self)@.writes,
            (final(self)@.phase, a@) == spec_stage_next(old(self)@.writes, old(self)@.phase, event@),
    {
        match event {
            StageEvent::Verified(Err(e)) => {
                self.phase = StagePhase::Done;
                StageAction::Finish(Err(e))
            },
            StageEvent::Verified(Ok(())) => self.program(0),
            StageEvent::Programmed(Err(e)) => {
                self.phase = StagePhase::Done;
                StageAction::Finish(Err(e))
            },
            StageEvent::Programmed(Ok(())) => {
                let i = match self.phase {
                    StagePhase::Programming(i) => i,
                    _ => 0,
                };
                self.phase = StagePhase::Checking(i);
                StageAction::ReadBack(self.writes[i])
            },
            StageEvent::ReadBack(Err(e)) => {
                self.phase = StagePhase::Done;
                StageAction::Finish(Err(e))
            },
            StageEvent::ReadBack(Ok(v)) => {
                let i = match self.phase {
                    StagePhase::Checking(i) => i,
                    _ => 0,
                };
                match check_written(&self.writes[i], v) {
                    Err(e) => {
                        self.phase = StagePhase::Done;
                        StageAction::Finish(Err(e))
                    },
                    Ok(()) => {
                        let n = self.writes.len();
                        assert(i < n);
                        self.program(i + 1)
                    },
                }
            },
        }
    }

    fn program(&mut self, i: usize) -> (a: StageAction)
        requires
            i <= old(self).writes@.len(),
        ensures
            final(self).wf(),
            final(self).writes@ == old(self).writes@,
            (final(self).phase, a@) == program_from(old(self).writes@, i as int),
    {
        if i >= self.writes.len() {
            self.phase = StagePhase::Done;
            StageAction::Finish(Ok(()))
        } else if !write_allowed(&self.writes[i]) {
            self.phase = StagePhase::Done;
            StageAction::Finish(Err("Unsupported OTP write.".to_owned()))
        } else {
            self.phase = StagePhase::Programming(i);
            StageAction::Program(self.writes[i])
        }
    }
}

fn clone_writes(v: &Vec<Write>) -> (r: Vec<Write>)
    ensures
        r@ == v@,
{
    let mut r: Vec<Write> = Vec::new();
    let mut i: usize = 0;
    while i < v.len()
        invariant
            i <= v@.len(),
            r@ =~= v@.take(i as int),
        decreases v@.len() - i,
    {
        r.push(v[i]);
        i = i + 1;
    }
    assert(v@.take(v@.len() as int) =~= v@);
    r
}

/// The image verification succeeded.
pub open spec fn verified_ok(event: StageEventView) -> bool {
    event matches StageEventView::Verified(r) && r is Ok
}

/// The row read back as `v`.
pub open spec fn read_back_as(event: StageEventView, v: u32) -> bool {
    event matches StageEventView::ReadBack(r) && r == Ok::<u32, Seq<char>>(v)
}

/// The run finished successfully.
pub open spec fn finished_ok(a: StageActionView) -> bool {
    a matches StageActionView::Finish(r) && r is Ok
}

/// Erasing application storage goes ahead exactly when the board's status reply is
/// the seven-byte answer of a board with Secure Boot off (byte 1 is 0) and the OTP
/// root off (bit 0 of byte 6 clear), and the typed phrase is `ERASE ` and the
/// board's serial.
pub proof fn law_prepare_needs_boot_off_and_typed_serial(status: Seq<u8>, phrase: Seq<char>, serial: Seq<char>)
    ensures
        spec_check_prepare(status, phrase, serial) is Ok <==> (status.len() == 7 && status[0] == 1
            && status[1] == 0 && status[6] & 1 == 0 && phrase == "ERASE "@ + serial),
{
}

/// A boot proof is recorded exactly for a signed image on a board whose status
/// reply shows Secure Boot on (byte 1 is 1), its boot root in OTP pages 56 to 58
/// (byte 2) and all of the hardening flags `0x75` in its critical byte (byte 6).
pub proof fn law_boot_proof_needs_protected_boot(status: Seq<u8>)
    ensures
        protected_boot_active(status) <==> (status.len() == 7 && status[0] == 1 && status[1] == 1
            && 56 <= status[2] <= 58 && status[6] & 0x75 == 0x75),
        status.len() == 7 ==> be_u32(status[3], status[4], status[5], status[6]) == status[3]
            * 16777216 + status[4] * 65536 + status[5] * 256 + status[6],
{
}

/// A reviewed stage writes only when the review carried is exactly the current plan,
/// the typed phrase is the stage's upper-case name, a space and the board's serial,
/// and, for hardening and enabling, the previous stage was tested after a power
/// cycle; without a review the plan is only shown.
pub proof fn law_stage_writes_only_after_exact_confirmation(
    review: Option<ReviewView>,
    current: StageReviewView,
    phrase: Seq<char>,
    boot_tested: bool,
    upper_action: Seq<char>,
)
    ensures
        review is None ==> spec_confirm_stage(review, current, phrase, boot_tested, upper_action)
            == Ok::<bool, Seq<char>>(false),
        spec_confirm_stage(review, current, phrase, boot_tested, upper_action) == Ok::<
            bool,
            Seq<char>,
        >(true) <==> (review == Some(ReviewView::Stage(current)) && phrase == upper_action + " "@
            + current.serial && (current.action == "harden"@ || current.action == "enable"@
            ==> boot_tested)),
{
}

/// Locking goes ahead only with a stored proof that names this board and this image,
/// on a board that reports Secure Boot as `1`.
pub proof fn law_lock_needs_proof_for_this_board_and_image(
    proof_serial: Option<Seq<char>>,
    proof_hash: Option<Seq<char>>,
    serial: Seq<char>,
    hash: Seq<char>,
    board: Seq<char>,
)
    ensures
        spec_check_lock_proof(proof_serial, proof_hash, serial, hash, board) is Ok <==> (
        proof_serial == Some(serial) && proof_hash == Some(hash) && spec_property(
            board,
            "secure boot"@,
        ) == Some("1"@)),
{
}

/// A stage run programs a write only when it is allowed, and only right after the
/// image verified (for the first write) or after the previous write read back as
/// written; it finishes successfully only after the last write read back as written
/// (or at once when there is none).
pub proof fn law_stage_programs_only_after_every_check(
    writes: Seq<Write>,
    phase: StagePhase,
    event: StageEventView,
)
    requires
        expects(phase, event),
        phase matches StagePhase::Programming(i) ==> i < writes.len(),
        phase matches StagePhase::Checking(i) ==> i < writes.len(),
    ensures
        spec_stage_next(writes, phase, event).1 matches StageActionView::Program(w) ==> exists|i: int|
            0 <= i < writes.len() && #[trigger] writes[i] == w && spec_write_allowed(w) && ((i == 0
                && phase == StagePhase::Verifying && verified_ok(event)) || (i > 0 && phase
                == StagePhase::Checking((i - 1) as usize) && read_back_as(event, writes[i - 1].value))),
        finished_ok(spec_stage_next(writes, phase, event).1) ==> (writes.len() == 0 && phase
            == StagePhase::Verifying && verified_ok(event)) || (writes.len() > 0 && phase
            == StagePhase::Checking((writes.len() - 1) as usize) && read_back_as(
            event,
            writes[writes.len() - 1].value,
        )),
{
    match (phase, event) {
        (StagePhase::Verifying, StageEventView::Verified(Ok(()))) => {
            if writes.len() > 0 && spec_write_allowed(writes[0]) {
                assert(writes[0] == writes[0]);
            }
        },
        (StagePhase::Checking(i), StageEventView::ReadBack(Ok(v))) => {
            let j = i + 1;
            if v == writes[i as int].value && j < writes.len() && spec_write_allowed(writes[j]) {
                assert(((j - 1) as usize) == i);
                assert(writes[j] == writes[j]);
            }
            if v == writes[i as int].value && j >= writes.len() {
                assert(i == writes.len() - 1);
            }
        },
        _ => {},
    }
}

/// The OTP writes that a stage may make: ECC words in the key rows `0x80..0xC0`, and
/// raw writes to the critical, flag and lock rows.
pub open spec fn spec_write_allowed(w: Write) -> bool {
    (w.ecc && 0x80 <= w.row < 0xc0) || (!w.ecc && ((0x40 <= w.row < 0x48) || (0x4b <= w.row < 0x4e)
        || w.row == 0xf83 || w.row == 0xf85))
}

/// Whether a planned write may be made (see [`spec_write_allowed`]).
pub fn write_allowed(w: &Write) -> (r: bool)
    ensures
        r == spec_write_allowed(*w),
{
    (w.ecc && 0x80 <= w.row && w.row < 0xc0) || (!w.ecc && ((0x40 <= w.row && w.row < 0x48) || (0x4b
        <= w.row && w.row < 0x4e) || w.row == 0xf83 || w.row == 0xf85))
}

/// The value that the raw OTP row `row` holds in the state `s` (for the critical,
/// flag and lock rows that stages write).
pub open spec fn state_row_value(s: State, row: u16) -> u32 {
    if 0x40 <= row < 0x48 {
        s.critical@[row - 0x40]
    } else if 0x4b <= row < 0x4e {
        s.flags@[row - 0x4b]
    } else if row == 0xf83 {
        s.locks@[0]
    } else {
        s.locks@[1]
    }
}

/// `w` sets `bits` in one of the first `n` rows of `rows`, which hold `olds`, and
/// the row lacked one of them.
pub open spec fn sets_bits_in(w: Write, rows: Seq<u16>, olds: Seq<u32>, bits: u32, n: nat) -> bool {
    exists|j: int|
        0 <= j < n && olds[j] | bits != olds[j] && w == (Write {
            row: rows[j],
            value: olds[j] | bits,
            ecc: false,
        })
}

proof fn lemma_raw_writes_shape(rows: Seq<u16>, olds: Seq<u32>, bits: u32, n: nat)
    ensures
        forall|k: int|
            0 <= k < raw_writes(rows, olds, bits, n).len() ==> sets_bits_in(
                #[trigger] raw_writes(rows, olds, bits, n)[k],
                rows,
                olds,
                bits,
                n,
            ),
    decreases n,
{
    if n > 0 {
        lemma_raw_writes_shape(rows, olds, bits, (n - 1) as nat);
        let a = raw_writes(rows, olds, bits, (n - 1) as nat);
        let b = raw_write(rows[n - 1], olds[n - 1], bits);
        let ws = raw_writes(rows, olds, bits, n);
        assert forall|k: int| 0 <= k < ws.len() implies sets_bits_in(
            #[trigger] ws[k],
            rows,
            olds,
            bits,
            n,
        ) by {
            if k < a.len() {
                assert(ws[k] == a[k]);
                let j = choose|j: int|
                    0 <= j < n - 1 && olds[j] | bits != olds[j] && a[k] == (Write {
                        row: rows[j],
                        value: olds[j] | bits,
                        ecc: false,
                    });
                assert(0 <= j < n);
            } else {
                assert(ws[k] == b[k - a.len()]);
                assert(ws[k] == (Write { row: rows[n - 1], value: olds[n - 1] | bits, ecc: false }));
            }
        }
    }
}

proof fn lemma_lock_page_writes_shape(olds: Seq<u32>, n: nat)
    requires
        n <= 2,
    ensures
        lock_page_writes(olds, n) matches Ok(ws) ==> forall|k: int|
            0 <= k < ws.len() ==> sets_bits_in(
                #[trigger] ws[k],
                lock_row_numbers(),
                olds,
                0x151515,
                n,
            ),
    decreases n,
{
    if n > 0 {
        lemma_lock_page_writes_shape(olds, (n - 1) as nat);
        if let Ok(ws) = lock_page_writes(olds, n) {
            let a = lock_page_writes(olds, (n - 1) as nat)->Ok_0;
            let b = raw_write(lock_row_numbers()[n - 1], olds[n - 1], 0x151515);
            assert forall|k: int| 0 <= k < ws.len() implies sets_bits_in(
                #[trigger] ws[k],
                lock_row_numbers(),
                olds,
                0x151515,
                n,
            ) by {
                if k < a.len() {
                    assert(ws[k] == a[k]);
                    let j = choose|j: int|
                        0 <= j < n - 1 && olds[j] | 0x151515 != olds[j] && a[k] == (Write {
                            row: lock_row_numbers()[j],
                            value: olds[j] | 0x151515,
                            ecc: false,
                        });
                    assert(0 <= j < n);
                } else {
                    assert(ws[k] == b[k - a.len()]);
                }
            }
        }
    }
}

/// `w` is the ECC write of the non-zero word `i < n` of key `bytes` into key slot
/// `slot`, to a row that read as empty.
pub open spec fn fills_key_row(w: Write, slot: u8, bytes: Seq<u8>, rd: OtpReader, n: nat) -> bool {
    exists|i: int|
        0 <= i < n && key_word(bytes, i) != 0 && rd(key_row(slot, i), false) == Ok::<u32, String>(0)
            && w == (Write { row: key_row(slot, i), value: key_word(bytes, i), ecc: true })
}

proof fn lemma_load_key_rows_shape(slot: u8, bytes: Seq<u8>, rd: OtpReader, n: nat)
    ensures
        load_key_rows(slot, bytes, rd, n).0 matches Ok(ws) ==> forall|k: int|
            0 <= k < ws.len() ==> fills_key_row(#[trigger] ws[k], slot, bytes, rd, n),
    decreases n,
{
    if n > 0 {
        lemma_load_key_rows_shape(slot, bytes, rd, (n - 1) as nat);
        if let Ok(ws) = load_key_rows(slot, bytes, rd, n).0 {
            let a = load_key_rows(slot, bytes, rd, (n - 1) as nat).0->Ok_0;
            assert forall|k: int| 0 <= k < ws.len() implies fills_key_row(
                #[trigger] ws[k],
                slot,
                bytes,
                rd,
                n,
            ) by {
                if k < a.len() {
                    assert(ws[k] == a[k]);
                    let i = choose|i: int|
                        0 <= i < n - 1 && key_word(bytes, i) != 0 && rd(key_row(slot, i), false)
                            == Ok::<u32, String>(0) && a[k] == (Write {
                            row: key_row(slot, i),
                            value: key_word(bytes, i),
                            ecc: true,
                        });
                    assert(0 <= i < n);
                } else {
                    assert(ws[k] == (Write {
                        row: key_row(slot, n - 1),
                        value: key_word(bytes, n - 1),
                        ecc: true,
                    }));
                }
            }
        }
    }
}

proof fn lemma_or_keeps(old: u32, bits: u32)
    ensures
        (old | bits) & old == old,
        old <= 0xffffff && bits <= 0xffffff ==> old | bits <= 0xffffff,
{
    assert((old | bits) & old == old) by (bit_vector);
    assert(old <= 0xffffff && bits <= 0xffffff ==> old | bits <= 0xffffff) by (bit_vector);
}

proof fn lemma_stage_bits_fit(slot: u8, flags: u32)
    requires
        slot <= 3,
    ensures
        1u32 << (slot as u32) <= 0xffffff,
        (15 ^ trusted_mask(flags)) << 8 <= 0xffffff,
{
    let sl = slot as u32;
    assert(sl <= 3 ==> 1u32 << sl <= 0xffffff) by (bit_vector);
    assert((15 ^ ((flags & 15) & !((flags >> 8) & 15))) << 8 <= 0xffffff) by (bit_vector);
}

/// The rows a stage writes raw hold values of 24 bits, as read from OTP.
pub open spec fn raw_rows_fit(s: State) -> bool {
    &&& forall|i: int| 0 <= i < s.critical@.len() ==> #[trigger] s.critical@[i] <= 0xffffff
    &&& forall|i: int| 0 <= i < s.flags@.len() ==> #[trigger] s.flags@[i] <= 0xffffff
    &&& forall|i: int| 0 <= i < s.locks@.len() ==> #[trigger] s.locks@[i] <= 0xffffff
}

/// A planned write that passes the execution gate and only adds bits to the OTP
/// state `s` as read through `rd`: a key word is a non-zero 16-bit value for a row
/// that read as empty; a raw write keeps its row's bits, adds at least one, and
/// stays within 24 bits when the row did.
pub open spec fn adds_allowed_bits(s: State, rd: OtpReader, w: Write) -> bool {
    &&& spec_write_allowed(w)
    &&& w.ecc ==> rd(w.row, false) == Ok::<u32, String>(0) && 0 < w.value <= 0xffff
    &&& !w.ecc ==> w.value & state_row_value(s, w.row) == state_row_value(s, w.row)
    &&& !w.ecc ==> w.value != state_row_value(s, w.row)
    &&& !w.ecc && raw_rows_fit(s) ==> w.value <= 0xffffff
}

proof fn lemma_raw_writes_add_bits(s: State, rd: OtpReader, rows: Seq<u16>, olds: Seq<u32>, bits: u32, n: nat)
    requires
        bits <= 0xffffff,
        n <= olds.len(),
        raw_rows_fit(s) ==> forall|j: int| 0 <= j < olds.len() ==> #[trigger] olds[j] <= 0xffffff,
        forall|j: int|
            0 <= j < n ==> spec_write_allowed(Write { row: rows[j], value: 0, ecc: false })
                && state_row_value(s, #[trigger] rows[j]) == olds[j],
    ensures
        forall|k: int|
            0 <= k < raw_writes(rows, olds, bits, n).len() ==> adds_allowed_bits(
                s,
                rd,
                #[trigger] raw_writes(rows, olds, bits, n)[k],
            ),
{
    lemma_raw_writes_shape(rows, olds, bits, n);
    let ws = raw_writes(rows, olds, bits, n);
    assert forall|k: int| 0 <= k < ws.len() implies adds_allowed_bits(s, rd, #[trigger] ws[k]) by {
        assert(sets_bits_in(ws[k], rows, olds, bits, n));
        let j = choose|j: int|
            0 <= j < n && olds[j] | bits != olds[j] && ws[k] == (Write {
                row: rows[j],
                value: olds[j] | bits,
                ecc: false,
            });
        assert(state_row_value(s, rows[j]) == olds[j]);
        lemma_or_keeps(olds[j], bits);
    }
}

proof fn lemma_concat_adds_bits(s: State, rd: OtpReader, a: Seq<Write>, b: Seq<Write>)
    requires
        forall|k: int| 0 <= k < a.len() ==> adds_allowed_bits(s, rd, #[trigger] a[k]),
        forall|k: int| 0 <= k < b.len() ==> adds_allowed_bits(s, rd, #[trigger] b[k]),
    ensures
        forall|k: int| 0 <= k < (a + b).len() ==> adds_allowed_bits(s, rd, #[trigger] (a + b)[k]),
{
    assert forall|k: int| 0 <= k < (a + b).len() implies adds_allowed_bits(s, rd, #[trigger] (a + b)[k]) by {
        if k < a.len() {
            assert((a + b)[k] == a[k]);
        } else {
            assert((a + b)[k] == b[k - a.len()]);
        }
    }
}

/// Each planned OTP write is one that a stage may make (see [`spec_write_allowed`]),
/// targets a page that BOOTSEL can still write, and only adds bits (see
/// [`adds_allowed_bits`]): a key word is a non-zero 16-bit value for a row that read
/// as empty, and a raw write keeps every bit its row holds, adds at least one, and
/// stays within the 24 bits of a raw row.
pub proof fn law_plan_writes_only_add_allowed_bits(
    s: State,
    action: Seq<char>,
    fp: Seq<char>,
    fp_bytes: Seq<u8>,
    slot: u8,
    rd: OtpReader,
)
    ensures
        spec_plan(s, action, fp, fp_bytes, slot, rd).0 matches Ok(ws) ==> forall|k: int|
            0 <= k < ws.len() ==> adds_allowed_bits(s, rd, #[trigger] ws[k]) && !write_locked(
                s.locks@,
                ws[k],
            ),
{
    reveal_strlit("load-key");
    reveal_strlit("harden");
    reveal_strlit("enable");
    reveal_strlit("lock");
    if let Ok(ws) = spec_plan(s, action, fp, fp_bytes, slot, rd).0 {
        let bytes = hex_decoded(fp_bytes)->0;
        let voted = spec_vote(s.flags@, 2);
        let trusted = trusted_mask(voted);
        let crit = s.critical@;
        let flags = s.flags@;
        let nc = zip_len(8, crit.len());
        let nf = zip_len(3, flags.len());
        let nl = zip_len(2, s.locks@.len());
        assert(slot <= 3);
        lemma_stage_bits_fit(slot, voted);
        assert(staged_writes(s, action, fp, bytes, slot, rd).0 == Ok::<Seq<Write>, Seq<char>>(ws));
        assert forall|j: int| 0 <= j < nc implies spec_write_allowed(
            Write { row: crit_row_numbers()[j], value: 0, ecc: false },
        ) && state_row_value(s, #[trigger] crit_row_numbers()[j]) == crit[j] by {}
        assert forall|j: int| 0 <= j < nf implies spec_write_allowed(
            Write { row: flag_row_numbers()[j], value: 0, ecc: false },
        ) && state_row_value(s, #[trigger] flag_row_numbers()[j]) == flags[j] by {}
        assert forall|j: int| 0 <= j < nl implies spec_write_allowed(
            Write { row: lock_row_numbers()[j], value: 0, ecc: false },
        ) && state_row_value(s, #[trigger] lock_row_numbers()[j]) == s.locks@[j] by {}
        lemma_raw_writes_add_bits(s, rd, crit_row_numbers(), crit, 0x74, nc);
        lemma_raw_writes_add_bits(s, rd, crit_row_numbers(), crit, 1, nc);
        lemma_raw_writes_add_bits(s, rd, flag_row_numbers(), flags, 1u32 << (slot as u32), nf);
        lemma_raw_writes_add_bits(s, rd, flag_row_numbers(), flags, (15 ^ trusted) << 8, nf);
        if action == "load-key"@ {
            lemma_load_key_rows_shape(slot, bytes, rd, 16);
            let lk = load_key_rows(slot, bytes, rd, 16).0->Ok_0;
            assert forall|k: int| 0 <= k < lk.len() implies adds_allowed_bits(s, rd, #[trigger] lk[k]) by {
                assert(fills_key_row(lk[k], slot, bytes, rd, 16));
                let i = choose|i: int|
                    0 <= i < 16 && key_word(bytes, i) != 0 && rd(key_row(slot, i), false) == Ok::<
                        u32,
                        String,
                    >(0) && lk[k] == (Write {
                        row: key_row(slot, i),
                        value: key_word(bytes, i),
                        ecc: true,
                    });
                assert(0x80 <= key_row(slot, i) < 0xc0);
                assert(bytes[2 * i] + 256 * bytes[2 * i + 1] <= 0xffff);
            }
            lemma_concat_adds_bits(
                s,
                rd,
                lk,
                raw_writes(flag_row_numbers(), flags, 1u32 << (slot as u32), nf),
            );
        } else if action == "lock"@ {
            lemma_lock_page_writes_shape(s.locks@, nl);
            assert("lock"@.len() == 4 && "harden"@.len() == 6 && "enable"@.len() == 6);
            assert(lock_page_writes(s.locks@, nl) is Ok);
            let lw = lock_page_writes(s.locks@, nl)->Ok_0;
            assert forall|k: int| 0 <= k < lw.len() implies adds_allowed_bits(s, rd, #[trigger] lw[k]) by {
                assert(sets_bits_in(lw[k], lock_row_numbers(), s.locks@, 0x151515, nl));
                let j = choose|j: int|
                    0 <= j < nl && s.locks@[j] | 0x151515 != s.locks@[j] && lw[k] == (Write {
                        row: lock_row_numbers()[j],
                        value: s.locks@[j] | 0x151515,
                        ecc: false,
                    });
                assert(state_row_value(s, lock_row_numbers()[j]) == s.locks@[j]);
                lemma_or_keeps(s.locks@[j], 0x151515);
            }
            lemma_concat_adds_bits(
                s,
                rd,
                raw_writes(flag_row_numbers(), flags, (15 ^ trusted) << 8, nf),
                lw,
            );
        }
    }
}

/// The slots that match hold the key and are trusted.
proof fn lemma_matching_slots_hold_key(fps: Seq<Option<String>>, fp: Seq<char>, trusted: u32, n: nat)
    ensures
        forall|k: int|
            0 <= k < matching_slots(fps, fp, trusted, n).len() ==> {
                let i = #[trigger] matching_slots(fps, fp, trusted, n)[k];
                &&& trusted & (1u32 << i) != 0
                &&& fps[i as int] is Some
                &&& fps[i as int]->0@ == fp
            },
    decreases n,
{
    if n > 0 {
        lemma_matching_slots_hold_key(fps, fp, trusted, (n - 1) as nat);
        let rest = matching_slots(fps, fp, trusted, (n - 1) as nat);
        let whole = matching_slots(fps, fp, trusted, n);
        assert forall|k: int| 0 <= k < whole.len() implies {
            let i = #[trigger] whole[k];
            &&& trusted & (1u32 << i) != 0
            &&& fps[i as int] is Some
            &&& fps[i as int]->0@ == fp
        } by {
            if k < rest.len() {
                assert(whole[k] == rest[k]);
            }
        }
    }
}

/// A stage is planned only from the state it builds on: enabling Secure Boot needs
/// every critical row hardened (bits `0x74`) and the matched slot's valid flag in
/// every flag row; locking needs every critical row hardened with Secure Boot on
/// (bits `0x75`) and the matched slot as the only trusted one; registering a key
/// needs the slot not revoked in any flag row; and every stage but key registration
/// needs exactly one trusted slot holding the image's key.
pub proof fn law_plan_builds_on_the_previous_stage(
    s: State,
    action: Seq<char>,
    fp: Seq<char>,
    fp_bytes: Seq<u8>,
    slot: u8,
    rd: OtpReader,
)
    ensures
        ({
            let ok = spec_plan(s, action, fp, fp_bytes, slot, rd).0 is Ok;
            let trusted = trusted_mask(spec_vote(s.flags@, 2));
            let m = matching_slots(s.fps@, fp, trusted, 4);
            &&& ok && action != "load-key"@ ==> m.len() == 1 && trusted & (1u32 << m[0]) != 0
            &&& ok && action == "enable"@ ==> (forall|k: int|
                0 <= k < s.critical@.len() ==> #[trigger] s.critical@[k] & 0x74 == 0x74) && (forall|
                k: int,
            | 0 <= k < s.flags@.len() ==> #[trigger] s.flags@[k] & (1u32 << m[0]) != 0)
            &&& ok && action == "lock"@ ==> (forall|k: int|
                0 <= k < s.critical@.len() ==> #[trigger] s.critical@[k] & 0x75 == 0x75) && trusted
                == 1u32 << m[0]
            &&& ok && action == "load-key"@ ==> forall|k: int|
                0 <= k < s.flags@.len() ==> #[trigger] s.flags@[k] & (1u32 << ((slot + 8) as u32))
                    == 0
        }),
{
    reveal_strlit("load-key");
    reveal_strlit("harden");
    reveal_strlit("enable");
    reveal_strlit("lock");
    assert("lock"@.len() == 4 && "harden"@.len() == 6 && "enable"@.len() == 6 && "load-key"@.len()
        == 8);
    assert("harden"@[0] != "enable"@[0]);
    let trusted = trusted_mask(spec_vote(s.flags@, 2));
    let fps = s.fps@;
    crate::hal::firmware::security::lemma_matching_slots_bound(fps, fp, trusted, 4);
    lemma_matching_slots_hold_key(fps, fp, trusted, 4);
}

/// The bits stage `action` sets in the raw row `row`: hardening sets `0x74` in the
/// critical rows 0x40 to 0x47 and enabling sets bit 0 there; key registration sets
/// the slot's valid bit in the flag rows 0x4B to 0x4D; locking sets the revocation
/// bits of every untrusted slot in the flag rows and the three lock bytes `0x15` in
/// the lock rows 0xF83 and 0xF85. Nothing else is written raw.
pub open spec fn stage_bits(action: Seq<char>, row: u16, trusted: u32, slot: u8) -> Option<u32> {
    if action == "harden"@ && 0x40 <= row < 0x48 {
        Some(0x74)
    } else if action == "enable"@ && 0x40 <= row < 0x48 {
        Some(1)
    } else if action == "load-key"@ && 0x4b <= row < 0x4e {
        Some(1u32 << (slot as u32))
    } else if action == "lock"@ && 0x4b <= row < 0x4e {
        Some((15 ^ trusted) << 8)
    } else if action == "lock"@ && (row == 0xf83 || row == 0xf85) {
        Some(0x151515)
    } else {
        None
    }
}

/// What each planned write holds: a raw write sets exactly its stage's bits in what
/// its row held (see [`stage_bits`]); an ECC write, made only when registering a key,
/// puts word `i` of the key (two bytes, little-endian) into row `i` of the slot; and
/// all key words come before any raw write, so a slot is marked valid only after its
/// key is in place.
pub proof fn law_plan_write_values(
    s: State,
    action: Seq<char>,
    fp: Seq<char>,
    fp_bytes: Seq<u8>,
    slot: u8,
    rd: OtpReader,
)
    ensures
        spec_plan(s, action, fp, fp_bytes, slot, rd).0 matches Ok(ws) ==> forall|k: int|
            0 <= k < ws.len() ==> {
                let w = #[trigger] ws[k];
                &&& forall|j: int| 0 <= j < k && w.ecc ==> #[trigger] ws[j].ecc
                &&& !w.ecc ==> stage_bits(
                    action,
                    w.row,
                    trusted_mask(spec_vote(s.flags@, 2)),
                    slot,
                ) is Some && w.value == state_row_value(s, w.row) | stage_bits(
                    action,
                    w.row,
                    trusted_mask(spec_vote(s.flags@, 2)),
                    slot,
                )->0
                &&& w.ecc ==> action == "load-key"@ && exists|i: int|
                    0 <= i < 16 && w.row == key_row(slot, i) && w.value == key_word(
                        hex_decoded(fp_bytes)->0,
                        i,
                    )
            },
{
    reveal_strlit("load-key");
    reveal_strlit("harden");
    reveal_strlit("enable");
    reveal_strlit("lock");
    assert("lock"@.len() == 4 && "harden"@.len() == 6 && "enable"@.len() == 6 && "load-key"@.len()
        == 8);
    assert("harden"@[0] != "enable"@[0]);
    if let Ok(ws) = spec_plan(s, action, fp, fp_bytes, slot, rd).0 {
        let bytes = hex_decoded(fp_bytes)->0;
        let trusted = trusted_mask(spec_vote(s.flags@, 2));
        let crit = s.critical@;
        let flags = s.flags@;
        let nc = zip_len(8, crit.len());
        let nf = zip_len(3, flags.len());
        let nl = zip_len(2, s.locks@.len());
        assert(staged_writes(s, action, fp, bytes, slot, rd).0 == Ok::<Seq<Write>, Seq<char>>(ws));
        let good = |k: int|
            {
                let w = ws[k];
                &&& forall|j: int| 0 <= j < k && w.ecc ==> #[trigger] ws[j].ecc
                &&& !w.ecc ==> stage_bits(action, w.row, trusted, slot) is Some && w.value
                    == state_row_value(s, w.row) | stage_bits(action, w.row, trusted, slot)->0
                &&& w.ecc ==> action == "load-key"@ && exists|i: int|
                    0 <= i < 16 && w.row == key_row(slot, i) && w.value == key_word(bytes, i)
            };
        let crit_bits: u32 = if action == "harden"@ {
            0x74
        } else {
            1
        };
        let flag_bits: u32 = if action == "load-key"@ {
            1u32 << (slot as u32)
        } else {
            (15 ^ trusted) << 8
        };
        lemma_raw_writes_shape(crit_row_numbers(), crit, crit_bits, nc);
        lemma_raw_writes_shape(flag_row_numbers(), flags, flag_bits, nf);
        let cw = raw_writes(crit_row_numbers(), crit, crit_bits, nc);
        let fw = raw_writes(flag_row_numbers(), flags, flag_bits, nf);
        if action == "harden"@ || action == "enable"@ {
            assert forall|k: int| 0 <= k < ws.len() implies #[trigger] good(k) by {
                assert(ws == cw);
                assert(sets_bits_in(cw[k], crit_row_numbers(), crit, crit_bits, nc));
                let j = choose|j: int|
                    0 <= j < nc && crit[j] | crit_bits != crit[j] && cw[k] == (Write {
                        row: crit_row_numbers()[j],
                        value: crit[j] | crit_bits,
                        ecc: false,
                    });
                assert(state_row_value(s, crit_row_numbers()[j]) == crit[j]);
            }
        } else if action == "load-key"@ {
            lemma_load_key_rows_shape(slot, bytes, rd, 16);
            let lk = load_key_rows(slot, bytes, rd, 16).0->Ok_0;
            assert(ws == lk + fw);
            assert forall|k: int| 0 <= k < ws.len() implies #[trigger] good(k) by {
                if k < lk.len() {
                    assert(ws[k] == lk[k]);
                    assert(fills_key_row(lk[k], slot, bytes, rd, 16));
                } else {
                    assert(ws[k] == fw[k - lk.len()]);
                    assert(sets_bits_in(fw[k - lk.len()], flag_row_numbers(), flags, flag_bits, nf));
                    let j = choose|j: int|
                        0 <= j < nf && flags[j] | flag_bits != flags[j] && fw[k - lk.len()] == (Write {
                            row: flag_row_numbers()[j],
                            value: flags[j] | flag_bits,
                            ecc: false,
                        });
                    assert(state_row_value(s, flag_row_numbers()[j]) == flags[j]);
                }
            }
        } else {
            assert(action == "lock"@);
            lemma_lock_page_writes_shape(s.locks@, nl);
            assert(lock_page_writes(s.locks@, nl) is Ok);
            let lw = lock_page_writes(s.locks@, nl)->Ok_0;
            assert(ws == fw + lw);
            assert forall|k: int| 0 <= k < ws.len() implies #[trigger] good(k) by {
                if k < fw.len() {
                    assert(ws[k] == fw[k]);
                    assert(sets_bits_in(fw[k], flag_row_numbers(), flags, flag_bits, nf));
                    let j = choose|j: int|
                        0 <= j < nf && flags[j] | flag_bits != flags[j] && fw[k] == (Write {
                            row: flag_row_numbers()[j],
                            value: flags[j] | flag_bits,
                            ecc: false,
                        });
                    assert(state_row_value(s, flag_row_numbers()[j]) == flags[j]);
                } else {
                    assert(ws[k] == lw[k - fw.len()]);
                    assert(sets_bits_in(lw[k - fw.len()], lock_row_numbers(), s.locks@, 0x151515, nl));
                    let j = choose|j: int|
                        0 <= j < nl && s.locks@[j] | 0x151515 != s.locks@[j] && lw[k - fw.len()]
                            == (Write {
                            row: lock_row_numbers()[j],
                            value: s.locks@[j] | 0x151515,
                            ecc: false,
                        });
                    assert(state_row_value(s, lock_row_numbers()[j]) == s.locks@[j]);
                }
            }
        }
    }
}

/// `plan` refuses a key slot above 3, a fingerprint that is not 32 bytes of
/// hexadecimal, an all-zero key, boot pages with an access-key policy, an unknown
/// stage, a stage other than key registration unless exactly one trusted slot holds
/// the image's key, and locking while another slot is still trusted.
pub proof fn law_plan_refusals(
    s: State,
    action: Seq<char>,
    fp: Seq<char>,
    fp_bytes: Seq<u8>,
    slot: u8,
    rd: OtpReader,
)
    ensures
        ({
            let bytes = hex_decoded(fp_bytes);
            let trusted = trusted_mask(spec_vote(s.flags@, 2));
            let m = matching_slots(s.fps@, fp, trusted, 4);
            ||| slot > 3
            ||| !(bytes matches Some(b) && b.len() == 32)
            ||| (bytes matches Some(b) && forall|i: int| 0 <= i < b.len() ==> #[trigger] b[i] == 0)
            ||| (exists|k: int| 0 <= k < s.key_locks@.len() && #[trigger] s.key_locks@[k] != 0)
            ||| !(action == "load-key"@ || action == "harden"@ || action == "enable"@ || action
                == "lock"@)
            ||| (action != "load-key"@ && m.len() != 1)
            ||| (action == "lock"@ && m.len() == 1 && trusted != 1u32 << m[0])
        }) ==> spec_plan(s, action, fp, fp_bytes, slot, rd).0 is Err,
{
    reveal_strlit("load-key");
    reveal_strlit("harden");
    reveal_strlit("enable");
    reveal_strlit("lock");
    assert("lock"@.len() == 4 && "harden"@.len() == 6 && "enable"@.len() == 6 && "load-key"@.len()
        == 8);
    assert("harden"@[0] != "enable"@[0]);
}

} // verus!
