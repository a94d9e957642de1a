//! Talking to a board: what its smart-card answers mean, which board is meant, and
//! the steps that bring it into update mode.
use vstd::prelude::*;
use vstd::string::{StrSliceExecFns, StringSliceAdditionalSpecFns};
use crate::codec::{hex_encode_upper, hex_upper};
use crate::text::{chars_of, contains, str_contains, str_eq, trim, trim_range};

verus! {

/// A reply that ends with the status word `90 00`.
pub open spec fn ends_ok(data: Seq<u8>) -> bool {
    data.len() >= 2 && data[data.len() - 2] == 0x90 && data[data.len() - 1] == 0
}

/// The serial that a board in normal mode reports in its answer to the applet
/// selection: fourteen bytes ending in `90 00`, a zero second byte, at least eight
/// in the third, and the serial as bytes four to twelve.
pub open spec fn spec_card_serial(data: Seq<u8>) -> Option<Seq<char>> {
    if data.len() == 14 && ends_ok(data) && data[1] == 0 && data[2] >= 8 {
        Some(hex_upper(data.subrange(4, 12)))
    } else {
        None
    }
}

/// The board serial in `data`, the answer of a reader's card to the applet selection.
pub fn card_serial(data: &[u8]) -> (r: Option<String>)
    ensures
        match r {
            Some(s) => spec_card_serial(data@) == Some(s@),
            None => spec_card_serial(data@) is None,
        },
{
    if data.len() == 14 && data[12] == 0x90 && data[13] == 0 && data[1] == 0 && data[2] >= 8 {
        Some(hex_encode_upper(vstd::slice::slice_subrange(data, 4, 12)))
    } else {
        None
    }
}

/// What a management command's reply means: its data without the status word, or,
/// when the status is not `90 00`, the whole reply in hexadecimal as the refusal.
pub open spec fn spec_management_reply(data: Seq<u8>) -> Result<Seq<u8>, Seq<char>> {
    if ends_ok(data) {
        Ok(data.subrange(0, data.len() - 2))
    } else {
        Err("Device declined the operation ("@ + hex_upper(data) + ")"@)
    }
}

/// The meaning of the reply `data` to a management command.
pub fn management_reply(data: &[u8]) -> (r: Result<Vec<u8>, String>)
    ensures
        match r {
            Ok(v) => spec_management_reply(data@) == Ok::<Seq<u8>, Seq<char>>(v@),
            Err(m) => spec_management_reply(data@) == Err::<Seq<u8>, Seq<char>>(m@),
        },
{
    let n = data.len();
    if n >= 2 && data[n - 2] == 0x90 && data[n - 1] == 0 {
        let mut v: Vec<u8> = Vec::new();
        let mut i: usize = 0;
        while i < n - 2
            invariant
                n == data@.len(),
                n >= 2,
                i <= n - 2,
                v@ == data@.subrange(0, i as int),
            decreases n - 2 - i,
        {
            v.push(data[i]);
            i = i + 1;
            assert(v@ =~= data@.subrange(0, i as int));
        }
        Ok(v)
    } else {
        let mut m = "Device declined the operation (".to_owned();
        let hex = hex_encode_upper(data);
        m.append(hex.as_str());
        m.append(")");
        Err(m)
    }
}

/// A command that restarts the board (`80 1F ..`): the board may vanish from USB
/// before it answers.
pub open spec fn spec_is_transition(command: Seq<u8>) -> bool {
    command.len() >= 2 && command[0] == 0x80 && command[1] == 0x1f
}

/// Whether `command` restarts the board.
pub fn is_transition(command: &[u8]) -> (r: bool)
    ensures
        r == spec_is_transition(command@),
{
    command.len() >= 2 && command[0] == 0x80 && command[1] == 0x1f
}

/// What a command that got no answer (`message` says why) gives: nothing for a
/// restart, which may lose the connection on purpose; the failure otherwise.
pub fn unanswered(command: &[u8], message: String) -> (r: Result<Vec<u8>, String>)
    ensures
        spec_is_transition(command@) ==> (r matches Ok(v) && v@.len() == 0),
        !spec_is_transition(command@) ==> r == Err::<Vec<u8>, String>(message),
{
    if is_transition(command) {
        Ok(Vec::new())
    } else {
        Err(message)
    }
}

/// The indices of `serials` that equal `serial`.
pub open spec fn matching_cards(serials: Seq<Seq<char>>, serial: Seq<char>) -> Set<int> {
    Set::new(|i: int| 0 <= i < serials.len() && serials[i] == serial)
}

/// Picks the one connected board whose serial is `serial`: its index in `serials`,
/// or an error when none or more than one has it.
pub fn selected_card(serials: &Vec<String>, serial: &str) -> (r: Result<usize, String>)
    ensures
        match r {
            Ok(i) => matching_cards(serials@.map_values(|s: String| s@), serial@) == set![i as int],
            Err(m) => m@ == "Connect exactly the selected board in normal mode."@ && !(exists|i: int|
                matching_cards(serials@.map_values(|s: String| s@), serial@) == set![i]),
        },
{
    let ghost sv = serials@.map_values(|s: String| s@);
    let mut found: Option<usize> = None;
    let mut twice = false;
    let mut k: usize = 0;
    while k < serials.len()
        invariant
            k <= serials@.len(),
            sv == serials@.map_values(|s: String| s@),
            !twice ==> match found {
                Some(i) => i < k && matching_cards(sv, serial@).filter(|j: int| j < k) == set![i as int],
                None => matching_cards(sv, serial@).filter(|j: int| j < k) == Set::<int>::empty(),
            },
            twice ==> exists|a: int, b: int|
                a != b && #[trigger] matching_cards(sv, serial@).contains(a) && #[trigger] matching_cards(
                    sv,
                    serial@,
                ).contains(b),
        decreases serials@.len() - k,
    {
        let same = str_eq(serials[k].as_str(), serial);
        proof {
            assert(sv[k as int] == serials@[k as int]@);
            let before = matching_cards(sv, serial@).filter(|j: int| j < k);
            let after = matching_cards(sv, serial@).filter(|j: int| j < k + 1);
            if same {
                assert(after =~= before.insert(k as int));
            } else {
                assert(after =~= before);
            }
        }
        if same {
            match found {
                Some(i) => {
                    if !twice {
                        assert(matching_cards(sv, serial@).filter(|j: int| j < k).contains(i as int));
                        assert(matching_cards(sv, serial@).contains(k as int));
                    }
                    twice = true;
                },
                None => {
                    found = Some(k);
                },
            }
        }
        k = k + 1;
    }
    proof {
        assert(matching_cards(sv, serial@).filter(|j: int| j < k) =~= matching_cards(sv, serial@));
    }
    if twice {
        proof {
            let (a, b) = choose|a: int, b: int|
                a != b && #[trigger] matching_cards(sv, serial@).contains(a) && #[trigger] matching_cards(
                    sv,
                    serial@,
                ).contains(b);
            assert forall|i: int| matching_cards(sv, serial@) != set![i] by {
                if matching_cards(sv, serial@) == set![i] {
                    assert(set![i].contains(a));
                    assert(set![i].contains(b));
                }
            }
        }
        return Err("Connect exactly the selected board in normal mode.".to_owned());
    }
    match found {
        Some(i) => Ok(i),
        None => {
            proof {
                assert forall|i: int| matching_cards(sv, serial@) != set![i] by {
                    if matching_cards(sv, serial@) == set![i] {
                        assert(set![i].contains(i));
                    }
                }
            }
            Err("Connect exactly the selected board in normal mode.".to_owned())
        },
    }
}

/// What to do next while bringing the selected board into update mode.
pub enum UpdateStep {
    /// Stop with this outcome.
    Finish(Result<(), String>),
    /// Ask the board, still in normal mode, to restart into update mode.
    RequestUpdate,
    /// Wait a moment and probe again.
    Wait,
}

/// An [`UpdateStep`] as plain values.
pub enum UpdateStepView {
    Finish(Result<(), Seq<char>>),
    RequestUpdate,
    Wait,
}

impl View for UpdateStep {
    type V = UpdateStepView;

    open spec fn view(&self) -> UpdateStepView {
        match self {
            UpdateStep::Finish(Ok(())) => UpdateStepView::Finish(Ok(())),
            UpdateStep::Finish(Err(m)) => UpdateStepView::Finish(Err(m@)),
            UpdateStep::RequestUpdate => UpdateStepView::RequestUpdate,
            UpdateStep::Wait => UpdateStepView::Wait,
        }
    }
}

/// The next step after probing for boards in update mode. `probed` is what the probe
/// found (or why it failed), `requested` whether the restart was already asked for,
/// and `expired` whether the time allowed since then has run out. The board is
/// there when the probe finds it and nothing else; a failed probe ends the attempt.
pub open spec fn spec_update_step(
    serial: Seq<char>,
    probed: Result<Seq<Seq<char>>, Seq<char>>,
    requested: bool,
    expired: bool,
) -> UpdateStepView {
    match probed {
        Err(e) => UpdateStepView::Finish(Err(e)),
        Ok(boards) => if boards == seq![serial] {
            UpdateStepView::Finish(Ok(()))
        } else if !requested {
            UpdateStepView::RequestUpdate
        } else if expired {
            UpdateStepView::Finish(Err("The selected board did not enter update mode."@))
        } else {
            UpdateStepView::Wait
        },
    }
}

/// Decides the next step after a probe for the board `serial` in update mode (see
/// [`spec_update_step`]). The caller probes once before asking for the restart and
/// then again until this says to stop.
pub fn update_step(
    serial: &str,
    probed: Result<Vec<String>, String>,
    requested: bool,
    expired: bool,
) -> (r: UpdateStep)
    ensures
        r@ == spec_update_step(serial@, crate::hal::firmware::boards_view(probed), requested, expired),
{
    match probed {
        Err(e) => UpdateStep::Finish(Err(e)),
        Ok(boards) => {
            let ghost bv = boards@.map_values(|s: String| s@);
            let only = boards.len() == 1 && str_eq(boards[0].as_str(), serial);
            proof {
                if boards@.len() == 1 {
                    assert(bv[0] == boards@[0]@);
                }
                if only {
                    assert(bv =~= seq![serial@]);
                }
                if bv == seq![serial@] {
                    assert(bv.len() == 1);
                    assert(bv[0] == serial@);
                }
            }
            if only {
                UpdateStep::Finish(Ok(()))
            } else if !requested {
                UpdateStep::RequestUpdate
            } else if expired {
                UpdateStep::Finish(Err("The selected board did not enter update mode.".to_owned()))
            } else {
                UpdateStep::Wait
            }
        },
    }
}

/// The message for a refused restart into update mode. For a nuke, a board whose
/// firmware knows no confirmation lights answers `6B00`, `6A86` or `6D00`, and one
/// whose user did not confirm answers `6985`.
pub open spec fn spec_update_request_error(nuke: bool, error: Seq<char>) -> Seq<char> {
    if nuke && (contains(error, "(6B00)"@) || contains(error, "(6A86)"@) || contains(
        error,
        "(6D00)"@,
    )) {
        "The installed firmware does not support Nuke confirmation lights. Update Pico All first."@
    } else if nuke && contains(error, "(6985)"@) {
        "Nuke was not confirmed. Press and release the button during the red breathing prompt, then retry."@
    } else {
        error
    }
}

/// The message for a refused restart into update mode (see
/// [`spec_update_request_error`]).
pub fn update_request_error(nuke: bool, error: String) -> (m: String)
    ensures
        m@ == spec_update_request_error(nuke, error@),
{
    proof {
        reveal_strlit("(6B00)");
        reveal_strlit("(6A86)");
        reveal_strlit("(6D00)");
        reveal_strlit("(6985)");
    }
    if nuke && (str_contains(error.as_str(), "(6B00)") || str_contains(error.as_str(), "(6A86)")
        || str_contains(error.as_str(), "(6D00)")) {
        "The installed firmware does not support Nuke confirmation lights. Update Pico All first.".to_owned()
    } else if nuke && str_contains(error.as_str(), "(6985)") {
        "Nuke was not confirmed. Press and release the button during the red breathing prompt, then retry.".to_owned()
    } else {
        error
    }
}

/// Whether `s` holds nothing but whitespace.
pub fn is_blank(s: &str) -> (r: bool)
    ensures
        r == (trim(s@).len() == 0),
{
    let cs = chars_of(s);
    let (a, b) = trim_range(&cs, 0, cs.len());
    assert(cs@.subrange(0, cs@.len() as int) =~= cs@);
    a == b
}

/// The picotool to run: the one requested, else the configured one, else the one
/// beside this program (`companion`, given only when that file exists), else
/// `picotool` from the search path. Blank choices do not count.
pub open spec fn spec_choose_picotool(
    requested: Seq<char>,
    configured: Option<Seq<char>>,
    companion: Option<Seq<char>>,
) -> Seq<char> {
    if trim(requested).len() != 0 {
        requested
    } else if configured is Some && trim(configured->0).len() != 0 {
        configured->0
    } else if companion is Some {
        companion->0
    } else {
        "picotool"@
    }
}

/// Chooses the picotool to run (see [`spec_choose_picotool`]).
pub fn choose_picotool(requested: &str, configured: Option<&str>, companion: Option<&str>) -> (r:
    String)
    ensures
        r@ == spec_choose_picotool(
            requested@,
            crate::hal::firmware::security::opt_str_view(configured),
            crate::hal::firmware::security::opt_str_view(companion),
        ),
{
    if !is_blank(requested) {
        return requested.to_owned();
    }
    if let Some(c) = configured {
        if !is_blank(c) {
            return c.to_owned();
        }
    }
    match companion {
        Some(p) => p.to_owned(),
        None => "picotool".to_owned(),
    }
}

/// The operations that need no board: reading, inspecting and signing an image, and
/// looking for boards.
pub open spec fn needs_no_board(action: Seq<char>) -> bool {
    action == "image"@ || action == "inspect"@ || action == "sign"@ || action == "scan"@
}

/// Refuses an operation on a board when no valid board serial is given.
pub fn check_target(action: &str, serial: &str) -> (r: Result<(), String>)
    ensures
        r is Ok <==> needs_no_board(action@) || crate::hal::firmware::spec_serial_valid(
            serial.spec_bytes(),
        ),
        r matches Err(m) ==> m@ == "Choose a board or enter its 16-digit serial."@,
{
    if !(str_eq(action, "image") || str_eq(action, "inspect") || str_eq(action, "sign") || str_eq(
        action,
        "scan",
    )) && !crate::hal::firmware::serial_valid(serial) {
        return Err("Choose a board or enter its 16-digit serial.".to_owned());
    }
    Ok(())
}

/// The name of what `action` does, as the log reports it.
pub open spec fn spec_operation_name(action: Seq<char>) -> Seq<char> {
    if action == "image"@ || action == "inspect"@ || action == "check"@ {
        "firmware inspection"@
    } else if action == "sign"@ {
        "firmware signing"@
    } else if action == "flash"@ {
        "firmware update"@
    } else if action == "reboot"@ {
        "device restart"@
    } else if action == "bootsel"@ {
        "update mode"@
    } else {
        action
    }
}

/// The name of what `action` does (see [`spec_operation_name`]).
pub fn operation_name(action: &str) -> (r: String)
    ensures
        r@ == spec_operation_name(action@),
{
    if str_eq(action, "image") || str_eq(action, "inspect") || str_eq(action, "check") {
        "firmware inspection".to_owned()
    } else if str_eq(action, "sign") {
        "firmware signing".to_owned()
    } else if str_eq(action, "flash") {
        "firmware update".to_owned()
    } else if str_eq(action, "reboot") {
        "device restart".to_owned()
    } else if str_eq(action, "bootsel") {
        "update mode".to_owned()
    } else {
        action.to_owned()
    }
}

/// `c` in ASCII upper case (other characters unchanged).
pub open spec fn ascii_upper(c: char) -> char {
    if 'a' <= c <= 'z' {
        ((c as u32) - 32) as char
    } else {
        c
    }
}

/// `str::to_ascii_uppercase`: every ASCII lower-case letter of `s` in upper case,
/// every other character as it is.
#[verifier::external_body]
pub(crate) fn to_ascii_uppercase(s: &str) -> (r: String)
    ensures
        r@ == s@.map_values(|c: char| ascii_upper(c)),
{
    s.to_ascii_uppercase()
}

/// The log line that ends `operation`: its first letter in upper case when it is an
/// ASCII letter, then `" completed"`.
pub open spec fn spec_completed_message(operation: Seq<char>) -> Seq<char> {
    if operation.len() == 0 {
        " completed"@
    } else {
        seq![ascii_upper(operation[0])] + operation.skip(1) + " completed"@
    }
}

/// The log line that ends `operation` (see [`spec_completed_message`]).
pub fn completed_message(operation: &str) -> (m: String)
    ensures
        m@ == spec_completed_message(operation@),
{
    let n = operation.unicode_len();
    if n == 0 {
        return " completed".to_owned();
    }
    let first = to_ascii_uppercase(operation.substring_char(0, 1));
    let mut m = first;
    m.append(operation.substring_char(1, n));
    m.append(" completed");
    assert(operation@.subrange(0, 1).map_values(|c: char| ascii_upper(c)) =~= seq![ascii_upper(
        operation@[0],
    )]);
    assert(operation@.subrange(1, n as int) =~= operation@.skip(1));
    m
}

/// The message for a failed signing run: picotool's own, and for a signature that
/// does not verify, why a PIV key cannot sign RP2350 firmware.
pub open spec fn spec_sign_error(error: Seq<char>) -> Seq<char> {
    if contains(error, "Signature verification failed"@) {
        error + ". RP2350 firmware signing requires a secp256k1 private key; a PIV P-256 key cannot be used."@
    } else {
        error
    }
}

/// The message for a failed signing run (see [`spec_sign_error`]).
pub fn sign_error(error: String) -> (m: String)
    ensures
        m@ == spec_sign_error(error@),
{
    proof {
        reveal_strlit("Signature verification failed");
    }
    if str_contains(error.as_str(), "Signature verification failed") {
        let mut m = error;
        m.append(". RP2350 firmware signing requires a secp256k1 private key; a PIV P-256 key cannot be used.");
        m
    } else {
        error
    }
}

/// `a` sorts before `b` as `str`'s order has it: character by character by code
/// point (UTF-8 byte order is code point order), a proper prefix first.
pub open spec fn str_less(a: Seq<char>, b: Seq<char>) -> bool
    decreases a.len(),
{
    if a.len() == 0 {
        b.len() > 0
    } else if b.len() == 0 {
        false
    } else if a[0] != b[0] {
        a[0] < b[0]
    } else {
        str_less(a.drop_first(), b.drop_first())
    }
}

proof fn lemma_str_less_irreflexive(a: Seq<char>)
    ensures
        !str_less(a, a),
    decreases a.len(),
{
    if a.len() > 0 {
        lemma_str_less_irreflexive(a.drop_first());
    }
}

proof fn lemma_str_less_total(a: Seq<char>, b: Seq<char>)
    ensures
        a != b ==> str_less(a, b) || str_less(b, a),
        !(str_less(a, b) && str_less(b, a)),
    decreases a.len(),
{
    if a.len() > 0 && b.len() > 0 {
        lemma_str_less_total(a.drop_first(), b.drop_first());
        if a[0] == b[0] && a != b {
            assert(a =~= seq![a[0]] + a.drop_first());
            assert(b =~= seq![b[0]] + b.drop_first());
        }
    } else if a.len() == 0 && b.len() == 0 {
        assert(a =~= b);
    }
}

proof fn lemma_str_less_transitive(a: Seq<char>, b: Seq<char>, c: Seq<char>)
    requires
        str_less(a, b),
        str_less(b, c),
    ensures
        str_less(a, c),
    decreases a.len(),
{
    if a.len() > 0 && b.len() > 0 && c.len() > 0 {
        if a[0] == b[0] && b[0] == c[0] {
            lemma_str_less_transitive(a.drop_first(), b.drop_first(), c.drop_first());
        }
    }
}

/// Whether `a` sorts before `b` (see [`str_less`]).
pub fn string_less(a: &str, b: &str) -> (r: bool)
    ensures
        r == str_less(a@, b@),
{
    let ca = chars_of(a);
    let cb = chars_of(b);
    let mut i: usize = 0;
    assert(ca@.skip(0) =~= ca@);
    assert(cb@.skip(0) =~= cb@);
    while i < ca.len() && i < cb.len() && ca[i] == cb[i]
        invariant
            ca@ == a@,
            cb@ == b@,
            i <= ca@.len(),
            i <= cb@.len(),
            str_less(a@, b@) == str_less(ca@.skip(i as int), cb@.skip(i as int)),
        decreases ca@.len() - i,
    {
        assert(ca@.skip(i as int).drop_first() =~= ca@.skip(i as int + 1));
        assert(cb@.skip(i as int).drop_first() =~= cb@.skip(i as int + 1));
        i = i + 1;
    }
    if i == ca.len() {
        i < cb.len()
    } else if i == cb.len() {
        false
    } else {
        ca[i] < cb[i]
    }
}

/// The serials `s` in strictly increasing order, so none twice.
pub open spec fn sorted_unique(s: Seq<Seq<char>>) -> bool {
    forall|i: int, j: int| 0 <= i < j < s.len() ==> str_less(#[trigger] s[i], #[trigger] s[j])
}

/// The serials held by a list of strings.
pub open spec fn serials_of(v: Seq<String>) -> Seq<Seq<char>> {
    v.map_values(|s: String| s@)
}

/// Puts `s` into the sorted list `out` unless it is there already.
fn insert_sorted(out: &mut Vec<String>, s: String)
    requires
        sorted_unique(serials_of(old(out)@)),
    ensures
        sorted_unique(serials_of(final(out)@)),
        forall|x: Seq<char>|
            serials_of(final(out)@).contains(x) <==> (serials_of(old(out)@).contains(x) || x == s@),
{
    let ghost before = serials_of(out@);
    let mut i: usize = 0;
    while i < out.len() && string_less(out[i].as_str(), s.as_str())
        invariant
            i <= out@.len(),
            before == serials_of(out@),
            forall|k: int| 0 <= k < i ==> str_less(#[trigger] before[k], s@),
        decreases out@.len() - i,
    {
        assert(before[i as int] == out@[i as int]@);
        i = i + 1;
    }
    if i < out.len() && str_eq(out[i].as_str(), s.as_str()) {
        proof {
            assert(before[i as int] == s@);
        }
        return;
    }
    proof {
        if i < out@.len() {
            assert(before[i as int] == out@[i as int]@);
            lemma_str_less_total(before[i as int], s@);
        }
    }
    let ghost t = s@;
    out.insert(i, s);
    proof {
        let after = serials_of(out@);
        assert(after =~= before.insert(i as int, t));
        assert forall|p: int, q: int| 0 <= p < q < after.len() implies str_less(
            #[trigger] after[p],
            #[trigger] after[q],
        ) by {
            if q < i {
            } else if q == i {
            } else if p == i {
                if q - 1 > i {
                    lemma_str_less_transitive(t, before[i as int], before[q - 1]);
                }
            } else if p < i {
                lemma_str_less_transitive(before[p], t, before[i as int]);
                if q - 1 > i {
                    lemma_str_less_transitive(before[p], before[i as int], before[q - 1]);
                }
            } else {
            }
        }
        assert forall|x: Seq<char>| after.contains(x) <==> (before.contains(x) || x == t) by {
            if after.contains(x) {
                let k = choose|k: int| 0 <= k < after.len() && after[k] == x;
                if k < i {
                    assert(before[k] == x);
                } else if k > i {
                    assert(before[k - 1] == x);
                }
            }
            if before.contains(x) {
                let k = choose|k: int| 0 <= k < before.len() && before[k] == x;
                if k < i {
                    assert(after[k] == x);
                } else {
                    assert(after[k + 1] == x);
                }
            }
            if x == t {
                assert(after[i as int] == x);
            }
        }
    }
}

/// The boards found in normal and in update mode as one list: sorted as `str` sorts
/// and without repeats.
pub fn merge_boards(normal: Vec<String>, update: Vec<String>) -> (r: Vec<String>)
    ensures
        sorted_unique(serials_of(r@)),
        forall|x: Seq<char>|
            serials_of(r@).contains(x) <==> (serials_of(normal@).contains(x) || serials_of(
                update@,
            ).contains(x)),
{
    let mut out: Vec<String> = Vec::new();
    let ghost nv = serials_of(normal@);
    let ghost uv = serials_of(update@);
    assert(serials_of(out@) =~= Seq::<Seq<char>>::empty());
    let mut k: usize = 0;
    let n = normal.len();
    while k < n
        invariant
            n == nv.len(),
            k <= n,
            normal@.len() == n,
            nv == serials_of(normal@),
            sorted_unique(serials_of(out@)),
            forall|x: Seq<char>| serials_of(out@).contains(x) <==> nv.take(k as int).contains(x),
        decreases n - k,
    {
        let s = normal[k].clone();
        insert_sorted(&mut out, s);
        proof {
            assert(nv[k as int] == normal@[k as int]@);
            let t0 = nv.take(k as int);
            let t1 = nv.take(k as int + 1);
            assert forall|x: Seq<char>| t1.contains(x) <==> (t0.contains(x) || x == nv[k as int]) by {
                if t1.contains(x) {
                    let j = choose|j: int| 0 <= j < t1.len() && t1[j] == x;
                    if j < k {
                        assert(t0[j] == x);
                    }
                }
                if t0.contains(x) {
                    let j = choose|j: int| 0 <= j < t0.len() && t0[j] == x;
                    assert(t1[j] == x);
                }
                if x == nv[k as int] {
                    assert(t1[k as int] == x);
                }
            }
        }
        k = k + 1;
    }
    let m = update.len();
    let mut j: usize = 0;
    assert(nv.take(n as int) =~= nv);
    while j < m
        invariant
            m == uv.len(),
            j <= m,
            update@.len() == m,
            uv == serials_of(update@),
            sorted_unique(serials_of(out@)),
            forall|x: Seq<char>|
                serials_of(out@).contains(x) <==> (nv.contains(x) || uv.take(j as int).contains(x)),
        decreases m - j,
    {
        let s = update[j].clone();
        let ghost prev = serials_of(out@);
        insert_sorted(&mut out, s);
        proof {
            assert(uv[j as int] == update@[j as int]@);
            let t0 = uv.take(j as int);
            let t1 = uv.take(j as int + 1);
            assert forall|x: Seq<char>| t1.contains(x) <==> (t0.contains(x) || x == uv[j as int]) by {
                if t1.contains(x) {
                    let i = choose|i: int| 0 <= i < t1.len() && t1[i] == x;
                    if i < j {
                        assert(t0[i] == x);
                    }
                }
                if t0.contains(x) {
                    let i = choose|i: int| 0 <= i < t0.len() && t0[i] == x;
                    assert(t1[i] == x);
                }
                if x == uv[j as int] {
                    assert(t1[j as int] == x);
                }
            }
            assert forall|x: Seq<char>|
                serials_of(out@).contains(x) <==> (nv.contains(x) || t1.contains(x)) by {
                assert(prev.contains(x) <==> (nv.contains(x) || t0.contains(x)));
            }
        }
        j = j + 1;
    }
    assert(uv.take(m as int) =~= uv);
    assert forall|x: Seq<char>|
        serials_of(out@).contains(x) <==> (nv.contains(x) || uv.contains(x)) by {
        assert(serials_of(out@).contains(x) <==> (nv.contains(x) || uv.take(j as int).contains(x)));
    }
    out
}

/// The restart into update mode is asked for at most once: after it was asked for,
/// no probe leads to asking again.
pub proof fn law_update_requested_at_most_once(
    serial: Seq<char>,
    probed: Result<Seq<Seq<char>>, Seq<char>>,
    expired: bool,
)
    ensures
        spec_update_step(serial, probed, true, expired) != UpdateStepView::RequestUpdate,
{
}

/// While the board is not found in update mode, the restart is asked for first, then
/// the probe waits only until the time allowed runs out, and ends with the error of
/// a board that never came; a failed probe ends the attempt with its own error.
pub proof fn law_update_waits_only_after_asking_and_in_time(
    serial: Seq<char>,
    probed: Result<Seq<Seq<char>>, Seq<char>>,
    requested: bool,
    expired: bool,
)
    ensures
        probed matches Err(e) ==> spec_update_step(serial, probed, requested, expired)
            == UpdateStepView::Finish(Err(e)),
        (spec_update_step(serial, probed, requested, expired) == UpdateStepView::RequestUpdate)
            <==> (probed is Ok && probed != Ok::<Seq<Seq<char>>, Seq<char>>(seq![serial])
            && !requested),
        (spec_update_step(serial, probed, requested, expired) == UpdateStepView::Wait) <==> (
        probed is Ok && probed != Ok::<Seq<Seq<char>>, Seq<char>>(seq![serial]) && requested
            && !expired),
        probed is Ok && probed != Ok::<Seq<Seq<char>>, Seq<char>>(seq![serial]) && requested
            && expired ==> spec_update_step(serial, probed, requested, expired)
            == UpdateStepView::Finish(Err("The selected board did not enter update mode."@)),
{
}

/// Entering update mode succeeds exactly when the probe finds the selected board and
/// no other.
pub proof fn law_update_mode_reached_only_by_the_selected_board(
    serial: Seq<char>,
    probed: Result<Seq<Seq<char>>, Seq<char>>,
    requested: bool,
    expired: bool,
)
    ensures
        (spec_update_step(serial, probed, requested, expired) == UpdateStepView::Finish(Ok(())))
            <==> probed == Ok::<Seq<Seq<char>>, Seq<char>>(seq![serial]),
{
}

} // verus!
