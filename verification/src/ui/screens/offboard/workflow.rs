//! What the firmware screen remembers of the selected image, and which requests may
//! continue after a compatibility check.
use vstd::prelude::*;

use crate::hal::firmware::{
    make_flash_phrase, flash_phrase, opt_review_view, Assessment, AssessmentView, ImageInfo,
    ImageInfoView, Request, Review, ReviewView,
};
use crate::hal::firmware::provision::{spec_check_prepare, spec_confirm_stage};
use crate::hal::firmware::security::StageReviewView;
use crate::text::{str_eq, to_uppercase, uppercase};

verus! {

/// The image the user selected and what inspection said of it.
#[derive(Debug)]
pub struct FirmwareSelection {
    pub path: String,
    pub image: Option<ImageInfo>,
    pub assessment: Option<Assessment>,
}

/// A [`FirmwareSelection`] as plain values.
pub struct FirmwareSelectionView {
    pub path: Seq<char>,
    pub image: Option<ImageInfoView>,
    pub assessment: Option<AssessmentView>,
}

impl View for FirmwareSelection {
    type V = FirmwareSelectionView;

    open spec fn view(&self) -> FirmwareSelectionView {
        FirmwareSelectionView {
            path: self.path@,
            image: match self.image {
                Some(i) => Some(i@),
                None => None,
            },
            assessment: match self.assessment {
                Some(a) => Some(a@),
                None => None,
            },
        }
    }
}

impl Default for FirmwareSelection {
    fn default() -> (s: Self)
        ensures
            s@ == (FirmwareSelectionView { path: Seq::empty(), image: None, assessment: None }),
    {
        FirmwareSelection { path: String::new(), image: None, assessment: None }
    }
}

impl FirmwareSelection {
    /// A new file was chosen: what was known of another file is forgotten.
    pub fn file_changed(&mut self, path: &str)
        ensures
            old(self)@.path == path@ ==> final(self)@ == old(self)@,
            old(self)@.path != path@ ==> final(self)@ == (FirmwareSelectionView {
                path: path@,
                image: None,
                assessment: None,
            }),
    {
        if !str_eq(self.path.as_str(), path) {
            *self = FirmwareSelection { path: path.to_owned(), image: None, assessment: None };
        }
    }

    /// Another board was chosen: an assessment made for a different board is forgotten.
    pub fn device_changed(&mut self, serial: &str)
        ensures
            final(self)@.path == old(self)@.path,
            final(self)@.image == old(self)@.image,
            final(self)@.assessment == match old(self)@.assessment {
                Some(a) => if a.serial != serial@ {
                    None
                } else {
                    Some(a)
                },
                None => None,
            },
    {
        let other = match &self.assessment {
            Some(a) => !str_eq(a.serial.as_str(), serial),
            None => false,
        };
        if other {
            self.assessment = None;
        }
    }

    /// Inspection or signing produced `image` (and perhaps an assessment) for `path`.
    pub fn inspected(&mut self, path: String, image: ImageInfo, assessment: Option<Assessment>)
        ensures
            final(self)@ == (FirmwareSelectionView {
                path: path@,
                image: Some(image@),
                assessment: match assessment {
                    Some(a) => Some(a@),
                    None => None,
                },
            }),
    {
        *self = FirmwareSelection { path, image: Some(image), assessment };
    }
}

/// The flash that a compatibility check may continue: only a `check` request whose
/// phrase confirmed flashing this very board, and only when the board allows the
/// image.
pub open spec fn continues_to_flash(
    action: Seq<char>,
    phrase: Seq<char>,
    serial: Seq<char>,
    assessment: AssessmentView,
) -> bool {
    action == "check"@ && phrase == flash_phrase(serial) && serial == assessment.serial
        && assessment.allowed
}

/// A compatibility result may continue only the flash explicitly confirmed by the
/// user; local inspection and signing never produce a write request. The flash
/// request is the checked one with action `flash` and the assessment as its review.
pub fn confirmed_flash(request: &Request, assessment: &Assessment) -> (r: Option<Request>)
    ensures
        r is Some <==> continues_to_flash(
            request.action@,
            request.phrase@,
            request.serial@,
            assessment@,
        ),
        r matches Some(q) ==> {
            &&& q.action@ == "flash"@
            &&& opt_review_view(q.review) == Some(ReviewView::Flash(assessment@))
            &&& q.picotool@ == request.picotool@
            &&& q.serial@ == request.serial@
            &&& q.firmware@ == request.firmware@
            &&& q.key@ == request.key@
            &&& q.output@ == request.output@
            &&& q.phrase@ == request.phrase@
            &&& q.slot == request.slot
            &&& q.boot_tested == request.boot_tested
            &&& q.mismatch_accepted == request.mismatch_accepted
        },
{
    let phrase = make_flash_phrase(request.serial.as_str());
    if !str_eq(request.action.as_str(), "check") || !str_eq(request.phrase.as_str(), phrase.as_str())
        || !str_eq(request.serial.as_str(), assessment.serial.as_str()) || !assessment.allowed {
        return None;
    }
    Some(
        Request {
            action: "flash".to_owned(),
            picotool: request.picotool.clone(),
            serial: request.serial.clone(),
            firmware: request.firmware.clone(),
            key: request.key.clone(),
            output: request.output.clone(),
            phrase: request.phrase.clone(),
            slot: request.slot,
            boot_tested: request.boot_tested,
            review: Some(Review::Flash(assessment.clone())),
            mismatch_accepted: request.mismatch_accepted,
        },
    )
}

/// The phrase the user types to confirm `action` on the board `serial`: `ERASE` for
/// erasing application storage, else the action in upper case, then the serial.
pub open spec fn spec_confirmation_phrase(action: Seq<char>, serial: Seq<char>) -> Seq<char> {
    (if action == "prepare"@ {
        "ERASE"@
    } else {
        uppercase(action)
    }) + " "@ + serial
}

/// The phrase that confirms `action` on the board `serial` (see
/// [`spec_confirmation_phrase`]).
pub fn confirmation_phrase(action: &str, serial: &str) -> (p: String)
    ensures
        p@ == spec_confirmation_phrase(action@, serial@),
{
    let mut p = if str_eq(action, "prepare") {
        "ERASE".to_owned()
    } else {
        to_uppercase(action)
    };
    p.append(" ");
    p.append(serial);
    proof {
        reveal_strlit(" ");
    }
    p
}

/// Takes the phrase the user typed for `request`: refused unless it is exactly the
/// confirmation phrase; a confirmed flash first runs as a compatibility check.
pub fn accept_confirmation(request: Request, typed: String) -> (r: Result<Request, String>)
    ensures
        typed@ != spec_confirmation_phrase(request.action@, request.serial@) ==> (r matches Err(
            m,
        ) && m@ == "Enter the exact confirmation phrase"@),
        typed@ == spec_confirmation_phrase(request.action@, request.serial@) ==> (r matches Ok(q)
            && q.phrase@ == typed@ && q.action@ == (if request.action@ == "flash"@ {
            "check"@
        } else {
            request.action@
        }) && q.picotool == request.picotool && q.serial == request.serial && q.firmware
            == request.firmware && q.key == request.key && q.output == request.output && q.slot
            == request.slot && q.boot_tested == request.boot_tested && q.review == request.review
            && q.mismatch_accepted == request.mismatch_accepted),
{
    let phrase = confirmation_phrase(request.action.as_str(), request.serial.as_str());
    if !str_eq(typed.as_str(), phrase.as_str()) {
        return Err("Enter the exact confirmation phrase".to_owned());
    }
    let mut request = request;
    if str_eq(request.action.as_str(), "flash") {
        request.action = "check".to_owned();
    }
    request.phrase = typed;
    Ok(request)
}

/// Whether a flash request must first ask the user to accept a signing key that
/// differs from the installed one: when the selection's assessment says the keys
/// differ and the request has not accepted that yet.
pub fn needs_mismatch_prompt(selection: &FirmwareSelection, request: &Request) -> (r: bool)
    ensures
        r == (selection@.assessment matches Some(a) && a.mismatch && !request.mismatch_accepted),
{
    match &selection.assessment {
        Some(a) => a.mismatch && !request.mismatch_accepted,
        None => false,
    }
}

/// The phrase that the confirmation step asks for is the one the board checks take:
/// for erasing application storage, the erase check then turns on the board's
/// status alone; for a reviewed provisioning stage, the stage's confirmation goes
/// on (given the power-cycle test that hardening and enabling need).
pub proof fn law_confirmation_phrase_is_what_the_checks_take(
    status: Seq<u8>,
    serial: Seq<char>,
    current: StageReviewView,
    boot_tested: bool,
)
    ensures
        spec_check_prepare(status, spec_confirmation_phrase("prepare"@, serial), serial) is Ok
            <==> (status.len() == 7 && status[0] == 1 && status[1] == 0 && status[6] & 1 == 0),
        current.action != "prepare"@ && (current.action == "harden"@ || current.action
            == "enable"@ ==> boot_tested) ==> spec_confirm_stage(
            Some(ReviewView::Stage(current)),
            current,
            spec_confirmation_phrase(current.action, current.serial),
            boot_tested,
            uppercase(current.action),
        ) == Ok::<bool, Seq<char>>(true),
{
    reveal_strlit("ERASE");
    reveal_strlit("ERASE ");
    reveal_strlit(" ");
    assert("ERASE"@ + " "@ =~= "ERASE "@);
    assert("ERASE"@ + " "@ + serial =~= "ERASE "@ + serial);
}

/// The flash that a compatibility check continues passes the flash checks against
/// that same assessment, except that a different signing key still needs its own
/// explicit acceptance.
pub proof fn law_confirmed_flash_passes_the_flash_checks(
    action: Seq<char>,
    phrase: Seq<char>,
    serial: Seq<char>,
    mismatch_accepted: bool,
    assessment: AssessmentView,
)
    requires
        continues_to_flash(action, phrase, serial, assessment),
    ensures
        crate::hal::firmware::spec_validate_flash(
            phrase,
            mismatch_accepted,
            Some(ReviewView::Flash(assessment)),
            assessment,
        ) == if assessment.mismatch && !mismatch_accepted {
            Err::<(), Seq<char>>("Confirm the different signing key before flashing."@)
        } else {
            Ok(())
        },
{
}

} // verus!
