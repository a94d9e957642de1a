//! Firmware workflow policy. picotool is the USB/UF2 transport; the decisions live here.
use vstd::prelude::*;
use vstd::string::{StrSliceExecFns, StringSliceAdditionalSpecFns};
use crate::hal::firmware::security::{
    StageReview, StageReviewView,
    key_lookup_row, lemma_read_rows_agree, lemma_read_rows_prefix, observed, opt_str_view, read_rows,
    secure_boot_enabled_with, spec_secure_boot_enabled, spec_trusted_boot_key, trusted_boot_key_with,
    trusted_key_matches, crit_rows, OtpRead, OtpReader,
};
use crate::codec::{hex_decode, hex_decoded, hex_encode, hex_lower, sha256, sha256_digest};
use crate::text::{
    decimal, format_i32, join_space, lowercase, normalize_whitespace, starts_with, str_contains,
    str_eq, str_starts_with, to_lowercase, to_uppercase, trim_start_0x, trim_start_0x_range,
    uppercase, words, range_starts_with,
    contains, contains_str, lines, lines_from, trim, trim_range, find_char_from, line_at, find_char,
    chars_of, has_property, property_in, range_eq, spec_property, split_bounds, split_str, sub_chars,
};

pub mod device;
pub mod otp_state;
pub mod provision;
pub mod security;

verus! {

/// A byte is an ASCII hexadecimal digit.
pub open spec fn is_hex_digit_byte(b: u8) -> bool {
    (0x30 <= b <= 0x39) || (0x41 <= b <= 0x46) || (0x61 <= b <= 0x66)
}

/// A board serial is exactly sixteen ASCII hexadecimal digits (as UTF-8 bytes).
pub open spec fn spec_serial_valid(serial: Seq<u8>) -> bool {
    &&& serial.len() == 16
    &&& forall|i: int| 0 <= i < serial.len() ==> is_hex_digit_byte(#[trigger] serial[i])
}

/// Whether `serial` names a board: sixteen hexadecimal digits and nothing else.
pub fn serial_valid(serial: &str) -> (valid: bool)
    ensures
        valid == spec_serial_valid(serial.spec_bytes()),
{
    let bytes = serial.as_bytes();
    if bytes.len() != 16 {
        return false;
    }
    let mut i: usize = 0;
    while i < bytes.len()
        invariant
            bytes@ == serial.spec_bytes(),
            bytes@.len() == 16,
            i <= bytes@.len(),
            forall|j: int| 0 <= j < i ==> is_hex_digit_byte(#[trigger] bytes@[j]),
        decreases bytes@.len() - i,
    {
        let b = bytes[i];
        if !((0x30 <= b && b <= 0x39) || (0x41 <= b && b <= 0x46) || (0x61 <= b && b <= 0x66)) {
            return false;
        }
        i = i + 1;
    }
    true
}

/// The characters of an optional string.
pub open spec fn opt_view(o: Option<String>) -> Option<Seq<char>> {
    match o {
        Some(s) => Some(s@),
        None => None,
    }
}

/// Whether two optional strings hold the same characters (or are both absent).
pub fn opt_string_eq(a: &Option<String>, b: &Option<String>) -> (r: bool)
    ensures
        r == (opt_view(*a) == opt_view(*b)),
{
    match (a, b) {
        (Some(x), Some(y)) => crate::text::str_eq(x.as_str(), y.as_str()),
        (None, None) => true,
        _ => false,
    }
}

/// A copy of an optional string.
pub fn opt_string_clone(a: &Option<String>) -> (r: Option<String>)
    ensures
        opt_view(r) == opt_view(*a),
{
    match a {
        Some(x) => Some(x.clone()),
        None => None,
    }
}

/// What inspection found out about a firmware image.
#[derive(Debug)]
pub struct ImageInfo {
    /// The image carries a verified signature.
    pub signed: bool,
    /// The image is the `flash_nuke` eraser.
    pub nuke: bool,
    /// SHA-256 of the signing public key, hexadecimal, for a signed image.
    pub fingerprint: Option<String>,
    /// SHA-256 of the image file, hexadecimal.
    pub hash: String,
}

/// An [`ImageInfo`] as plain values.
pub struct ImageInfoView {
    pub signed: bool,
    pub nuke: bool,
    pub fingerprint: Option<Seq<char>>,
    pub hash: Seq<char>,
}

impl View for ImageInfo {
    type V = ImageInfoView;

    open spec fn view(&self) -> ImageInfoView {
        ImageInfoView {
            signed: self.signed,
            nuke: self.nuke,
            fingerprint: opt_view(self.fingerprint),
            hash: self.hash@,
        }
    }
}

impl Clone for ImageInfo {
    fn clone(&self) -> (r: Self)
        ensures
            r@ == self@,
    {
        ImageInfo {
            signed: self.signed,
            nuke: self.nuke,
            fingerprint: opt_string_clone(&self.fingerprint),
            hash: self.hash.clone(),
        }
    }
}

/// Whether a board may take an image, and why.
#[derive(Debug)]
pub struct Assessment {
    pub image: ImageInfo,
    pub serial: String,
    pub secure_boot: bool,
    /// Matching OTP key when Secure Boot is enabled; installed key otherwise.
    pub board_key: Option<String>,
    pub allowed: bool,
    pub mismatch: bool,
}

/// An [`Assessment`] as plain values.
pub struct AssessmentView {
    pub image: ImageInfoView,
    pub serial: Seq<char>,
    pub secure_boot: bool,
    pub board_key: Option<Seq<char>>,
    pub allowed: bool,
    pub mismatch: bool,
}

impl View for Assessment {
    type V = AssessmentView;

    open spec fn view(&self) -> AssessmentView {
        AssessmentView {
            image: self.image@,
            serial: self.serial@,
            secure_boot: self.secure_boot,
            board_key: opt_view(self.board_key),
            allowed: self.allowed,
            mismatch: self.mismatch,
        }
    }
}

impl Clone for Assessment {
    fn clone(&self) -> (r: Self)
        ensures
            r@ == self@,
    {
        Assessment {
            image: self.image.clone(),
            serial: self.serial.clone(),
            secure_boot: self.secure_boot,
            board_key: opt_string_clone(&self.board_key),
            allowed: self.allowed,
            mismatch: self.mismatch,
        }
    }
}

/// The verdict on an image for a board: the keys differ when the image's key is not
/// the board's; the image is allowed when Secure Boot is off, or when it is signed by
/// the board's key.
pub open spec fn spec_assess(
    image: ImageInfoView,
    serial: Seq<char>,
    secure_boot: bool,
    board_key: Option<Seq<char>>,
) -> AssessmentView {
    let mismatch = image.fingerprint != board_key;
    AssessmentView {
        image,
        serial,
        secure_boot,
        board_key,
        allowed: !secure_boot || (image.signed && board_key is Some && !mismatch),
        mismatch,
    }
}

/// Judges whether `image` may be flashed on the board `serial`, given its Secure
/// Boot state and its trusted (or installed) key.
pub fn assess(image: ImageInfo, serial: String, secure_boot: bool, board_key: Option<String>) -> (a:
    Assessment)
    ensures
        a@ == spec_assess(image@, serial@, secure_boot, opt_view(board_key)),
{
    let mismatch = !opt_string_eq(&image.fingerprint, &board_key);
    let allowed = !secure_boot || (image.signed && board_key.is_some() && !mismatch);
    Assessment { image, serial, secure_boot, board_key, allowed, mismatch }
}

/// The command that asks a board in normal mode to restart into update mode:
/// the Nuke confirmation variant, or the plain one.
pub open spec fn spec_update_command(nuke: bool) -> Seq<u8> {
    seq![0x80u8, 0x1f, if nuke { 2u8 } else { 1u8 }, 0, 0]
}

/// The management command that restarts the board into update mode.
pub fn update_command(nuke: bool) -> (c: [u8; 5])
    ensures
        c@ == spec_update_command(nuke),
{
    let c = [0x80, 0x1f, if nuke { 2 } else { 1 }, 0, 0];
    assert(c@ =~= spec_update_command(nuke));
    c
}

/// The value of the first `label: value` line of `text` (label compared ignoring
/// ASCII case, key and value trimmed).
pub fn property<'a>(text: &'a str, label: &str) -> (r: Option<&'a str>)
    ensures
        r is Some <==> spec_property(text@, label@) is Some,
        r matches Some(v) ==> v@ == spec_property(text@, label@)->0,
{
    let cs = chars_of(text);
    match property_in(&cs, &chars_of(label)) {
        Some((a, b)) => Some(text.substring_char(a, b)),
        None => None,
    }
}

/// The hexadecimal SHA-256 digest of `bytes`.
pub fn hash(bytes: &[u8]) -> (h: String)
    requires
        bytes@.len() < 0x2000_0000_0000_0000,
    ensures
        h@ == hex_lower(sha256(bytes@)),
{
    let d = sha256_digest(bytes);
    hex_encode(d.as_slice())
}

/// The pieces of `segs` that have a `label` property, in order.
pub open spec fn with_property(segs: Seq<Seq<char>>, label: Seq<char>) -> Seq<Seq<char>>
    decreases segs.len(),
{
    if segs.len() == 0 {
        Seq::empty()
    } else {
        let rest = with_property(segs.drop_last(), label);
        if spec_property(segs.last(), label) is Some {
            rest.push(segs.last())
        } else {
            rest
        }
    }
}

/// The metadata blocks of picotool's `info -a` output that describe an image.
pub open spec fn image_blocks(text: Seq<char>) -> Seq<Seq<char>> {
    with_property(split_str(text, "Metadata Block "@).drop_first(), "image type"@)
}

/// The one block to judge: the one signed block, or else the only block.
pub open spec fn chosen_block(text: Seq<char>) -> Option<Seq<char>> {
    let blocks = image_blocks(text);
    let signed = with_property(blocks, "signature"@);
    if signed.len() == 1 {
        Some(signed[0])
    } else if signed.len() == 0 && blocks.len() == 1 {
        Some(blocks[0])
    } else {
        None
    }
}

/// The program summary before the first metadata block names the `flash_nuke`
/// eraser loaded at 0x20000000.
pub open spec fn is_nuke_program(text: Seq<char>) -> bool {
    let program = split_str(text, "Metadata Block "@)[0];
    spec_property(program, "name"@) == Some("flash_nuke"@) && spec_property(
        program,
        "binary start"@,
    ) == Some("0x20000000"@)
}

/// The fingerprint of block `b`: the digest of a verified public key, nothing for an
/// unsigned block without key, else why the signature cannot be trusted.
pub open spec fn block_fingerprint(b: Seq<char>) -> Result<Option<Seq<char>>, Seq<char>> {
    let sig = spec_property(b, "signature"@);
    let public = spec_property(b, "public key"@);
    if sig == Some("verified"@) {
        match public {
            None => Err("Signed image has no public key"@),
            Some(p) => match hex_decoded(vstd::utf8::encode_utf8(p)) {
                None => Err("Invalid public key"@),
                Some(key) => if key.len() != 64 {
                    Err("Invalid firmware public key length"@)
                } else {
                    Ok(Some(hex_lower(sha256(key))))
                },
            },
        }
    } else if (sig is None || sig == Some("none"@) || sig == Some("not present"@) || sig == Some(
        "unsigned"@,
    )) && public is None {
        Ok(None)
    } else {
        Err("Firmware signature could not be verified."@)
    }
}

/// What picotool's `info -a` output says of an image with file digest `digest`:
/// a single RP2350 ARM Secure image whose signature, if any, verified.
pub open spec fn spec_parse_image(text: Seq<char>, digest: Seq<char>) -> Result<
    ImageInfoView,
    Seq<char>,
> {
    match chosen_block(text) {
        None => Err("Select a single RP2350 ARM firmware image."@),
        Some(b) => if spec_property(b, "target chip"@) != Some("RP2350"@) || spec_property(
            b,
            "image type"@,
        ) != Some("ARM Secure"@) {
            Err("The image must target RP2350 ARM Secure."@)
        } else {
            match block_fingerprint(b) {
                Err(e) => Err(e),
                Ok(f) => Ok(
                    ImageInfoView {
                        signed: f is Some,
                        nuke: is_nuke_program(text),
                        fingerprint: f,
                        hash: digest,
                    },
                ),
            }
        },
    }
}

/// A parsed image, seen through its view.
pub open spec fn image_result_view(r: Result<ImageInfo, String>) -> Result<ImageInfoView, Seq<char>> {
    match r {
        Ok(i) => Ok(i@),
        Err(e) => Err(e@),
    }
}

/// Whether the text `cs[a..b]` has a `label` property with the value `value`.
fn property_is(cs: &Vec<char>, a: usize, b: usize, label: &str, value: &str) -> (r: bool)
    requires
        a <= b <= cs@.len(),
    ensures
        r == (spec_property(cs@.subrange(a as int, b as int), label@) == Some(value@)),
{
    let seg = sub_chars(cs, a, b);
    match property_in(&seg, &chars_of(label)) {
        Some((x, y)) => range_eq(&seg, x, y, &chars_of(value)),
        None => false,
    }
}

/// The fingerprint of the block `cs[a..b]` of `text`.
fn block_fingerprint_exec(text: &str, cs: &Vec<char>, a: usize, b: usize) -> (r: Result<
    Option<String>,
    String,
>)
    requires
        cs@ == text@,
        a <= b <= cs@.len(),
    ensures
        match (r, block_fingerprint(cs@.subrange(a as int, b as int))) {
            (Ok(x), Ok(y)) => opt_view(x) == y,
            (Err(x), Err(y)) => x@ == y,
            _ => false,
        },
{
    let ghost blk = cs@.subrange(a as int, b as int);
    let seg = sub_chars(cs, a, b);
    let sig = property_in(&seg, &chars_of("signature"));
    let public = property_in(&seg, &chars_of("public key"));
    let verified = match sig {
        Some((x, y)) => range_eq(&seg, x, y, &chars_of("verified")),
        None => false,
    };
    if verified {
        match public {
            None => Err("Signed image has no public key".to_owned()),
            Some((x, y)) => {
                assert(cs@.subrange(a + x, a + y) =~= seg@.subrange(x as int, y as int));
                let p = text.substring_char(a + x, a + y);
                match hex_decode(p) {
                    Err(_) => Err("Invalid public key".to_owned()),
                    Ok(key) => {
                        if key.len() != 64 {
                            Err("Invalid firmware public key length".to_owned())
                        } else {
                            Ok(Some(hash(key.as_slice())))
                        }
                    },
                }
            },
        }
    } else {
        let unsigned_word = match sig {
            None => true,
            Some((x, y)) => range_eq(&seg, x, y, &chars_of("none")) || range_eq(
                &seg,
                x,
                y,
                &chars_of("not present"),
            ) || range_eq(&seg, x, y, &chars_of("unsigned")),
        };
        if unsigned_word && public.is_none() {
            Ok(None)
        } else {
            Err("Firmware signature could not be verified.".to_owned())
        }
    }
}

/// Reads picotool's `info -a` output for an image whose file digest is `digest`.
/// Requires a single RP2350 ARM Secure image; an invalid signature is never taken for
/// an unsigned image.
pub fn parse_image(text: &str, digest: String) -> (r: Result<ImageInfo, String>)
    ensures
        image_result_view(r) == spec_parse_image(text@, digest@),
{
    let cs = chars_of(text);
    let marker = chars_of("Metadata Block ");
    proof {
        reveal_strlit("Metadata Block ");
    }
    let segs = split_bounds(&cs, &marker);
    let ghost pieces = split_str(cs@, marker@);
    let ghost rest = pieces.drop_first();
    let type_label = chars_of("image type");
    let sig_label = chars_of("signature");
    let mut blocks: Vec<(usize, usize)> = Vec::new();
    let mut signed: Vec<(usize, usize)> = Vec::new();
    let ghost mut bseq: Seq<Seq<char>> = Seq::empty();
    let ghost mut sseq: Seq<Seq<char>> = Seq::empty();
    let mut k: usize = 1;
    assert(segs@.len() >= 1);
    while k < segs.len()
        invariant
            1 <= k <= segs@.len(),
            segs@.len() == pieces.len(),
            rest == pieces.drop_first(),
            type_label@ == "image type"@,
            sig_label@ == "signature"@,
            forall|j: int|
                0 <= j < segs@.len() ==> {
                    &&& (#[trigger] segs@[j]).0 <= segs@[j].1 <= cs@.len()
                    &&& cs@.subrange(segs@[j].0 as int, segs@[j].1 as int) == pieces[j]
                },
            bseq == with_property(rest.take(k - 1), "image type"@),
            sseq == with_property(bseq, "signature"@),
            blocks@.len() == bseq.len(),
            signed@.len() == sseq.len(),
            forall|j: int|
                0 <= j < blocks@.len() ==> {
                    &&& (#[trigger] blocks@[j]).0 <= blocks@[j].1 <= cs@.len()
                    &&& cs@.subrange(blocks@[j].0 as int, blocks@[j].1 as int) == bseq[j]
                },
            forall|j: int|
                0 <= j < signed@.len() ==> {
                    &&& (#[trigger] signed@[j]).0 <= signed@[j].1 <= cs@.len()
                    &&& cs@.subrange(signed@[j].0 as int, signed@[j].1 as int) == sseq[j]
                },
        decreases segs@.len() - k,
    {
        let (a, b) = segs[k];
        let ghost piece = pieces[k as int];
        assert(rest.take(k as int).drop_last() =~= rest.take(k - 1));
        assert(rest.take(k as int).last() == piece);
        if has_property(&cs, a, b, &type_label) {
            blocks.push((a, b));
            proof {
                let old_b = bseq;
                bseq = bseq.push(piece);
                assert(bseq.drop_last() =~= old_b);
                assert(bseq.last() == piece);
            }
            if has_property(&cs, a, b, &sig_label) {
                signed.push((a, b));
                proof {
                    sseq = sseq.push(piece);
                }
            }
        }
        k = k + 1;
    }
    assert(rest.take(k - 1) =~= rest);
    let chosen = if signed.len() == 1 {
        signed[0]
    } else if signed.len() == 0 && blocks.len() == 1 {
        blocks[0]
    } else {
        return Err("Select a single RP2350 ARM firmware image.".to_owned());
    };
    let (a, b) = chosen;
    if !property_is(&cs, a, b, "target chip", "RP2350") || !property_is(&cs, a, b, "image type", "ARM Secure") {
        return Err("The image must target RP2350 ARM Secure.".to_owned());
    }
    let fingerprint = match block_fingerprint_exec(text, &cs, a, b) {
        Ok(f) => f,
        Err(e) => return Err(e),
    };
    let (p0, p1) = segs[0];
    let nuke = property_is(&cs, p0, p1, "name", "flash_nuke") && property_is(&cs, p0, p1, "binary start", "0x20000000");
    Ok(ImageInfo { signed: fingerprint.is_some(), nuke, fingerprint, hash: digest })
}

/// Whether, among the lines from `ls[0]` on, the first non-blank line after the first
/// `Metadata Blocks` line (both trimmed) is `none`; `seen` when that line is behind.
pub open spec fn blocks_listed_none(ls: Seq<Seq<char>>, seen: bool) -> bool
    decreases ls.len(),
{
    if ls.len() == 0 {
        false
    } else {
        let t = trim(ls[0]);
        if t.len() == 0 {
            blocks_listed_none(ls.drop_first(), seen)
        } else if seen {
            t == "none"@
        } else {
            blocks_listed_none(ls.drop_first(), t == "Metadata Blocks"@)
        }
    }
}

/// picotool reports that the board holds no image: no metadata block at all, and the
/// metadata list reads `none`.
pub open spec fn reports_no_image(text: Seq<char>) -> bool {
    !contains(text, "Metadata Block "@) && blocks_listed_none(lines(text), false)
}

/// What picotool's device `info` output says of the installed image: none, or the
/// image as [`parse_image`] reads it (with an empty digest).
pub open spec fn spec_installed_image(text: Seq<char>) -> Result<Option<ImageInfoView>, Seq<char>> {
    if reports_no_image(text) {
        Ok(None)
    } else {
        match spec_parse_image(text, Seq::empty()) {
            Ok(i) => Ok(Some(i)),
            Err(e) => Err(e),
        }
    }
}

/// An installed-image result, seen through its view.
pub open spec fn installed_view(r: Result<Option<ImageInfo>, String>) -> Result<
    Option<ImageInfoView>,
    Seq<char>,
> {
    match r {
        Ok(Some(i)) => Ok(Some(i@)),
        Ok(None) => Ok(None),
        Err(e) => Err(e@),
    }
}

fn listed_none(cs: &Vec<char>) -> (r: bool)
    ensures
        r == blocks_listed_none(lines(cs@), false),
{
    let header = chars_of("Metadata Blocks");
    let none_word = chars_of("none");
    let mut seen = false;
    let mut pos: usize = 0;
    while pos < cs.len()
        invariant
            pos <= cs@.len(),
            header@ == "Metadata Blocks"@,
            none_word@ == "none"@,
            blocks_listed_none(lines(cs@), false) == blocks_listed_none(
                lines_from(cs@, pos as int),
                seen,
            ),
        decreases cs@.len() - pos,
    {
        let e = find_char_from(&cs, '\n', pos);
        let le = if e < cs.len() && e > pos && cs[e - 1] == '\r' {
            e - 1
        } else {
            e
        };
        assert(cs@.subrange(pos as int, le as int) == line_at(cs@, pos as int));
        assert(lines_from(cs@, pos as int).drop_first() =~= lines_from(cs@, e + 1));
        assert(lines_from(cs@, pos as int)[0] == line_at(cs@, pos as int));
        let (a, b) = trim_range(cs, pos, le);
        if a < b {
            if seen {
                return range_eq(cs, a, b, &none_word);
            }
            seen = range_eq(cs, a, b, &header);
        }
        if e < cs.len() {
            pos = e + 1;
        } else {
            assert(lines_from(cs@, e + 1) =~= lines_from(cs@, cs@.len() as int));
            pos = cs.len();
        }
    }
    assert(lines_from(cs@, pos as int) =~= Seq::<Seq<char>>::empty());
    false
}

/// Reads picotool's device `info` output: `None` when the board reports no image,
/// else the installed image.
pub fn installed_image(text: &str) -> (r: Result<Option<ImageInfo>, String>)
    ensures
        installed_view(r) == spec_installed_image(text@),
{
    let cs = chars_of(text);
    let marker = chars_of("Metadata Block ");
    proof {
        reveal_strlit("Metadata Block ");
    }
    if !contains_str(&cs, &marker) && listed_none(&cs) {
        return Ok(None);
    }
    match parse_image(text, String::new()) {
        Ok(i) => Ok(Some(i)),
        Err(e) => Err(e),
    }
}

/// The assessment of `image` for the board `serial` whose device `info` output is
/// `installed`: Secure Boot is on when the output says so or, when it says it is
/// off, when the OTP critical flags say so; with Secure Boot on the board's key is
/// the trusted OTP key matching the image, otherwise the installed image's key.
pub open spec fn spec_assess_device(
    image: ImageInfoView,
    serial: Seq<char>,
    installed: Seq<char>,
    rd: OtpReader,
) -> (Result<AssessmentView, Seq<char>>, Seq<(u16, bool)>) {
    let stated = spec_property(installed, "secure boot"@);
    if stated != Some("1"@) && stated != Some("0"@) {
        (Err("Cannot determine the board's Secure Boot state."@), Seq::empty())
    } else {
        let (sb, q1) = if stated == Some("1"@) {
            (Ok(true), Seq::empty())
        } else {
            let (r, q) = spec_secure_boot_enabled(rd);
            (
                match r {
                    Ok(b) => Ok(b),
                    Err(e) => Err(e@),
                },
                q,
            )
        };
        match sb {
            Err(e) => (Err(e), q1),
            Ok(true) => {
                let (k, q2) = spec_trusted_boot_key(image.fingerprint, rd);
                (
                    match k {
                        Err(e) => Err(e),
                        Ok(bk) => Ok(spec_assess(image, serial, true, bk)),
                    },
                    q1 + q2,
                )
            },
            Ok(false) => (
                match spec_installed_image(installed) {
                    Err(e) => Err(e),
                    Ok(inst) => Ok(
                        spec_assess(
                            image,
                            serial,
                            false,
                            match inst {
                                Some(i) => i.fingerprint,
                                None => None,
                            },
                        ),
                    ),
                },
                q1,
            ),
        }
    }
}

/// An assessment result, seen through its view.
pub open spec fn assessment_result_view(r: Result<Assessment, String>) -> Result<
    AssessmentView,
    Seq<char>,
> {
    match r {
        Ok(a) => Ok(a@),
        Err(e) => Err(e@),
    }
}

/// Whether the text `cs` has a `label` property with the value `value`.
fn text_property_is(cs: &Vec<char>, label: &str, value: &str) -> (r: bool)
    ensures
        r == (spec_property(cs@, label@) == Some(value@)),
{
    match property_in(cs, &chars_of(label)) {
        Some((x, y)) => range_eq(cs, x, y, &chars_of(value)),
        None => false,
    }
}

/// Assesses `image` for the board `serial` from its device `info` output `installed`,
/// reading OTP rows through `read_otp` where the output cannot settle the question.
pub fn assess_device(
    image: ImageInfo,
    serial: String,
    installed: &str,
    read_otp: impl Fn(u16, bool) -> OtpRead,
) -> (r: Result<Assessment, String>)
    requires
        forall|row: u16, ecc: bool| call_requires(read_otp, (row, ecc)),
    ensures
        exists|rd: OtpReader|
            #![trigger spec_assess_device(image@, serial@, installed@, rd)]
            observed(read_otp, rd, spec_assess_device(image@, serial@, installed@, rd).1)
                && assessment_result_view(r) == spec_assess_device(image@, serial@, installed@, rd).0,
{
    let ghost rd0: OtpReader = |r: u16, e: bool| Ok(0);
    let ghost iv = image@;
    let cs = chars_of(installed);
    let stated_on = text_property_is(&cs, "secure boot", "1");
    let stated_off = text_property_is(&cs, "secure boot", "0");
    if !stated_on && !stated_off {
        assert(observed(read_otp, rd0, spec_assess_device(iv, serial@, installed@, rd0).1));
        return Err("Cannot determine the board's Secure Boot state.".to_owned());
    }
    let (secure_boot, Ghost(rd1)) = if stated_on {
        (true, Ghost(rd0))
    } else {
        let (got, g) = secure_boot_enabled_with(&read_otp, Ghost(rd0));
        match got {
            Ok(b) => (b, g),
            Err(e) => {
                assert(observed(read_otp, g@, spec_assess_device(iv, serial@, installed@, g@).1));
                return Err(e);
            },
        }
    };
    if secure_boot {
        let fp: Option<&str> = match &image.fingerprint {
            Some(f) => Some(f.as_str()),
            None => None,
        };
        assert(opt_str_view(fp) == iv.fingerprint);
        let (got, Ghost(rd2)) = trusted_boot_key_with(fp, &read_otp, Ghost(rd1));
        proof {
            if !stated_on {
                lemma_read_rows_prefix(crit_rows(), rd1, 8);
                let q1 = read_rows(crit_rows(), rd1, 8).1;
                assert forall|k: int| 0 <= k < q1.len() implies rd1((#[trigger] q1[k]).0, q1[k].1) == rd2(
                    q1[k].0,
                    q1[k].1,
                ) by {
                    assert(q1[k] == crit_rows()[k]);
                    assert(!key_lookup_row(q1[k].0, q1[k].1));
                }
                lemma_read_rows_agree(crit_rows(), rd1, rd2, 8);
                let q2 = spec_trusted_boot_key(iv.fingerprint, rd2).1;
                assert forall|k: int| 0 <= k < (q1 + q2).len() implies call_ensures(
                    read_otp,
                    ((#[trigger] (q1 + q2)[k]).0, (q1 + q2)[k].1),
                    rd2((q1 + q2)[k].0, (q1 + q2)[k].1),
                ) by {
                    if k < q1.len() {
                        assert((q1 + q2)[k] == q1[k]);
                    } else {
                        assert((q1 + q2)[k] == q2[k - q1.len()]);
                    }
                }
            } else {
                assert(Seq::<(u16, bool)>::empty() + spec_trusted_boot_key(iv.fingerprint, rd2).1
                    =~= spec_trusted_boot_key(iv.fingerprint, rd2).1);
            }
        }
        match got {
            Ok(board_key) => {
                let r = Ok(assess(image, serial, true, board_key));
                assert(observed(read_otp, rd2, spec_assess_device(iv, serial@, installed@, rd2).1));
                r
            },
            Err(e) => {
                assert(observed(read_otp, rd2, spec_assess_device(iv, serial@, installed@, rd2).1));
                Err(e)
            },
        }
    } else {
        assert(observed(read_otp, rd1, spec_assess_device(iv, serial@, installed@, rd1).1));
        match installed_image(installed) {
            Ok(inst) => {
                let board_key = match inst {
                    Some(i) => i.fingerprint,
                    None => None,
                };
                Ok(assess(image, serial, false, board_key))
            },
            Err(e) => Err(e),
        }
    }
}

/// What the log says of an assessment: a warning when flashing is refused, else
/// which policy allowed it.
pub open spec fn spec_assessment_note(a: AssessmentView) -> (bool, Seq<char>) {
    if !a.allowed {
        (true, "FLASH disabled: the firmware must match an active OTP signing key."@)
    } else if a.secure_boot {
        (false, "Firmware signing key matches an active OTP signing key."@)
    } else if a.mismatch {
        (
            false,
            "Signing key differs from installed firmware or no installed key is available. Secure Boot is off; FLASH requires an extra confirmation."@,
        )
    } else {
        (false, "Firmware is compatible with the board's current signing policy."@)
    }
}

/// The log line for an assessment and whether it is a warning (see
/// [`spec_assessment_note`]).
pub fn assessment_note(a: &Assessment) -> (r: (bool, String))
    ensures
        (r.0, r.1@) == spec_assessment_note(a@),
{
    if !a.allowed {
        (true, "FLASH disabled: the firmware must match an active OTP signing key.".to_owned())
    } else if a.secure_boot {
        (false, "Firmware signing key matches an active OTP signing key.".to_owned())
    } else if a.mismatch {
        (
            false,
            "Signing key differs from installed firmware or no installed key is available. Secure Boot is off; FLASH requires an extra confirmation.".to_owned(),
        )
    } else {
        (false, "Firmware is compatible with the board's current signing policy.".to_owned())
    }
}

/// Before flashing, the image file must still have the digest that was assessed.
pub fn check_image_unchanged(assessed_hash: &str, file_hash: &str) -> (r: Result<(), String>)
    ensures
        r is Ok <==> file_hash@ == assessed_hash@,
        r matches Err(m) ==> m@ == "Firmware changed during verification."@,
{
    if !crate::text::str_eq(file_hash, assessed_hash) {
        return Err("Firmware changed during verification.".to_owned());
    }
    Ok(())
}

/// Approves loading the image onto the board: only once the flash checks pass (see
/// [`spec_validate_flash`]) is the image file's digest read, through `read_hash`, and
/// it must still be the assessed one. The image may be loaded only on `Ok`.
pub fn approve_flash(
    request: &Request,
    current: &Assessment,
    read_hash: impl FnOnce() -> Result<String, String>,
) -> (r: Result<(), String>)
    requires
        spec_validate_flash(
            request.phrase@,
            request.mismatch_accepted,
            opt_review_view(request.review),
            current@,
        ) is Ok ==> call_requires(read_hash, ()),
    ensures
        ({
            let v = spec_validate_flash(
                request.phrase@,
                request.mismatch_accepted,
                opt_review_view(request.review),
                current@,
            );
            &&& v is Err ==> (r matches Err(m) && m@ == v->Err_0)
            &&& v is Ok ==> exists|got: Result<String, String>|
                #[trigger] call_ensures(read_hash, (), got) && match got {
                    Err(e) => r == Err::<(), String>(e),
                    Ok(h) => if h@ == current.image.hash@ {
                        r is Ok
                    } else {
                        (r matches Err(m) && m@ == "Firmware changed during verification."@)
                    },
                }
        }),
{
    validate_flash(request, current)?;
    let got = read_hash();
    let ghost seen = got;
    assert(call_ensures(read_hash, (), seen));
    match got {
        Err(e) => Err(e),
        Ok(h) => check_image_unchanged(current.image.hash.as_str(), h.as_str()),
    }
}

/// A snapshot the user confirmed: the compatibility verdict before flashing, or a
/// provisioning stage before it writes OTP.
#[derive(Debug)]
pub enum Review {
    Flash(Assessment),
    Stage(StageReview),
}

/// A [`Review`] as plain values.
pub enum ReviewView {
    Flash(AssessmentView),
    Stage(StageReviewView),
}

impl View for Review {
    type V = ReviewView;

    open spec fn view(&self) -> ReviewView {
        match self {
            Review::Flash(a) => ReviewView::Flash(a@),
            Review::Stage(s) => ReviewView::Stage(s@),
        }
    }
}

/// The view of an optional review.
pub open spec fn opt_review_view(r: Option<Review>) -> Option<ReviewView> {
    match r {
        Some(x) => Some(x@),
        None => None,
    }
}

/// Whether two images were judged the same.
pub fn image_eq(a: &ImageInfo, b: &ImageInfo) -> (r: bool)
    ensures
        r == (a@ == b@),
{
    a.signed == b.signed && a.nuke == b.nuke && opt_string_eq(&a.fingerprint, &b.fingerprint)
        && crate::text::str_eq(a.hash.as_str(), b.hash.as_str())
}

/// Whether two assessments are the same.
pub fn assessment_eq(a: &Assessment, b: &Assessment) -> (r: bool)
    ensures
        r == (a@ == b@),
{
    image_eq(&a.image, &b.image) && crate::text::str_eq(a.serial.as_str(), b.serial.as_str())
        && a.secure_boot == b.secure_boot && opt_string_eq(&a.board_key, &b.board_key) && a.allowed
        == b.allowed && a.mismatch == b.mismatch
}

/// A firmware operation as the user asked for it.
#[derive(Debug)]
pub struct Request {
    pub action: String,
    pub picotool: String,
    pub serial: String,
    pub firmware: String,
    pub key: String,
    pub output: String,
    pub phrase: String,
    pub slot: u8,
    pub boot_tested: bool,
    pub review: Option<Review>,
    pub mismatch_accepted: bool,
}

impl Default for Request {
    fn default() -> (r: Self)
        ensures
            r.action@.len() == 0 && r.picotool@.len() == 0 && r.serial@.len() == 0
                && r.firmware@.len() == 0 && r.key@.len() == 0 && r.output@.len() == 0
                && r.phrase@.len() == 0 && r.slot == 0 && !r.boot_tested && r.review is None
                && !r.mismatch_accepted,
    {
        Request {
            action: String::new(),
            picotool: String::new(),
            serial: String::new(),
            firmware: String::new(),
            key: String::new(),
            output: String::new(),
            phrase: String::new(),
            slot: 0,
            boot_tested: false,
            review: None,
            mismatch_accepted: false,
        }
    }
}

/// The phrase that confirms flashing the board `serial`.
pub open spec fn flash_phrase(serial: Seq<char>) -> Seq<char> {
    "FLASH "@ + serial
}

/// Whether `r` may flash the board as `current` judged it: the image must be allowed,
/// the typed phrase must name the board, a different signing key must have been
/// accepted, and the confirmed snapshot must be exactly `current`.
pub open spec fn spec_validate_flash(
    phrase: Seq<char>,
    mismatch_accepted: bool,
    review: Option<ReviewView>,
    current: AssessmentView,
) -> Result<(), Seq<char>> {
    if !current.allowed {
        Err("FLASH disabled: signing key is not trusted by this board."@)
    } else if phrase != flash_phrase(current.serial) {
        Err("Confirm the target before flashing."@)
    } else if current.mismatch && !mismatch_accepted {
        Err("Confirm the different signing key before flashing."@)
    } else if review != Some(ReviewView::Flash(current)) {
        Err("Device or firmware changed. Inspect compatibility again."@)
    } else {
        Ok(())
    }
}

/// Builds the phrase that confirms flashing the board `serial`.
pub fn make_flash_phrase(serial: &str) -> (p: String)
    ensures
        p@ == flash_phrase(serial@),
{
    let mut p = "FLASH ".to_owned();
    p.append(serial);
    p
}

/// Checks a flash request against the current assessment of the board.
pub fn validate_flash(request: &Request, current: &Assessment) -> (r: Result<(), String>)
    ensures
        match r {
            Ok(()) => spec_validate_flash(
                request.phrase@,
                request.mismatch_accepted,
                opt_review_view(request.review),
                current@,
            ) == Ok::<(), Seq<char>>(()),
            Err(e) => spec_validate_flash(
                request.phrase@,
                request.mismatch_accepted,
                opt_review_view(request.review),
                current@,
            ) == Err::<(), Seq<char>>(e@),
        },
{
    if !current.allowed {
        return Err("FLASH disabled: signing key is not trusted by this board.".to_owned());
    }
    let phrase = make_flash_phrase(current.serial.as_str());
    if !crate::text::str_eq(request.phrase.as_str(), phrase.as_str()) {
        return Err("Confirm the target before flashing.".to_owned());
    }
    if current.mismatch && !request.mismatch_accepted {
        return Err("Confirm the different signing key before flashing.".to_owned());
    }
    let same = match &request.review {
        Some(Review::Flash(a)) => assessment_eq(a, current),
        _ => false,
    };
    if !same {
        return Err("Device or firmware changed. Inspect compatibility again.".to_owned());
    }
    Ok(())
}

/// Why picotool failed, kept intact until device-state handling has finished.
#[derive(Debug)]
pub enum PicotoolError {
    /// picotool could not be run, or its output could not be read.
    Execution(String),
    /// picotool ran and exited with a failure code.
    Exit { code: i32, output: String },
}

/// A [`PicotoolError`] as plain values.
pub enum PicotoolErrorView {
    Execution(Seq<char>),
    Exit { code: i32, output: Seq<char> },
}

impl View for PicotoolError {
    type V = PicotoolErrorView;

    open spec fn view(&self) -> PicotoolErrorView {
        match self {
            PicotoolError::Execution(m) => PicotoolErrorView::Execution(m@),
            PicotoolError::Exit { code, output } => PicotoolErrorView::Exit {
                code: *code,
                output: output@,
            },
        }
    }
}

/// The message for a picotool run that exited with `code` and printed `output`,
/// whose lower-case form is `lowered`.
pub open spec fn exit_message(code: i32, output: Seq<char>, lowered: Seq<char>) -> Seq<char> {
    if contains(output, "Signature verification failed"@) {
        "Signature verification failed"@
    } else if contains(lowered, "no accessible"@) {
        "Cannot access the device in update mode. Check the USB connection and driver."@
    } else {
        "picotool failed (exit code "@ + decimal(code as int) + ")"@
    }
}

/// The message the user sees for a picotool failure.
pub open spec fn picotool_message(e: PicotoolErrorView) -> Seq<char> {
    match e {
        PicotoolErrorView::Execution(m) => m,
        PicotoolErrorView::Exit { code, output } => exit_message(code, output, lowercase(output)),
    }
}

/// The message for a picotool run that exited with `code` and printed `output`;
/// `lowered` is `output` in lower case.
pub fn exit_message_for(code: i32, output: &str, lowered: &str) -> (m: String)
    ensures
        m@ == exit_message(code, output@, lowered@),
{
    proof {
        reveal_strlit("Signature verification failed");
        reveal_strlit("no accessible");
    }
    if str_contains(output, "Signature verification failed") {
        "Signature verification failed".to_owned()
    } else if str_contains(lowered, "no accessible") {
        "Cannot access the device in update mode. Check the USB connection and driver.".to_owned()
    } else {
        let mut m = "picotool failed (exit code ".to_owned();
        let digits = format_i32(code);
        m.append(digits.as_str());
        m.append(")");
        m
    }
}

impl PicotoolError {
    /// The message the user sees for this failure.
    pub fn message(self) -> (m: String)
        ensures
            m@ == picotool_message(self@),
    {
        match self {
            PicotoolError::Execution(message) => message,
            PicotoolError::Exit { code, output } => {
                let lowered = to_lowercase(output.as_str());
                exit_message_for(code, output.as_str(), lowered.as_str())
            },
        }
    }
}

/// What picotool prints when no board in update mode answers (for `serial`, when
/// one was selected).
pub open spec fn absence_message(serial: Seq<char>) -> Seq<char> {
    if serial.len() == 0 {
        "No accessible RP-series devices in BOOTSEL mode were found."@
    } else {
        "No accessible RP-series devices in BOOTSEL mode were found with serial number "@ + serial
            + "."@
    }
}

/// For each line that (trimmed) starts with `prefix`, the rest of it trimmed.
pub open spec fn prefixed_values(ls: Seq<Seq<char>>, prefix: Seq<char>) -> Seq<Seq<char>>
    decreases ls.len(),
{
    if ls.len() == 0 {
        Seq::empty()
    } else {
        let rest = prefixed_values(ls.drop_last(), prefix);
        let t = trim(ls.last());
        if starts_with(t, prefix) {
            rest.push(trim(t.skip(prefix.len() as int)))
        } else {
            rest
        }
    }
}

/// The chip ids of picotool's `info -d` output: each `chipid:` value without its
/// `0x` prefixes, upper-cased.
pub open spec fn chip_ids(text: Seq<char>) -> Seq<Seq<char>> {
    prefixed_values(lines(text), "chipid:"@).map_values(|v: Seq<char>| uppercase(trim_start_0x(v)))
}

/// The chip types of picotool's `info -d` output.
pub open spec fn chip_types(text: Seq<char>) -> Seq<Seq<char>> {
    prefixed_values(lines(text), "type:"@)
}

/// The boards in update mode that `info -d` output lists, when every one is a
/// selectable RP2350 (the selected one, if `serial` is given).
pub open spec fn listed_boards(text: Seq<char>, serial: Seq<char>) -> Result<Seq<Seq<char>>, Seq<char>> {
    let ids = chip_ids(text);
    let chips = chip_types(text);
    if ids.len() == 0 || ids.len() != chips.len() || (exists|i: int|
        0 <= i < ids.len() && (!spec_serial_valid(vstd::utf8::encode_utf8(#[trigger] ids[i])) || (
        serial.len() != 0 && ids[i] != serial))) || (exists|i: int|
        0 <= i < chips.len() && #[trigger] chips[i] != "RP2350"@) {
        Err("Could not identify the selected RP2350."@)
    } else {
        Ok(ids)
    }
}

/// Whether picotool's failure is a board whose metadata block loop is broken, which
/// the factory serial in OTP identifies.
pub open spec fn needs_factory_serial(result: Result<Seq<char>, PicotoolErrorView>, serial: Seq<char>) -> bool {
    match result {
        Err(PicotoolErrorView::Exit { code, output }) => {
            let text = join_space(words(output));
            text != absence_message(serial) && starts_with(text, "ERROR: Block loop is not valid"@)
        },
        _ => false,
    }
}

/// The boards in update mode, from the result of `picotool info -d`: none when
/// picotool reports exactly that none answers; the recovered board when its metadata
/// is broken and its factory serial (`factory`) is the selected one; otherwise the
/// listed boards, or why they cannot be used.
pub open spec fn spec_parse_bootsel(
    result: Result<Seq<char>, PicotoolErrorView>,
    serial: Seq<char>,
    factory: Result<Seq<char>, Seq<char>>,
) -> Result<Seq<Seq<char>>, Seq<char>> {
    match result {
        Ok(text) => listed_boards(text, serial),
        Err(e) => match e {
            PicotoolErrorView::Exit { code, output } => {
                let text = join_space(words(output));
                if text == absence_message(serial) {
                    Ok(Seq::empty())
                } else if starts_with(text, "ERROR: Block loop is not valid"@) {
                    match factory {
                        Err(m) => Err(m),
                        Ok(found) => if spec_serial_valid(vstd::utf8::encode_utf8(found)) && (
                        serial.len() == 0 || found == serial) {
                            Ok(seq![found])
                        } else {
                            Err("Recovery device serial does not match the selected board."@)
                        },
                    }
                } else {
                    Err(picotool_message(e))
                }
            },
            PicotoolErrorView::Execution(m) => Err(m),
        },
    }
}

/// A picotool result seen through its views.
pub open spec fn picotool_result_view(r: Result<String, PicotoolError>) -> Result<Seq<char>, PicotoolErrorView> {
    match r {
        Ok(t) => Ok(t@),
        Err(e) => Err(e@),
    }
}

/// A string result seen through its views.
pub open spec fn string_result_view(r: Result<String, String>) -> Result<Seq<char>, Seq<char>> {
    match r {
        Ok(t) => Ok(t@),
        Err(e) => Err(e@),
    }
}

/// A list of boards seen through its views.
pub open spec fn boards_view(r: Result<Vec<String>, String>) -> Result<Seq<Seq<char>>, Seq<char>> {
    match r {
        Ok(v) => Ok(v@.map_values(|s: String| s@)),
        Err(e) => Err(e@),
    }
}

/// Builds the absence message for `serial`.
fn make_absence_message(serial: &str) -> (m: String)
    ensures
        m@ == absence_message(serial@),
{
    if serial.unicode_len() == 0 {
        "No accessible RP-series devices in BOOTSEL mode were found.".to_owned()
    } else {
        let mut m = "No accessible RP-series devices in BOOTSEL mode were found with serial number ".to_owned();
        m.append(serial);
        m.append(".");
        m
    }
}

/// The values of the lines of `text` (trimmed) that start with `prefix`, trimmed.
fn prefixed_values_exec(text: &str, prefix: &str) -> (v: Vec<String>)
    ensures
        v@.map_values(|s: String| s@) == prefixed_values(lines(text@), prefix@),
{
    let cs = chars_of(text);
    let p = chars_of(prefix);
    let mut out: Vec<String> = Vec::new();
    let mut pos: usize = 0;
    let ghost all = lines(cs@);
    let ghost mut done: Seq<Seq<char>> = Seq::empty();
    while pos < cs.len()
        invariant
            cs@ == text@,
            p@ == prefix@,
            pos <= cs@.len(),
            all == lines(cs@),
            all == done + lines_from(cs@, pos as int),
            out@.map_values(|s: String| s@) == prefixed_values(done, prefix@),
        decreases cs@.len() - pos,
    {
        let e = find_char_from(&cs, '\n', pos);
        let le = if e < cs.len() && e > pos && cs[e - 1] == '\r' {
            e - 1
        } else {
            e
        };
        let ghost line = cs@.subrange(pos as int, le as int);
        assert(line == line_at(cs@, pos as int));
        assert(lines_from(cs@, pos as int) == seq![line] + lines_from(cs@, e + 1));
        let (a, b) = trim_range(&cs, pos, le);
        let ghost t = cs@.subrange(a as int, b as int);
        let ghost before = out@.map_values(|s: String| s@);
        if range_starts_with(&cs, a, b, &p) {
            let (x, y) = trim_range(&cs, a + p.len(), b);
            assert(t.skip(p@.len() as int) =~= cs@.subrange(a + p@.len(), b as int));
            let v = text.substring_char(x, y);
            out.push(v.to_owned());
            assert(out@.map_values(|s: String| s@) =~= before.push(v@));
        } else {
            assert(out@.map_values(|s: String| s@) =~= before);
        }
        proof {
            let d2 = done.push(line);
            assert(d2.drop_last() =~= done);
            assert(d2.last() == line);
            assert(done + lines_from(cs@, pos as int) =~= d2 + lines_from(cs@, e + 1));
            done = d2;
        }
        if e < cs.len() {
            pos = e + 1;
        } else {
            assert(lines_from(cs@, e + 1) =~= lines_from(cs@, cs@.len() as int));
            pos = cs.len();
        }
    }
    assert(lines_from(cs@, pos as int) =~= Seq::<Seq<char>>::empty());
    assert(done + Seq::<Seq<char>>::empty() =~= done);
    out
}

/// Checks the boards listed by `info -d`: the chip ids (already reduced and upper-
/// cased) must be as many as the chip types, valid serials (the selected one if
/// `serial` is given), and every chip an RP2350.
pub fn check_listed_boards(ids: Vec<String>, chips: &Vec<String>, serial: &str) -> (r: Result<
    Vec<String>,
    String,
>)
    ensures
        boards_view(r) == (if ids@.len() == 0 || ids@.len() != chips@.len() || (exists|i: int|
            0 <= i < ids@.len() && (!spec_serial_valid(vstd::utf8::encode_utf8(#[trigger] ids@[i]@))
                || (serial@.len() != 0 && ids@[i]@ != serial@))) || (exists|i: int|
            0 <= i < chips@.len() && #[trigger] chips@[i]@ != "RP2350"@) {
            Err::<Seq<Seq<char>>, Seq<char>>("Could not identify the selected RP2350."@)
        } else {
            Ok(ids@.map_values(|s: String| s@))
        }),
{
    let mut ok = ids.len() != 0 && ids.len() == chips.len();
    let any_serial = serial.unicode_len() == 0;
    let mut i: usize = 0;
    while i < ids.len()
        invariant
            i <= ids@.len(),
            any_serial == (serial@.len() == 0),
            ok == (ids@.len() != 0 && ids@.len() == chips@.len() && forall|k: int|
                0 <= k < i ==> spec_serial_valid(vstd::utf8::encode_utf8(#[trigger] ids@[k]@)) && (
                serial@.len() == 0 || ids@[k]@ == serial@)),
        decreases ids@.len() - i,
    {
        let id = ids[i].as_str();
        if !crate::hal::firmware::serial_valid(id) || (!any_serial && !str_eq(id, serial)) {
            ok = false;
        }
        i = i + 1;
    }
    let mut j: usize = 0;
    while j < chips.len()
        invariant
            j <= chips@.len(),
            ok ==> forall|k: int| 0 <= k < j ==> #[trigger] chips@[k]@ == "RP2350"@,
            !ok ==> (ids@.len() == 0 || ids@.len() != chips@.len() || (exists|k: int|
                0 <= k < ids@.len() && (!spec_serial_valid(vstd::utf8::encode_utf8(#[trigger] ids@[k]@))
                    || (serial@.len() != 0 && ids@[k]@ != serial@))) || (exists|k: int|
                0 <= k < chips@.len() && #[trigger] chips@[k]@ != "RP2350"@)),
            ok ==> ids@.len() != 0 && ids@.len() == chips@.len() && forall|k: int|
                0 <= k < ids@.len() ==> spec_serial_valid(vstd::utf8::encode_utf8(#[trigger] ids@[k]@))
                    && (serial@.len() == 0 || ids@[k]@ == serial@),
        decreases chips@.len() - j,
    {
        if !str_eq(chips[j].as_str(), "RP2350") {
            ok = false;
        }
        j = j + 1;
    }
    if ok {
        Ok(ids)
    } else {
        Err("Could not identify the selected RP2350.".to_owned())
    }
}


/// The chip ids of `info -d` output, each without its `0x` prefixes and upper-cased.
fn chip_ids_exec(text: &str) -> (v: Vec<String>)
    ensures
        v@.map_values(|s: String| s@) == chip_ids(text@),
{
    let vals = prefixed_values_exec(text, "chipid:");
    let mut out: Vec<String> = Vec::new();
    let mut i: usize = 0;
    while i < vals.len()
        invariant
            i <= vals@.len(),
            out@.len() == i,
            forall|k: int|
                0 <= k < i ==> (#[trigger] out@[k])@ == uppercase(trim_start_0x(vals@[k]@)),
        decreases vals@.len() - i,
    {
        let v = vals[i].as_str();
        let cs = chars_of(v);
        let s = trim_start_0x_range(&cs, 0, cs.len());
        assert(cs@.subrange(0, cs@.len() as int) =~= cs@);
        let rest = v.substring_char(s, cs.len());
        out.push(to_uppercase(rest));
        i = i + 1;
    }
    let ghost vs = vals@.map_values(|s: String| s@);
    assert(out@.map_values(|s: String| s@) =~= vs.map_values(
        |v: Seq<char>| uppercase(trim_start_0x(v)),
    ));
    out
}

/// The boards that `info -d` output lists, checked as [`listed_boards`] says.
fn listed_boards_exec(text: &str, serial: &str) -> (r: Result<Vec<String>, String>)
    ensures
        boards_view(r) == listed_boards(text@, serial@),
{
    let ids = chip_ids_exec(text);
    let chips = prefixed_values_exec(text, "type:");
    let ghost idv = ids@.map_values(|s: String| s@);
    let ghost chv = chips@.map_values(|s: String| s@);
    assert(forall|i: int|
        #![trigger idv[i]]
        #![trigger ids@[i]]
        0 <= i < ids@.len() ==> idv[i] == ids@[i]@);
    assert(forall|i: int|
        #![trigger chv[i]]
        #![trigger chips@[i]]
        0 <= i < chips@.len() ==> chv[i] == chips@[i]@);
    assert(idv == chip_ids(text@));
    assert(chv == chip_types(text@));
    assert((exists|i: int|
        0 <= i < ids@.len() && (!spec_serial_valid(vstd::utf8::encode_utf8(#[trigger] ids@[i]@))
            || (serial@.len() != 0 && ids@[i]@ != serial@))) == (exists|i: int|
        0 <= i < idv.len() && (!spec_serial_valid(vstd::utf8::encode_utf8(#[trigger] idv[i])) || (
        serial@.len() != 0 && idv[i] != serial@))));
    assert((exists|i: int| 0 <= i < chips@.len() && #[trigger] chips@[i]@ != "RP2350"@) == (exists|
        i: int,
    | 0 <= i < chv.len() && #[trigger] chv[i] != "RP2350"@));
    check_listed_boards(ids, &chips, serial)
}

/// Reads the boards in update mode from the result of `picotool info -d` for
/// `serial` (empty: any board). When picotool reports the board's metadata block
/// loop as broken, `factory_serial` reads the board's factory serial from OTP; it is
/// called then and only then.
pub fn parse_bootsel(
    result: Result<String, PicotoolError>,
    serial: &str,
    factory_serial: impl FnOnce() -> Result<String, String>,
) -> (r: Result<Vec<String>, String>)
    requires
        needs_factory_serial(picotool_result_view(result), serial@) ==> call_requires(
            factory_serial,
            (),
        ),
    ensures
        needs_factory_serial(picotool_result_view(result), serial@) ==> exists|
            found: Result<String, String>,
        |
            call_ensures(factory_serial, (), found) && boards_view(r) == spec_parse_bootsel(
                picotool_result_view(result),
                serial@,
                #[trigger] string_result_view(found),
            ),
        !needs_factory_serial(picotool_result_view(result), serial@) ==> forall|
            found: Result<Seq<char>, Seq<char>>,
        |
            boards_view(r) == #[trigger] spec_parse_bootsel(
                picotool_result_view(result),
                serial@,
                found,
            ),
{
    match result {
        Ok(text) => listed_boards_exec(text.as_str(), serial),
        Err(PicotoolError::Execution(m)) => Err(m),
        Err(PicotoolError::Exit { code, output }) => {
            let text = normalize_whitespace(output.as_str());
            let absence = make_absence_message(serial);
            if str_eq(text.as_str(), absence.as_str()) {
                let none: Vec<String> = Vec::new();
                assert(none@.map_values(|s: String| s@) =~= Seq::<Seq<char>>::empty());
                return Ok(none);
            }
            if str_starts_with(text.as_str(), "ERROR: Block loop is not valid") {
                let found = factory_serial();
                let ghost seen = found;
                assert(string_result_view(seen) == string_result_view(found));
                return match found {
                    Err(m) => Err(m),
                    Ok(f) => {
                        if serial_valid(f.as_str()) && (serial.unicode_len() == 0 || str_eq(
                            f.as_str(),
                            serial,
                        )) {
                            let mut v: Vec<String> = Vec::new();
                            v.push(f);
                            proof {
                                assert(v@.map_values(|s: String| s@) =~= seq![seen->Ok_0@]);
                            }
                            Ok(v)
                        } else {
                            Err("Recovery device serial does not match the selected board.".to_owned())
                        }
                    },
                };
            }
            Err(PicotoolError::Exit { code, output }.message())
        },
    }
}
/// On a board with Secure Boot on, an image is allowed only when it is signed and its
/// key is one that a valid, non-revoked OTP slot holds: nothing else can grant trust.
pub proof fn law_secure_board_trusts_only_otp_keys(
    image: ImageInfoView,
    serial: Seq<char>,
    installed: Seq<char>,
    rd: OtpReader,
)
    ensures
        spec_assess_device(image, serial, installed, rd).0 matches Ok(a) && a.secure_boot
            && a.allowed ==> image.signed && image.fingerprint is Some && spec_trusted_boot_key(
            image.fingerprint,
            rd,
        ).0 == Ok::<Option<Seq<char>>, Seq<char>>(image.fingerprint),
{
}

/// Once a board reports Secure Boot on, the rest of its installed-image metadata
/// does not matter: the verdict is the same for any such report.
pub proof fn law_installed_metadata_cannot_substitute_for_otp_trust(
    image: ImageInfoView,
    serial: Seq<char>,
    installed1: Seq<char>,
    installed2: Seq<char>,
    rd: OtpReader,
)
    requires
        spec_property(installed1, "secure boot"@) == Some("1"@),
        spec_property(installed2, "secure boot"@) == Some("1"@),
    ensures
        spec_assess_device(image, serial, installed1, rd) == spec_assess_device(
            image,
            serial,
            installed2,
            rd,
        ),
{
}

/// A flash goes ahead exactly when the board allows the image, the typed phrase is
/// `FLASH ` and the board's serial, a different signing key was explicitly accepted, and the
/// confirmed snapshot is exactly the current assessment.
pub proof fn law_flash_needs_every_confirmation(
    phrase: Seq<char>,
    mismatch_accepted: bool,
    review: Option<ReviewView>,
    current: AssessmentView,
)
    ensures
        spec_validate_flash(phrase, mismatch_accepted, review, current) is Ok <==> {
            &&& current.allowed
            &&& phrase == "FLASH "@ + current.serial
            &&& current.mismatch ==> mismatch_accepted
            &&& review == Some(ReviewView::Flash(current))
        },
{
}

/// A probe for boards in update mode never reports a board other than the selected
/// one (any board when none is selected), and only valid serials.
pub proof fn law_probe_reports_only_the_selected_board(
    result: Result<Seq<char>, PicotoolErrorView>,
    serial: Seq<char>,
    factory: Result<Seq<char>, Seq<char>>,
)
    ensures
        spec_parse_bootsel(result, serial, factory) matches Ok(boards) ==> forall|i: int|
            0 <= i < boards.len() ==> spec_serial_valid(vstd::utf8::encode_utf8(#[trigger] boards[i]))
                && (serial.len() != 0 ==> boards[i] == serial),
{
    if let Ok(boards) = spec_parse_bootsel(result, serial, factory) {
        assert forall|i: int| 0 <= i < boards.len() implies spec_serial_valid(
            vstd::utf8::encode_utf8(#[trigger] boards[i]),
        ) && (serial.len() != 0 ==> boards[i] == serial) by {
            if let Ok(text) = result {
                assert(listed_boards(text, serial) == Ok::<Seq<Seq<char>>, Seq<char>>(boards));
                if !(spec_serial_valid(vstd::utf8::encode_utf8(boards[i])) && (serial.len() != 0
                    ==> boards[i] == serial)) {
                    assert(chip_ids(text)[i] == boards[i]);
                }
            }
        }
    }
}

/// What a probe's answer rests on: a listing gives exactly its chip ids, at least
/// one, each with an `RP2350` type line; no board at all is reported only when
/// picotool's whitespace-normalized failure is exactly the absence message for
/// `serial`; and the factory serial matters only for a broken metadata block loop.
pub proof fn law_probe_outcomes(
    result: Result<Seq<char>, PicotoolErrorView>,
    serial: Seq<char>,
    factory: Result<Seq<char>, Seq<char>>,
    other_factory: Result<Seq<char>, Seq<char>>,
)
    ensures
        result is Ok && spec_parse_bootsel(result, serial, factory) is Ok ==> ({
            let text = result->Ok_0;
            let ids = spec_parse_bootsel(result, serial, factory)->Ok_0;
            &&& ids == chip_ids(text)
            &&& ids.len() > 0
            &&& chip_types(text).len() == ids.len()
            &&& forall|i: int| 0 <= i < ids.len() ==> #[trigger] chip_types(text)[i] == "RP2350"@
        }),
        spec_parse_bootsel(result, serial, factory) == Ok::<Seq<Seq<char>>, Seq<char>>(
            Seq::empty(),
        ) ==> (result matches Err(PicotoolErrorView::Exit { output, .. }) && join_space(
            words(output),
        ) == absence_message(serial)),
        !needs_factory_serial(result, serial) ==> spec_parse_bootsel(result, serial, factory)
            == spec_parse_bootsel(result, serial, other_factory),
{
    if let Ok(text) = result {
        if let Ok(ids) = spec_parse_bootsel(result, serial, factory) {
            assert(listed_boards(text, serial) == Ok::<Seq<Seq<char>>, Seq<char>>(ids));
            assert(ids == chip_ids(text));
            assert(ids.len() > 0);
            assert(chip_types(text).len() == ids.len());
            assert forall|i: int| 0 <= i < ids.len() implies #[trigger] chip_types(text)[i]
                == "RP2350"@ by {
                if chip_types(text)[i] != "RP2350"@ {
                    assert(exists|k: int| 0 <= k < chip_types(text).len() && #[trigger] chip_types(text)[k] != "RP2350"@);
                }
            }
        }
    }
}

/// An image is accepted only as one RP2350 ARM Secure image: the block judged is the
/// single signed block or the single block, and its `target chip` is `RP2350` and
/// its `image type` is `ARM Secure`.
pub proof fn law_only_rp2350_arm_secure_images_are_accepted(text: Seq<char>, digest: Seq<char>)
    ensures
        spec_parse_image(text, digest) is Ok ==> chosen_block(text) is Some && spec_property(
            chosen_block(text)->0,
            "target chip"@,
        ) == Some("RP2350"@) && spec_property(chosen_block(text)->0, "image type"@) == Some(
            "ARM Secure"@,
        ),
        spec_parse_image(text, digest) matches Ok(img) ==> img.hash == digest,
{
}

/// The board's key and the key difference follow the board's Secure Boot state. The
/// state is on when the board reports it, or, when the board reports it off, when
/// the OTP critical rows vote it on. With Secure Boot off the board's key is the key
/// of the image installed on the board (none when none is installed), and the keys
/// differ exactly when it is not the new image's key; the image is then allowed.
/// With Secure Boot on the board's key is the trusted OTP key found for the image.
pub proof fn law_board_key_follows_the_secure_boot_state(
    image: ImageInfoView,
    serial: Seq<char>,
    installed: Seq<char>,
    rd: OtpReader,
)
    ensures
        spec_assess_device(image, serial, installed, rd).0 matches Ok(a) ==> {
            &&& a.image == image
            &&& a.serial == serial
            &&& a.mismatch == (image.fingerprint != a.board_key)
            &&& a.secure_boot == (spec_property(installed, "secure boot"@) == Some("1"@) || (
            spec_property(installed, "secure boot"@) == Some("0"@)
                && spec_secure_boot_enabled(rd).0 == Ok::<bool, String>(true)))
            &&& !a.secure_boot ==> a.allowed && spec_installed_image(installed) is Ok && a.board_key
                == match spec_installed_image(installed)->Ok_0 {
                Some(i) => i.fingerprint,
                None => None,
            }
            &&& a.secure_boot ==> spec_trusted_boot_key(image.fingerprint, rd).0 == Ok::<
                Option<Seq<char>>,
                Seq<char>,
            >(a.board_key)
        },
{
}

/// The verdict on an assessed image: it may be flashed exactly when the board runs
/// without Secure Boot, or when the image is signed and its key is the board's key;
/// a board that states its Secure Boot state as neither `1` nor `0` is not assessed.
pub proof fn law_assessment_allows_exactly_the_board_key(
    image: ImageInfoView,
    serial: Seq<char>,
    installed: Seq<char>,
    rd: OtpReader,
)
    ensures
        spec_assess_device(image, serial, installed, rd).0 matches Ok(a) ==> (a.allowed <==> (
        !a.secure_boot || (image.signed && image.fingerprint is Some && a.board_key
            == image.fingerprint))),
        spec_property(installed, "secure boot"@) != Some("1"@) && spec_property(
            installed,
            "secure boot"@,
        ) != Some("0"@) ==> spec_assess_device(image, serial, installed, rd).0 == Err::<
            AssessmentView,
            Seq<char>,
        >("Cannot determine the board's Secure Boot state."@),
{
}

/// The pieces kept for a property are pieces of the input that have it.
proof fn lemma_with_property_members(segs: Seq<Seq<char>>, label: Seq<char>)
    ensures
        forall|i: int|
            0 <= i < with_property(segs, label).len() ==> spec_property(
                #[trigger] with_property(segs, label)[i],
                label,
            ) is Some && segs.contains(with_property(segs, label)[i]),
    decreases segs.len(),
{
    if segs.len() > 0 {
        lemma_with_property_members(segs.drop_last(), label);
        let rest = with_property(segs.drop_last(), label);
        let all = with_property(segs, label);
        assert forall|i: int| 0 <= i < all.len() implies spec_property(#[trigger] all[i], label)
            is Some && segs.contains(all[i]) by {
            if i < rest.len() {
                assert(all[i] == rest[i]);
                let j = choose|j: int| 0 <= j < segs.drop_last().len() && segs.drop_last()[j] == rest[i];
                assert(segs[j] == all[i]);
            } else {
                assert(all[i] == segs.last());
                assert(segs[segs.len() - 1] == all[i]);
            }
        }
    }
}

/// The block an image is judged by is one of its metadata blocks that names an
/// image type: the only one that carries a signature, or, where none does, the
/// only such block at all.
pub proof fn law_judged_block_is_the_single_image_block(text: Seq<char>)
    ensures
        chosen_block(text) matches Some(b) ==> spec_property(b, "image type"@) is Some && split_str(
            text,
            "Metadata Block "@,
        ).drop_first().contains(b),
        chosen_block(text) matches Some(b) ==> if spec_property(b, "signature"@) is Some {
            with_property(image_blocks(text), "signature"@) == seq![b]
        } else {
            image_blocks(text) == seq![b]
        },
{
    let blocks = image_blocks(text);
    let signed = with_property(blocks, "signature"@);
    lemma_with_property_members(split_str(text, "Metadata Block "@).drop_first(), "image type"@);
    lemma_with_property_members(blocks, "signature"@);
    if let Some(b) = chosen_block(text) {
        if signed.len() == 1 {
            assert(blocks.contains(signed[0]));
            let j = choose|j: int| 0 <= j < blocks.len() && blocks[j] == signed[0];
            assert(spec_property(blocks[j], "image type"@) is Some);
            assert(signed =~= seq![b]);
        } else {
            assert(spec_property(blocks[0], "image type"@) is Some);
            assert(blocks =~= seq![b]);
            if spec_property(b, "signature"@) is Some {
                assert(blocks.drop_last() =~= Seq::<Seq<char>>::empty());
                assert(with_property(blocks.drop_last(), "signature"@).len() == 0);
                assert(signed.len() == 1);
            }
        }
    }
}

/// An image is never taken as unsigned because its signature failed: it is unsigned
/// only when its block states no signature (absent, `none`, `not present` or
/// `unsigned`) and carries no public key; it is signed only when picotool verified
/// the signature, and then its fingerprint is the digest of a 64-byte public key.
pub proof fn law_unverified_signature_is_never_unsigned(text: Seq<char>, digest: Seq<char>)
    ensures
        spec_parse_image(text, digest) matches Ok(img) ==> {
            let b = chosen_block(text)->0;
            let sig = spec_property(b, "signature"@);
            &&& chosen_block(text) is Some
            &&& img.signed <==> img.fingerprint is Some
            &&& !img.signed ==> (sig is None || sig == Some("none"@) || sig == Some(
                "not present"@,
            ) || sig == Some("unsigned"@)) && spec_property(b, "public key"@) is None
            &&& img.signed ==> sig == Some("verified"@) && exists|key: Seq<u8>|
                key.len() == 64 && img.fingerprint == Some(hex_lower(#[trigger] sha256(key)))
        },
{
    if let Ok(img) = spec_parse_image(text, digest) {
        let b = chosen_block(text)->0;
        if img.signed {
            let p = spec_property(b, "public key"@)->0;
            let key = hex_decoded(vstd::utf8::encode_utf8(p))->0;
            assert(img.fingerprint == Some(hex_lower(sha256(key))));
        }
    }
}

} // verus!
