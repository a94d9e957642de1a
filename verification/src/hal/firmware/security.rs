//! RP2350 boot policy: majority votes over redundant OTP rows and the staged
//! provisioning plan (register key, harden, enable Secure Boot, lock).
use vstd::prelude::*;
use vstd::string::StringSliceAdditionalSpecFns;
use crate::codec::{hex_decode, hex_decoded};
use crate::text::{
    str_eq, chars_of, follower_indices, followers, from_str_radix16, from_str_radix16_range, trim_end_char,
    trim_end_char_range, trim_start_0x, trim_start_0x_range, word_bounds, words,
};

verus! {

/// Bit `b` of `v` is set, written as the policy tests it.
pub open spec fn bit_set(v: u32, b: u32) -> bool {
    v & (1u32 << b) != 0
}

/// How many of `vals` have bit `b` set.
pub open spec fn count_with_bit(vals: Seq<u32>, b: u32) -> nat
    decreases vals.len(),
{
    if vals.len() == 0 {
        0
    } else {
        count_with_bit(vals.drop_last(), b) + if bit_set(vals.last(), b) { 1nat } else { 0nat }
    }
}

/// The vote over the low `n` bits: bit `b < n` is set when at least `threshold`
/// of the values have it set.
pub open spec fn vote_bits(vals: Seq<u32>, threshold: nat, n: u32) -> u32
    decreases n,
{
    if n == 0 {
        0
    } else {
        let rest = vote_bits(vals, threshold, (n - 1) as u32);
        if count_with_bit(vals, (n - 1) as u32) >= threshold {
            rest | (1u32 << ((n - 1) as u32))
        } else {
            rest
        }
    }
}

/// Bitwise majority-style vote over the 24 data bits of redundant OTP rows.
pub open spec fn spec_vote(vals: Seq<u32>, threshold: nat) -> u32 {
    vote_bits(vals, threshold, 24)
}

fn count_bit(values: &[u32], b: u32) -> (count: usize)
    requires
        b < 32,
    ensures
        count == count_with_bit(values@, b),
{
    let mut count: usize = 0;
    let mut i: usize = 0;
    while i < values.len()
        invariant
            b < 32,
            i <= values@.len(),
            count == count_with_bit(values@.take(i as int), b),
            count <= i,
        decreases values@.len() - i,
    {
        assert(values@.take(i as int + 1).drop_last() =~= values@.take(i as int));
        if values[i] & (1u32 << b) != 0 {
            count = count + 1;
        }
        i = i + 1;
    }
    assert(values@.take(values@.len() as int) =~= values@);
    count
}

/// Sets bit `b` (for `b < 24`) exactly when at least `threshold` values set it.
pub fn vote(values: &[u32], threshold: usize) -> (voted: u32)
    ensures
        voted == spec_vote(values@, threshold as nat),
{
    let mut acc: u32 = 0;
    let mut b: u32 = 0;
    while b < 24
        invariant
            b <= 24,
            acc == vote_bits(values@, threshold as nat, b),
        decreases 24 - b,
    {
        if count_bit(values, b) >= threshold {
            acc = acc | (1u32 << b);
        }
        b = b + 1;
    }
    acc
}

proof fn lemma_or_bit(x: u32, k: u32, b: u32)
    requires
        k < 32,
        b < 32,
    ensures
        ((x | (1u32 << k)) & (1u32 << b) != 0) == ((x & (1u32 << b) != 0) || b == k),
{
    assert(((x | (1u32 << k)) & (1u32 << b) != 0) == ((x & (1u32 << b) != 0) || b == k))
        by (bit_vector)
        requires
            k < 32,
            b < 32,
    ;
}

proof fn lemma_vote_bits(vals: Seq<u32>, threshold: nat, n: u32, b: u32)
    requires
        n <= 24,
        b < 32,
    ensures
        bit_set(vote_bits(vals, threshold, n), b) <==> (b < n && count_with_bit(vals, b) >= threshold),
    decreases n,
{
    if n == 0 {
        assert(0u32 & (1u32 << b) == 0) by (bit_vector);
    } else {
        lemma_vote_bits(vals, threshold, (n - 1) as u32, b);
        if count_with_bit(vals, (n - 1) as u32) >= threshold {
            lemma_or_bit(vote_bits(vals, threshold, (n - 1) as u32), (n - 1) as u32, b);
        }
    }
}

/// The vote over redundant OTP rows sets a data bit (one of the low 24) exactly when
/// at least `threshold` of the rows have it set, and sets no other bit.
pub proof fn law_vote_is_per_bit_threshold(vals: Seq<u32>, threshold: nat, b: u32)
    requires
        b < 32,
    ensures
        bit_set(spec_vote(vals, threshold), b) <==> (b < 24 && count_with_bit(vals, b) >= threshold),
{
    lemma_vote_bits(vals, threshold, 24, b);
}

/// A number as picotool prints an OTP row or value: hexadecimal, with any leading
/// `"0x"` removed first.
pub open spec fn otp_number(w: Seq<char>) -> Option<u32> {
    from_str_radix16(trim_start_0x(w))
}

/// The largest value an OTP row holds: 16 bits with ECC, 24 raw.
pub open spec fn otp_value_limit(ecc: bool) -> u32 {
    if ecc {
        0xffff
    } else {
        0xffffff
    }
}

/// What `otp get` output says of one row: the one `ROW` word must name `row` and the
/// one `VALUE` word must fit the row's width.
pub open spec fn spec_parse_row(text: Seq<char>, row: u16, ecc: bool) -> Result<u32, Seq<char>> {
    let ws = words(text);
    let vals = followers(ws, "VALUE"@);
    let rows = followers(ws, "ROW"@);
    if rows.len() != 1 || vals.len() != 1 {
        Err("Unexpected OTP row output."@)
    } else {
        match otp_number(trim_end_char(rows[0], ':')) {
            None => Err("Invalid OTP output"@),
            Some(r) => if r != row as u32 {
                Err("Unexpected OTP row output."@)
            } else {
                match otp_number(vals[0]) {
                    None => Err("Invalid OTP output"@),
                    Some(v) => if v > otp_value_limit(ecc) {
                        Err("Unexpected OTP value."@)
                    } else {
                        Ok(v)
                    },
                }
            },
        }
    }
}

/// A row value read from `otp get` output never exceeds the row's width: 16 bits
/// with ECC, 24 raw.
pub proof fn law_parsed_row_fits_width(text: Seq<char>, row: u16, ecc: bool)
    ensures
        spec_parse_row(text, row, ecc) matches Ok(v) ==> v <= otp_value_limit(ecc),
{
}

/// `otp get` output is read exactly: a row value is accepted precisely when the
/// output has one `ROW` word naming `row` (after its colon) and one `VALUE` word
/// holding a hexadecimal number that fits the row's width (16 bits with ECC, 24
/// raw), and the value is that number.
pub proof fn law_parse_row_accepts_exactly_the_row_width(text: Seq<char>, row: u16, ecc: bool)
    ensures
        ({
            let ws = words(text);
            let vals = followers(ws, "VALUE"@);
            let rows = followers(ws, "ROW"@);
            let bound: u32 = if ecc {
                0xffffu32
            } else {
                0xffffffu32
            };
            &&& spec_parse_row(text, row, ecc) matches Ok(v) ==> rows.len() == 1 && vals.len() == 1
                && otp_number(trim_end_char(rows[0], ':')) == Some(row as u32) && otp_number(vals[0])
                == Some(v) && v <= bound
            &&& (rows.len() == 1 && vals.len() == 1 && otp_number(trim_end_char(rows[0], ':'))
                == Some(row as u32) && otp_number(vals[0]) is Some && otp_number(vals[0])->0
                <= bound) ==> spec_parse_row(text, row, ecc) == Ok::<u32, Seq<char>>(
                otp_number(vals[0])->0,
            )
        }),
{
}

/// A `Result` whose error is a `String`, seen through the string's view.
pub open spec fn result_view<T>(r: Result<T, String>) -> Result<T, Seq<char>> {
    match r {
        Ok(v) => Ok(v),
        Err(e) => Err(e@),
    }
}

fn otp_number_range(cs: &Vec<char>, a: usize, b: usize) -> (r: Option<u32>)
    requires
        a <= b <= cs@.len(),
    ensures
        r == otp_number(cs@.subrange(a as int, b as int)),
{
    let s = trim_start_0x_range(cs, a, b);
    from_str_radix16_range(cs, s, b)
}

/// Reads the value of OTP `row` out of picotool's `otp get` output.
pub fn parse_row(text: &str, row: u16, ecc: bool) -> (r: Result<u32, String>)
    ensures
        result_view(r) == spec_parse_row(text@, row, ecc),
{
    let cs = chars_of(text);
    let b = word_bounds(&cs);
    let ghost ws = words(cs@);
    let vals = follower_indices(&cs, &b, &chars_of("VALUE"));
    let rows = follower_indices(&cs, &b, &chars_of("ROW"));
    if rows.len() != 1 || vals.len() != 1 {
        return Err("Unexpected OTP row output.".to_owned());
    }
    let (r0, r1) = b[rows[0]];
    let r1 = trim_end_char_range(&cs, r0, r1, ':');
    let found = match otp_number_range(&cs, r0, r1) {
        Some(n) => n,
        None => return Err("Invalid OTP output".to_owned()),
    };
    if found != row as u32 {
        return Err("Unexpected OTP row output.".to_owned());
    }
    let (v0, v1) = b[vals[0]];
    let value = match otp_number_range(&cs, v0, v1) {
        Some(n) => n,
        None => return Err("Invalid OTP output".to_owned()),
    };
    let limit: u32 = if ecc {
        0xffff
    } else {
        0xffffff
    };
    if value > limit {
        return Err("Unexpected OTP value.".to_owned());
    }
    Ok(value)
}

/// One OTP read as the board answered it: the row's value, or why it could not be read.
pub type OtpRead = Result<u32, String>;

/// A description of how the board answers OTP reads of `(row, ecc)`.
pub type OtpReader = spec_fn(u16, bool) -> OtpRead;

/// Every read in `keys` could have been answered by `read_word` as `rd` answers it.
pub open spec fn observed<F: Fn(u16, bool) -> OtpRead>(
    read_word: F,
    rd: OtpReader,
    keys: Seq<(u16, bool)>,
) -> bool {
    forall|k: int|
        0 <= k < keys.len() ==> call_ensures(
            read_word,
            ((#[trigger] keys[k]).0, keys[k].1),
            rd(keys[k].0, keys[k].1),
        )
}

/// Reads `rows[0..n]` in order and stops at the first failure: the values read (or
/// the failure) and the rows that were asked.
pub open spec fn read_rows(rows: Seq<(u16, bool)>, rd: OtpReader, n: nat) -> (
    Result<Seq<u32>, String>,
    Seq<(u16, bool)>,
)
    decreases n,
{
    if n == 0 {
        (Ok(Seq::empty()), Seq::empty())
    } else {
        let (r, q) = read_rows(rows, rd, (n - 1) as nat);
        match r {
            Err(e) => (Err(e), q),
            Ok(vs) => {
                let k = rows[n - 1];
                match rd(k.0, k.1) {
                    Ok(v) => (Ok(vs.push(v)), q.push(k)),
                    Err(e) => (Err(e), q.push(k)),
                }
            },
        }
    }
}

/// The rows asked are a prefix of `rows`; on success all `n` were read.
pub proof fn lemma_read_rows_prefix(rows: Seq<(u16, bool)>, rd: OtpReader, n: nat)
    requires
        n <= rows.len(),
    ensures
        read_rows(rows, rd, n).1.len() <= n,
        read_rows(rows, rd, n).1 == rows.take(read_rows(rows, rd, n).1.len() as int),
        read_rows(rows, rd, n).0 is Ok ==> read_rows(rows, rd, n).1.len() == n
            && read_rows(rows, rd, n).0->Ok_0.len() == n,
    decreases n,
{
    if n > 0 {
        lemma_read_rows_prefix(rows, rd, (n - 1) as nat);
        let q = read_rows(rows, rd, (n - 1) as nat).1;
        if read_rows(rows, rd, (n - 1) as nat).0 is Ok {
            assert(q.push(rows[n - 1]) =~= rows.take(n as int));
        }
    }
}

/// What the reads give depends only on the answers to the rows asked.
pub proof fn lemma_read_rows_agree(rows: Seq<(u16, bool)>, rd1: OtpReader, rd2: OtpReader, n: nat)
    requires
        n <= rows.len(),
        forall|k: int|
            0 <= k < read_rows(rows, rd1, n).1.len() ==> rd1(
                (#[trigger] read_rows(rows, rd1, n).1[k]).0,
                read_rows(rows, rd1, n).1[k].1,
            ) == rd2(read_rows(rows, rd1, n).1[k].0, read_rows(rows, rd1, n).1[k].1),
    ensures
        read_rows(rows, rd1, n) == read_rows(rows, rd2, n),
    decreases n,
{
    if n > 0 {
        let p1 = read_rows(rows, rd1, (n - 1) as nat);
        let whole = read_rows(rows, rd1, n);
        assert forall|k: int| 0 <= k < p1.1.len() implies rd1(
            (#[trigger] p1.1[k]).0,
            p1.1[k].1,
        ) == rd2(p1.1[k].0, p1.1[k].1) by {
            assert(whole.1[k] == p1.1[k]);
        }
        lemma_read_rows_agree(rows, rd1, rd2, (n - 1) as nat);
        if p1.0 is Ok {
            assert(whole.1[p1.1.len() as int] == rows[n - 1]);
        }
    }
}

/// `rd` with the answer for `(row, ecc)` replaced by `value`.
pub open spec fn answer(rd: OtpReader, row: u16, ecc: bool, value: OtpRead) -> OtpReader {
    |r: u16, e: bool|
        if r == row && e == ecc {
            value
        } else {
            rd(r, e)
        }
}

/// The rows `start, start + 1, ..` (`count` of them), all read the same way.
pub open spec fn row_span(start: u16, count: nat, ecc: bool) -> Seq<(u16, bool)> {
    Seq::new(count, |i: int| ((start + i) as u16, ecc))
}

pub(crate) fn row_span_exec(start: u16, count: u16, ecc: bool) -> (rows: Vec<(u16, bool)>)
    requires
        start + count <= u16::MAX,
    ensures
        rows@ == row_span(start, count as nat, ecc),
        rows@.no_duplicates(),
{
    let mut rows: Vec<(u16, bool)> = Vec::new();
    let mut i: u16 = 0;
    while i < count
        invariant
            i <= count,
            start + count <= u16::MAX,
            rows@ =~= row_span(start, i as nat, ecc),
        decreases count - i,
    {
        rows.push((start + i, ecc));
        i = i + 1;
    }
    proof {
        assert forall|a: int, b: int| 0 <= a < rows@.len() && 0 <= b < rows@.len() && a != b implies rows@[a] != rows@[b] by {
            assert(rows@[a].0 == start + a);
            assert(rows@[b].0 == start + b);
        }
    }
    rows
}

/// Reads `rows` in order with `read_word`, stopping at the first failure. `rd` is
/// extended with the answers received.
pub(crate) fn read_rows_exec<F: Fn(u16, bool) -> OtpRead>(
    read_word: &F,
    rows: &Vec<(u16, bool)>,
    Ghost(rd): Ghost<OtpReader>,
) -> (out: (Result<Vec<u32>, String>, Ghost<OtpReader>))
    requires
        forall|r: u16, e: bool| call_requires(*read_word, (r, e)),
        rows@.no_duplicates(),
    ensures
        ({
            let rd2 = out.1@;
            &&& out.0 matches Ok(v) ==> read_rows(rows@, rd2, rows@.len()).0 == Ok::<Seq<u32>, String>(v@)
            &&& out.0 matches Err(e) ==> read_rows(rows@, rd2, rows@.len()).0 == Err::<Seq<u32>, String>(e)
            &&& observed(*read_word, rd2, read_rows(rows@, rd2, rows@.len()).1)
            &&& forall|r: u16, e: bool| !rows@.contains((r, e)) ==> rd2(r, e) == rd(r, e)
        }),
{
    let ghost mut cur = rd;
    let mut vals: Vec<u32> = Vec::new();
    let mut i: usize = 0;
    while i < rows.len()
        invariant
            forall|r: u16, e: bool| call_requires(*read_word, (r, e)),
            rows@.no_duplicates(),
            i <= rows@.len(),
            read_rows(rows@, cur, i as nat).0 == Ok::<Seq<u32>, String>(vals@),
            read_rows(rows@, cur, i as nat).1 == rows@.take(i as int),
            observed(*read_word, cur, rows@.take(i as int)),
            forall|r: u16, e: bool| !rows@.take(i as int).contains((r, e)) ==> cur(r, e) == rd(r, e),
        decreases rows@.len() - i,
    {
        let (row, ecc) = rows[i];
        let got = read_word(row, ecc);
        let ghost next = answer(cur, row, ecc, got);
        proof {
            assert forall|k: int|
                0 <= k < read_rows(rows@, cur, i as nat).1.len() implies cur(
                (#[trigger] read_rows(rows@, cur, i as nat).1[k]).0,
                read_rows(rows@, cur, i as nat).1[k].1,
            ) == next(read_rows(rows@, cur, i as nat).1[k].0, read_rows(rows@, cur, i as nat).1[k].1) by {
                assert(rows@.take(i as int)[k] == rows@[k]);
                assert(rows@[k] != rows@[i as int]);
            }
            lemma_read_rows_agree(rows@, cur, next, i as nat);
            assert(rows@.take(i as int + 1) =~= rows@.take(i as int).push(rows@[i as int]));
            assert forall|k: int| 0 <= k < rows@.take(i as int + 1).len() implies call_ensures(
                *read_word,
                ((#[trigger] rows@.take(i as int + 1)[k]).0, rows@.take(i as int + 1)[k].1),
                next(rows@.take(i as int + 1)[k].0, rows@.take(i as int + 1)[k].1),
            ) by {
                if k < i {
                    assert(rows@.take(i as int)[k] == rows@.take(i as int + 1)[k]);
                    assert(rows@[k] != rows@[i as int]);
                }
            }
            assert forall|r: u16, e: bool| #![trigger rd(r, e)] !rows@.take(i as int + 1).contains((r, e)) implies next(
                r,
                e,
            ) == rd(r, e) by {
                assert(rows@.take(i as int + 1)[i as int] == rows@[i as int]);
                if rows@.take(i as int).contains((r, e)) {
                    let j = choose|j: int| 0 <= j < i && rows@.take(i as int)[j] == (r, e);
                    assert(rows@.take(i as int + 1)[j] == (r, e));
                }
            }
        }
        match got {
            Ok(v) => {
                vals.push(v);
                proof {
                    cur = next;
                }
            },
            Err(e) => {
                proof {
                    cur = next;
                    lemma_read_rows_prefix(rows@, cur, (i + 1) as nat);
                    lemma_read_rows_err_stays(rows@, cur, (i + 1) as nat, rows@.len());
                    lemma_read_rows_prefix(rows@, cur, rows@.len());
                    assert(rows@.take(i as int + 1) =~= rows@.take(i as int + 1));
                }
                return (Err(e), Ghost(cur));
            },
        }
        i = i + 1;
    }
    assert(rows@.take(rows@.len() as int) =~= rows@);
    (Ok(vals), Ghost(cur))
}

/// Once a read has failed, reading further rows changes nothing.
pub proof fn lemma_read_rows_err_stays(rows: Seq<(u16, bool)>, rd: OtpReader, n: nat, m: nat)
    requires
        n <= m,
        read_rows(rows, rd, n).0 is Err,
    ensures
        read_rows(rows, rd, m) == read_rows(rows, rd, n),
    decreases m - n,
{
    if m > n {
        lemma_read_rows_err_stays(rows, rd, n, (m - 1) as nat);
    }
}

/// The eight critical-flag rows.
pub open spec fn crit_rows() -> Seq<(u16, bool)> {
    row_span(0x40, 8, false)
}

/// The three boot-key flag rows.
pub open spec fn flag_rows() -> Seq<(u16, bool)> {
    row_span(0x4b, 3, false)
}

/// Secure Boot is on when bit 0 of the vote (three of eight) over the critical rows is set.
pub open spec fn spec_secure_boot_enabled(rd: OtpReader) -> (Result<bool, String>, Seq<(u16, bool)>) {
    let (r, q) = read_rows(crit_rows(), rd, 8);
    (
        match r {
            Ok(v) => Ok(spec_vote(v, 3) & 1 != 0),
            Err(e) => Err(e),
        },
        q,
    )
}

/// Whether the board's OTP critical flags enable Secure Boot, read row by row.
pub fn secure_boot_enabled(read_word: impl Fn(u16, bool) -> OtpRead) -> (r: Result<bool, String>)
    requires
        forall|row: u16, ecc: bool| call_requires(read_word, (row, ecc)),
    ensures
        exists|rd: OtpReader|
            #![trigger spec_secure_boot_enabled(rd)]
            observed(read_word, rd, spec_secure_boot_enabled(rd).1) && r
                == spec_secure_boot_enabled(rd).0,
{
    let (r, Ghost(rd)) = secure_boot_enabled_with(&read_word, Ghost(|r: u16, e: bool| Ok(0)));
    r
}

/// [`secure_boot_enabled`], extending the description `rd` of the board's answers
/// with the critical rows it reads.
pub(crate) fn secure_boot_enabled_with<F: Fn(u16, bool) -> OtpRead>(
    read_word: &F,
    Ghost(rd): Ghost<OtpReader>,
) -> (out: (Result<bool, String>, Ghost<OtpReader>))
    requires
        forall|row: u16, ecc: bool| call_requires(*read_word, (row, ecc)),
    ensures
        observed(*read_word, out.1@, spec_secure_boot_enabled(out.1@).1),
        out.0 == spec_secure_boot_enabled(out.1@).0,
        forall|r: u16, e: bool| !(!e && 0x40 <= r < 0x48) ==> #[trigger] out.1@(r, e) == rd(r, e),
{
    let rows = row_span_exec(0x40, 8, false);
    let (got, Ghost(rd2)) = read_rows_exec(read_word, &rows, Ghost(rd));
    let r = match got {
        Ok(critical) => Ok(vote(critical.as_slice(), 3) & 1 != 0),
        Err(e) => Err(e),
    };
    proof {
        assert forall|r: u16, e: bool| !(!e && 0x40 <= r < 0x48) implies #[trigger] rd2(r, e) == rd(r, e) by {
            if rows@.contains((r, e)) {
                let j = choose|j: int| 0 <= j < rows@.len() && rows@[j] == (r, e);
                assert(rows@[j] == ((0x40 + j) as u16, false));
            }
        }
    }
    (r, Ghost(rd2))
}

/// `v` in upper-case hexadecimal without leading zeros (`"0"` for zero).
pub open spec fn upper_hex(v: nat) -> Seq<char>
    decreases v,
{
    if v < 16 {
        seq![crate::codec::upper_digit(v as u8)]
    } else {
        upper_hex(v / 16).push(crate::codec::upper_digit((v % 16) as u8))
    }
}

/// `format!("{v:04X}")`: upper-case hexadecimal, padded with zeros to four digits.
pub open spec fn upper_hex4(v: u32) -> Seq<char> {
    let d = upper_hex(v as nat);
    if d.len() < 4 {
        Seq::new((4 - d.len()) as nat, |i: int| '0') + d
    } else {
        d
    }
}

/// The factory serial: the four ECC words of rows 0 to 3, last row first, each as
/// four upper-case hexadecimal digits.
pub open spec fn factory_serial_text(words: Seq<u32>) -> Seq<char>
    decreases words.len(),
{
    if words.len() == 0 {
        Seq::empty()
    } else {
        upper_hex4(words.last()) + factory_serial_text(words.drop_last())
    }
}

/// The factory serial read from OTP rows 0 to 3, or the first read that failed.
pub open spec fn spec_factory_serial(rd: OtpReader) -> (Result<Seq<char>, String>, Seq<(u16, bool)>) {
    let (r, q) = read_rows(row_span(0, 4, true), rd, 4);
    (
        match r {
            Ok(v) => Ok(factory_serial_text(v)),
            Err(e) => Err(e),
        },
        q,
    )
}

fn push_upper_hex(out: &mut String, v: u32)
    ensures
        final(out)@ == old(out)@ + upper_hex(v as nat),
    decreases v,
{
    let d: u8 = (v % 16) as u8;
    if v >= 16 {
        push_upper_hex(out, v / 16);
    }
    let c: &str = match d {
        0 => "0",
        1 => "1",
        2 => "2",
        3 => "3",
        4 => "4",
        5 => "5",
        6 => "6",
        7 => "7",
        8 => "8",
        9 => "9",
        10 => "A",
        11 => "B",
        12 => "C",
        13 => "D",
        14 => "E",
        _ => "F",
    };
    proof {
        reveal_strlit("0");
        reveal_strlit("1");
        reveal_strlit("2");
        reveal_strlit("3");
        reveal_strlit("4");
        reveal_strlit("5");
        reveal_strlit("6");
        reveal_strlit("7");
        reveal_strlit("8");
        reveal_strlit("9");
        reveal_strlit("A");
        reveal_strlit("B");
        reveal_strlit("C");
        reveal_strlit("D");
        reveal_strlit("E");
        reveal_strlit("F");
    }
    out.append(c);
    assert(c@ =~= seq![crate::codec::upper_digit(d)]);
}

/// `format!("{v:04X}")`.
pub fn format_upper_hex4(v: u32) -> (s: String)
    ensures
        s@ == upper_hex4(v),
{
    let mut digits = String::new();
    push_upper_hex(&mut digits, v);
    let mut out = String::new();
    let len: usize = digits.unicode_len();
    let mut n: usize = len;
    let ghost d = upper_hex(v as nat);
    while n < 4
        invariant
            len == d.len(),
            len <= n,
            len < 4 ==> n <= 4,
            len >= 4 ==> n == len,
            out@ =~= Seq::new((n - d.len()) as nat, |i: int| '0'),
        decreases 4 - n,
    {
        proof {
            reveal_strlit("0");
        }
        out.append("0");
        n = n + 1;
    }
    let ghost zeros = out@;
    out.append(digits.as_str());
    proof {
        if len >= 4 {
            assert(zeros =~= Seq::<char>::empty());
            assert(out@ =~= d);
        } else {
            assert(n == 4);
        }
    }
    out
}

/// Formats the factory serial from the words of OTP rows 0 to 3.
pub fn format_factory_serial(words: &Vec<u32>) -> (s: String)
    ensures
        s@ == factory_serial_text(words@),
{
    let mut out = String::new();
    let mut i: usize = words.len();
    assert(words@.take(i as int) =~= words@);
    assert(out@ + factory_serial_text(words@) =~= factory_serial_text(words@));
    while i > 0
        invariant
            i <= words@.len(),
            out@ + factory_serial_text(words@.take(i as int)) == factory_serial_text(words@),
        decreases i,
    {
        assert(words@.take(i as int).drop_last() =~= words@.take(i as int - 1));
        let ghost before = out@;
        let part = format_upper_hex4(words[i - 1]);
        out.append(part.as_str());
        proof {
            let rest = factory_serial_text(words@.take(i as int - 1));
            assert(words@.take(i as int).last() == words@[i as int - 1]);
            assert(factory_serial_text(words@.take(i as int)) == part@ + rest);
            assert(out@ + rest =~= before + (part@ + rest));
        }
        i = i - 1;
    }
    assert(words@.take(0) =~= Seq::<u32>::empty());
    assert(out@ + Seq::<char>::empty() =~= out@);
    out
}

/// An upper-case hexadecimal digit reads back as its value.
proof fn lemma_upper_digit_value(d: u8)
    requires
        d < 16,
    ensures
        crate::text::hex_digit_value(crate::codec::upper_digit(d)) == Some(d as nat),
        '0' <= crate::codec::upper_digit(d) <= '9' || 'A' <= crate::codec::upper_digit(d) <= 'F',
{
}

/// The digits of `v` read back as `v`, and there are at most four below `0x10000`.
proof fn lemma_upper_hex_value(v: nat)
    ensures
        crate::text::hex_digits_value(upper_hex(v)) == Some(v),
        upper_hex(v).len() >= 1,
        v < 0x10 ==> upper_hex(v).len() <= 1,
        v < 0x100 ==> upper_hex(v).len() <= 2,
        v < 0x1000 ==> upper_hex(v).len() <= 3,
        v < 0x10000 ==> upper_hex(v).len() <= 4,
    decreases v,
{
    if v < 16 {
        lemma_upper_digit_value(v as u8);
        let s = upper_hex(v);
        assert(s.drop_last() =~= Seq::<char>::empty());
        assert(crate::text::hex_digits_value(s.drop_last()) == Some(0nat));
    } else {
        lemma_upper_hex_value(v / 16);
        lemma_upper_digit_value((v % 16) as u8);
        let s = upper_hex(v);
        assert(s.drop_last() =~= upper_hex(v / 16));
        assert((v / 16) * 16 + v % 16 == v);
    }
}

/// Leading zeros do not change the value of hexadecimal digits.
proof fn lemma_zero_prefix_value(k: nat, d: Seq<char>)
    ensures
        crate::text::hex_digits_value(Seq::new(k, |i: int| '0') + d) == crate::text::hex_digits_value(d),
    decreases d.len(), k,
{
    let z = Seq::new(k, |i: int| '0');
    if d.len() == 0 {
        assert(z + d =~= z);
        if k > 0 {
            lemma_zero_prefix_value((k - 1) as nat, d);
            let z1 = Seq::new((k - 1) as nat, |i: int| '0');
            assert(z.drop_last() =~= z1);
            assert(z1 + d =~= z1);
        }
    } else {
        lemma_zero_prefix_value(k, d.drop_last());
        assert((z + d).drop_last() =~= z + d.drop_last());
        assert((z + d).last() == d.last());
    }
}

/// The factory serial shows each of the four ECC words (16 bits each) as exactly four
/// upper-case hexadecimal digits, the word of row 3 first: the serial is sixteen
/// such digits, and its `i`-th group of four reads back as the word of row `3 - i`.
pub proof fn law_factory_serial_shows_each_word(words: Seq<u32>)
    requires
        words.len() == 4,
        forall|i: int| 0 <= i < 4 ==> #[trigger] words[i] <= 0xffff,
    ensures
        factory_serial_text(words).len() == 16,
        forall|j: int|
            0 <= j < 16 ==> ('0' <= #[trigger] factory_serial_text(words)[j] <= '9' || 'A'
                <= factory_serial_text(words)[j] <= 'F'),
        forall|i: int|
            0 <= i < 4 ==> crate::text::hex_digits_value(
                #[trigger] factory_serial_text(words).subrange(4 * i, 4 * i + 4),
            ) == Some(words[3 - i] as nat),
{
    assert forall|i: int| 0 <= i < 4 implies {
        let h = #[trigger] upper_hex4(words[i]);
        &&& h.len() == 4
        &&& crate::text::hex_digits_value(h) == Some(words[i] as nat)
        &&& forall|j: int| 0 <= j < 4 ==> ('0' <= #[trigger] h[j] <= '9' || 'A' <= h[j] <= 'F')
    } by {
        let v = words[i];
        lemma_upper_hex_value(v as nat);
        let d = upper_hex(v as nat);
        let h = upper_hex4(v);
        lemma_upper_hex_digits(v as nat);
        if d.len() < 4 {
            lemma_zero_prefix_value((4 - d.len()) as nat, d);
            let z = Seq::new((4 - d.len()) as nat, |k: int| '0');
            assert forall|j: int| 0 <= j < 4 implies ('0' <= #[trigger] h[j] <= '9' || 'A' <= h[j] <= 'F') by {
                if j < z.len() {
                    assert(h[j] == z[j]);
                } else {
                    assert(h[j] == d[j - z.len()]);
                }
            }
        }
    }
    let w3 = words.drop_last();
    let w2 = w3.drop_last();
    let w1 = w2.drop_last();
    let w0 = w1.drop_last();
    assert(w0 =~= Seq::<u32>::empty());
    let s = factory_serial_text(words);
    let h0 = upper_hex4(words[0]);
    let h1 = upper_hex4(words[1]);
    let h2 = upper_hex4(words[2]);
    let h3 = upper_hex4(words[3]);
    assert(factory_serial_text(w0) =~= Seq::<char>::empty());
    assert(factory_serial_text(w1) =~= h0);
    assert(factory_serial_text(w2) == h1 + h0);
    assert(factory_serial_text(w3) == h2 + (h1 + h0));
    assert(s == h3 + (h2 + (h1 + h0)));
    assert(s.subrange(0, 4) =~= h3);
    assert(s.subrange(4, 8) =~= h2);
    assert(s.subrange(8, 12) =~= h1);
    assert(s.subrange(12, 16) =~= h0);
    assert forall|j: int| 0 <= j < 16 implies ('0' <= #[trigger] s[j] <= '9' || 'A' <= s[j] <= 'F') by {
        if j < 4 {
            assert(s[j] == h3[j]);
        } else if j < 8 {
            assert(s[j] == h2[j - 4]);
        } else if j < 12 {
            assert(s[j] == h1[j - 8]);
        } else {
            assert(s[j] == h0[j - 12]);
        }
    }
}

/// Every digit of `upper_hex(v)` is an upper-case hexadecimal digit.
proof fn lemma_upper_hex_digits(v: nat)
    ensures
        forall|j: int|
            0 <= j < upper_hex(v).len() ==> ('0' <= #[trigger] upper_hex(v)[j] <= '9' || 'A'
                <= upper_hex(v)[j] <= 'F'),
    decreases v,
{
    if v < 16 {
        lemma_upper_digit_value(v as u8);
    } else {
        lemma_upper_hex_digits(v / 16);
        lemma_upper_digit_value((v % 16) as u8);
        let s = upper_hex(v);
        assert forall|j: int| 0 <= j < s.len() implies ('0' <= #[trigger] s[j] <= '9' || 'A' <= s[j] <= 'F') by {
            if j < s.len() - 1 {
                assert(s[j] == upper_hex(v / 16)[j]);
            }
        }
    }
}

/// The board's factory serial, read from OTP rows 0 to 3 with ECC.
pub fn factory_serial(read_word: impl Fn(u16, bool) -> OtpRead) -> (r: Result<String, String>)
    requires
        forall|row: u16, ecc: bool| call_requires(read_word, (row, ecc)),
    ensures
        exists|rd: OtpReader|
            #![trigger spec_factory_serial(rd)]
            observed(read_word, rd, spec_factory_serial(rd).1) && match (
                r,
                spec_factory_serial(rd).0,
            ) {
                (Ok(a), Ok(b)) => a@ == b,
                (Err(a), Err(b)) => a == b,
                _ => false,
            },
{
    let rows = row_span_exec(0, 4, true);
    let (got, Ghost(rd)) = read_rows_exec(&read_word, &rows, Ghost(|r: u16, e: bool| Ok(0)));
    let r = match got {
        Ok(words) => Ok(format_factory_serial(&words)),
        Err(e) => Err(e),
    };
    assert(observed(read_word, rd, spec_factory_serial(rd).1));
    r
}

/// The characters of an optional string slice.
pub open spec fn opt_str_view(o: Option<&str>) -> Option<Seq<char>> {
    match o {
        Some(s) => Some(s@),
        None => None,
    }
}

/// The sixteen ECC rows that hold boot-key slot `slot`.
pub open spec fn slot_rows(slot: int) -> Seq<(u16, bool)> {
    row_span((0x80 + slot * 16) as u16, 16, true)
}

/// The boot-key slots that are valid and not revoked, as a bit mask: the voted
/// flags' low four bits without the four revocation bits above bit 8.
pub open spec fn trusted_mask(flags: u32) -> u32 {
    (flags & 15) & !((flags >> 8) & 15)
}

/// The key bytes that ECC words hold: each word's low 16 bits, little-endian.
pub open spec fn key_words_bytes(words: Seq<u32>) -> Seq<u8> {
    Seq::new(
        2 * words.len(),
        |i: int|
            if i % 2 == 0 {
                (words[i / 2] % 256) as u8
            } else {
                ((words[i / 2] / 256) % 256) as u8
            },
    )
}

/// The message for a key slot whose rows could not be read.
pub open spec fn slot_error(slot: int, e: Seq<char>) -> Seq<char> {
    "Cannot verify OTP signing key "@ + seq![(slot + 48) as char] + ": "@ + e
}

/// Looks through slots `0..n` that `active` marks: whether one holds the key with
/// fingerprint `fp`, or the first slot that could not be read.
pub open spec fn scan_slots(fp: Seq<char>, active: u32, rd: OtpReader, n: nat) -> (
    Result<bool, Seq<char>>,
    Seq<(u16, bool)>,
)
    decreases n,
{
    if n == 0 {
        (Ok(false), Seq::empty())
    } else {
        let (r, q) = scan_slots(fp, active, rd, (n - 1) as nat);
        let slot = n - 1;
        match r {
            Err(e) => (Err(e), q),
            Ok(m) => if active & (1u32 << (slot as u32)) == 0 {
                (Ok(m), q)
            } else {
                let (rr, qq) = read_rows(slot_rows(slot), rd, 16);
                match rr {
                    Err(e) => (Err(slot_error(slot, e@)), q + qq),
                    Ok(ws) => (Ok(m || crate::codec::hex_lower(key_words_bytes(ws)) == fp), q + qq),
                }
            },
        }
    }
}

/// The trusted key: `fp` itself when a valid, non-revoked OTP slot holds that key,
/// `None` when none does or no fingerprint is given, or the first read that failed.
pub open spec fn spec_trusted_boot_key(fp: Option<Seq<char>>, rd: OtpReader) -> (
    Result<Option<Seq<char>>, Seq<char>>,
    Seq<(u16, bool)>,
) {
    match fp {
        None => (Ok(None), Seq::empty()),
        Some(f) => {
            let (r, q) = read_rows(flag_rows(), rd, 3);
            match r {
                Err(e) => (Err(e@), q),
                Ok(fl) => {
                    let (sr, sq) = scan_slots(f, trusted_mask(spec_vote(fl, 2)), rd, 4);
                    (
                        match sr {
                            Ok(true) => Ok(Some(f)),
                            Ok(false) => Ok(None),
                            Err(e) => Err(e),
                        },
                        q + sq,
                    )
                },
            }
        },
    }
}

/// The rows of key slot `slot` asked by a read of them.
pub proof fn lemma_slot_rows_asked(slot: int, rd: OtpReader)
    requires
        0 <= slot < 4,
    ensures
        forall|k: int|
            0 <= k < read_rows(slot_rows(slot), rd, 16).1.len() ==> {
                let key = #[trigger] read_rows(slot_rows(slot), rd, 16).1[k];
                &&& key.1
                &&& 0x80 + slot * 16 <= key.0 < 0x80 + slot * 16 + 16
            },
{
    lemma_read_rows_prefix(slot_rows(slot), rd, 16);
    let q = read_rows(slot_rows(slot), rd, 16).1;
    assert forall|k: int| 0 <= k < q.len() implies {
        let key = #[trigger] q[k];
        &&& key.1
        &&& 0x80 + slot * 16 <= key.0 < 0x80 + slot * 16 + 16
    } by {
        assert(q[k] == slot_rows(slot)[k]);
    }
}

/// The rows asked while scanning slots `0..n` are ECC rows of those slots.
pub proof fn lemma_scan_slots_asked(fp: Seq<char>, active: u32, rd: OtpReader, n: nat)
    requires
        n <= 4,
    ensures
        forall|k: int|
            0 <= k < scan_slots(fp, active, rd, n).1.len() ==> {
                let key = #[trigger] scan_slots(fp, active, rd, n).1[k];
                &&& key.1
                &&& 0x80 <= key.0 < 0x80 + n * 16
            },
    decreases n,
{
    if n > 0 {
        lemma_scan_slots_asked(fp, active, rd, (n - 1) as nat);
        lemma_slot_rows_asked(n - 1, rd);
        let (r, q) = scan_slots(fp, active, rd, (n - 1) as nat);
        let whole = scan_slots(fp, active, rd, n);
        let qq = read_rows(slot_rows(n - 1), rd, 16).1;
        assert forall|k: int| 0 <= k < whole.1.len() implies {
            let key = #[trigger] whole.1[k];
            &&& key.1
            &&& 0x80 <= key.0 < 0x80 + n * 16
        } by {
            if k < q.len() {
                assert(whole.1[k] == q[k]);
            } else {
                assert(whole.1[k] == qq[k - q.len()]);
            }
        }
    }
}

/// Scanning slots `0..n` depends only on the answers for their ECC rows.
pub proof fn lemma_scan_slots_frame(
    fp: Seq<char>,
    active: u32,
    rd1: OtpReader,
    rd2: OtpReader,
    n: nat,
)
    requires
        n <= 4,
        forall|r: u16| 0x80 <= r < 0x80 + n * 16 ==> #[trigger] rd1(r, true) == rd2(r, true),
    ensures
        scan_slots(fp, active, rd1, n) == scan_slots(fp, active, rd2, n),
    decreases n,
{
    if n > 0 {
        lemma_scan_slots_frame(fp, active, rd1, rd2, (n - 1) as nat);
        lemma_slot_rows_asked(n - 1, rd1);
        let q = read_rows(slot_rows(n - 1), rd1, 16).1;
        assert forall|k: int| 0 <= k < q.len() implies rd1((#[trigger] q[k]).0, q[k].1) == rd2(
            q[k].0,
            q[k].1,
        ) by {
            assert(q[k].1);
        }
        lemma_read_rows_agree(slot_rows(n - 1), rd1, rd2, 16);
    }
}

/// `fp` when an active slot holds that key, found by reading the flag rows and then
/// the key rows of each active slot.
pub fn trusted_boot_key(fingerprint: Option<&str>, read_word: impl Fn(u16, bool) -> OtpRead) -> (r:
    Result<Option<String>, String>)
    requires
        forall|row: u16, ecc: bool| call_requires(read_word, (row, ecc)),
    ensures
        exists|rd: OtpReader|
            #![trigger spec_trusted_boot_key(opt_str_view(fingerprint), rd)]
            observed(read_word, rd, spec_trusted_boot_key(opt_str_view(fingerprint), rd).1)
                && trusted_key_matches(r, spec_trusted_boot_key(opt_str_view(fingerprint), rd).0),
{
    let (r, Ghost(rd)) = trusted_boot_key_with(fingerprint, &read_word, Ghost(|r: u16, e: bool| Ok(0)));
    r
}

/// A trusted-key result agrees with its description.
pub open spec fn trusted_key_matches(
    r: Result<Option<String>, String>,
    s: Result<Option<Seq<char>>, Seq<char>>,
) -> bool {
    match (r, s) {
        (Ok(Some(a)), Ok(Some(b))) => a@ == b,
        (Ok(None), Ok(None)) => true,
        (Err(a), Err(b)) => a@ == b,
        _ => false,
    }
}

/// The rows [`trusted_boot_key`] may read: the raw flag rows and the ECC key rows.
pub open spec fn key_lookup_row(r: u16, e: bool) -> bool {
    (!e && 0x4b <= r < 0x4e) || (e && 0x80 <= r < 0xc0)
}

/// [`trusted_boot_key`], extending the description `rd_in` of the board's answers
/// with the rows it reads.
pub(crate) fn trusted_boot_key_with<F: Fn(u16, bool) -> OtpRead>(
    fingerprint: Option<&str>,
    read_word: &F,
    Ghost(rd_in): Ghost<OtpReader>,
) -> (out: (Result<Option<String>, String>, Ghost<OtpReader>))
    requires
        forall|row: u16, ecc: bool| call_requires(*read_word, (row, ecc)),
    ensures
        observed(*read_word, out.1@, spec_trusted_boot_key(opt_str_view(fingerprint), out.1@).1),
        trusted_key_matches(out.0, spec_trusted_boot_key(opt_str_view(fingerprint), out.1@).0),
        forall|r: u16, e: bool| !key_lookup_row(r, e) ==> #[trigger] out.1@(r, e) == rd_in(r, e),
{
    let fp_str = match fingerprint {
        Some(f) => f,
        None => {
            assert(observed(*read_word, rd_in, spec_trusted_boot_key(None, rd_in).1));
            return (Ok(None), Ghost(rd_in));
        },
    };
    let ghost f = fp_str@;
    let flag_list = row_span_exec(0x4b, 3, false);
    let (got, Ghost(rd0)) = read_rows_exec(read_word, &flag_list, Ghost(rd_in));
    let flags = match got {
        Ok(v) => v,
        Err(e) => {
            assert(observed(*read_word, rd0, spec_trusted_boot_key(Some(f), rd0).1));
            proof {
                lemma_flag_rows_frame(flag_list@, rd_in, rd0);
            }
            return (Err(e), Ghost(rd0));
        },
    };
    let ghost q0 = read_rows(flag_rows(), rd0, 3).1;
    proof {
        lemma_flag_rows_frame(flag_list@, rd_in, rd0);
    }
    proof {
        lemma_read_rows_prefix(flag_rows(), rd0, 3);
        assert forall|k: int| 0 <= k < q0.len() implies !(#[trigger] q0[k]).1 by {
            assert(q0[k] == flag_rows()[k]);
        }
    }
    let voted = vote(flags.as_slice(), 2);
    let active: u32 = (voted & 15) & !((voted >> 8) & 15);
    let mut matched = false;
    let ghost mut cur = rd0;
    let mut slot: u32 = 0;
    while slot < 4
        invariant
            forall|row: u16, ecc: bool| call_requires(*read_word, (row, ecc)),
            slot <= 4,
            forall|r: u16, e: bool| !key_lookup_row(r, e) ==> #[trigger] cur(r, e) == rd_in(r, e),
            f == fp_str@,
            opt_str_view(fingerprint) == Some(f),
            active == trusted_mask(spec_vote(flags@, 2)),
            read_rows(flag_rows(), cur, 3) == read_rows(flag_rows(), rd0, 3),
            read_rows(flag_rows(), rd0, 3).0 == Ok::<Seq<u32>, String>(flags@),
            q0 == read_rows(flag_rows(), rd0, 3).1,
            forall|k: int| 0 <= k < q0.len() ==> !(#[trigger] q0[k]).1,
            scan_slots(f, active, cur, slot as nat).0 == Ok::<bool, Seq<char>>(matched),
            observed(*read_word, cur, q0 + scan_slots(f, active, cur, slot as nat).1),
        decreases 4 - slot,
    {
        if active & (1u32 << slot) != 0 {
            let start: u16 = 0x80 + (slot as u16) * 16;
            let rows = row_span_exec(start, 16, true);
            assert(rows@ == slot_rows(slot as int));
            let ghost before = cur;
            let (got, Ghost(next)) = read_rows_exec(read_word, &rows, Ghost(cur));
            proof {
                assert forall|r: u16, e: bool| !key_lookup_row(r, e) implies #[trigger] next(r, e) == rd_in(r, e) by {
                    if rows@.contains((r, e)) {
                        let j = choose|j: int| 0 <= j < rows@.len() && rows@[j] == (r, e);
                        assert(rows@[j].0 == start + j);
                        assert(rows@[j].1);
                    }
                }
            }
            proof {
                assert forall|r: u16| 0x80 <= r < 0x80 + slot * 16 implies #[trigger] before(r, true) == next(r, true) by {
                    if rows@.contains((r, true)) {
                        let j = choose|j: int| 0 <= j < rows@.len() && rows@[j] == (r, true);
                        assert(rows@[j].0 == start + j);
                    }
                }
                lemma_scan_slots_frame(f, active, before, next, slot as nat);
                assert forall|k: int| 0 <= k < q0.len() implies next((#[trigger] q0[k]).0, q0[k].1) == before(q0[k].0, q0[k].1) by {
                    if rows@.contains(q0[k]) {
                        let j = choose|j: int| 0 <= j < rows@.len() && rows@[j] == q0[k];
                        assert(rows@[j].1);
                    }
                }
                lemma_read_rows_prefix(flag_rows(), rd0, 3);
                assert forall|k: int| 0 <= k < read_rows(flag_rows(), before, 3).1.len() implies before(
                    (#[trigger] read_rows(flag_rows(), before, 3).1[k]).0,
                    read_rows(flag_rows(), before, 3).1[k].1,
                ) == next(read_rows(flag_rows(), before, 3).1[k].0, read_rows(flag_rows(), before, 3).1[k].1) by {
                    assert(read_rows(flag_rows(), before, 3).1[k] == q0[k]);
                }
                lemma_read_rows_agree(flag_rows(), before, next, 3);
                cur = next;
                lemma_scan_slots_asked(f, active, before, slot as nat);
                let qs = scan_slots(f, active, before, slot as nat).1;
                let qq = read_rows(slot_rows(slot as int), next, 16).1;
                assert forall|k: int| 0 <= k < (q0 + qs).len() implies call_ensures(
                    *read_word,
                    ((#[trigger] (q0 + qs)[k]).0, (q0 + qs)[k].1),
                    next((q0 + qs)[k].0, (q0 + qs)[k].1),
                ) by {
                    let key = (q0 + qs)[k];
                    if k < q0.len() {
                        assert(key == q0[k]);
                    } else {
                        assert(key == qs[k - q0.len()]);
                    }
                    if rows@.contains(key) {
                        let j = choose|j: int| 0 <= j < rows@.len() && rows@[j] == key;
                        assert(rows@[j].0 == start + j);
                        assert(rows@[j].1);
                    }
                    assert(next(key.0, key.1) == before(key.0, key.1));
                }
                assert(q0 + (qs + qq) =~= (q0 + qs) + qq);
                assert forall|k: int| 0 <= k < ((q0 + qs) + qq).len() implies call_ensures(
                    *read_word,
                    ((#[trigger] ((q0 + qs) + qq)[k]).0, ((q0 + qs) + qq)[k].1),
                    next(((q0 + qs) + qq)[k].0, ((q0 + qs) + qq)[k].1),
                ) by {
                    if k < (q0 + qs).len() {
                        assert(((q0 + qs) + qq)[k] == (q0 + qs)[k]);
                    } else {
                        assert(((q0 + qs) + qq)[k] == qq[k - (q0 + qs).len()]);
                    }
                }
            }
            match got {
                Ok(words) => {
                    let mut bytes: Vec<u8> = Vec::new();
                    let mut j: usize = 0;
                    while j < words.len()
                        invariant
                            j <= words@.len(),
                            bytes@ =~= key_words_bytes(words@.take(j as int)),
                        decreases words@.len() - j,
                    {
                        let w = words[j];
                        bytes.push((w % 256) as u8);
                        bytes.push(((w / 256) % 256) as u8);
                        j = j + 1;
                    }
                    assert(words@.take(words@.len() as int) =~= words@);
                    let encoded = crate::codec::hex_encode(bytes.as_slice());
                    let same = encoded == fp_str.to_owned();
                    matched = matched || same;
                },
                Err(e) => {
                    let mut msg = "Cannot verify OTP signing key ".to_owned();
                    let digit: &str = if slot == 0 {
                        "0"
                    } else if slot == 1 {
                        "1"
                    } else if slot == 2 {
                        "2"
                    } else {
                        "3"
                    };
                    proof {
                        reveal_strlit("0");
                        reveal_strlit("1");
                        reveal_strlit("2");
                        reveal_strlit("3");
                    }
                    assert(digit@ =~= seq![(slot + 48) as char]);
                    msg.append(digit);
                    msg.append(": ");
                    msg.append(e.as_str());
                    proof {
                        let sp = spec_trusted_boot_key(Some(f), cur);
                        lemma_scan_slots_err_stays(f, active, cur, (slot + 1) as nat, 4);
                        assert(sp.1 == q0 + scan_slots(f, active, cur, (slot + 1) as nat).1);
                        assert(observed(*read_word, cur, sp.1));
                        assert(scan_slots(f, active, cur, (slot + 1) as nat).0 == Err::<bool, Seq<char>>(slot_error(slot as int, e@)));
                        assert(msg@ == slot_error(slot as int, e@));
                        assert(sp.0 == Err::<Option<Seq<char>>, Seq<char>>(slot_error(slot as int, e@)));
                    }
                    return (Err(msg), Ghost(cur));
                },
            }
        }
        slot = slot + 1;
    }
    let r = if matched {
        Ok(Some(fp_str.to_owned()))
    } else {
        Ok(None)
    };
    (r, Ghost(cur))
}

/// Reading the flag rows changes the description only on those rows.
proof fn lemma_flag_rows_frame(rows: Seq<(u16, bool)>, rd_in: OtpReader, rd0: OtpReader)
    requires
        rows == row_span(0x4b, 3, false),
        forall|r: u16, e: bool| !rows.contains((r, e)) ==> rd0(r, e) == rd_in(r, e),
    ensures
        forall|r: u16, e: bool| !key_lookup_row(r, e) ==> #[trigger] rd0(r, e) == rd_in(r, e),
{
    assert forall|r: u16, e: bool| !key_lookup_row(r, e) implies #[trigger] rd0(r, e) == rd_in(r, e) by {
        if rows.contains((r, e)) {
            let j = choose|j: int| 0 <= j < rows.len() && rows[j] == (r, e);
            assert(rows[j] == ((0x4b + j) as u16, false));
        }
    }
}


/// Once a slot could not be read, scanning further slots changes nothing.
pub proof fn lemma_scan_slots_err_stays(fp: Seq<char>, active: u32, rd: OtpReader, n: nat, m: nat)
    requires
        n <= m,
        scan_slots(fp, active, rd, n).0 is Err,
    ensures
        scan_slots(fp, active, rd, m) == scan_slots(fp, active, rd, n),
    decreases m - n,
{
    if m > n {
        lemma_scan_slots_err_stays(fp, active, rd, n, (m - 1) as nat);
    }
}

/// The OTP state that provisioning decisions read.
#[derive(Clone, Debug)]
pub struct State {
    /// The eight critical-flag rows.
    pub critical: Vec<u32>,
    /// The three boot-key flag rows.
    pub flags: Vec<u32>,
    /// The two boot-lock rows.
    pub locks: Vec<u32>,
    /// The two boot-page access-key rows.
    pub key_locks: Vec<u32>,
    /// The fingerprint held by each of the four key slots, where it could be read.
    pub fps: Vec<Option<String>>,
}

/// One planned OTP write.
#[derive(Clone, Copy, Debug, PartialEq, Eq, Structural)]
pub struct Write {
    /// The OTP row.
    pub row: u16,
    /// The value the row will hold.
    pub value: u32,
    /// Written with ECC (key words) or raw (flag rows).
    pub ecc: bool,
}

/// The vote of the three bytes of a boot-lock row, two of three.
pub open spec fn spec_lock_vote(value: u32) -> u32 {
    spec_vote(seq![value & 255, (value >> 8) & 255, (value >> 16) & 255], 2)
}

/// A boot-lock row votes bit `b` of its lock byte when at least two of its three
/// byte copies have that bit, and votes no bit above the byte.
pub proof fn law_lock_vote_is_two_of_three(value: u32, b: u32)
    requires
        b < 32,
    ensures
        bit_set(spec_lock_vote(value), b) <==> (b < 8 && (if bit_set(value & 255, b) { 1int } else { 0int })
            + (if bit_set((value >> 8) & 255, b) { 1int } else { 0int }) + (if bit_set((value >> 16) & 255, b) {
            1int
        } else {
            0int
        }) >= 2),
{
    let s = seq![value & 255, (value >> 8) & 255, (value >> 16) & 255];
    law_vote_is_per_bit_threshold(s, 2, b);
    assert(s.drop_last().drop_last().drop_last() =~= Seq::<u32>::empty());
    assert(s.drop_last().drop_last() =~= seq![value & 255]);
    assert(s.drop_last() =~= seq![value & 255, (value >> 8) & 255]);
    let x0 = value & 255;
    let x1 = (value >> 8) & 255;
    let x2 = (value >> 16) & 255;
    assert(count_with_bit(s, b) == count_with_bit(s.drop_last(), b) + if bit_set(x2, b) { 1nat } else { 0nat });
    assert(count_with_bit(s.drop_last(), b) == count_with_bit(s.drop_last().drop_last(), b) + if bit_set(
        x1,
        b,
    ) {
        1nat
    } else {
        0nat
    });
    assert(count_with_bit(s.drop_last().drop_last(), b) == count_with_bit(
        s.drop_last().drop_last().drop_last(),
        b,
    ) + if bit_set(x0, b) { 1nat } else { 0nat });
    assert(count_with_bit(s.drop_last().drop_last().drop_last(), b) == 0);
    if b >= 8 {
        assert(x0 & (1u32 << b) == 0) by (bit_vector)
            requires x0 == value & 255, 8 <= b < 32;
        assert(x1 & (1u32 << b) == 0) by (bit_vector)
            requires x1 == (value >> 8) & 255, 8 <= b < 32;
        assert(x2 & (1u32 << b) == 0) by (bit_vector)
            requires x2 == (value >> 16) & 255, 8 <= b < 32;
    }
}

/// Votes the three redundant bytes of a boot-lock row.
pub fn lock_vote(value: u32) -> (voted: u32)
    ensures
        voted == spec_lock_vote(value),
{
    let bytes = [value & 255, (value >> 8) & 255, (value >> 16) & 255];
    let r = vote(bytes.as_slice(), 2);
    assert(bytes@ =~= seq![value & 255, (value >> 8) & 255, (value >> 16) & 255]);
    r
}

/// The raw write that sets `bits` in a row holding `old`, if any bit is missing.
pub open spec fn raw_write(row: u16, old: u32, bits: u32) -> Seq<Write> {
    if old | bits != old {
        seq![Write { row, value: old | bits, ecc: false }]
    } else {
        Seq::empty()
    }
}

/// The raw writes that set `bits` in the first `n` of `rows`, holding `olds`.
pub open spec fn raw_writes(rows: Seq<u16>, olds: Seq<u32>, bits: u32, n: nat) -> Seq<Write>
    decreases n,
{
    if n == 0 {
        Seq::empty()
    } else {
        raw_writes(rows, olds, bits, (n - 1) as nat) + raw_write(rows[n - 1], olds[n - 1], bits)
    }
}

/// The smaller of two lengths: how far `zip` pairs two sequences.
pub open spec fn zip_len(a: nat, b: nat) -> nat {
    if a < b {
        a
    } else {
        b
    }
}

/// The critical-flag row numbers.
pub open spec fn crit_row_numbers() -> Seq<u16> {
    Seq::new(8, |i: int| (0x40 + i) as u16)
}

/// The boot-key flag row numbers.
pub open spec fn flag_row_numbers() -> Seq<u16> {
    Seq::new(3, |i: int| (0x4b + i) as u16)
}

/// The boot-lock row numbers.
pub open spec fn lock_row_numbers() -> Seq<u16> {
    seq![0xf83u16, 0xf85u16]
}

/// The first key slots (of four) that hold `fp` and are trusted, in order.
pub open spec fn matching_slots(fps: Seq<Option<String>>, fp: Seq<char>, trusted: u32, n: nat) -> Seq<u32>
    decreases n,
{
    if n == 0 {
        Seq::empty()
    } else {
        let rest = matching_slots(fps, fp, trusted, (n - 1) as nat);
        let i = (n - 1) as u32;
        if fps[i as int] is Some && fps[i as int]->0@ == fp && trusted & (1u32 << i) != 0 {
            rest.push(i)
        } else {
            rest
        }
    }
}

/// Locking the boot pages: refused when a lock row has bits outside the three lock
/// bytes; else a raw write for each row whose vote is not yet fully locked.
pub open spec fn lock_page_writes(olds: Seq<u32>, n: nat) -> Result<Seq<Write>, Seq<char>>
    decreases n,
{
    if n == 0 {
        Ok(Seq::empty())
    } else {
        match lock_page_writes(olds, (n - 1) as nat) {
            Err(e) => Err(e),
            Ok(ws) => {
                let v = olds[n - 1];
                if v & !0x151515u32 != 0 {
                    Err("Incompatible existing boot locks."@)
                } else if spec_lock_vote(v) != 0x15 {
                    Ok(ws + raw_write(lock_row_numbers()[n - 1], v, 0x151515))
                } else {
                    Ok(ws)
                }
            },
        }
    }
}

/// The row of word `i` of key slot `slot`.
pub open spec fn key_row(slot: u8, i: int) -> u16 {
    (0x80 + slot * 16 + i) as u16
}

/// Word `i` of a key, little-endian from its bytes.
pub open spec fn key_word(bytes: Seq<u8>, i: int) -> u32 {
    (bytes[2 * i] + 256 * bytes[2 * i + 1]) as u32
}

/// A key loaded into a slot reads back as the same key: the ECC rows that the
/// key-loading stage fills for word `i` are the rows the key lookup reads for that
/// slot, and the words written give back the key's bytes in order.
pub proof fn law_loaded_key_reads_back(slot: u8, bytes: Seq<u8>)
    requires
        slot < 4,
        bytes.len() == 32,
    ensures
        forall|i: int| 0 <= i < 16 ==> slot_rows(slot as int)[i] == (#[trigger] key_row(slot, i), true),
        key_words_bytes(Seq::new(16, |i: int| key_word(bytes, i))) == bytes,
        forall|i: int| 0 <= i < 16 ==> #[trigger] key_word(bytes, i) <= 0xffff,
{
    let w = Seq::new(16, |i: int| key_word(bytes, i));
    let kb = key_words_bytes(w);
    assert forall|j: int| 0 <= j < 32 implies #[trigger] kb[j] == bytes[j] by {
        let i = j / 2;
        let lo = bytes[2 * i] as int;
        let hi = bytes[2 * i + 1] as int;
        assert(w[i] == lo + 256 * hi);
        assert((lo + 256 * hi) % 256 == lo) by (nonlinear_arith)
            requires 0 <= lo < 256, 0 <= hi < 256;
        assert(((lo + 256 * hi) / 256) % 256 == hi) by (nonlinear_arith)
            requires 0 <= lo < 256, 0 <= hi < 256;
    }
    assert(kb =~= bytes);
}

/// The slots the flag rows trust: slot `k` exactly when its valid bit `k` is set in
/// the voted flags and its revocation bit `k + 8` is not; no other bit.
pub proof fn law_trusted_slots_are_valid_and_not_revoked(flags: u32, k: u32)
    requires
        k < 32,
    ensures
        bit_set(trusted_mask(flags), k) <==> (k < 4 && bit_set(flags, k) && !bit_set(
            flags,
            (k + 8) as u32,
        )),
{
    let m = trusted_mask(flags);
    assert(m == (flags & 15) & !((flags >> 8) & 15));
    let k8 = (k + 8) as u32;
    if k < 4 {
        assert((m & (1u32 << k) != 0) <==> (flags & (1u32 << k) != 0 && flags & (1u32 << k8) == 0))
            by (bit_vector)
            requires m == (flags & 15) & !((flags >> 8) & 15), k < 4, k8 == k + 8;
    } else {
        assert(m & (1u32 << k) == 0) by (bit_vector)
            requires m == (flags & 15) & !((flags >> 8) & 15), 4 <= k < 32;
    }
}

/// Registering a key into `slot`, rows `0..n`: a row already programmed must hold the
/// key word (checked with ECC), an empty row gets an ECC write unless its word is zero.
pub open spec fn load_key_rows(slot: u8, bytes: Seq<u8>, rd: OtpReader, n: nat) -> (
    Result<Seq<Write>, Seq<char>>,
    Seq<(u16, bool)>,
)
    decreases n,
{
    if n == 0 {
        (Ok(Seq::empty()), Seq::empty())
    } else {
        let (r, q) = load_key_rows(slot, bytes, rd, (n - 1) as nat);
        match r {
            Err(e) => (Err(e), q),
            Ok(ws) => {
                let row = key_row(slot, n - 1);
                let wanted = key_word(bytes, n - 1);
                match rd(row, false) {
                    Err(e) => (Err(e@), q.push((row, false))),
                    Ok(v) => if v != 0 {
                        match rd(row, true) {
                            Err(e) => (Err(e@), q.push((row, false)).push((row, true))),
                            Ok(w) => if w != wanted {
                                (
                                    Err("Key slot contains different or incomplete data."@),
                                    q.push((row, false)).push((row, true)),
                                )
                            } else {
                                (Ok(ws), q.push((row, false)).push((row, true)))
                            },
                        }
                    } else if wanted != 0 {
                        (Ok(ws.push(Write { row, value: wanted, ecc: true })), q.push((row, false)))
                    } else {
                        (Ok(ws), q.push((row, false)))
                    },
                }
            },
        }
    }
}

/// The writes of a stage other than key registration, which need exactly one
/// trusted slot holding the image's key.
pub open spec fn stage_writes(s: State, action: Seq<char>, trusted: u32, matches: Seq<u32>) -> Result<
    Seq<Write>,
    Seq<char>,
> {
    let crit = s.critical@;
    let flags = s.flags@;
    if matches.len() != 1 {
        Err("Image must match exactly one trusted OTP signing key."@)
    } else if action == "harden"@ {
        Ok(raw_writes(crit_row_numbers(), crit, 0x74, zip_len(8, crit.len())))
    } else if action == "enable"@ {
        if (exists|k: int| 0 <= k < crit.len() && #[trigger] crit[k] & 0x74 != 0x74) || (exists|k: int|
            0 <= k < flags.len() && #[trigger] flags[k] & (1u32 << matches[0]) == 0) {
            Err("Complete key registration and hardening first."@)
        } else {
            Ok(raw_writes(crit_row_numbers(), crit, 1, zip_len(8, crit.len())))
        }
    } else if action == "lock"@ {
        if (exists|k: int| 0 <= k < crit.len() && #[trigger] crit[k] & 0x75 != 0x75) || trusted != (1u32
            << matches[0]) {
            Err("Lock requires hardened Secure Boot and one trusted key."@)
        } else {
            match lock_page_writes(s.locks@, zip_len(2, s.locks@.len())) {
                Err(e) => Err(e),
                Ok(lw) => Ok(
                    raw_writes(flag_row_numbers(), flags, (15 ^ trusted) << 8, zip_len(3, flags.len()))
                        + lw,
                ),
            }
        }
    } else {
        Err("Unknown security stage."@)
    }
}

/// The boot-lock row that guards the page a write goes to: the key page (rows
/// 0x80..0xc0) and row 0xf85 by the second, the rest by the first.
pub open spec fn lock_index(row: u16) -> int {
    if (0x80 <= row < 0xc0) || row == 0xf85 {
        1
    } else {
        0
    }
}

/// A write that BOOTSEL cannot perform because its page is locked.
pub open spec fn write_locked(locks: Seq<u32>, w: Write) -> bool {
    spec_lock_vote(locks[lock_index(w.row)]) & 0x30 != 0
}

/// The writes of stage `action` before the lock check: key registration (which
/// reads the slot's rows and then sets the slot's valid flag) or another stage.
pub open spec fn staged_writes(
    s: State,
    action: Seq<char>,
    fp: Seq<char>,
    bytes: Seq<u8>,
    slot: u8,
    rd: OtpReader,
) -> (Result<Seq<Write>, Seq<char>>, Seq<(u16, bool)>) {
    let trusted = trusted_mask(spec_vote(s.flags@, 2));
    if action == "load-key"@ {
        if exists|k: int|
            0 <= k < s.flags@.len() && #[trigger] s.flags@[k] & (1u32 << ((slot + 8) as u32)) != 0 {
            (Err("Selected key slot is revoked."@), Seq::empty())
        } else {
            let (r, q) = load_key_rows(slot, bytes, rd, 16);
            (
                match r {
                    Ok(ws) => Ok(
                        ws + raw_writes(
                            flag_row_numbers(),
                            s.flags@,
                            1u32 << (slot as u32),
                            zip_len(3, s.flags@.len()),
                        ),
                    ),
                    Err(e) => Err(e),
                },
                q,
            )
        }
    } else {
        (stage_writes(s, action, trusted, matching_slots(s.fps@, fp, trusted, 4)), Seq::empty())
    }
}

/// Planned writes are refused when one would go to a page that BOOTSEL cannot write.
pub open spec fn lock_checked(locks: Seq<u32>, staged: Result<Seq<Write>, Seq<char>>) -> Result<
    Seq<Write>,
    Seq<char>,
> {
    match staged {
        Err(e) => Err(e),
        Ok(ws) => if exists|k: int| 0 <= k < ws.len() && write_locked(locks, #[trigger] ws[k]) {
            Err("BOOTSEL cannot write this locked page."@)
        } else {
            Ok(ws)
        },
    }
}

/// The plan for a provisioning stage, and the OTP rows that key registration reads.
pub open spec fn spec_plan(
    s: State,
    action: Seq<char>,
    fp: Seq<char>,
    fp_bytes: Seq<u8>,
    slot: u8,
    rd: OtpReader,
) -> (Result<Seq<Write>, Seq<char>>, Seq<(u16, bool)>) {
    match hex_decoded(fp_bytes) {
        None => (Err("Invalid signing key"@), Seq::empty()),
        Some(bytes) => if slot > 3 || bytes.len() != 32 || (forall|i: int|
            0 <= i < bytes.len() ==> #[trigger] bytes[i] == 0) {
            (Err("Invalid boot key or slot."@), Seq::empty())
        } else if exists|k: int| 0 <= k < s.key_locks@.len() && #[trigger] s.key_locks@[k] != 0 {
            (Err("Boot pages have a hardware access-key policy."@), Seq::empty())
        } else {
            let st = staged_writes(s, action, fp, bytes, slot, rd);
            (lock_checked(s.locks@, st.0), st.1)
        },
    }
}

/// A plan result seen through the views of its writes and message.
pub open spec fn plan_view(r: Result<Vec<Write>, String>) -> Result<Seq<Write>, Seq<char>> {
    match r {
        Ok(v) => Ok(v@),
        Err(e) => Err(e@),
    }
}

fn push_raw_writes(writes: &mut Vec<Write>, rows: &Vec<u16>, olds: &Vec<u32>, bits: u32)
    ensures
        final(writes)@ == old(writes)@ + raw_writes(
            rows@,
            olds@,
            bits,
            zip_len(rows@.len(), olds@.len()),
        ),
{
    let n = if rows.len() < olds.len() {
        rows.len()
    } else {
        olds.len()
    };
    let ghost start = writes@;
    let mut i: usize = 0;
    while i < n
        invariant
            n == zip_len(rows@.len(), olds@.len()),
            i <= n,
            writes@ == start + raw_writes(rows@, olds@, bits, i as nat),
        decreases n - i,
    {
        let old_value = olds[i];
        let ghost before = writes@;
        if old_value | bits != old_value {
            writes.push(Write { row: rows[i], value: old_value | bits, ecc: false });
        }
        assert(writes@ =~= start + raw_writes(rows@, olds@, bits, (i + 1) as nat));
        i = i + 1;
    }
}

fn lock_page_writes_exec(locks: &Vec<u32>) -> (r: Result<Vec<Write>, String>)
    ensures
        plan_view(r) == lock_page_writes(locks@, zip_len(2, locks@.len())),
{
    let rows: Vec<u16> = vec![0xf83u16, 0xf85u16];
    assert(rows@ =~= lock_row_numbers());
    let n = if locks.len() < 2 {
        locks.len()
    } else {
        2
    };
    let mut writes: Vec<Write> = Vec::new();
    let mut i: usize = 0;
    while i < n
        invariant
            n == zip_len(2, locks@.len()),
            rows@ == lock_row_numbers(),
            i <= n,
            lock_page_writes(locks@, i as nat) == Ok::<Seq<Write>, Seq<char>>(writes@),
        decreases n - i,
    {
        let v = locks[i];
        if v & !0x151515u32 != 0 {
            proof {
                lemma_lock_pages_err_stays(locks@, (i + 1) as nat, n as nat);
            }
            return Err("Incompatible existing boot locks.".to_owned());
        }
        if lock_vote(v) != 0x15 {
            if v | 0x151515 != v {
                writes.push(Write { row: rows[i], value: v | 0x151515, ecc: false });
            }
        }
        assert(lock_page_writes(locks@, (i + 1) as nat) == Ok::<Seq<Write>, Seq<char>>(writes@)) by {
            assert(lock_row_numbers()[i as int] == rows@[i as int]);
            if spec_lock_vote(v) != 0x15 && v | 0x151515 != v {
                assert(writes@ =~= lock_page_writes(locks@, i as nat)->Ok_0 + raw_write(
                    rows@[i as int],
                    v,
                    0x151515,
                ));
            } else {
                assert(writes@ =~= lock_page_writes(locks@, i as nat)->Ok_0 + raw_write(
                    rows@[i as int],
                    v,
                    0x151515,
                ) || spec_lock_vote(v) == 0x15);
            }
        }
        i = i + 1;
    }
    Ok(writes)
}

/// Once locking has been refused, later rows change nothing.
pub proof fn lemma_lock_pages_err_stays(olds: Seq<u32>, n: nat, m: nat)
    requires
        n <= m,
        lock_page_writes(olds, n) is Err,
    ensures
        lock_page_writes(olds, m) == lock_page_writes(olds, n),
    decreases m - n,
{
    if m > n {
        lemma_lock_pages_err_stays(olds, n, (m - 1) as nat);
    }
}

fn matching_slots_exec(fps: &Vec<Option<String>>, fp: &str, trusted: u32) -> (m: Vec<u32>)
    requires
        fps@.len() >= 4,
    ensures
        m@ == matching_slots(fps@, fp@, trusted, 4),
{
    let mut m: Vec<u32> = Vec::new();
    let mut i: u32 = 0;
    while i < 4
        invariant
            fps@.len() >= 4,
            i <= 4,
            m@ == matching_slots(fps@, fp@, trusted, i as nat),
        decreases 4 - i,
    {
        let holds = match &fps[i as usize] {
            Some(f) => str_eq(f.as_str(), fp),
            None => false,
        };
        if holds && trusted & (1u32 << i) != 0 {
            m.push(i);
        }
        i = i + 1;
    }
    m
}

fn all_at_least(values: &Vec<u32>, mask: u32) -> (r: bool)
    ensures
        r == !(exists|k: int| 0 <= k < values@.len() && #[trigger] values@[k] & mask != mask),
{
    let mut i: usize = 0;
    while i < values.len()
        invariant
            i <= values@.len(),
            forall|k: int| 0 <= k < i ==> #[trigger] values@[k] & mask == mask,
        decreases values@.len() - i,
    {
        if values[i] & mask != mask {
            return false;
        }
        i = i + 1;
    }
    true
}

fn any_bit_set(values: &Vec<u32>, bit: u32) -> (r: bool)
    ensures
        r == (exists|k: int| 0 <= k < values@.len() && #[trigger] values@[k] & bit != 0),
{
    let mut i: usize = 0;
    while i < values.len()
        invariant
            i <= values@.len(),
            forall|k: int| 0 <= k < i ==> #[trigger] values@[k] & bit == 0,
        decreases values@.len() - i,
    {
        if values[i] & bit != 0 {
            return true;
        }
        i = i + 1;
    }
    false
}

fn stage_writes_exec(s: &State, action: &str, trusted: u32, matches: &Vec<u32>) -> (r: Result<
    Vec<Write>,
    String,
>)
    requires
        forall|k: int| 0 <= k < matches@.len() ==> #[trigger] matches@[k] < 4,
    ensures
        plan_view(r) == stage_writes(*s, action@, trusted, matches@),
{
    if matches.len() != 1 {
        return Err("Image must match exactly one trusted OTP signing key.".to_owned());
    }
    let crit_rows_vec: Vec<u16> = vec![0x40u16, 0x41, 0x42, 0x43, 0x44, 0x45, 0x46, 0x47];
    assert(crit_rows_vec@ =~= crit_row_numbers());
    let mut writes: Vec<Write> = Vec::new();
    if str_eq(action, "harden") {
        push_raw_writes(&mut writes, &crit_rows_vec, &s.critical, 0x74);
        assert(writes@ =~= raw_writes(crit_row_numbers(), s.critical@, 0x74, zip_len(8, s.critical@.len())));
        Ok(writes)
    } else if str_eq(action, "enable") {
        let bit = 1u32 << matches[0];
        if !all_at_least(&s.critical, 0x74) || !all_zero_free(&s.flags, bit) {
            return Err("Complete key registration and hardening first.".to_owned());
        }
        push_raw_writes(&mut writes, &crit_rows_vec, &s.critical, 1);
        assert(writes@ =~= raw_writes(crit_row_numbers(), s.critical@, 1, zip_len(8, s.critical@.len())));
        Ok(writes)
    } else if str_eq(action, "lock") {
        if !all_at_least(&s.critical, 0x75) || trusted != 1u32 << matches[0] {
            return Err("Lock requires hardened Secure Boot and one trusted key.".to_owned());
        }
        let flag_rows_vec: Vec<u16> = vec![0x4bu16, 0x4c, 0x4d];
        assert(flag_rows_vec@ =~= flag_row_numbers());
        push_raw_writes(&mut writes, &flag_rows_vec, &s.flags, (15 ^ trusted) << 8);
        let ghost flag_part = writes@;
        match lock_page_writes_exec(&s.locks) {
            Err(e) => Err(e),
            Ok(lw) => {
                let mut lw = lw;
                writes.append(&mut lw);
                assert(flag_part =~= raw_writes(flag_row_numbers(), s.flags@, (15 ^ trusted) << 8, zip_len(3, s.flags@.len())));
                Ok(writes)
            },
        }
    } else {
        Err("Unknown security stage.".to_owned())
    }
}

fn all_zero_free(values: &Vec<u32>, bit: u32) -> (r: bool)
    ensures
        r == !(exists|k: int| 0 <= k < values@.len() && #[trigger] values@[k] & bit == 0),
{
    let mut i: usize = 0;
    while i < values.len()
        invariant
            i <= values@.len(),
            forall|k: int| 0 <= k < i ==> #[trigger] values@[k] & bit != 0,
        decreases values@.len() - i,
    {
        if values[i] & bit == 0 {
            return false;
        }
        i = i + 1;
    }
    true
}

/// Registering rows `0..n` depends only on the answers for those rows.
pub proof fn lemma_load_key_frame(slot: u8, bytes: Seq<u8>, rd1: OtpReader, rd2: OtpReader, n: nat)
    requires
        slot <= 3,
        n <= 16,
        forall|r: u16, e: bool|
            key_row(slot, 0) <= r < key_row(slot, 0) + n ==> #[trigger] rd1(r, e) == rd2(r, e),
    ensures
        load_key_rows(slot, bytes, rd1, n) == load_key_rows(slot, bytes, rd2, n),
    decreases n,
{
    if n > 0 {
        lemma_load_key_frame(slot, bytes, rd1, rd2, (n - 1) as nat);
        let row = key_row(slot, n - 1);
        assert(rd1(row, false) == rd2(row, false));
        assert(rd1(row, true) == rd2(row, true));
    }
}

/// The rows asked while registering rows `0..n` lie among those rows.
pub proof fn lemma_load_key_asked(slot: u8, bytes: Seq<u8>, rd: OtpReader, n: nat)
    requires
        slot <= 3,
        n <= 16,
    ensures
        forall|k: int|
            0 <= k < load_key_rows(slot, bytes, rd, n).1.len() ==> key_row(slot, 0) <= (
            #[trigger] load_key_rows(slot, bytes, rd, n).1[k]).0 < key_row(slot, 0) + n,
    decreases n,
{
    if n > 0 {
        lemma_load_key_asked(slot, bytes, rd, (n - 1) as nat);
        let q = load_key_rows(slot, bytes, rd, (n - 1) as nat).1;
        let whole = load_key_rows(slot, bytes, rd, n).1;
        assert forall|k: int| 0 <= k < whole.len() implies key_row(slot, 0) <= (
        #[trigger] whole[k]).0 < key_row(slot, 0) + n by {
            if k < q.len() {
                assert(whole[k] == q[k]);
            }
        }
    }
}

/// Once registration has failed, later rows change nothing.
pub proof fn lemma_load_key_err_stays(slot: u8, bytes: Seq<u8>, rd: OtpReader, n: nat, m: nat)
    requires
        n <= m,
        load_key_rows(slot, bytes, rd, n).0 is Err,
    ensures
        load_key_rows(slot, bytes, rd, m) == load_key_rows(slot, bytes, rd, n),
    decreases m - n,
{
    if m > n {
        lemma_load_key_err_stays(slot, bytes, rd, n, (m - 1) as nat);
    }
}

/// Checks and plans the sixteen key rows of `slot`, reading each as it goes.
fn load_key_exec<F: Fn(u16, bool) -> OtpRead>(
    read_word: &F,
    slot: u8,
    bytes: &Vec<u8>,
    Ghost(rd): Ghost<OtpReader>,
) -> (out: (Result<Vec<Write>, String>, Ghost<OtpReader>))
    requires
        forall|r: u16, e: bool| call_requires(*read_word, (r, e)),
        slot <= 3,
        bytes@.len() == 32,
    ensures
        plan_view(out.0) == load_key_rows(slot, bytes@, out.1@, 16).0,
        observed(*read_word, out.1@, load_key_rows(slot, bytes@, out.1@, 16).1),
        forall|r: u16, e: bool|
            !(key_row(slot, 0) <= r < key_row(slot, 0) + 16) ==> #[trigger] out.1@(r, e) == rd(r, e),
{
    let base: u16 = 0x80 + (slot as u16) * 16;
    let ghost mut cur = rd;
    let mut writes: Vec<Write> = Vec::new();
    let mut i: u16 = 0;
    while i < 16
        invariant
            forall|r: u16, e: bool| call_requires(*read_word, (r, e)),
            slot <= 3,
            bytes@.len() == 32,
            base == key_row(slot, 0),
            i <= 16,
            load_key_rows(slot, bytes@, cur, i as nat).0 == Ok::<Seq<Write>, Seq<char>>(writes@),
            observed(*read_word, cur, load_key_rows(slot, bytes@, cur, i as nat).1),
            forall|r: u16, e: bool|
                !(base <= r < base + i) ==> #[trigger] cur(r, e) == rd(r, e),
        decreases 16 - i,
    {
        let row = base + i;
        let iu = i as usize;
        let wanted: u32 = bytes[2 * iu] as u32 + 256 * (bytes[2 * iu + 1] as u32);
        assert(row == key_row(slot, i as int));
        assert(wanted == key_word(bytes@, i as int));
        let ghost before = cur;
        let raw = read_word(row, false);
        let ghost after_raw = answer(before, row, false, raw);
        proof {
            lemma_load_key_frame(slot, bytes@, before, after_raw, i as nat);
            lemma_load_key_asked(slot, bytes@, before, i as nat);
        }
        let ghost q = load_key_rows(slot, bytes@, before, i as nat).1;
        match raw {
            Err(e) => {
                proof {
                    cur = after_raw;
                    let q2 = q.push((row, false));
                    assert forall|k: int| 0 <= k < q2.len() implies call_ensures(
                        *read_word,
                        ((#[trigger] q2[k]).0, q2[k].1),
                        cur(q2[k].0, q2[k].1),
                    ) by {
                        if k < q.len() {
                            assert(q2[k] == q[k]);
                        }
                    }
                    lemma_load_key_err_stays(slot, bytes@, cur, (i + 1) as nat, 16);
                }
                return (Err(e), Ghost(cur));
            },
            Ok(v) => {
                if v != 0 {
                    let ecc = read_word(row, true);
                    let ghost after_ecc = answer(after_raw, row, true, ecc);
                    proof {
                        lemma_load_key_frame(slot, bytes@, before, after_ecc, i as nat);
                        cur = after_ecc;
                        let q2 = q.push((row, false)).push((row, true));
                        assert forall|k: int| 0 <= k < q2.len() implies call_ensures(
                            *read_word,
                            ((#[trigger] q2[k]).0, q2[k].1),
                            cur(q2[k].0, q2[k].1),
                        ) by {
                            if k < q.len() {
                                assert(q2[k] == q[k]);
                            }
                        }
                        assert(load_key_rows(slot, bytes@, cur, (i + 1) as nat).1 == q2);
                    }
                    match ecc {
                        Err(e) => {
                            proof {
                                lemma_load_key_err_stays(slot, bytes@, cur, (i + 1) as nat, 16);
                            }
                            return (Err(e), Ghost(cur));
                        },
                        Ok(w) => {
                            if w != wanted {
                                proof {
                                    lemma_load_key_err_stays(slot, bytes@, cur, (i + 1) as nat, 16);
                                }
                                return (
                                    Err("Key slot contains different or incomplete data.".to_owned()),
                                    Ghost(cur),
                                );
                            }
                        },
                    }
                } else {
                    if wanted != 0 {
                        writes.push(Write { row, value: wanted, ecc: true });
                    }
                    proof {
                        cur = after_raw;
                        let q2 = q.push((row, false));
                        assert forall|k: int| 0 <= k < q2.len() implies call_ensures(
                            *read_word,
                            ((#[trigger] q2[k]).0, q2[k].1),
                            cur(q2[k].0, q2[k].1),
                        ) by {
                            if k < q.len() {
                                assert(q2[k] == q[k]);
                            }
                        }
                    }
                }
            },
        }
        i = i + 1;
    }
    (Ok(writes), Ghost(cur))
}

/// Matching slots are among the first `n`.
pub proof fn lemma_matching_slots_bound(fps: Seq<Option<String>>, fp: Seq<char>, trusted: u32, n: nat)
    ensures
        forall|k: int|
            0 <= k < matching_slots(fps, fp, trusted, n).len() ==> #[trigger] matching_slots(
                fps,
                fp,
                trusted,
                n,
            )[k] < n,
    decreases n,
{
    if n > 0 {
        lemma_matching_slots_bound(fps, fp, trusted, (n - 1) as nat);
        let rest = matching_slots(fps, fp, trusted, (n - 1) as nat);
        let whole = matching_slots(fps, fp, trusted, n);
        assert forall|k: int| 0 <= k < whole.len() implies #[trigger] whole[k] < n by {
            if k < rest.len() {
                assert(whole[k] == rest[k]);
            }
        }
    }
}

fn any_nonzero(values: &Vec<u32>) -> (r: bool)
    ensures
        r == (exists|k: int| 0 <= k < values@.len() && #[trigger] values@[k] != 0),
{
    let mut i: usize = 0;
    while i < values.len()
        invariant
            i <= values@.len(),
            forall|k: int| 0 <= k < i ==> #[trigger] values@[k] == 0,
        decreases values@.len() - i,
    {
        if values[i] != 0 {
            return true;
        }
        i = i + 1;
    }
    false
}

fn any_write_locked(writes: &Vec<Write>, locks: &Vec<u32>) -> (r: bool)
    requires
        locks@.len() >= 2,
    ensures
        r == (exists|k: int| 0 <= k < writes@.len() && write_locked(locks@, #[trigger] writes@[k])),
{
    let mut i: usize = 0;
    while i < writes.len()
        invariant
            locks@.len() >= 2,
            i <= writes@.len(),
            forall|k: int| 0 <= k < i ==> !write_locked(locks@, #[trigger] writes@[k]),
        decreases writes@.len() - i,
    {
        let row = writes[i].row;
        let idx: usize = if (0x80 <= row && row < 0xc0) || row == 0xf85 {
            1
        } else {
            0
        };
        if lock_vote(locks[idx]) & 0x30 != 0 {
            return true;
        }
        i = i + 1;
    }
    false
}

/// The OTP writes for provisioning stage `action` ("load-key", "harden", "enable"
/// or "lock") with the image key `fp` (hexadecimal SHA-256 of the public key) and key
/// slot `slot`, given the board's OTP state. Key registration reads the slot's rows
/// through `read_word` to refuse torn or foreign data.
pub fn plan(
    s: &State,
    action: &str,
    fp: &str,
    slot: u8,
    read_word: impl Fn(u16, bool) -> OtpRead,
) -> (r: Result<Vec<Write>, String>)
    requires
        forall|row: u16, ecc: bool| call_requires(read_word, (row, ecc)),
        s.fps@.len() >= 4,
        s.locks@.len() >= 2,
    ensures
        exists|rd: OtpReader|
            #![trigger spec_plan(*s, action@, fp@, fp.spec_bytes(), slot, rd)]
            observed(read_word, rd, spec_plan(*s, action@, fp@, fp.spec_bytes(), slot, rd).1)
                && plan_view(r) == spec_plan(*s, action@, fp@, fp.spec_bytes(), slot, rd).0,
{
    let ghost rd0: OtpReader = |r: u16, e: bool| Ok(0);
    let bytes = match hex_decode(fp) {
        Ok(b) => b,
        Err(_) => {
            assert(observed(read_word, rd0, spec_plan(*s, action@, fp@, fp.spec_bytes(), slot, rd0).1));
            return Err("Invalid signing key".to_owned());
        },
    };
    let mut all_zero = true;
    let mut i: usize = 0;
    while i < bytes.len()
        invariant
            i <= bytes@.len(),
            all_zero == forall|k: int| 0 <= k < i ==> #[trigger] bytes@[k] == 0,
        decreases bytes@.len() - i,
    {
        if bytes[i] != 0 {
            all_zero = false;
        }
        i = i + 1;
    }
    if slot > 3 || bytes.len() != 32 || all_zero {
        assert(observed(read_word, rd0, spec_plan(*s, action@, fp@, fp.spec_bytes(), slot, rd0).1));
        return Err("Invalid boot key or slot.".to_owned());
    }
    if any_nonzero(&s.key_locks) {
        assert(observed(read_word, rd0, spec_plan(*s, action@, fp@, fp.spec_bytes(), slot, rd0).1));
        return Err("Boot pages have a hardware access-key policy.".to_owned());
    }
    let voted = vote(s.flags.as_slice(), 2);
    let trusted: u32 = (voted & 15) & !((voted >> 8) & 15);
    let matches = matching_slots_exec(&s.fps, fp, trusted);
    proof {
        lemma_matching_slots_bound(s.fps@, fp@, trusted, 4);
    }
    let ghost bv = hex_decoded(fp.spec_bytes())->0;
    assert(bytes@ == bv);
    let (staged, Ghost(rd)) = if str_eq(action, "load-key") {
        if any_bit_set(&s.flags, 1u32 << ((slot + 8) as u32)) {
            (Err("Selected key slot is revoked.".to_owned()), Ghost(rd0))
        } else {
            let (r, g) = load_key_exec(&read_word, slot, &bytes, Ghost(rd0));
            match r {
                Ok(ws) => {
                    let mut ws = ws;
                    let flag_rows_vec: Vec<u16> = vec![0x4bu16, 0x4c, 0x4d];
                    assert(flag_rows_vec@ =~= flag_row_numbers());
                    push_raw_writes(&mut ws, &flag_rows_vec, &s.flags, 1u32 << (slot as u32));
                    (Ok(ws), g)
                },
                Err(e) => (Err(e), g),
            }
        }
    } else {
        (stage_writes_exec(s, action, trusted, &matches), Ghost(rd0))
    };
    assert(plan_view(staged) == staged_writes(*s, action@, fp@, bytes@, slot, rd).0);
    let r = match staged {
        Err(e) => Err(e),
        Ok(ws) => {
            if any_write_locked(&ws, &s.locks) {
                Err("BOOTSEL cannot write this locked page.".to_owned())
            } else {
                Ok(ws)
            }
        },
    };
    proof {
        let sp = spec_plan(*s, action@, fp@, fp.spec_bytes(), slot, rd);
        assert(hex_decoded(fp.spec_bytes()) == Some(bytes@));
        assert(plan_view(r) == lock_checked(s.locks@, plan_view(staged)));
        assert(observed(read_word, rd, sp.1));
    }
    r
}

/// [`State`] as plain values.
pub struct StateView {
    pub critical: Seq<u32>,
    pub flags: Seq<u32>,
    pub locks: Seq<u32>,
    pub key_locks: Seq<u32>,
    pub fps: Seq<Option<Seq<char>>>,
}

/// The characters of an optional string.
pub open spec fn opt_string_view(o: Option<String>) -> Option<Seq<char>> {
    match o {
        Some(s) => Some(s@),
        None => None,
    }
}

impl View for State {
    type V = StateView;

    open spec fn view(&self) -> StateView {
        StateView {
            critical: self.critical@,
            flags: self.flags@,
            locks: self.locks@,
            key_locks: self.key_locks@,
            fps: self.fps@.map_values(|f: Option<String>| opt_string_view(f)),
        }
    }
}

/// What the user reviews and confirms before a provisioning stage writes OTP.
#[derive(Debug)]
pub struct StageReview {
    pub action: String,
    pub serial: String,
    pub state: State,
    pub image_hash: String,
    pub writes: Vec<Write>,
    pub slot: u8,
}

/// A [`StageReview`] as plain values.
pub struct StageReviewView {
    pub action: Seq<char>,
    pub serial: Seq<char>,
    pub state: StateView,
    pub image_hash: Seq<char>,
    pub writes: Seq<Write>,
    pub slot: u8,
}

impl View for StageReview {
    type V = StageReviewView;

    open spec fn view(&self) -> StageReviewView {
        StageReviewView {
            action: self.action@,
            serial: self.serial@,
            state: self.state@,
            image_hash: self.image_hash@,
            writes: self.writes@,
            slot: self.slot,
        }
    }
}

fn u32s_eq(a: &Vec<u32>, b: &Vec<u32>) -> (r: bool)
    ensures
        r == (a@ == b@),
{
    if a.len() != b.len() {
        return false;
    }
    let mut i: usize = 0;
    while i < a.len()
        invariant
            a@.len() == b@.len(),
            i <= a@.len(),
            forall|k: int| 0 <= k < i ==> a@[k] == b@[k],
        decreases a@.len() - i,
    {
        if a[i] != b[i] {
            return false;
        }
        i = i + 1;
    }
    assert(a@ =~= b@);
    true
}

fn writes_eq(a: &Vec<Write>, b: &Vec<Write>) -> (r: bool)
    ensures
        r == (a@ == b@),
{
    if a.len() != b.len() {
        return false;
    }
    let mut i: usize = 0;
    while i < a.len()
        invariant
            a@.len() == b@.len(),
            i <= a@.len(),
            forall|k: int| 0 <= k < i ==> a@[k] == b@[k],
        decreases a@.len() - i,
    {
        let x = a[i];
        let y = b[i];
        if x.row != y.row || x.value != y.value || x.ecc != y.ecc {
            return false;
        }
        i = i + 1;
    }
    assert(a@ =~= b@);
    true
}

/// Whether two OTP states hold the same values.
pub fn state_eq(a: &State, b: &State) -> (r: bool)
    ensures
        r == (a@ == b@),
{
    if !u32s_eq(&a.critical, &b.critical) || !u32s_eq(&a.flags, &b.flags) || !u32s_eq(&a.locks, &b.locks)
        || !u32s_eq(&a.key_locks, &b.key_locks) {
        return false;
    }
    if a.fps.len() != b.fps.len() {
        assert(a@.fps.len() != b@.fps.len());
        return false;
    }
    let mut i: usize = 0;
    while i < a.fps.len()
        invariant
            a.fps@.len() == b.fps@.len(),
            i <= a.fps@.len(),
            forall|k: int| 0 <= k < i ==> opt_string_view(a.fps@[k]) == opt_string_view(b.fps@[k]),
        decreases a.fps@.len() - i,
    {
        let same = match (&a.fps[i], &b.fps[i]) {
            (Some(x), Some(y)) => str_eq(x.as_str(), y.as_str()),
            (None, None) => true,
            _ => false,
        };
        if !same {
            assert(a@.fps[i as int] != b@.fps[i as int]);
            return false;
        }
        i = i + 1;
    }
    assert(a@.fps =~= b@.fps);
    true
}

/// Whether two stage reviews are the same.
pub fn stage_review_eq(a: &StageReview, b: &StageReview) -> (r: bool)
    ensures
        r == (a@ == b@),
{
    str_eq(a.action.as_str(), b.action.as_str()) && str_eq(a.serial.as_str(), b.serial.as_str())
        && state_eq(&a.state, &b.state) && str_eq(a.image_hash.as_str(), b.image_hash.as_str())
        && writes_eq(&a.writes, &b.writes) && a.slot == b.slot
}

} // verus!
