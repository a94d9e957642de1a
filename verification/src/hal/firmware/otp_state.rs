//! Reading a board's OTP boot state row by row: the critical, flag and lock rows,
//! and the fingerprint of each key slot.
use vstd::prelude::*;
use crate::codec::{hex_encode, hex_lower};
use crate::hal::firmware::security::{
    OtpRead, OtpReader, State, StateView, answer, count_with_bit, crit_rows, flag_rows,
    key_lookup_row, key_words_bytes, law_vote_is_per_bit_threshold, lemma_read_rows_agree,
    lemma_read_rows_err_stays, lemma_read_rows_prefix, lemma_slot_rows_asked, observed,
    read_rows, scan_slots, spec_secure_boot_enabled, spec_trusted_boot_key, spec_vote,
    trusted_mask,
    read_rows_exec, row_span_exec, slot_rows,
};

verus! {

/// The raw rows of the state in reading order: the critical rows, the flag rows, the
/// two lock rows and the two access-key rows.
pub open spec fn state_row_list() -> Seq<(u16, bool)> {
    crit_rows() + flag_rows() + seq![
        (0xf83u16, false),
        (0xf85u16, false),
        (0xf82u16, false),
        (0xf84u16, false),
    ]
}

/// The fingerprints of key slots `0..n` as read (`None` for a slot whose rows could
/// not all be read), and the rows asked.
pub open spec fn slots_read(rd: OtpReader, n: nat) -> (Seq<Option<Seq<char>>>, Seq<(u16, bool)>)
    decreases n,
{
    if n == 0 {
        (Seq::empty(), Seq::empty())
    } else {
        let (f, q) = slots_read(rd, (n - 1) as nat);
        let (r, qq) = read_rows(slot_rows(n - 1), rd, 16);
        (
            f.push(
                match r {
                    Ok(ws) => Some(hex_lower(key_words_bytes(ws))),
                    Err(_) => None,
                },
            ),
            q + qq,
        )
    }
}

/// The OTP state read row by row: the raw rows stop at the first failure, which is
/// the result; each key slot's fingerprint is read afterwards, a slot that cannot be
/// read having none. Also the rows asked.
pub open spec fn spec_read_state(rd: OtpReader) -> (Result<StateView, String>, Seq<(u16, bool)>) {
    let (r, q) = read_rows(state_row_list(), rd, 15);
    match r {
        Err(e) => (Err(e), q),
        Ok(v) => {
            let (fps, qs) = slots_read(rd, 4);
            (
                Ok(
                    StateView {
                        critical: v.subrange(0, 8),
                        flags: v.subrange(8, 11),
                        locks: v.subrange(11, 13),
                        key_locks: v.subrange(13, 15),
                        fps,
                    },
                ),
                q + qs,
            )
        },
    }
}

/// A state result seen through its view.
pub open spec fn state_result_view(r: Result<State, String>) -> Result<StateView, String> {
    match r {
        Ok(s) => Ok(s@),
        Err(e) => Err(e),
    }
}

/// The rows asked for slots `0..n` are ECC rows of those slots.
proof fn lemma_slots_asked(rd: OtpReader, n: nat)
    requires
        n <= 4,
    ensures
        forall|k: int|
            0 <= k < slots_read(rd, n).1.len() ==> {
                let key = #[trigger] slots_read(rd, n).1[k];
                &&& key.1
                &&& 0x80 <= key.0 < 0x80 + n * 16
            },
    decreases n,
{
    if n > 0 {
        lemma_slots_asked(rd, (n - 1) as nat);
        lemma_slot_rows_asked(n - 1, rd);
        let q = slots_read(rd, (n - 1) as nat).1;
        let qq = read_rows(slot_rows(n - 1), rd, 16).1;
        let whole = slots_read(rd, n).1;
        assert forall|k: int| 0 <= k < whole.len() implies {
            let key = #[trigger] whole[k];
            &&& key.1
            &&& 0x80 <= key.0 < 0x80 + n * 16
        } by {
            if k < q.len() {
                assert(whole[k] == q[k]);
            } else {
                assert(whole[k] == qq[k - q.len()]);
            }
        }
    }
}

/// Reading slots `0..n` depends only on the answers for their ECC rows.
proof fn lemma_slots_frame(rd1: OtpReader, rd2: OtpReader, n: nat)
    requires
        n <= 4,
        forall|r: u16| 0x80 <= r < 0x80 + n * 16 ==> #[trigger] rd1(r, true) == rd2(r, true),
    ensures
        slots_read(rd1, n) == slots_read(rd2, n),
    decreases n,
{
    if n > 0 {
        lemma_slots_frame(rd1, rd2, (n - 1) as nat);
        lemma_slot_rows_asked(n - 1, rd1);
        let q = read_rows(slot_rows(n - 1), rd1, 16).1;
        assert forall|k: int| 0 <= k < q.len() implies rd1((#[trigger] q[k]).0, q[k].1) == rd2(
            q[k].0,
            q[k].1,
        ) by {
            assert(q[k].1);
        }
        lemma_read_rows_agree(slot_rows(n - 1), rd1, rd2, 16);
    }
}

/// The key bytes that ECC words hold: each word's low 16 bits, little-endian.
fn key_bytes(words: &Vec<u32>) -> (bytes: Vec<u8>)
    ensures
        bytes@ == key_words_bytes(words@),
{
    let mut bytes: Vec<u8> = Vec::new();
    let mut j: usize = 0;
    while j < words.len()
        invariant
            j <= words@.len(),
            bytes@ =~= key_words_bytes(words@.take(j as int)),
        decreases words@.len() - j,
    {
        let w = words[j];
        bytes.push((w % 256) as u8);
        bytes.push(((w / 256) % 256) as u8);
        j = j + 1;
    }
    assert(words@.take(words@.len() as int) =~= words@);
    bytes
}

/// Reads the board's OTP boot state through `read_word` (see [`spec_read_state`]).
pub fn read_state(read_word: impl Fn(u16, bool) -> OtpRead) -> (r: Result<State, String>)
    requires
        forall|row: u16, ecc: bool| call_requires(read_word, (row, ecc)),
    ensures
        exists|rd: OtpReader|
            #![trigger spec_read_state(rd)]
            observed(read_word, rd, spec_read_state(rd).1) && state_result_view(r)
                == spec_read_state(rd).0,
{
    let rows: Vec<(u16, bool)> = vec![
        (0x40u16, false),
        (0x41u16, false),
        (0x42u16, false),
        (0x43u16, false),
        (0x44u16, false),
        (0x45u16, false),
        (0x46u16, false),
        (0x47u16, false),
        (0x4bu16, false),
        (0x4cu16, false),
        (0x4du16, false),
        (0xf83u16, false),
        (0xf85u16, false),
        (0xf82u16, false),
        (0xf84u16, false),
    ];
    assert(rows@ =~= state_row_list());
    proof {
        assert forall|a: int, b: int|
            0 <= a < rows@.len() && 0 <= b < rows@.len() && a != b implies rows@[a] != rows@[b] by {
            assert(rows@[a].0 == state_row_list()[a].0);
            assert(rows@[b].0 == state_row_list()[b].0);
        }
    }
    let (got, Ghost(rd1)) = read_rows_exec(&read_word, &rows, Ghost(|r: u16, e: bool| Ok(0)));
    let vals = match got {
        Ok(v) => v,
        Err(e) => {
            assert(observed(read_word, rd1, spec_read_state(rd1).1));
            return Err(e);
        },
    };
    let ghost q0 = read_rows(state_row_list(), rd1, 15).1;
    proof {
        lemma_read_rows_prefix(state_row_list(), rd1, 15);
        assert forall|k: int| 0 <= k < q0.len() implies !(#[trigger] q0[k]).1 by {
            assert(q0[k] == state_row_list()[k]);
        }
    }
    let mut fps: Vec<Option<String>> = Vec::new();
    let ghost mut cur = rd1;
    let mut slot: u16 = 0;
    while slot < 4
        invariant
            forall|row: u16, ecc: bool| call_requires(read_word, (row, ecc)),
            slot <= 4,
            forall|r: u16| #[trigger] cur(r, false) == rd1(r, false),
            read_rows(state_row_list(), rd1, 15).0 == Ok::<Seq<u32>, String>(vals@),
            q0 == read_rows(state_row_list(), rd1, 15).1,
            forall|k: int| 0 <= k < q0.len() ==> !(#[trigger] q0[k]).1,
            observed(read_word, rd1, q0),
            fps@.map_values(|f: Option<String>| crate::hal::firmware::security::opt_string_view(f))
                == slots_read(cur, slot as nat).0,
            observed(read_word, cur, q0 + slots_read(cur, slot as nat).1),
        decreases 4 - slot,
    {
        let start: u16 = 0x80 + slot * 16;
        let srows = row_span_exec(start, 16, true);
        assert(srows@ == slot_rows(slot as int));
        let ghost before = cur;
        let (g, Ghost(next)) = read_rows_exec(&read_word, &srows, Ghost(cur));
        proof {
            assert forall|r: u16| #[trigger] next(r, false) == rd1(r, false) by {
                if srows@.contains((r, false)) {
                    let j = choose|j: int| 0 <= j < srows@.len() && srows@[j] == (r, false);
                    assert(srows@[j].1);
                }
            }
            assert forall|r: u16| 0x80 <= r < 0x80 + slot * 16 implies #[trigger] before(r, true)
                == next(r, true) by {
                if srows@.contains((r, true)) {
                    let j = choose|j: int| 0 <= j < srows@.len() && srows@[j] == (r, true);
                    assert(srows@[j].0 == start + j);
                }
            }
            lemma_slots_frame(before, next, slot as nat);
            lemma_slots_asked(before, slot as nat);
            let qs = slots_read(before, slot as nat).1;
            let qq = read_rows(slot_rows(slot as int), next, 16).1;
            assert forall|k: int| 0 <= k < (q0 + qs).len() implies call_ensures(
                read_word,
                ((#[trigger] (q0 + qs)[k]).0, (q0 + qs)[k].1),
                next((q0 + qs)[k].0, (q0 + qs)[k].1),
            ) by {
                let key = (q0 + qs)[k];
                if k < q0.len() {
                    assert(key == q0[k]);
                } else {
                    assert(key == qs[k - q0.len()]);
                }
                if srows@.contains(key) {
                    let j = choose|j: int| 0 <= j < srows@.len() && srows@[j] == key;
                    assert(srows@[j].0 == start + j);
                    assert(srows@[j].1);
                }
                assert(next(key.0, key.1) == before(key.0, key.1));
            }
            assert(q0 + (qs + qq) =~= (q0 + qs) + qq);
            assert forall|k: int| 0 <= k < ((q0 + qs) + qq).len() implies call_ensures(
                read_word,
                ((#[trigger] ((q0 + qs) + qq)[k]).0, ((q0 + qs) + qq)[k].1),
                next(((q0 + qs) + qq)[k].0, ((q0 + qs) + qq)[k].1),
            ) by {
                if k < (q0 + qs).len() {
                    assert(((q0 + qs) + qq)[k] == (q0 + qs)[k]);
                } else {
                    assert(((q0 + qs) + qq)[k] == qq[k - (q0 + qs).len()]);
                }
            }
            cur = next;
        }
        let ghost fv = fps@.map_values(|f: Option<String>| crate::hal::firmware::security::opt_string_view(f));
        match g {
            Ok(words) => {
                let bytes = key_bytes(&words);
                let encoded = hex_encode(bytes.as_slice());
                fps.push(Some(encoded));
            },
            Err(_) => {
                fps.push(None);
            },
        }
        assert(fps@.map_values(|f: Option<String>| crate::hal::firmware::security::opt_string_view(f))
            =~= fv.push(slots_read(cur, (slot + 1) as nat).0.last()));
        slot = slot + 1;
    }
    proof {
        assert forall|k: int| 0 <= k < q0.len() implies #[trigger] cur(q0[k].0, q0[k].1) == rd1(
            q0[k].0,
            q0[k].1,
        ) by {
            assert(!q0[k].1);
        }
        assert forall|k: int| 0 <= k < read_rows(state_row_list(), rd1, 15).1.len() implies rd1(
            (#[trigger] read_rows(state_row_list(), rd1, 15).1[k]).0,
            read_rows(state_row_list(), rd1, 15).1[k].1,
        ) == cur(read_rows(state_row_list(), rd1, 15).1[k].0, read_rows(state_row_list(), rd1, 15).1[k].1) by {
            assert(read_rows(state_row_list(), rd1, 15).1[k] == q0[k]);
        }
        lemma_read_rows_agree(state_row_list(), rd1, cur, 15);
    }
    let s = State {
        critical: slice_vec(&vals, 0, 8),
        flags: slice_vec(&vals, 8, 11),
        locks: slice_vec(&vals, 11, 13),
        key_locks: slice_vec(&vals, 13, 15),
        fps,
    };
    proof {
        lemma_read_rows_prefix(state_row_list(), rd1, 15);
        assert(s@.fps == slots_read(cur, 4).0);
        assert(state_result_view(Ok::<State, String>(s)) == spec_read_state(cur).0);
    }
    Ok(s)
}

/// `v[a..b]` as a vector.
fn slice_vec(v: &Vec<u32>, a: usize, b: usize) -> (r: Vec<u32>)
    requires
        a <= b <= v@.len(),
    ensures
        r@ == v@.subrange(a as int, b as int),
{
    let mut r: Vec<u32> = Vec::new();
    let mut i = a;
    while i < b
        invariant
            a <= i <= b <= v@.len(),
            r@ =~= v@.subrange(a as int, i as int),
        decreases b - i,
    {
        r.push(v[i]);
        i = i + 1;
    }
    r
}

/// The values that `rd` gives for `rows`, taking every answer as a success.
pub open spec fn row_answers(rd: OtpReader, rows: Seq<(u16, bool)>) -> Seq<u32> {
    Seq::new(rows.len(), |k: int| rd(rows[k].0, rows[k].1)->Ok_0)
}

/// Every read of `rows` succeeds.
pub open spec fn answers_ok(rd: OtpReader, rows: Seq<(u16, bool)>) -> bool {
    forall|k: int| 0 <= k < rows.len() ==> (#[trigger] rd(rows[k].0, rows[k].1)) is Ok
}

/// When the first `n` reads succeed, reading gives their values.
proof fn lemma_read_rows_all_ok(rows: Seq<(u16, bool)>, rd: OtpReader, n: nat)
    requires
        n <= rows.len(),
        forall|k: int| 0 <= k < n ==> (#[trigger] rd(rows[k].0, rows[k].1)) is Ok,
    ensures
        read_rows(rows, rd, n).0 == Ok::<Seq<u32>, String>(row_answers(rd, rows.take(n as int))),
    decreases n,
{
    if n > 0 {
        lemma_read_rows_all_ok(rows, rd, (n - 1) as nat);
        assert(rd(rows[n - 1].0, rows[n - 1].1) is Ok);
        assert(row_answers(rd, rows.take(n as int)) =~= row_answers(rd, rows.take(n - 1)).push(
            rd(rows[n - 1].0, rows[n - 1].1)->Ok_0,
        ));
    } else {
        assert(row_answers(rd, rows.take(0)) =~= Seq::<u32>::empty());
    }
}

/// Reading succeeds only when each of its reads did.
proof fn lemma_read_rows_ok_answers(rows: Seq<(u16, bool)>, rd: OtpReader, n: nat)
    requires
        n <= rows.len(),
    ensures
        read_rows(rows, rd, n).0 is Ok ==> forall|k: int|
            0 <= k < read_rows(rows, rd, n).1.len() ==> (#[trigger] rd(
                read_rows(rows, rd, n).1[k].0,
                read_rows(rows, rd, n).1[k].1,
            )) is Ok,
    decreases n,
{
    if n > 0 {
        lemma_read_rows_ok_answers(rows, rd, (n - 1) as nat);
        let q = read_rows(rows, rd, (n - 1) as nat).1;
        let whole = read_rows(rows, rd, n).1;
        if read_rows(rows, rd, n).0 is Ok {
            assert forall|k: int| 0 <= k < whole.len() implies (#[trigger] rd(
                whole[k].0,
                whole[k].1,
            )) is Ok by {
                if k < q.len() {
                    assert(whole[k] == q[k]);
                }
            }
        }
    }
}

/// Reading stops at the first failed read, with its error.
proof fn lemma_read_rows_first_error(rows: Seq<(u16, bool)>, rd: OtpReader, k: nat, n: nat)
    requires
        k < n <= rows.len(),
        forall|j: int| 0 <= j < k ==> (#[trigger] rd(rows[j].0, rows[j].1)) is Ok,
        rd(rows[k as int].0, rows[k as int].1) is Err,
    ensures
        read_rows(rows, rd, n).0 == Err::<Seq<u32>, String>(
            rd(rows[k as int].0, rows[k as int].1)->Err_0,
        ),
{
    lemma_read_rows_all_ok(rows, rd, k);
    lemma_read_rows_err_stays(rows, rd, k + 1, n);
}

/// Secure Boot is decided from the eight critical rows 0x40 to 0x47 alone, each read
/// without ECC: when all reads succeed it is on exactly when at least three of the
/// values have bit 0 set; otherwise the first failed read is the error.
pub proof fn law_secure_boot_reads_only_critical_rows(rd: OtpReader)
    ensures
        forall|k: int|
            0 <= k < spec_secure_boot_enabled(rd).1.len() ==> {
                let key = #[trigger] spec_secure_boot_enabled(rd).1[k];
                !key.1 && 0x40 <= key.0 < 0x48
            },
        answers_ok(rd, crit_rows()) ==> spec_secure_boot_enabled(rd).0 == Ok::<bool, String>(
            count_with_bit(row_answers(rd, crit_rows()), 0) >= 3,
        ),
        forall|k: int|
            0 <= k < 8 && (forall|j: int|
                0 <= j < k ==> (#[trigger] rd(crit_rows()[j].0, crit_rows()[j].1)) is Ok) && rd(
                (#[trigger] crit_rows()[k]).0,
                crit_rows()[k].1,
            ) is Err ==> spec_secure_boot_enabled(rd).0 == Err::<bool, String>(
                rd(crit_rows()[k].0, crit_rows()[k].1)->Err_0,
            ),
{
    lemma_read_rows_prefix(crit_rows(), rd, 8);
    let q = spec_secure_boot_enabled(rd).1;
    assert forall|k: int| 0 <= k < q.len() implies {
        let key = #[trigger] q[k];
        !key.1 && 0x40 <= key.0 < 0x48
    } by {
        assert(q[k] == crit_rows()[k]);
    }
    if answers_ok(rd, crit_rows()) {
        lemma_read_rows_all_ok(crit_rows(), rd, 8);
        assert(crit_rows().take(8) =~= crit_rows());
        let v = row_answers(rd, crit_rows());
        law_vote_is_per_bit_threshold(v, 3, 0);
        assert(1u32 << 0u32 == 1u32) by (bit_vector);
    }
    assert forall|k: int|
        0 <= k < 8 && (forall|j: int|
            0 <= j < k ==> (#[trigger] rd(crit_rows()[j].0, crit_rows()[j].1)) is Ok) && rd(
            (#[trigger] crit_rows()[k]).0,
            crit_rows()[k].1,
        ) is Err implies spec_secure_boot_enabled(rd).0 == Err::<bool, String>(
        rd(crit_rows()[k].0, crit_rows()[k].1)->Err_0,
    ) by {
        lemma_read_rows_first_error(crit_rows(), rd, k as nat, 8);
    }
}

/// The key that key slot `slot` holds as `rd` answers its sixteen ECC rows: each
/// word's low 16 bits, little-endian, in hexadecimal.
pub open spec fn slot_key(rd: OtpReader, slot: int) -> Seq<char> {
    hex_lower(key_words_bytes(row_answers(rd, slot_rows(slot))))
}

/// The slot rows of `slot` are ECC rows of that slot.
proof fn lemma_slot_rows_range(slot: int)
    requires
        0 <= slot < 4,
    ensures
        forall|i: int|
            0 <= i < 16 ==> (#[trigger] slot_rows(slot)[i]).1 && 0x80 + slot * 16 <= slot_rows(
                slot,
            )[i].0 < 0x80 + slot * 16 + 16,
{
}

proof fn lemma_scan_all_ok(f: Seq<char>, active: u32, rd: OtpReader, n: nat)
    requires
        n <= 4,
        forall|r: u16| 0x80 <= r < 0xc0 ==> (#[trigger] rd(r, true)) is Ok,
    ensures
        scan_slots(f, active, rd, n).0 == Ok::<bool, Seq<char>>(
            exists|k: int|
                0 <= k < n && active & (1u32 << (k as u32)) != 0 && #[trigger] slot_key(rd, k) == f,
        ),
    decreases n,
{
    if n > 0 {
        lemma_scan_all_ok(f, active, rd, (n - 1) as nat);
        let slot = n - 1;
        let p = |k: int| active & (1u32 << (k as u32)) != 0 && slot_key(rd, k) == f;
        if active & (1u32 << (slot as u32)) != 0 {
            lemma_slot_rows_range(slot);
            assert forall|i: int| 0 <= i < 16 implies (#[trigger] rd(
                slot_rows(slot)[i].0,
                slot_rows(slot)[i].1,
            )) is Ok by {
                assert(slot_rows(slot)[i].1);
            }
            lemma_read_rows_all_ok(slot_rows(slot), rd, 16);
            assert(slot_rows(slot).take(16) =~= slot_rows(slot));
        }
        let before = exists|k: int|
            0 <= k < n - 1 && active & (1u32 << (k as u32)) != 0 && #[trigger] slot_key(rd, k) == f;
        let after = exists|k: int|
            0 <= k < n && active & (1u32 << (k as u32)) != 0 && #[trigger] slot_key(rd, k) == f;
        if after {
            let k = choose|k: int|
                0 <= k < n && active & (1u32 << (k as u32)) != 0 && #[trigger] slot_key(rd, k) == f;
            if k < n - 1 {
                assert(before);
            }
        }
        if active & (1u32 << (slot as u32)) != 0 && slot_key(rd, slot) == f {
            assert(after);
        }
    }
}

proof fn lemma_scan_ok_answers(f: Seq<char>, active: u32, rd: OtpReader, n: nat)
    requires
        n <= 4,
    ensures
        scan_slots(f, active, rd, n).0 is Ok ==> forall|k: int|
            0 <= k < scan_slots(f, active, rd, n).1.len() ==> (#[trigger] rd(
                scan_slots(f, active, rd, n).1[k].0,
                scan_slots(f, active, rd, n).1[k].1,
            )) is Ok,
    decreases n,
{
    if n > 0 {
        lemma_scan_ok_answers(f, active, rd, (n - 1) as nat);
        let slot = n - 1;
        lemma_read_rows_ok_answers(slot_rows(slot), rd, 16);
        let q = scan_slots(f, active, rd, (n - 1) as nat).1;
        let qq = read_rows(slot_rows(slot), rd, 16).1;
        let whole = scan_slots(f, active, rd, n).1;
        if scan_slots(f, active, rd, n).0 is Ok && active & (1u32 << (slot as u32)) != 0 {
            assert(whole == q + qq);
            assert forall|k: int| 0 <= k < whole.len() implies (#[trigger] rd(
                whole[k].0,
                whole[k].1,
            )) is Ok by {
                if k < q.len() {
                    assert(whole[k] == q[k]);
                } else {
                    assert(whole[k] == qq[k - q.len()]);
                }
            }
        }
    }
}

/// The trusted key is looked up only for a given fingerprint, by reading nothing
/// otherwise. When every read succeeds it is the fingerprint exactly when a slot
/// that the vote (two of three) over the flag rows marks valid and not revoked holds
/// that key; any failed read makes the lookup fail.
pub proof fn law_trusted_key_is_an_active_slot_holding_it(fp: Option<Seq<char>>, rd: OtpReader)
    ensures
        fp is None ==> spec_trusted_boot_key(fp, rd).0 == Ok::<Option<Seq<char>>, Seq<char>>(None)
            && spec_trusted_boot_key(fp, rd).1.len() == 0,
        fp is Some && (forall|r: u16, e: bool| key_lookup_row(r, e) ==> (#[trigger] rd(r, e)) is Ok)
            ==> spec_trusted_boot_key(fp, rd).0 == if exists|k: int|
            0 <= k < 4 && trusted_mask(spec_vote(row_answers(rd, flag_rows()), 2)) & (1u32 << (
            k as u32)) != 0 && #[trigger] slot_key(rd, k) == fp->0 {
            Ok::<Option<Seq<char>>, Seq<char>>(fp)
        } else {
            Ok::<Option<Seq<char>>, Seq<char>>(None)
        },
        (exists|k: int|
            0 <= k < spec_trusted_boot_key(fp, rd).1.len() && (#[trigger] rd(
                spec_trusted_boot_key(fp, rd).1[k].0,
                spec_trusted_boot_key(fp, rd).1[k].1,
            )) is Err) ==> spec_trusted_boot_key(fp, rd).0 is Err,
{
    if let Some(f) = fp {
        lemma_read_rows_prefix(flag_rows(), rd, 3);
        lemma_read_rows_ok_answers(flag_rows(), rd, 3);
        let q = read_rows(flag_rows(), rd, 3).1;
        if forall|r: u16, e: bool| key_lookup_row(r, e) ==> (#[trigger] rd(r, e)) is Ok {
            assert forall|k: int| 0 <= k < 3 implies (#[trigger] rd(
                flag_rows()[k].0,
                flag_rows()[k].1,
            )) is Ok by {
                assert(key_lookup_row(flag_rows()[k].0, flag_rows()[k].1));
            }
            lemma_read_rows_all_ok(flag_rows(), rd, 3);
            assert(flag_rows().take(3) =~= flag_rows());
            assert forall|r: u16| 0x80 <= r < 0xc0 implies (#[trigger] rd(r, true)) is Ok by {
                assert(key_lookup_row(r, true));
            }
            lemma_scan_all_ok(f, trusted_mask(spec_vote(row_answers(rd, flag_rows()), 2)), rd, 4);
        }
        if let Ok(fl) = read_rows(flag_rows(), rd, 3).0 {
            let active = trusted_mask(spec_vote(fl, 2));
            lemma_scan_ok_answers(f, active, rd, 4);
            let sq = scan_slots(f, active, rd, 4).1;
            let whole = spec_trusted_boot_key(fp, rd).1;
            if spec_trusted_boot_key(fp, rd).0 is Ok {
                assert(whole == q + sq);
                assert forall|k: int| 0 <= k < whole.len() implies (#[trigger] rd(
                    whole[k].0,
                    whole[k].1,
                )) is Ok by {
                    if k < q.len() {
                        assert(whole[k] == q[k]);
                    } else {
                        assert(whole[k] == sq[k - q.len()]);
                    }
                }
            }
        }
    }
}

/// With every slot row readable, slots `0..n` read as the keys they hold.
proof fn lemma_slots_read_all_ok(rd: OtpReader, n: nat)
    requires
        n <= 4,
        forall|r: u16| 0x80 <= r < 0xc0 ==> (#[trigger] rd(r, true)) is Ok,
    ensures
        slots_read(rd, n).0.len() == n,
        forall|k: int| 0 <= k < n ==> #[trigger] slots_read(rd, n).0[k] == Some(slot_key(rd, k)),
    decreases n,
{
    if n > 0 {
        lemma_slots_read_all_ok(rd, (n - 1) as nat);
        let slot = n - 1;
        lemma_slot_rows_range(slot);
        assert forall|i: int| 0 <= i < 16 implies (#[trigger] rd(
            slot_rows(slot)[i].0,
            slot_rows(slot)[i].1,
        )) is Ok by {
            assert(slot_rows(slot)[i].1);
        }
        lemma_read_rows_all_ok(slot_rows(slot), rd, 16);
        assert(slot_rows(slot).take(16) =~= slot_rows(slot));
        let f = slots_read(rd, (n - 1) as nat).0;
        assert forall|k: int| 0 <= k < n implies #[trigger] slots_read(rd, n).0[k] == Some(
            slot_key(rd, k),
        ) by {
            if k < n - 1 {
                assert(slots_read(rd, n).0[k] == f[k]);
            }
        }
    }
}

/// On a board whose rows all read, the state holds each row as read: the critical
/// rows `0x40..0x48`, the flag rows `0x4B..0x4E`, the boot-lock rows `0xF83` and
/// `0xF85`, the access-key rows `0xF82` and `0xF84` (all raw), and for each of the
/// four slots the key its sixteen ECC rows hold, the same key the trusted-key lookup
/// compares.
pub proof fn law_state_holds_each_row_as_read(rd: OtpReader)
    requires
        forall|r: u16, e: bool| (#[trigger] rd(r, e)) is Ok,
    ensures
        spec_read_state(rd).0 is Ok,
        ({
            let s = spec_read_state(rd).0->Ok_0;
            &&& s.critical.len() == 8
            &&& forall|i: int| 0 <= i < 8 ==> #[trigger] s.critical[i] == rd((0x40 + i) as u16, false)->Ok_0
            &&& s.flags.len() == 3
            &&& forall|i: int| 0 <= i < 3 ==> #[trigger] s.flags[i] == rd((0x4b + i) as u16, false)->Ok_0
            &&& s.locks == seq![rd(0xf83, false)->Ok_0, rd(0xf85, false)->Ok_0]
            &&& s.key_locks == seq![rd(0xf82, false)->Ok_0, rd(0xf84, false)->Ok_0]
            &&& s.fps.len() == 4
            &&& forall|k: int| 0 <= k < 4 ==> #[trigger] s.fps[k] == Some(slot_key(rd, k))
        }),
{
    let rows = state_row_list();
    assert(rows.len() == 15);
    lemma_read_rows_all_ok(rows, rd, 15);
    assert(rows.take(15) =~= rows);
    lemma_slots_read_all_ok(rd, 4);
    let v = row_answers(rd, rows);
    let s = spec_read_state(rd).0->Ok_0;
    assert(s.locks =~= seq![rd(0xf83, false)->Ok_0, rd(0xf85, false)->Ok_0]);
    assert(s.key_locks =~= seq![rd(0xf82, false)->Ok_0, rd(0xf84, false)->Ok_0]);
}

} // verus!
